use vstd::prelude::*;
use rand::rngs::StdRng;
use rand::{Rng, RngCore, SeedableRng};
use crate::column::{Column, ColumnModel, Kind};
use crate::table::{Table, TableModel};

verus! {

#[verifier::external_type_specification]
#[verifier::external_body]
pub struct ExStdRng(StdRng);

/// Relies on rand's `SeedableRng::seed_from_u64` for `StdRng`: a generator
/// whose stream is fixed by `seed`.
#[verifier::external_body]
fn seeded_rng(seed: u64) -> (r: StdRng) {
    StdRng::seed_from_u64(seed)
}

/// Relies on rand's `RngCore::next_u64` for `StdRng`: the next 64 bits of
/// the stream.
#[verifier::external_body]
fn next_word(rng: &mut StdRng) -> (r: u64) {
    rng.next_u64()
}

/// Relies on rand's `Rng::gen_range` on `usize`: a value of `[lo, hi)`; it
/// panics on an empty range, which `requires` rules out.
#[verifier::external_body]
fn draw_usize(rng: &mut StdRng, lo: usize, hi: usize) -> (r: usize)
    requires
        lo < hi,
    ensures
        lo <= r < hi,
{
    rng.gen_range(lo..hi)
}

/// Relies on rand's `Rng::gen_range` on `i32`: a value of `[lo, hi)`; it
/// panics on an empty range, which `requires` rules out.
#[verifier::external_body]
fn draw_i32(rng: &mut StdRng, lo: i32, hi: i32) -> (r: i32)
    requires
        lo < hi,
    ensures
        lo <= r < hi,
{
    rng.gen_range(lo..hi)
}

pub const HIDDEN_BIT: u64 = 0x10_0000_0000_0000;

pub const UNIT_STEPS: u64 = 0x20_0000_0000_0000;

/// Shifts a nonzero numerator left until its leading bit is the hidden bit of
/// a binary64 significand: the normalised numerator and the shift.
pub open spec fn normalise(m: nat, s: nat) -> (nat, nat)
    decreases 52 - s,
{
    if m == 0 || m >= HIDDEN_BIT || s >= 52 {
        (m, s)
    } else {
        normalise(2 * m, s + 1)
    }
}

pub open spec fn two_to(s: nat) -> nat
    decreases s,
{
    if s == 0 {
        1
    } else {
        2 * two_to((s - 1) as nat)
    }
}

/// The binary64 bit pattern of `k / 2^53`: zero for zero; otherwise the
/// exponent field `1022 - s` and the fraction field `k * 2^s - 2^52`, where
/// `s` shifts the leading bit of `k` to bit 52.
pub open spec fn unit_interval_bits(k: nat) -> int {
    if k == 0 {
        0
    } else {
        let (m, s) = normalise(k, 0);
        (1022 - s) * HIDDEN_BIT + (m - HIDDEN_BIT)
    }
}

/// The binary64 bit pattern of `k / 2^53`, a value of `[0, 1)` exactly.
pub fn unit_bits(k: u64) -> (r: u64)
    requires
        k < UNIT_STEPS,
    ensures
        r == unit_interval_bits(k as nat),
{
    if k == 0 {
        return 0;
    }
    let mut m: u64 = k;
    let mut s: u64 = 0;
    while m < HIDDEN_BIT && s < 52
        invariant
            1 <= m < UNIT_STEPS,
            s <= 52,
            normalise(m as nat, s as nat) == normalise(k as nat, 0),
            m as int >= two_to(s as nat),
        decreases 52 - s,
    {
        m = m * 2;
        s = s + 1;
    }
    proof {
        reveal_with_fuel(two_to, 53);
    }
    (1022 - s) * HIDDEN_BIT + (m - HIDDEN_BIT)
}

/// Whether `x` is the bit pattern of a multiple of `2^-53` in `[0, 1)`.
pub open spec fn is_unit_bits(x: int) -> bool {
    exists|k: nat| k < UNIT_STEPS && x == unit_interval_bits(k)
}

/// The float draw of rand's standard distribution: the top 53 bits of a word,
/// read as a multiple of `2^-53`.
fn draw_unit(rng: &mut StdRng) -> (r: u64)
    ensures
        is_unit_bits(r as int),
{
    let w = next_word(rng);
    let k = w >> 11u64;
    assert(k < UNIT_STEPS) by (bit_vector)
        requires
            k == w >> 11u64,
    ;
    let r = unit_bits(k);
    assert(is_unit_bits(r as int)) by {
        assert((k as nat) < UNIT_STEPS && r as int == unit_interval_bits(k as nat));
    }
    r
}

/// The shape every generated table has.
pub open spec fn generated_shape(t: TableModel, size: nat) -> bool {
    &&& t.wf()
    &&& t.rows == size
    &&& t.names == seq!["id"@, "a"@, "b"@, "c"@, "d"@]
    &&& t.columns[0].kind == Kind::Int32
    &&& t.columns[1].kind == Kind::Float64
    &&& t.columns[2].kind == Kind::Float64
    &&& t.columns[3].kind == Kind::Category
    &&& t.columns[4].kind == Kind::Int32
    &&& forall|i: int| 0 <= i < size ==> #[trigger] t.columns[0].cells[i] == i
    &&& forall|i: int| 0 <= i < size ==> is_unit_bits(#[trigger] t.columns[1].cells[i])
    &&& forall|i: int| 0 <= i < size ==> is_unit_bits(#[trigger] t.columns[2].cells[i])
    &&& forall|i: int| 0 <= i < size ==> 0 <= #[trigger] t.columns[3].cells[i] < 3
    &&& forall|i: int| 0 <= i < size ==> 1 <= #[trigger] t.columns[4].cells[i] < 100
}

fn unit_column(rng: &mut StdRng, size: usize) -> (r: Column)
    ensures
        r@.kind == Kind::Float64,
        r@.cells.len() == size,
        forall|i: int| 0 <= i < size ==> is_unit_bits(#[trigger] r@.cells[i]),
{
    let mut v: Vec<u64> = Vec::with_capacity(size);
    let mut i: usize = 0;
    while i < size
        invariant
            i <= size,
            v@.len() == i,
            forall|j: int| 0 <= j < i ==> is_unit_bits(#[trigger] v@[j] as int),
        decreases size - i,
    {
        let x = draw_unit(rng);
        v.push(x);
        i = i + 1;
    }
    let r = Column::Float64(v);
    assert forall|i: int| 0 <= i < size implies is_unit_bits(#[trigger] r@.cells[i]) by {
        assert(r@.cells[i] == v@[i] as int);
    }
    r
}

/// A synthetic table of `size` rows drawn from one stream seeded by `seed`:
/// `id` counts the rows from 0; `a` and `b` are floats of `[0, 1)`; `c` is a
/// category code of three symbols; `d` is an integer of `[1, 100)`. The draws
/// are taken all of `a` first, then all of `b`, then `c`, then `d`.
pub fn generate(size: usize, seed: u64) -> (r: Table)
    requires
        size <= 0x8000_0000,
    ensures
        generated_shape(r@, size as nat),
{
    let mut rng = seeded_rng(seed);
    let mut ids: Vec<i32> = Vec::with_capacity(size);
    let mut i: usize = 0;
    while i < size
        invariant
            i <= size <= 0x8000_0000,
            ids@.len() == i,
            forall|j: int| 0 <= j < i ==> #[trigger] ids@[j] == j,
        decreases size - i,
    {
        ids.push(i as i32);
        i = i + 1;
    }
    let a = unit_column(&mut rng, size);
    let b = unit_column(&mut rng, size);
    let mut cs: Vec<u8> = Vec::with_capacity(size);
    let mut i: usize = 0;
    while i < size
        invariant
            i <= size,
            cs@.len() == i,
            forall|j: int| 0 <= j < i ==> #[trigger] cs@[j] < 3,
        decreases size - i,
    {
        let x = draw_usize(&mut rng, 0, 3);
        cs.push(x as u8);
        i = i + 1;
    }
    let mut ds: Vec<i32> = Vec::with_capacity(size);
    let mut i: usize = 0;
    while i < size
        invariant
            i <= size,
            ds@.len() == i,
            forall|j: int| 0 <= j < i ==> 1 <= #[trigger] ds@[j] < 100,
        decreases size - i,
    {
        let x = draw_i32(&mut rng, 1, 100);
        ds.push(x);
        i = i + 1;
    }
    let id_col = Column::Int32(ids);
    let c_col = Column::Category(cs);
    let d_col = Column::Int32(ds);
    let ghost ga = a@;
    let ghost gb = b@;
    let ghost gid = id_col@;
    let ghost gc = c_col@;
    let ghost gd = d_col@;
    proof {
        reveal_strlit("id");
        reveal_strlit("a");
        reveal_strlit("b");
        reveal_strlit("c");
        reveal_strlit("d");
        let names = seq!["id"@, "a"@, "b"@, "c"@, "d"@];
        assert(names[0].len() == 2);
        assert forall|i: int, j: int| 1 <= i < j < 5 implies names[i] != names[j] by {
            assert(names[i][0] != names[j][0]);
        }
    }
    let mut t = Table::new(size);
    let _ = t.push_column("id".to_owned(), id_col);
    assert(t@.names =~= seq!["id"@]);
    assert(!t@.has("a"@));
    let _ = t.push_column("a".to_owned(), a);
    assert(t@.names =~= seq!["id"@, "a"@]);
    assert(!t@.has("b"@));
    let _ = t.push_column("b".to_owned(), b);
    assert(t@.names =~= seq!["id"@, "a"@, "b"@]);
    assert(!t@.has("c"@));
    let _ = t.push_column("c".to_owned(), c_col);
    assert(t@.names =~= seq!["id"@, "a"@, "b"@, "c"@]);
    assert(!t@.has("d"@));
    let _ = t.push_column("d".to_owned(), d_col);
    assert(t@.names =~= seq!["id"@, "a"@, "b"@, "c"@, "d"@]);
    assert(t@.columns =~= seq![gid, ga, gb, gc, gd]);
    assert forall|i: int| 0 <= i < size implies #[trigger] t@.columns[0].cells[i] == i by {
        assert(gid.cells[i] == ids@[i] as int);
    }
    assert forall|i: int| 0 <= i < size implies 0 <= #[trigger] t@.columns[3].cells[i] < 3 by {
        assert(gc.cells[i] == cs@[i] as int);
    }
    assert forall|i: int| 0 <= i < size implies 1 <= #[trigger] t@.columns[4].cells[i] < 100 by {
        assert(gd.cells[i] == ds@[i] as int);
    }
    t
}

} // verus!
