use vstd::prelude::*;
use crate::column::{Column, ColumnModel, Kind, SIGN_BIT, float_order_key, gather_model, usize_seq_to_int};
use crate::table::{Table, TableError, TableModel};

verus! {

/// A comparison of a cell against a fixed value.
#[derive(PartialEq, Eq, Structural, Clone, Copy, Debug)]
pub enum Cmp {
    Lt,
    Le,
    Gt,
    Ge,
    Eq,
    Ne,
}

/// A single value of one of the column types.
#[derive(PartialEq, Eq, Structural, Clone, Copy, Debug)]
pub enum Scalar {
    Int32(i32),
    Int64(i64),
    /// An IEEE-754 binary64 bit pattern.
    Float64(u64),
    /// A category symbol code.
    Category(u8),
}

impl Scalar {
    pub open spec fn kind_of(self) -> Kind {
        match self {
            Scalar::Int32(_) => Kind::Int32,
            Scalar::Int64(_) => Kind::Int64,
            Scalar::Float64(_) => Kind::Float64,
            Scalar::Category(_) => Kind::Category,
        }
    }

    pub open spec fn cell(self) -> int {
        match self {
            Scalar::Int32(x) => x as int,
            Scalar::Int64(x) => x as int,
            Scalar::Float64(x) => x as int,
            Scalar::Category(x) => x as int,
        }
    }

    pub fn kind(&self) -> (r: Kind)
        ensures
            r == self.kind_of(),
    {
        match self {
            Scalar::Int32(_) => Kind::Int32,
            Scalar::Int64(_) => Kind::Int64,
            Scalar::Float64(_) => Kind::Float64,
            Scalar::Category(_) => Kind::Category,
        }
    }

    /// The value read as an integer.
    pub fn cell_value(&self) -> (r: i128)
        ensures
            r == self.cell(),
            self.kind_of() == Kind::Float64 ==> 0 <= r < 0x1_0000_0000_0000_0000,
    {
        match self {
            Scalar::Int32(x) => *x as i128,
            Scalar::Int64(x) => *x as i128,
            Scalar::Float64(x) => *x as i128,
            Scalar::Category(x) => *x as i128,
        }
    }
}

pub open spec fn cmp_holds(op: Cmp, x: int, y: int) -> bool {
    match op {
        Cmp::Lt => x < y,
        Cmp::Le => x <= y,
        Cmp::Gt => x > y,
        Cmp::Ge => x >= y,
        Cmp::Eq => x == y,
        Cmp::Ne => x != y,
    }
}

fn cmp_eval(op: Cmp, x: i128, y: i128) -> (r: bool)
    ensures
        r == cmp_holds(op, x as int, y as int),
{
    match op {
        Cmp::Lt => x < y,
        Cmp::Le => x <= y,
        Cmp::Gt => x > y,
        Cmp::Ge => x >= y,
        Cmp::Eq => x == y,
        Cmp::Ne => x != y,
    }
}

/// A binary64 bit pattern without its sign bit.
pub open spec fn magnitude(b: int) -> int {
    if b >= SIGN_BIT as int {
        b - SIGN_BIT as int
    } else {
        b
    }
}

/// Whether a binary64 bit pattern is a NaN: every exponent bit set and a
/// nonzero fraction.
pub open spec fn is_nan_bits(b: int) -> bool {
    magnitude(b) > 0x7FF0_0000_0000_0000
}

/// The place of a non-NaN binary64 bit pattern in the order of the values it
/// stands for: the total order, with both zeros at one place.
pub open spec fn float_value_key(b: int) -> int {
    if magnitude(b) == 0 {
        SIGN_BIT as int
    } else {
        float_order_key(b)
    }
}

/// Whether cell `x` of a column of kind `k` passes `op` against `y`. Floats
/// compare as IEEE-754 does: a NaN passes only `Ne`, and the two zeros are
/// equal.
pub open spec fn cell_passes(k: Kind, op: Cmp, x: int, y: int) -> bool {
    if k == Kind::Float64 {
        if is_nan_bits(x) || is_nan_bits(y) {
            op == Cmp::Ne
        } else {
            cmp_holds(op, float_value_key(x), float_value_key(y))
        }
    } else {
        cmp_holds(op, x, y)
    }
}

fn cell_passes_exec(k: Kind, op: Cmp, x: i128, y: i128) -> (r: bool)
    requires
        k == Kind::Float64 ==> 0 <= x < 0x1_0000_0000_0000_0000 && 0 <= y < 0x1_0000_0000_0000_0000,
    ensures
        r == cell_passes(k, op, x as int, y as int),
{
    if k != Kind::Float64 {
        return cmp_eval(op, x, y);
    }
    let sign: i128 = SIGN_BIT as i128;
    let mx = if x >= sign { x - sign } else { x };
    let my = if y >= sign { y - sign } else { y };
    if mx > 0x7FF0_0000_0000_0000i128 || my > 0x7FF0_0000_0000_0000i128 {
        return match op {
            Cmp::Ne => true,
            _ => false,
        };
    }
    let kx = if mx == 0 { sign } else if x >= sign { 0xFFFF_FFFF_FFFF_FFFFi128 - x } else { x + sign };
    let ky = if my == 0 { sign } else if y >= sign { 0xFFFF_FFFF_FFFF_FFFFi128 - y } else { y + sign };
    cmp_eval(op, kx, ky)
}

/// Whether row `i` of column `c` passes the comparison `op` against `v`.
pub open spec fn passes(c: ColumnModel, op: Cmp, v: Scalar, i: int) -> bool {
    cell_passes(c.kind, op, c.cells[i], v.cell())
}

/// The rows of the first `n` of `c` that pass, in ascending order.
pub open spec fn kept_prefix(c: ColumnModel, op: Cmp, v: Scalar, n: nat) -> Seq<int> {
    Seq::new(n, |i: int| i).filter(|i: int| passes(c, op, v, i))
}

/// The rows of `c` that pass, in ascending order.
pub open spec fn kept(c: ColumnModel, op: Cmp, v: Scalar) -> Seq<int> {
    kept_prefix(c, op, v, c.cells.len())
}

/// How many of the first `n` rows of `c` pass.
pub open spec fn count_passing(c: ColumnModel, op: Cmp, v: Scalar, n: nat) -> nat
    decreases n,
{
    if n == 0 {
        0
    } else {
        count_passing(c, op, v, (n - 1) as nat) + if passes(c, op, v, n - 1) {
            1nat
        } else {
            0nat
        }
    }
}

/// The result of filtering `t` on the column `name`.
pub open spec fn filter_model(t: TableModel, name: Seq<char>, op: Cmp, v: Scalar) -> TableModel {
    t.select(kept(t.named(name), op, v))
}

proof fn lemma_kept_step(c: ColumnModel, op: Cmp, v: Scalar, n: nat)
    ensures
        kept_prefix(c, op, v, n + 1) == if passes(c, op, v, n as int) {
            kept_prefix(c, op, v, n).push(n as int)
        } else {
            kept_prefix(c, op, v, n)
        },
{
    let s = Seq::new(n + 1, |i: int| i);
    assert(s.drop_last() =~= Seq::new(n, |i: int| i));
    reveal_with_fuel(Seq::filter, 1);
}

proof fn lemma_kept_facts(c: ColumnModel, op: Cmp, v: Scalar, n: nat)
    ensures
        kept_prefix(c, op, v, n).len() == count_passing(c, op, v, n),
        forall|j: int| 0 <= j < kept_prefix(c, op, v, n).len() ==> 0 <= #[trigger] kept_prefix(c, op, v, n)[j] < n,
        forall|j: int| 0 <= j < kept_prefix(c, op, v, n).len() ==> passes(c, op, v, #[trigger] kept_prefix(c, op, v, n)[j]),
        forall|j1: int, j2: int| 0 <= j1 < j2 < kept_prefix(c, op, v, n).len() ==>
            #[trigger] kept_prefix(c, op, v, n)[j1] < #[trigger] kept_prefix(c, op, v, n)[j2],
        (forall|i: int| 0 <= i < n ==> passes(c, op, v, i)) ==> kept_prefix(c, op, v, n) == Seq::new(n, |i: int| i),
    decreases n,
{
    if n == 0 {
        assert(kept_prefix(c, op, v, 0) =~= Seq::<int>::empty());
        assert(Seq::new(0, |i: int| i) =~= Seq::<int>::empty());
    } else {
        let m = (n - 1) as nat;
        lemma_kept_facts(c, op, v, m);
        lemma_kept_step(c, op, v, m);
        if forall|i: int| 0 <= i < n ==> passes(c, op, v, i) {
            assert(passes(c, op, v, m as int));
            assert(kept_prefix(c, op, v, n) =~= Seq::new(n, |i: int| i));
        }
    }
}

/// Filtering keeps exactly the rows that pass, and only those: every row of
/// the result passes the comparison, the result has as many rows as the input
/// has passing rows, and the result's rows are input rows in their input
/// order, in every column.
pub proof fn law_filter_correct(t: TableModel, name: Seq<char>, op: Cmp, v: Scalar)
    requires
        t.wf(),
        t.has(name),
    ensures
        ({
            let r = filter_model(t, name, op, v);
            let c = t.named(name);
            let idx = kept(c, op, v);
            &&& r.wf()
            &&& r.names == t.names
            &&& r.rows == count_passing(c, op, v, t.rows)
            &&& forall|j: int| 0 <= j < r.rows ==> cell_passes(c.kind, op,
                #[trigger] r.named(name).cells[j], v.cell())
            &&& forall|j1: int, j2: int| 0 <= j1 < j2 < r.rows ==> #[trigger] idx[j1] < #[trigger] idx[j2]
            &&& forall|k: int, j: int| 0 <= k < r.columns.len() && 0 <= j < r.rows ==>
                #[trigger] r.columns[k].cells[j] == t.columns[k].cells[#[trigger] idx[j]]
        }),
{
    let c = t.named(name);
    let p = t.position(name);
    assert(c.cells.len() == t.rows);
    lemma_kept_facts(c, op, v, t.rows);
    let r = filter_model(t, name, op, v);
    let idx = kept(c, op, v);
    lemma_select_wf(t, idx);
    assert(r.named(name) == gather_model(c, idx));
    assert forall|j: int| 0 <= j < r.rows implies cell_passes(c.kind, op,
        #[trigger] r.named(name).cells[j], v.cell()) by {
        assert(passes(c, op, v, idx[j]));
    }
}

/// Selecting rows that exist keeps a table well formed.
pub proof fn lemma_select_wf(t: TableModel, idx: Seq<int>)
    requires
        t.wf(),
        forall|j: int| 0 <= j < idx.len() ==> 0 <= #[trigger] idx[j] < t.rows,
    ensures
        t.select(idx).wf(),
        t.select(idx).names == t.names,
        forall|name: Seq<char>| t.has(name) ==> #[trigger] t.select(idx).position(name) == t.position(name),
{
    let s = t.select(idx);
    assert forall|name: Seq<char>| t.has(name) implies #[trigger] s.position(name) == t.position(name) by {
        let p = t.position(name);
        crate::table::lemma_position(s, name, p);
    }
}

/// Filtering with a comparison that every row passes gives back the input
/// table, column for column and row for row.
pub proof fn law_filter_all_pass_is_identity(t: TableModel, name: Seq<char>, op: Cmp, v: Scalar)
    requires
        t.wf(),
        t.has(name),
        forall|i: int| 0 <= i < t.rows ==> passes(t.named(name), op, v, i),
    ensures
        filter_model(t, name, op, v) == t,
{
    let c = t.named(name);
    lemma_kept_facts(c, op, v, t.rows);
    let idx = kept(c, op, v);
    assert(idx == Seq::new(t.rows, |i: int| i));
    let r = filter_model(t, name, op, v);
    assert forall|k: int| 0 <= k < t.columns.len() implies #[trigger] r.columns[k] == t.columns[k] by {
        assert(t.columns[k].cells.len() == t.rows);
        assert(r.columns[k].cells =~= t.columns[k].cells);
    }
    assert(r.columns =~= t.columns);
}

/// Keeps the rows of `t` whose cell in column `name` passes the comparison
/// `op` against `v`, in their input order.
pub fn filter(t: &Table, name: &str, op: Cmp, v: Scalar) -> (r: Result<Table, TableError>)
    requires
        t@.wf(),
    ensures
        !t@.has(name@) ==> (r matches Err(TableError::ColumnNotFound(s)) && s@ == name@),
        t@.has(name@) && t@.named(name@).kind != v.kind_of() ==> r == Err::<Table, TableError>(
            TableError::TypeMismatch(v.kind_of(), t@.named(name@).kind),
        ),
        t@.has(name@) && t@.named(name@).kind == v.kind_of() ==> (r matches Ok(out) && out@ == filter_model(t@, name@, op, v)),
        r matches Ok(out) ==> out@.wf(),
{
    let col: &Column = match t.column(name) {
        Some(c) => c,
        None => return Err(TableError::ColumnNotFound(name.to_owned())),
    };
    let k = col.kind();
    let vk = v.kind();
    if k != vk {
        return Err(TableError::TypeMismatch(vk, k));
    }
    let ghost c = col@;
    let th = v.cell_value();
    let n = col.len();
    let mut idx: Vec<usize> = Vec::new();
    let mut i: usize = 0;
    while i < n
        invariant
            t@.wf(),
            c == col@,
            c.kind == v.kind_of(),
            k == c.kind,
            n == c.cells.len(),
            th == v.cell(),
            c.kind == Kind::Float64 ==> 0 <= th < 0x1_0000_0000_0000_0000,
            i <= n,
            usize_seq_to_int(idx@) == kept_prefix(c, op, v, i as nat),
            forall|j: int| 0 <= j < idx@.len() ==> idx@[j] < i,
        decreases n - i,
    {
        proof {
            lemma_kept_step(c, op, v, i as nat);
        }
        let x = col.cell(i);
        if cell_passes_exec(k, op, x, th) {
            idx.push(i);
            assert(usize_seq_to_int(idx@) =~= kept_prefix(c, op, v, i as nat).push(i as int));
        }
        i = i + 1;
    }
    assert(c.cells.len() == t@.rows);
    let out = t.select(&idx);
    Ok(out)
}

} // verus!
