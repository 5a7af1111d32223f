use vstd::prelude::*;

verus! {

/// The type tag of a column.
#[derive(PartialEq, Eq, Structural, Clone, Copy, Debug)]
pub enum Kind {
    Int32,
    Int64,
    Float64,
    Category,
}

/// The mathematical content of a column: its type tag and its cells, each
/// cell read as an integer (a float cell as its bit pattern, a category cell
/// as its symbol code).
pub struct ColumnModel {
    pub kind: Kind,
    pub cells: Seq<int>,
}

/// A homogeneous column of values.
///
/// `Float64` holds IEEE-754 binary64 bit patterns. `Category` holds codes of
/// symbols of a small closed alphabet, numbered in the alphabet's order, so
/// that the order of the codes is the order of the symbols.
#[derive(Clone, Debug, PartialEq, Eq)]
pub enum Column {
    Int32(Vec<i32>),
    Int64(Vec<i64>),
    Float64(Vec<u64>),
    Category(Vec<u8>),
}

impl View for Column {
    type V = ColumnModel;

    open spec fn view(&self) -> ColumnModel {
        match self {
            Column::Int32(v) => ColumnModel { kind: Kind::Int32, cells: v@.map_values(|x: i32| x as int) },
            Column::Int64(v) => ColumnModel { kind: Kind::Int64, cells: v@.map_values(|x: i64| x as int) },
            Column::Float64(v) => ColumnModel { kind: Kind::Float64, cells: v@.map_values(|x: u64| x as int) },
            Column::Category(v) => ColumnModel { kind: Kind::Category, cells: v@.map_values(|x: u8| x as int) },
        }
    }
}

pub const SIGN_BIT: u64 = 0x8000_0000_0000_0000;

/// The place of a binary64 bit pattern in the IEEE-754 total order, as an
/// unsigned key: negative patterns are reversed below all non-negative ones.
pub open spec fn float_order_key(bits: int) -> int {
    if bits >= SIGN_BIT as int {
        0xFFFF_FFFF_FFFF_FFFF - bits
    } else {
        bits + SIGN_BIT as int
    }
}

/// The key by which a cell of a column of kind `k` is ordered.
pub open spec fn order_key(k: Kind, cell: int) -> int {
    if k == Kind::Float64 {
        float_order_key(cell)
    } else {
        cell
    }
}

/// The cell that stands where a value is missing: the least value of each
/// integer type, the canonical quiet NaN, and the code 255 for categories.
pub open spec fn missing_cell(k: Kind) -> int {
    match k {
        Kind::Int32 => i32::MIN as int,
        Kind::Int64 => i64::MIN as int,
        Kind::Float64 => 0x7FF8_0000_0000_0000,
        Kind::Category => 255,
    }
}

/// The column whose row `j` is row `idx[j]` of `c`.
pub open spec fn gather_model(c: ColumnModel, idx: Seq<int>) -> ColumnModel {
    ColumnModel { kind: c.kind, cells: idx.map_values(|i: int| c.cells[i]) }
}

/// The column whose row `j` is row `idx[j]` of `c`, or the missing cell where
/// `idx[j]` is `None`.
pub open spec fn gather_or_missing_model(c: ColumnModel, idx: Seq<Option<int>>) -> ColumnModel {
    ColumnModel {
        kind: c.kind,
        cells: idx.map_values(
            |o: Option<int>|
                match o {
                    Some(i) => c.cells[i],
                    None => missing_cell(c.kind),
                },
        ),
    }
}

pub open spec fn usize_seq_to_int(s: Seq<usize>) -> Seq<int> {
    s.map_values(|i: usize| i as int)
}

pub open spec fn opt_to_int(o: Option<usize>) -> Option<int> {
    match o {
        Some(i) => Some(i as int),
        None => None,
    }
}

pub open spec fn opt_seq_to_int(s: Seq<Option<usize>>) -> Seq<Option<int>> {
    s.map_values(|o: Option<usize>| opt_to_int(o))
}

fn gather_vec<T: Copy>(v: &Vec<T>, idx: &Vec<usize>) -> (r: Vec<T>)
    requires
        forall|j: int| 0 <= j < idx@.len() ==> idx@[j] < v@.len(),
    ensures
        r@ == idx@.map_values(|i: usize| v@[i as int]),
{
    let mut r: Vec<T> = Vec::with_capacity(idx.len());
    let mut j: usize = 0;
    while j < idx.len()
        invariant
            j <= idx@.len(),
            forall|k: int| 0 <= k < idx@.len() ==> idx@[k] < v@.len(),
            r@ =~= idx@.subrange(0, j as int).map_values(|i: usize| v@[i as int]),
        decreases idx@.len() - j,
    {
        r.push(v[idx[j]]);
        j = j + 1;
        assert(r@ =~= idx@.subrange(0, j as int).map_values(|i: usize| v@[i as int]));
    }
    assert(idx@.subrange(0, idx@.len() as int) =~= idx@);
    r
}

pub open spec fn pick_or<T>(v: Seq<T>, o: Option<usize>, missing: T) -> T {
    match o {
        Some(i) => v[i as int],
        None => missing,
    }
}

fn gather_or_vec<T: Copy>(v: &Vec<T>, idx: &Vec<Option<usize>>, missing: T) -> (r: Vec<T>)
    requires
        forall|j: int| 0 <= j < idx@.len() && idx@[j] is Some ==> idx@[j]->0 < v@.len(),
    ensures
        r@ == idx@.map_values(|o: Option<usize>| pick_or(v@, o, missing)),
{
    let mut r: Vec<T> = Vec::with_capacity(idx.len());
    let mut j: usize = 0;
    while j < idx.len()
        invariant
            j <= idx@.len(),
            forall|k: int| 0 <= k < idx@.len() && idx@[k] is Some ==> idx@[k]->0 < v@.len(),
            r@ =~= idx@.subrange(0, j as int).map_values(|o: Option<usize>| pick_or(v@, o, missing)),
        decreases idx@.len() - j,
    {
        match idx[j] {
            Some(i) => r.push(v[i]),
            None => r.push(missing),
        }
        j = j + 1;
        assert(r@ =~= idx@.subrange(0, j as int).map_values(|o: Option<usize>| pick_or(v@, o, missing)));
    }
    assert(idx@.subrange(0, idx@.len() as int) =~= idx@);
    r
}

impl Column {
    /// The number of cells.
    pub fn len(&self) -> (r: usize)
        ensures
            r == self@.cells.len(),
    {
        match self {
            Column::Int32(v) => v.len(),
            Column::Int64(v) => v.len(),
            Column::Float64(v) => v.len(),
            Column::Category(v) => v.len(),
        }
    }

    /// The type tag.
    pub fn kind(&self) -> (r: Kind)
        ensures
            r == self@.kind,
    {
        match self {
            Column::Int32(_) => Kind::Int32,
            Column::Int64(_) => Kind::Int64,
            Column::Float64(_) => Kind::Float64,
            Column::Category(_) => Kind::Category,
        }
    }

    /// Cell `i`, read as an integer.
    pub fn cell(&self, i: usize) -> (r: i128)
        requires
            i < self@.cells.len(),
        ensures
            r == self@.cells[i as int],
            self@.kind == Kind::Float64 ==> 0 <= r < 0x1_0000_0000_0000_0000,
    {
        match self {
            Column::Int32(v) => v[i] as i128,
            Column::Int64(v) => v[i] as i128,
            Column::Float64(v) => v[i] as i128,
            Column::Category(v) => v[i] as i128,
        }
    }

    /// The ordering key of cell `i`.
    pub fn order_key_at(&self, i: usize) -> (r: i128)
        requires
            i < self@.cells.len(),
        ensures
            r == order_key(self@.kind, self@.cells[i as int]),
    {
        match self {
            Column::Float64(v) => {
                let b = v[i];
                if b >= SIGN_BIT {
                    (0xFFFF_FFFF_FFFF_FFFFu64 - b) as i128
                } else {
                    (b + SIGN_BIT) as i128
                }
            },
            Column::Int32(v) => v[i] as i128,
            Column::Int64(v) => v[i] as i128,
            Column::Category(v) => v[i] as i128,
        }
    }

    /// A copy of this column.
    pub fn duplicate(&self) -> (r: Column)
        ensures
            r@ == self@,
    {
        match self {
            Column::Int32(v) => Column::Int32(v.clone()),
            Column::Int64(v) => Column::Int64(v.clone()),
            Column::Float64(v) => Column::Float64(v.clone()),
            Column::Category(v) => Column::Category(v.clone()),
        }
    }

    /// The column whose row `j` is row `idx[j]` of this one.
    pub fn gather(&self, idx: &Vec<usize>) -> (r: Column)
        requires
            forall|j: int| 0 <= j < idx@.len() ==> idx@[j] < self@.cells.len(),
        ensures
            r@ == gather_model(self@, usize_seq_to_int(idx@)),
    {
        let r = match self {
            Column::Int32(v) => Column::Int32(gather_vec(v, idx)),
            Column::Int64(v) => Column::Int64(gather_vec(v, idx)),
            Column::Float64(v) => Column::Float64(gather_vec(v, idx)),
            Column::Category(v) => Column::Category(gather_vec(v, idx)),
        };
        assert(r@.cells =~= gather_model(self@, usize_seq_to_int(idx@)).cells);
        r
    }

    /// The column whose row `j` is row `idx[j]` of this one, or the missing
    /// cell of this column's kind where `idx[j]` is `None`.
    pub fn gather_or_missing(&self, idx: &Vec<Option<usize>>) -> (r: Column)
        requires
            forall|j: int| 0 <= j < idx@.len() && idx@[j] is Some ==> idx@[j]->0 < self@.cells.len(),
        ensures
            r@ == gather_or_missing_model(self@, opt_seq_to_int(idx@)),
    {
        let r = match self {
            Column::Int32(v) => Column::Int32(gather_or_vec(v, idx, i32::MIN)),
            Column::Int64(v) => Column::Int64(gather_or_vec(v, idx, i64::MIN)),
            Column::Float64(v) => Column::Float64(gather_or_vec(v, idx, 0x7FF8_0000_0000_0000u64)),
            Column::Category(v) => Column::Category(gather_or_vec(v, idx, 255u8)),
        };
        assert(r@.cells =~= gather_or_missing_model(self@, opt_seq_to_int(idx@)).cells);
        r
    }
}

} // verus!

verus! {

/// The numbers of `[0, n)` that pass `pred`, ascending.
pub open spec fn range_filter(n: nat, pred: spec_fn(int) -> bool) -> Seq<int> {
    Seq::new(n, |i: int| i).filter(pred)
}

/// Growing a range by one row extends its filter by that row exactly when the
/// row passes.
pub proof fn lemma_range_filter_step(n: nat, pred: spec_fn(int) -> bool)
    ensures
        range_filter(n + 1, pred) == if pred(n as int) {
            range_filter(n, pred).push(n as int)
        } else {
            range_filter(n, pred)
        },
{
    let s = Seq::new(n + 1, |i: int| i);
    assert(s.drop_last() =~= Seq::new(n, |i: int| i));
    reveal_with_fuel(Seq::filter, 1);
}

/// Every element of a filtered range is in the range and passes.
pub proof fn lemma_range_filter_facts(n: nat, pred: spec_fn(int) -> bool)
    ensures
        forall|j: int| 0 <= j < range_filter(n, pred).len() ==>
            0 <= #[trigger] range_filter(n, pred)[j] < n
            && pred(range_filter(n, pred)[j]),
    decreases n,
{
    if n > 0 {
        lemma_range_filter_facts((n - 1) as nat, pred);
        lemma_range_filter_step((n - 1) as nat, pred);
    }
}

} // verus!
