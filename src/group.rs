use vstd::prelude::*;
use std::collections::HashMap;
use crate::column::{Column, ColumnModel, Kind, gather_model, range_filter, usize_seq_to_int};
use crate::table::{Table, TableError, TableModel};

verus! {

broadcast use vstd::std_specs::hash::group_hash_axioms;

/// Whether row `i` of `c` is the first row holding its value.
pub open spec fn first_of_key(c: ColumnModel) -> spec_fn(int) -> bool {
    |i: int| forall|j: int| 0 <= j < i ==> c.cells[j] != c.cells[i]
}

/// The first row of each distinct value of `c`, in order of first occurrence.
pub open spec fn group_firsts(c: ColumnModel) -> Seq<int> {
    range_filter(c.cells.len(), first_of_key(c))
}

/// The sum of `v` over the first `n` rows where `c` holds `key`.
pub open spec fn group_sum(c: ColumnModel, v: ColumnModel, key: int, n: nat) -> int
    decreases n,
{
    if n == 0 {
        0
    } else {
        group_sum(c, v, key, (n - 1) as nat) + if c.cells[n - 1] == key {
            v.cells[n - 1]
        } else {
            0
        }
    }
}

/// The number of the first `n` rows where `c` holds `key`.
pub open spec fn group_count(c: ColumnModel, key: int, n: nat) -> int
    decreases n,
{
    if n == 0 {
        0
    } else {
        group_count(c, key, (n - 1) as nat) + if c.cells[n - 1] == key {
            1int
        } else {
            0
        }
    }
}

/// The least (`least`) or greatest value of `v` over the first `n` rows
/// where `c` holds `key`; before any such row, the value `start`.
pub open spec fn group_extreme(c: ColumnModel, v: ColumnModel, key: int, n: nat, least: bool, start: int) -> int
    decreases n,
{
    if n == 0 {
        start
    } else {
        let prev = group_extreme(c, v, key, (n - 1) as nat, least, start);
        let x = v.cells[n - 1];
        if c.cells[n - 1] != key {
            prev
        } else if least {
            if x < prev {
                x
            } else {
                prev
            }
        } else {
            if x > prev {
                x
            } else {
                prev
            }
        }
    }
}

/// The start value of a running minimum or maximum: above or below every
/// `Int32` value.
pub open spec fn extreme_start(least: bool) -> int {
    if least {
        i32::MAX + 1
    } else {
        i32::MIN - 1
    }
}

/// An aggregate computed per group.
#[derive(PartialEq, Eq, Structural, Clone, Copy, Debug)]
pub enum AggKind {
    /// The sum of an `Int32` column, as `Int64`.
    Sum,
    /// The number of rows, as `Int64`.
    Count,
    /// The least value of an `Int32` column, as `Int64`.
    Min,
    /// The greatest value of an `Int32` column, as `Int64`.
    Max,
}

/// One output column of a grouping: `kind` of column `source`, named `output`.
#[derive(Clone, Debug)]
pub struct Aggregation {
    pub source: String,
    pub kind: AggKind,
    pub output: String,
}

/// The distinct values of a key column and the group of each row.
pub struct Grouping {
    /// The first row of each group, in order of first occurrence.
    pub firsts: Vec<usize>,
    /// The group of each row.
    pub group_of: Vec<usize>,
}

/// `g` groups `c` by value: its groups are the first occurrences in order,
/// and each row's group holds that row's value.
pub open spec fn is_grouping(c: ColumnModel, firsts: Seq<usize>, group_of: Seq<usize>) -> bool {
    &&& usize_seq_to_int(firsts) == group_firsts(c)
    &&& group_of.len() == c.cells.len()
    &&& forall|r: int| 0 <= r < group_of.len() ==> #[trigger] group_of[r] < firsts.len()
        && c.cells[firsts[group_of[r] as int] as int] == c.cells[r]
    &&& forall|g: int| 0 <= g < firsts.len() ==> #[trigger] firsts[g] < c.cells.len()
    &&& forall|g1: int, g2: int| 0 <= g1 < g2 < firsts.len() ==>
        c.cells[#[trigger] firsts[g1] as int] != c.cells[#[trigger] firsts[g2] as int]
}

/// Groups the rows of `c` by value, with one hash lookup per row.
pub fn group_column(c: &Column) -> (r: Grouping)
    ensures
        is_grouping(c@, r.firsts@, r.group_of@),
{
    let ghost m = c@;
    let n = c.len();
    let mut index: HashMap<i128, usize> = HashMap::new();
    let mut firsts: Vec<usize> = Vec::new();
    let mut group_of: Vec<usize> = Vec::with_capacity(n);
    let mut i: usize = 0;
    while i < n
        invariant
            m == c@,
            n == m.cells.len(),
            i <= n,
            usize_seq_to_int(firsts@) == range_filter(i as nat, first_of_key(m)),
            group_of@.len() == i,
            forall|r: int| 0 <= r < i ==> #[trigger] group_of@[r] < firsts@.len()
                && m.cells[firsts@[group_of@[r] as int] as int] == m.cells[r],
            forall|r: int| 0 <= r < i ==> index@.contains_key(#[trigger] m.cells[r] as i128),
            forall|key: i128| #[trigger] index@.contains_key(key) ==> index@[key] < firsts@.len()
                && m.cells[firsts@[index@[key] as int] as int] == key as int,
            forall|g: int| 0 <= g < firsts@.len() ==> #[trigger] firsts@[g] < i
                && index@.contains_key(m.cells[firsts@[g] as int] as i128)
                && index@[m.cells[firsts@[g] as int] as i128] == g,
        decreases n - i,
    {
        let key = c.cell(i);
        proof {
            crate::column::lemma_range_filter_step(i as nat, first_of_key(m));
        }
        match index.get(&key) {
            Some(g) => {
                let g = *g;
                assert(!first_of_key(m)(i as int)) by {
                    let r = firsts@[g as int] as int;
                    assert(m.cells[r] == m.cells[i as int]);
                }
                group_of.push(g);
            },
            None => {
                assert(first_of_key(m)(i as int)) by {
                    assert forall|j: int| 0 <= j < i implies m.cells[j] != m.cells[i as int] by {
                        assert(index@.contains_key(m.cells[j] as i128));
                    }
                }
                let g = firsts.len();
                index.insert(key, g);
                firsts.push(i);
                group_of.push(g);
                assert(usize_seq_to_int(firsts@) =~= range_filter(i as nat, first_of_key(m)).push(i as int));
            },
        }
        i = i + 1;
    }
    let r = Grouping { firsts, group_of };
    assert forall|g1: int, g2: int| 0 <= g1 < g2 < r.firsts@.len() implies
        m.cells[#[trigger] r.firsts@[g1] as int] != m.cells[#[trigger] r.firsts@[g2] as int] by {
        assert(index@[m.cells[r.firsts@[g1] as int] as i128] == g1);
        assert(index@[m.cells[r.firsts@[g2] as int] as i128] == g2);
    }
    r
}

proof fn lemma_group_sum_bounds(c: ColumnModel, v: ColumnModel, key: int, n: nat)
    requires
        n <= v.cells.len(),
        forall|r: int| 0 <= r < v.cells.len() ==> i32::MIN <= #[trigger] v.cells[r] <= i32::MAX,
    ensures
        n * i32::MIN <= group_sum(c, v, key, n) <= n * i32::MAX,
    decreases n,
{
    if n > 0 {
        lemma_group_sum_bounds(c, v, key, (n - 1) as nat);
    }
}

/// The sums of `v` per group of `g`.
fn sums_by_group(v: &Vec<i32>, c: Ghost<ColumnModel>, g: &Grouping) -> (r: Vec<i64>)
    requires
        is_grouping(c@, g.firsts@, g.group_of@),
        v@.len() == c@.cells.len(),
        v@.len() <= 0x1_0000_0000,
    ensures
        r@.len() == g.firsts@.len(),
        forall|k: int| 0 <= k < r@.len() ==> #[trigger] r@[k] == group_sum(c@,
            Column::Int32(*v)@, c@.cells[g.firsts@[k] as int], v@.len() as nat),
{
    let ghost vm = Column::Int32(*v)@;
    let mut sums: Vec<i64> = Vec::with_capacity(g.firsts.len());
    let mut k: usize = 0;
    while k < g.firsts.len()
        invariant
            k <= g.firsts@.len(),
            sums@.len() == k,
            forall|q: int| 0 <= q < k ==> #[trigger] sums@[q] == 0,
        decreases g.firsts@.len() - k,
    {
        sums.push(0);
        k = k + 1;
    }
    let mut r: usize = 0;
    while r < v.len()
        invariant
            is_grouping(c@, g.firsts@, g.group_of@),
            v@.len() == c@.cells.len(),
            v@.len() <= 0x1_0000_0000,
            vm == Column::Int32(*v)@,
            r <= v@.len(),
            sums@.len() == g.firsts@.len(),
            forall|q: int| 0 <= q < sums@.len() ==> #[trigger] sums@[q] == group_sum(c@, vm, c@.cells[g.firsts@[q] as int], r as nat),
        decreases v@.len() - r,
    {
        let q = g.group_of[r];
        proof {
            assert forall|x: int| 0 <= x < vm.cells.len() implies i32::MIN <= #[trigger] vm.cells[x] <= i32::MAX by {
                assert(vm.cells[x] == v@[x] as int);
            }
            lemma_group_sum_bounds(c@, vm, c@.cells[g.firsts@[q as int] as int], r as nat);
            assert(vm.cells[r as int] == v@[r as int] as int);
        }
        let s = sums[q] + v[r] as i64;
        let ghost old_sums = sums@;
        sums.set(q, s);
        assert forall|p: int| 0 <= p < sums@.len() implies #[trigger] sums@[p] == group_sum(c@, vm, c@.cells[g.firsts@[p] as int], (r + 1) as nat) by {
            if p != q {
                assert(old_sums[p] == sums@[p]);
                if q < p {
                    assert(c@.cells[g.firsts@[q as int] as int] != c@.cells[g.firsts@[p] as int]);
                } else {
                    assert(c@.cells[g.firsts@[p] as int] != c@.cells[g.firsts@[q as int] as int]);
                }
            }
        }
        r = r + 1;
    }
    sums
}

/// The least (`least`) or greatest values of `v` per group of `g`.
fn extremes_by_group(v: &Vec<i32>, c: Ghost<ColumnModel>, g: &Grouping, least: bool) -> (r: Vec<i64>)
    requires
        is_grouping(c@, g.firsts@, g.group_of@),
        v@.len() == c@.cells.len(),
    ensures
        r@.len() == g.firsts@.len(),
        forall|k: int| 0 <= k < r@.len() ==> #[trigger] r@[k] == group_extreme(c@,
            Column::Int32(*v)@, c@.cells[g.firsts@[k] as int], v@.len() as nat, least, extreme_start(least)),
{
    let ghost vm = Column::Int32(*v)@;
    let start: i64 = if least {
        i32::MAX as i64 + 1
    } else {
        i32::MIN as i64 - 1
    };
    let mut acc: Vec<i64> = Vec::with_capacity(g.firsts.len());
    let mut k: usize = 0;
    while k < g.firsts.len()
        invariant
            k <= g.firsts@.len(),
            acc@.len() == k,
            start == extreme_start(least),
            forall|q: int| 0 <= q < k ==> #[trigger] acc@[q] == start,
        decreases g.firsts@.len() - k,
    {
        acc.push(start);
        k = k + 1;
    }
    let mut r: usize = 0;
    while r < v.len()
        invariant
            is_grouping(c@, g.firsts@, g.group_of@),
            v@.len() == c@.cells.len(),
            vm == Column::Int32(*v)@,
            start == extreme_start(least),
            r <= v@.len(),
            acc@.len() == g.firsts@.len(),
            forall|q: int| 0 <= q < acc@.len() ==> #[trigger] acc@[q] == group_extreme(c@, vm,
                c@.cells[g.firsts@[q] as int], r as nat, least, start as int),
        decreases v@.len() - r,
    {
        let q = g.group_of[r];
        let x = v[r] as i64;
        assert(vm.cells[r as int] == x as int);
        let cur = acc[q];
        let next = if least {
            if x < cur {
                x
            } else {
                cur
            }
        } else {
            if x > cur {
                x
            } else {
                cur
            }
        };
        let ghost old_acc = acc@;
        acc.set(q, next);
        assert forall|p: int| 0 <= p < acc@.len() implies #[trigger] acc@[p] == group_extreme(c@, vm,
            c@.cells[g.firsts@[p] as int], (r + 1) as nat, least, start as int) by {
            if p != q {
                assert(old_acc[p] == acc@[p]);
                if q < p {
                    assert(c@.cells[g.firsts@[q as int] as int] != c@.cells[g.firsts@[p] as int]);
                } else {
                    assert(c@.cells[g.firsts@[p] as int] != c@.cells[g.firsts@[q as int] as int]);
                }
            }
        }
        r = r + 1;
    }
    acc
}

/// The row counts per group of `g`.
fn counts_by_group(c: Ghost<ColumnModel>, g: &Grouping) -> (r: Vec<i64>)
    requires
        is_grouping(c@, g.firsts@, g.group_of@),
        c@.cells.len() <= 0x1_0000_0000,
    ensures
        r@.len() == g.firsts@.len(),
        forall|k: int| 0 <= k < r@.len() ==> #[trigger] r@[k] == group_count(c@, c@.cells[g.firsts@[k] as int], c@.cells.len()),
{
    let mut counts: Vec<i64> = Vec::with_capacity(g.firsts.len());
    let mut k: usize = 0;
    while k < g.firsts.len()
        invariant
            k <= g.firsts@.len(),
            counts@.len() == k,
            forall|q: int| 0 <= q < k ==> #[trigger] counts@[q] == 0,
        decreases g.firsts@.len() - k,
    {
        counts.push(0);
        k = k + 1;
    }
    let n = g.group_of.len();
    let mut r: usize = 0;
    while r < n
        invariant
            is_grouping(c@, g.firsts@, g.group_of@),
            n == c@.cells.len(),
            n <= 0x1_0000_0000,
            r <= n,
            counts@.len() == g.firsts@.len(),
            forall|q: int| 0 <= q < counts@.len() ==> #[trigger] counts@[q] == group_count(c@, c@.cells[g.firsts@[q] as int], r as nat),
            forall|q: int| 0 <= q < counts@.len() ==> 0 <= #[trigger] counts@[q] <= r,
        decreases n - r,
    {
        let q = g.group_of[r];
        let s = counts[q] + 1;
        let ghost old_counts = counts@;
        counts.set(q, s);
        assert forall|p: int| 0 <= p < counts@.len() implies #[trigger] counts@[p] == group_count(c@, c@.cells[g.firsts@[p] as int], (r + 1) as nat) by {
            if p != q {
                assert(old_counts[p] == counts@[p]);
                if q < p {
                    assert(c@.cells[g.firsts@[q as int] as int] != c@.cells[g.firsts@[p] as int]);
                } else {
                    assert(c@.cells[g.firsts@[p] as int] != c@.cells[g.firsts@[q as int] as int]);
                }
            }
        }
        r = r + 1;
    }
    counts
}

/// The cells of the output column of `agg` per group of `key`, for a source
/// column `v`.
pub open spec fn aggregate_cells(key: ColumnModel, v: ColumnModel, kind: AggKind) -> Seq<int> {
    group_firsts(key).map_values(
        |f: int|
            match kind {
                AggKind::Sum => group_sum(key, v, key.cells[f], key.cells.len()),
                AggKind::Count => group_count(key, key.cells[f], key.cells.len()),
                AggKind::Min => group_extreme(key, v, key.cells[f], key.cells.len(), true, extreme_start(true)),
                AggKind::Max => group_extreme(key, v, key.cells[f], key.cells.len(), false, extreme_start(false)),
            },
    )
}

/// Whether `kind` can aggregate a column of kind `k`.
pub open spec fn accepts(kind: AggKind, k: Kind) -> bool {
    kind == AggKind::Count || k == Kind::Int32
}

/// The grouped table: the key column's distinct values in order of first
/// occurrence, then one column per aggregation, of kind `Int64`.
pub open spec fn grouped_model(t: TableModel, key: Seq<char>, aggs: Seq<Aggregation>) -> TableModel {
    let kc = t.named(key);
    TableModel {
        names: seq![key] + aggs.map_values(|a: Aggregation| a.output@),
        columns: seq![gather_model(kc, group_firsts(kc))] + aggs.map_values(
            |a: Aggregation| ColumnModel { kind: Kind::Int64, cells: aggregate_cells(kc, t.named(a.source@), a.kind) },
        ),
        rows: group_firsts(kc).len(),
    }
}

/// Aggregation `k` can run: its source column exists and has a kind that it
/// accepts.
pub open spec fn agg_ok(t: TableModel, aggs: Seq<Aggregation>, k: int) -> bool {
    t.has(aggs[k].source@) && accepts(aggs[k].kind, t.named(aggs[k].source@).kind)
}

/// The aggregations before `k` all ran: each could run, and the key's name and
/// their output names are all different.
pub open spec fn ran_before(t: TableModel, key: Seq<char>, aggs: Seq<Aggregation>, k: int) -> bool {
    &&& forall|q: int| 0 <= q < k ==> #[trigger] agg_ok(t, aggs, q)
    &&& forall|p: int, q: int| 0 <= p < q < k + 1 ==>
        #[trigger] grouped_model(t, key, aggs).names[p] != #[trigger] grouped_model(t, key, aggs).names[q]
}

proof fn lemma_first_failure(t: TableModel, key: Seq<char>, aggs: Seq<Aggregation>, j: int)
    requires
        0 <= j < aggs.len(),
        forall|q: int| 0 <= q < j ==> #[trigger] agg_ok(t, aggs, q),
        !agg_ok(t, aggs, j),
    ensures
        forall|k: int| 0 <= k < aggs.len() && #[trigger] ran_before(t, key, aggs, k) && !agg_ok(t, aggs, k) ==> k == j,
{
    assert forall|k: int| 0 <= k < aggs.len() && #[trigger] ran_before(t, key, aggs, k) && !agg_ok(t, aggs, k) implies k == j by {
        if k < j {
            assert(agg_ok(t, aggs, k));
        }
        if k > j {
            assert(agg_ok(t, aggs, j));
        }
    }
}

/// Groups the rows of `t` by the column `key` and computes `aggs` per group.
/// The aggregations are taken in order; the first that cannot run decides the
/// error.
pub fn group_by_aggregate(t: &Table, key: &str, aggs: &Vec<Aggregation>) -> (r: Result<Table, TableError>)
    requires
        t@.wf(),
        t@.rows <= 0x1_0000_0000,
    ensures
        !t@.has(key@) ==> (r matches Err(TableError::ColumnNotFound(s)) && s@ == key@),
        r matches Err(TableError::ColumnNotFound(s)) ==> !t@.has(s@),
        r matches Err(TableError::TypeMismatch(e, a)) ==> e == Kind::Int32
            && exists|k: int| 0 <= k < aggs@.len() && #[trigger] aggs@[k].kind != AggKind::Count && t@.named(aggs@[k].source@).kind == a,
        (t@.has(key@) && forall|k: int| 0 <= k < aggs@.len() ==>
            t@.has(#[trigger] aggs@[k].source@) && accepts(aggs@[k].kind, t@.named(aggs@[k].source@).kind))
            ==> (r is Ok <==> grouped_model(t@, key@, aggs@).wf()),
        forall|k: int| 0 <= k < aggs@.len() && t@.has(key@) && ran_before(t@, key@, aggs@, k)
            && !t@.has(#[trigger] aggs@[k].source@) ==> (r matches Err(TableError::ColumnNotFound(s)) && s@ == aggs@[k].source@),
        forall|k: int| 0 <= k < aggs@.len() && t@.has(key@) && ran_before(t@, key@, aggs@, k)
            && t@.has(#[trigger] aggs@[k].source@) && !accepts(aggs@[k].kind, t@.named(aggs@[k].source@).kind)
            ==> r == Err::<Table, TableError>(TableError::TypeMismatch(Kind::Int32, t@.named(aggs@[k].source@).kind)),
        r matches Ok(out) ==> out@ == grouped_model(t@, key@, aggs@) && out@.wf(),
{
    let kc = match t.column(key) {
        Some(c) => c,
        None => return Err(TableError::ColumnNotFound(key.to_owned())),
    };
    let ghost km = kc@;
    assert(km.cells.len() == t@.rows);
    let g = group_column(kc);
    let mut out = Table::new(g.firsts.len());
    proof {
        crate::column::lemma_range_filter_facts(km.cells.len(), first_of_key(km));
    }
    let kcol = kc.gather(&g.firsts);
    let _ = out.push_column(key.to_owned(), kcol);
    let ghost model = grouped_model(t@, key@, aggs@);
    assert(out@.names =~= model.names.subrange(0, 1));
    assert(out@.columns =~= model.columns.subrange(0, 1));
    let mut k: usize = 0;
    while k < aggs.len()
        invariant
            t@.wf(),
            t@.rows <= 0x1_0000_0000,
            t@.has(key@),
            km == t@.named(key@),
            km.cells.len() == t@.rows,
            is_grouping(km, g.firsts@, g.group_of@),
            model == grouped_model(t@, key@, aggs@),
            k <= aggs@.len(),
            out@.wf(),
            out@.rows == g.firsts@.len(),
            out@.names == model.names.subrange(0, k + 1),
            out@.columns == model.columns.subrange(0, k + 1),
            forall|q: int| 0 <= q < k ==> #[trigger] agg_ok(t@, aggs@, q),
            forall|p: int, q: int| 0 <= p < q < k + 1 ==> model.names[p] != model.names[q],
        decreases aggs@.len() - k,
    {
        let a = &aggs[k];
        let src = match t.column(a.source.as_str()) {
            Some(c) => c,
            None => {
                proof {
                    lemma_first_failure(t@, key@, aggs@, k as int);
                }
                return Err(TableError::ColumnNotFound(a.source.clone()));
            },
        };
        assert(src@.cells.len() == t@.rows);
        let vals: Vec<i64> = match a.kind {
            AggKind::Sum => match src {
                Column::Int32(v) => sums_by_group(v, Ghost(km), &g),
                _ => {
                    proof {
                        lemma_first_failure(t@, key@, aggs@, k as int);
                    }
                    return Err(TableError::TypeMismatch(Kind::Int32, src.kind()));
                },
            },
            AggKind::Count => counts_by_group(Ghost(km), &g),
            AggKind::Min => match src {
                Column::Int32(v) => extremes_by_group(v, Ghost(km), &g, true),
                _ => {
                    proof {
                        lemma_first_failure(t@, key@, aggs@, k as int);
                    }
                    return Err(TableError::TypeMismatch(Kind::Int32, src.kind()));
                },
            },
            AggKind::Max => match src {
                Column::Int32(v) => extremes_by_group(v, Ghost(km), &g, false),
                _ => {
                    proof {
                        lemma_first_failure(t@, key@, aggs@, k as int);
                    }
                    return Err(TableError::TypeMismatch(Kind::Int32, src.kind()));
                },
            },
        };
        assert(agg_ok(t@, aggs@, k as int));
        let col = Column::Int64(vals);
        assert(col@.cells =~= aggregate_cells(km, t@.named(a.source@), a.kind));
        match out.push_column(a.output.clone(), col) {
            Ok(()) => {},
            Err(e) => {
                proof {
                    let p = out@.position(a.output@);
                    assert(model.names[p] == model.names[k + 1]);
                    assert(!model.wf());
                    assert forall|k2: int| 0 <= k2 < aggs@.len() && #[trigger] ran_before(t@, key@, aggs@, k2)
                        implies agg_ok(t@, aggs@, k2) by {
                        if k2 > k {
                            assert(model.names[p] != model.names[k + 1]);
                        } else if k2 < k {
                            assert(agg_ok(t@, aggs@, k2));
                        }
                    }
                }
                return Err(e);
            },
        }
        proof {
            assert forall|p: int, q: int| 0 <= p < q < k + 2 implies model.names[p] != model.names[q] by {
                if q == k + 1 {
                    assert(out@.names[p] == model.names[p]);
                }
            }
        }
        k = k + 1;
        assert(out@.names =~= model.names.subrange(0, k + 1));
        assert(out@.columns =~= model.columns.subrange(0, k + 1));
    }
    assert(out@.names =~= model.names);
    assert(out@.columns =~= model.columns);
    assert forall|k2: int| 0 <= k2 < aggs@.len() implies t@.has(#[trigger] aggs@[k2].source@)
        && accepts(aggs@[k2].kind, t@.named(aggs@[k2].source@).kind) by {
        assert(agg_ok(t@, aggs@, k2));
    }
    Ok(out)
}

} // verus!
