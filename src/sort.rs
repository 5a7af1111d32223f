use vstd::prelude::*;
use crate::column::order_key;
use crate::table::{Table, TableError, TableModel};

verus! {

/// One sort key: a column name and a direction.
#[derive(Clone, Debug)]
pub struct SortKey {
    pub name: String,
    pub descending: bool,
}

/// The comparison of rows `i` and `j` of `t` on the keys from the `k`-th on:
/// -1 if row `i` comes first, 1 if row `j` does, 0 if all those keys tie.
/// Key `k` reads column `pos[k]`, in reverse where `desc[k]` holds.
pub open spec fn key_cmp(t: TableModel, pos: Seq<int>, desc: Seq<bool>, i: int, j: int, k: nat) -> int
    decreases pos.len() - k,
{
    if k >= pos.len() {
        0
    } else {
        let c = t.columns[pos[k as int]];
        let x = order_key(c.kind, c.cells[i]);
        let y = order_key(c.kind, c.cells[j]);
        let d = if x < y {
            -1
        } else if x > y {
            1
        } else {
            0
        };
        let d = if desc[k as int] {
            -d
        } else {
            d
        };
        if d != 0 {
            d
        } else {
            key_cmp(t, pos, desc, i, j, k + 1)
        }
    }
}

/// Row `i` goes before row `j`: it compares first on the keys, or the keys tie
/// and it came first in the input.
pub open spec fn goes_before(t: TableModel, pos: Seq<int>, desc: Seq<bool>, i: int, j: int) -> bool {
    key_cmp(t, pos, desc, i, j, 0) < 0 || (key_cmp(t, pos, desc, i, j, 0) == 0 && i < j)
}

/// `p` lists every row of `t` once, in the order of `goes_before`.
pub open spec fn is_sorted_order(t: TableModel, pos: Seq<int>, desc: Seq<bool>, p: Seq<int>) -> bool {
    &&& p.len() == t.rows
    &&& forall|a: int| 0 <= a < p.len() ==> 0 <= #[trigger] p[a] < t.rows
    &&& forall|a: int, b: int| 0 <= a < b < p.len() ==> goes_before(t, pos, desc, #[trigger] p[a], #[trigger] p[b])
}

pub open spec fn key_positions(t: TableModel, keys: Seq<SortKey>) -> Seq<int> {
    keys.map_values(|k: SortKey| t.position(k.name@))
}

pub open spec fn key_directions(keys: Seq<SortKey>) -> Seq<bool> {
    keys.map_values(|k: SortKey| k.descending)
}

proof fn lemma_key_cmp(t: TableModel, pos: Seq<int>, desc: Seq<bool>, i: int, j: int, l: int, k: nat)
    ensures
        key_cmp(t, pos, desc, i, j, k) == -key_cmp(t, pos, desc, j, i, k),
        -1 <= key_cmp(t, pos, desc, i, j, k) <= 1,
        key_cmp(t, pos, desc, i, i, k) == 0,
        key_cmp(t, pos, desc, i, j, k) <= 0 && key_cmp(t, pos, desc, j, l, k) <= 0 ==> key_cmp(t, pos, desc, i, l, k) <= 0,
        key_cmp(t, pos, desc, i, j, k) < 0 && key_cmp(t, pos, desc, j, l, k) <= 0 ==> key_cmp(t, pos, desc, i, l, k) < 0,
        key_cmp(t, pos, desc, i, j, k) <= 0 && key_cmp(t, pos, desc, j, l, k) < 0 ==> key_cmp(t, pos, desc, i, l, k) < 0,
    decreases pos.len() - k,
{
    if k < pos.len() {
        lemma_key_cmp(t, pos, desc, i, j, l, k + 1);
    }
}

/// `goes_before` is a strict total order on rows.
proof fn lemma_goes_before(t: TableModel, pos: Seq<int>, desc: Seq<bool>, i: int, j: int, l: int)
    ensures
        !goes_before(t, pos, desc, i, i),
        i != j ==> (goes_before(t, pos, desc, i, j) <==> !goes_before(t, pos, desc, j, i)),
        goes_before(t, pos, desc, i, j) && goes_before(t, pos, desc, j, l) ==> goes_before(t, pos, desc, i, l),
{
    lemma_key_cmp(t, pos, desc, i, j, l, 0);
}

/// Among rows whose keys tie, sorting keeps the input order.
pub proof fn law_sort_stable(t: TableModel, pos: Seq<int>, desc: Seq<bool>, p: Seq<int>, a: int, b: int)
    requires
        is_sorted_order(t, pos, desc, p),
        0 <= a < b < p.len(),
        key_cmp(t, pos, desc, p[a], p[b], 0) == 0,
    ensures
        p[a] < p[b],
{
    assert(goes_before(t, pos, desc, p[a], p[b]));
}

/// A sorted order lists each row exactly once.
pub proof fn law_sorted_order_is_permutation(t: TableModel, pos: Seq<int>, desc: Seq<bool>, p: Seq<int>)
    requires
        is_sorted_order(t, pos, desc, p),
    ensures
        forall|a: int, b: int| 0 <= a < b < p.len() ==> #[trigger] p[a] != #[trigger] p[b],
        forall|r: int| 0 <= r < t.rows ==> #[trigger] p.contains(r),
{
    assert forall|a: int, b: int| 0 <= a < b < p.len() implies #[trigger] p[a] != #[trigger] p[b] by {
        assert(goes_before(t, pos, desc, p[a], p[b]));
        lemma_goes_before(t, pos, desc, p[a], p[a], p[a]);
    }
    assert forall|r: int| 0 <= r < t.rows implies #[trigger] p.contains(r) by {
        lemma_injective_covers(p, t.rows, r);
    }
}

/// There is only one sorted order: two orders that both list every row once
/// in the order of `goes_before` are the same.
pub proof fn law_sorted_order_unique(t: TableModel, pos: Seq<int>, desc: Seq<bool>, p1: Seq<int>, p2: Seq<int>)
    requires
        is_sorted_order(t, pos, desc, p1),
        is_sorted_order(t, pos, desc, p2),
    ensures
        p1 == p2,
{
    law_sorted_order_is_permutation(t, pos, desc, p1);
    law_sorted_order_is_permutation(t, pos, desc, p2);
    lemma_prefix_equal(t, pos, desc, p1, p2, p1.len());
    assert(p1 =~= p2);
}

proof fn lemma_prefix_equal(t: TableModel, pos: Seq<int>, desc: Seq<bool>, p1: Seq<int>, p2: Seq<int>, k: nat)
    requires
        is_sorted_order(t, pos, desc, p1),
        is_sorted_order(t, pos, desc, p2),
        forall|a: int, b: int| 0 <= a < b < p1.len() ==> #[trigger] p1[a] != #[trigger] p1[b],
        forall|a: int, b: int| 0 <= a < b < p2.len() ==> #[trigger] p2[a] != #[trigger] p2[b],
        forall|r: int| 0 <= r < t.rows ==> #[trigger] p1.contains(r),
        forall|r: int| 0 <= r < t.rows ==> #[trigger] p2.contains(r),
        k <= p1.len(),
    ensures
        forall|a: int| 0 <= a < k ==> p1[a] == p2[a],
    decreases k,
{
    if k > 0 {
        let a = k - 1;
        lemma_prefix_equal(t, pos, desc, p1, p2, a as nat);
        let x = p1[a];
        let y = p2[a];
        if x != y {
            assert(p2.contains(x));
            let b = choose|b: int| 0 <= b < p2.len() && p2[b] == x;
            assert(p1.contains(y));
            let c = choose|c: int| 0 <= c < p1.len() && p1[c] == y;
            if b < a {
                assert(p1[b] == x);
            }
            if c < a {
                assert(p2[c] == y);
            }
            assert(b > a);
            assert(c > a);
            assert(goes_before(t, pos, desc, y, x));
            assert(goes_before(t, pos, desc, x, y));
            lemma_goes_before(t, pos, desc, x, y, x);
        }
    }
}

proof fn lemma_injective_covers(p: Seq<int>, n: nat, r: int)
    requires
        p.len() == n,
        forall|a: int| 0 <= a < p.len() ==> 0 <= #[trigger] p[a] < n,
        forall|a: int, b: int| 0 <= a < b < p.len() ==> #[trigger] p[a] != #[trigger] p[b],
        0 <= r < n,
    ensures
        p.contains(r),
{
    let s = p.to_set();
    let full = Set::new(|x: int| 0 <= x < n);
    assert(p.no_duplicates()) by {
        assert forall|a: int, b: int| 0 <= a < p.len() && 0 <= b < p.len() && a != b implies p[a] != p[b] by {
            if a < b {
                assert(p[a] != p[b]);
            } else {
                assert(p[b] != p[a]);
            }
        }
    }
    p.unique_seq_to_set();
    assert(s.subset_of(full));
    assert(full =~= vstd::set_lib::set_int_range(0, n as int));
    vstd::set_lib::lemma_int_range(0, n as int);
    vstd::set_lib::lemma_subset_equality(s, full);
    assert(full.contains(r));
}

/// The exec comparison of rows `i` and `j` on the keys at `pos`.
fn compare_rows(t: &Table, pos: &Vec<usize>, desc: &Vec<bool>, i: usize, j: usize) -> (r: i8)
    requires
        t@.wf(),
        pos@.len() == desc@.len(),
        forall|k: int| 0 <= k < pos@.len() ==> #[trigger] pos@[k] < t@.columns.len(),
        i < t@.rows,
        j < t@.rows,
    ensures
        r as int == key_cmp(t@, pos@.map_values(|x: usize| x as int), desc@, i as int, j as int, 0),
{
    let ghost ps = pos@.map_values(|x: usize| x as int);
    let mut k: usize = pos.len();
    let mut acc: i8 = 0;
    while k > 0
        invariant
            t@.wf(),
            pos@.len() == desc@.len(),
            forall|m: int| 0 <= m < pos@.len() ==> #[trigger] pos@[m] < t@.columns.len(),
            i < t@.rows,
            j < t@.rows,
            k <= pos@.len(),
            ps == pos@.map_values(|x: usize| x as int),
            acc as int == key_cmp(t@, ps, desc@, i as int, j as int, k as nat),
        decreases k,
    {
        k = k - 1;
        let c = t.column_at(pos[k]);
        assert(t@.columns[pos@[k as int] as int].cells.len() == t@.rows);
        let x = c.order_key_at(i);
        let y = c.order_key_at(j);
        let d: i8 = if x < y {
            -1
        } else if x > y {
            1
        } else {
            0
        };
        let d: i8 = if desc[k] {
            -d
        } else {
            d
        };
        if d != 0 {
            acc = d;
        }
    }
    acc
}

/// The comparator's demands on its arguments.
pub open spec fn keys_fit(t: TableModel, pos: Seq<usize>, desc: Seq<bool>) -> bool {
    &&& t.wf()
    &&& pos.len() == desc.len()
    &&& forall|k: int| 0 <= k < pos.len() ==> #[trigger] pos[k] < t.columns.len()
}

/// `v` holds rows of `[lo, hi)` in the order of `goes_before`.
pub open spec fn sorted_run(t: TableModel, ps: Seq<int>, desc: Seq<bool>, v: Seq<usize>, lo: int, hi: int) -> bool {
    &&& forall|a: int| 0 <= a < v.len() ==> lo <= #[trigger] v[a] < hi
    &&& forall|a: int, b: int| 0 <= a < b < v.len() ==> goes_before(t, ps, desc, #[trigger] v[a] as int, #[trigger] v[b] as int)
}

/// Merges two sorted runs whose rows lie in `[lo, mid)` and `[mid, hi)`.
fn merge_runs(
    t: &Table,
    pos: &Vec<usize>,
    desc: &Vec<bool>,
    ps: Ghost<Seq<int>>,
    a: &Vec<usize>,
    b: &Vec<usize>,
    lo: Ghost<int>,
    mid: usize,
    hi: Ghost<int>,
) -> (r: Vec<usize>)
    requires
        keys_fit(t@, pos@, desc@),
        ps@ == pos@.map_values(|x: usize| x as int),
        lo@ <= mid <= hi@ <= t@.rows,
        sorted_run(t@, ps@, desc@, a@, lo@, mid as int),
        sorted_run(t@, ps@, desc@, b@, mid as int, hi@),
    ensures
        r@.len() == a@.len() + b@.len(),
        sorted_run(t@, ps@, desc@, r@, lo@, hi@),
{
    let ghost ps = ps@;
    let mut r: Vec<usize> = Vec::new();
    let mut ia: usize = 0;
    let mut ib: usize = 0;
    while ia < a.len() || ib < b.len()
        invariant
            keys_fit(t@, pos@, desc@),
            ps == pos@.map_values(|x: usize| x as int),
            lo@ <= mid <= hi@ <= t@.rows,
            sorted_run(t@, ps, desc@, a@, lo@, mid as int),
            sorted_run(t@, ps, desc@, b@, mid as int, hi@),
            ia <= a@.len(),
            ib <= b@.len(),
            r@.len() == ia + ib,
            sorted_run(t@, ps, desc@, r@, lo@, hi@),
            forall|c: int, k: int| 0 <= c < r@.len() && ia <= k < a@.len() ==>
                goes_before(t@, ps, desc@, #[trigger] r@[c] as int, #[trigger] a@[k] as int),
            forall|c: int, k: int| 0 <= c < r@.len() && ib <= k < b@.len() ==>
                goes_before(t@, ps, desc@, #[trigger] r@[c] as int, #[trigger] b@[k] as int),
        decreases a@.len() + b@.len() - ia - ib,
    {
        let take_a = if ib == b.len() {
            true
        } else if ia == a.len() {
            false
        } else {
            compare_rows(t, pos, desc, a[ia], b[ib]) <= 0
        };
        let ghost old_r = r@;
        if take_a {
            let x = a[ia];
            proof {
                if ib < b@.len() {
                    lemma_key_cmp(t@, ps, desc@, x as int, b@[ib as int] as int, 0, 0);
                    assert(goes_before(t@, ps, desc@, x as int, b@[ib as int] as int));
                    assert forall|k: int| ib <= k < b@.len() implies goes_before(t@, ps, desc@, x as int, #[trigger] b@[k] as int) by {
                        if k > ib {
                            lemma_goes_before(t@, ps, desc@, x as int, b@[ib as int] as int, b@[k] as int);
                        }
                    }
                }
            }
            r.push(x);
            ia = ia + 1;
        } else {
            let x = b[ib];
            proof {
                if ia < a@.len() {
                    lemma_key_cmp(t@, ps, desc@, a@[ia as int] as int, x as int, 0, 0);
                    assert(goes_before(t@, ps, desc@, x as int, a@[ia as int] as int));
                    assert forall|k: int| ia <= k < a@.len() implies goes_before(t@, ps, desc@, x as int, #[trigger] a@[k] as int) by {
                        if k > ia {
                            lemma_goes_before(t@, ps, desc@, x as int, a@[ia as int] as int, a@[k] as int);
                        }
                    }
                }
            }
            r.push(x);
            ib = ib + 1;
        }
        proof {
            let n = r@.len() - 1;
            assert forall|c: int, d: int| 0 <= c < d < r@.len() implies
                goes_before(t@, ps, desc@, #[trigger] r@[c] as int, #[trigger] r@[d] as int) by {
                if d == n {
                    assert(r@[c] == old_r[c]);
                    if take_a {
                        assert(goes_before(t@, ps, desc@, old_r[c] as int, a@[ia - 1] as int));
                    } else {
                        assert(goes_before(t@, ps, desc@, old_r[c] as int, b@[ib - 1] as int));
                    }
                } else {
                    assert(r@[c] == old_r[c] && r@[d] == old_r[d]);
                }
            }
            assert forall|c: int, k: int| 0 <= c < r@.len() && ia <= k < a@.len() implies
                goes_before(t@, ps, desc@, #[trigger] r@[c] as int, #[trigger] a@[k] as int) by {
                if c < n {
                    assert(r@[c] == old_r[c]);
                } else if take_a {
                    assert(goes_before(t@, ps, desc@, a@[ia - 1] as int, a@[k] as int));
                }
            }
            assert forall|c: int, k: int| 0 <= c < r@.len() && ib <= k < b@.len() implies
                goes_before(t@, ps, desc@, #[trigger] r@[c] as int, #[trigger] b@[k] as int) by {
                if c < n {
                    assert(r@[c] == old_r[c]);
                } else if !take_a {
                    assert(goes_before(t@, ps, desc@, b@[ib - 1] as int, b@[k] as int));
                }
            }
        }
    }
    r
}

/// The rows of `[lo, hi)` in the order of `goes_before`, by merge sort.
fn sort_range(t: &Table, pos: &Vec<usize>, desc: &Vec<bool>, ps: Ghost<Seq<int>>, lo: usize, hi: usize) -> (r: Vec<usize>)
    requires
        keys_fit(t@, pos@, desc@),
        ps@ == pos@.map_values(|x: usize| x as int),
        lo <= hi <= t@.rows,
    ensures
        r@.len() == hi - lo,
        sorted_run(t@, ps@, desc@, r@, lo as int, hi as int),
    decreases hi - lo,
{
    if hi - lo <= 1 {
        let mut r: Vec<usize> = Vec::new();
        if hi > lo {
            r.push(lo);
        }
        return r;
    }
    let mid = lo + (hi - lo) / 2;
    let a = sort_range(t, pos, desc, ps, lo, mid);
    let b = sort_range(t, pos, desc, ps, mid, hi);
    merge_runs(t, pos, desc, ps, &a, &b, Ghost(lo as int), mid, Ghost(hi as int))
}

/// The rows of `t` reordered by `keys`, the first key deciding first; rows
/// whose keys all tie keep their input order.
pub fn sort(t: &Table, keys: &Vec<SortKey>) -> (r: Result<Table, TableError>)
    requires
        t@.wf(),
    ensures
        (exists|k: int| 0 <= k < keys@.len() && !t@.has(#[trigger] keys@[k].name@)) <==> r is Err,
        r matches Err(e) ==> (e matches TableError::ColumnNotFound(s) && !t@.has(s@)),
        r matches Ok(out) ==> out@.wf() && exists|p: Seq<int>|
            is_sorted_order(t@, key_positions(t@, keys@), key_directions(keys@), p) && out@ == t@.select(p),
{
    let mut pos: Vec<usize> = Vec::with_capacity(keys.len());
    let mut desc: Vec<bool> = Vec::with_capacity(keys.len());
    let mut k: usize = 0;
    while k < keys.len()
        invariant
            t@.wf(),
            k <= keys@.len(),
            pos@.len() == k,
            desc@.len() == k,
            forall|m: int| 0 <= m < k ==> t@.has(#[trigger] keys@[m].name@),
            forall|m: int| 0 <= m < k ==> #[trigger] pos@[m] == t@.position(keys@[m].name@) && pos@[m] < t@.columns.len(),
            forall|m: int| 0 <= m < k ==> #[trigger] desc@[m] == keys@[m].descending,
        decreases keys@.len() - k,
    {
        match t.find(keys[k].name.as_str()) {
            Some(i) => {
                pos.push(i);
                desc.push(keys[k].descending);
            },
            None => {
                return Err(TableError::ColumnNotFound(keys[k].name.clone()));
            },
        }
        k = k + 1;
    }
    let ghost ps = pos@.map_values(|x: usize| x as int);
    assert(ps =~= key_positions(t@, keys@));
    assert(desc@ =~= key_directions(keys@));
    let n = t.rows();
    let perm = sort_range(t, &pos, &desc, Ghost(ps), 0, n);
    let out = t.select(&perm);
    proof {
        let p = crate::column::usize_seq_to_int(perm@);
        assert(is_sorted_order(t@, ps, desc@, p));
    }
    Ok(out)
}

} // verus!
