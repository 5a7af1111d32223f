use vstd::prelude::*;
use std::collections::HashMap;
use crate::column::{
    Column, ColumnModel, opt_to_int, gather_model, gather_or_missing_model, lemma_range_filter_facts,
    lemma_range_filter_step, opt_seq_to_int, range_filter, usize_seq_to_int,
};
use crate::table::{Table, TableError, TableModel};
use vstd::string::StringExecFns;

verus! {

broadcast use vstd::std_specs::hash::group_hash_axioms;

/// Whether row `j` of `r` holds `key`.
pub open spec fn key_is(r: ColumnModel, key: int) -> spec_fn(int) -> bool {
    |j: int| r.cells[j] == key
}

/// Every position but `p`.
pub open spec fn not_at(p: int) -> spec_fn(int) -> bool {
    |q: int| q != p
}

/// The rows of `r` whose cell equals `key`, among its first `n`, in order.
pub open spec fn matching_prefix(r: ColumnModel, key: int, n: nat) -> Seq<int> {
    range_filter(n, key_is(r, key))
}

/// The rows of `r` whose cell equals `key`, in order.
pub open spec fn matching(r: ColumnModel, key: int) -> Seq<int> {
    matching_prefix(r, key, r.cells.len())
}

/// The output rows that left row `i` gives: one per matching right row, in
/// right order, or one with no right row where none matches.
pub open spec fn row_pairs(l: ColumnModel, r: ColumnModel, i: int) -> Seq<(int, Option<int>)> {
    let m = matching(r, l.cells[i]);
    if m.len() == 0 {
        seq![(i, None)]
    } else {
        m.map_values(|j: int| (i, Some(j)))
    }
}

/// The output rows of the first `n` left rows, left order kept.
pub open spec fn join_pairs(l: ColumnModel, r: ColumnModel, n: nat) -> Seq<(int, Option<int>)>
    decreases n,
{
    if n == 0 {
        Seq::empty()
    } else {
        join_pairs(l, r, (n - 1) as nat) + row_pairs(l, r, n - 1)
    }
}

/// The columns of the right table other than its key, by position.
pub open spec fn right_rest(right: TableModel, key_pos: int) -> Seq<int> {
    range_filter(right.columns.len(), not_at(key_pos))
}

/// The left join of `left` and `right` on the named keys: the left columns,
/// then the right columns but its key, renamed where the left table has their
/// name, with missing cells where a left row has no match.
pub open spec fn join_model(left: TableModel, right: TableModel, lk: Seq<char>, rk: Seq<char>) -> TableModel {
    let pairs = join_pairs(left.named(lk), right.named(rk), left.rows);
    let li = pairs.map_values(|p: (int, Option<int>)| p.0);
    let ri = pairs.map_values(|p: (int, Option<int>)| p.1);
    let rest = right_rest(right, right.position(rk));
    TableModel {
        names: left.names + rest.map_values(|k: int| right_out_name(left, right.names[k])),
        columns: left.columns.map_values(|c: ColumnModel| gather_model(c, li))
            + rest.map_values(|k: int| gather_or_missing_model(right.columns[k], ri)),
        rows: pairs.len(),
    }
}

/// The output name of a right column named `n`: `n` itself, or `n` followed by
/// `_right` where the left table has a column named `n`.
pub open spec fn right_out_name(left: TableModel, n: Seq<char>) -> Seq<char> {
    if left.has(n) {
        n + "_right"@
    } else {
        n
    }
}

proof fn lemma_pairs_in_range(l: ColumnModel, r: ColumnModel, n: nat)
    ensures
        forall|q: int| 0 <= q < join_pairs(l, r, n).len() ==>
            0 <= (#[trigger] join_pairs(l, r, n)[q]).0 < n
            && (join_pairs(l, r, n)[q].1 matches Some(j) ==> 0 <= j < r.cells.len()),
    decreases n,
{
    if n > 0 {
        let m = (n - 1) as nat;
        lemma_pairs_in_range(l, r, m);
        let key = l.cells[m as int];
        lemma_range_filter_facts(r.cells.len(), key_is(r, key));
    }
}

/// Keeps all rows of `left`, joined to every row of `right` whose key cell
/// equals the left row's, in left order and then right order.
pub fn left_join(left: &Table, right: &Table, left_key: &str, right_key: &str) -> (r: Result<Table, TableError>)
    requires
        left@.wf(),
        right@.wf(),
    ensures
        !left@.has(left_key@) ==> (r matches Err(TableError::ColumnNotFound(s)) && s@ == left_key@),
        left@.has(left_key@) && !right@.has(right_key@) ==> (r matches Err(TableError::ColumnNotFound(s)) && s@ == right_key@),
        left@.has(left_key@) && right@.has(right_key@) && left@.named(left_key@).kind != right@.named(right_key@).kind
            ==> r == Err::<Table, TableError>(
            TableError::TypeMismatch(left@.named(left_key@).kind, right@.named(right_key@).kind),
        ),
        left@.has(left_key@) && right@.has(right_key@) && left@.named(left_key@).kind == right@.named(right_key@).kind
            ==> (r is Ok <==> join_model(left@, right@, left_key@, right_key@).wf()),
        r matches Err(TableError::DuplicateColumn(_)) ==> !join_model(left@, right@, left_key@, right_key@).wf(),
        r matches Ok(out) ==> out@ == join_model(left@, right@, left_key@, right_key@) && out@.wf(),
{
    let lpos = match left.find(left_key) {
        Some(p) => p,
        None => return Err(TableError::ColumnNotFound(left_key.to_owned())),
    };
    let rpos = match right.find(right_key) {
        Some(p) => p,
        None => return Err(TableError::ColumnNotFound(right_key.to_owned())),
    };
    let lc = left.column_at(lpos);
    let rc = right.column_at(rpos);
    if lc.kind() != rc.kind() {
        return Err(TableError::TypeMismatch(lc.kind(), rc.kind()));
    }
    let ghost gl = lc@;
    let ghost gr = rc@;
    assert(gl.cells.len() == left@.rows);
    assert(gr.cells.len() == right@.rows);
    // index of the right rows by key
    let nr = rc.len();
    let mut index: HashMap<i128, Vec<usize>> = HashMap::new();
    let mut j: usize = 0;
    while j < nr
        invariant
            gr == rc@,
            nr == gr.cells.len(),
            j <= nr,
            forall|key: i128| #[trigger] index@.contains_key(key) ==>
                usize_seq_to_int(index@[key]@) == matching_prefix(gr, key as int, j as nat)
                && index@[key]@.len() > 0,
            forall|key: i128| !#[trigger] index@.contains_key(key) ==>
                matching_prefix(gr, key as int, j as nat).len() == 0,
        decreases nr - j,
    {
        let key = rc.cell(j);
        let ghost before = index@;
        proof {
            assert forall|k2: i128| true implies #[trigger] matching_prefix(gr, k2 as int, (j + 1) as nat) == if gr.cells[j as int] == k2 as int {
                matching_prefix(gr, k2 as int, j as nat).push(j as int)
            } else {
                matching_prefix(gr, k2 as int, j as nat)
            } by {
                lemma_range_filter_step(j as nat, key_is(gr, k2 as int));
            }
        }
        match index.remove(&key) {
            Some(mut rows) => {
                rows.push(j);
                index.insert(key, rows);
                assert(usize_seq_to_int(index@[key]@) =~= matching_prefix(gr, key as int, j as nat).push(j as int));
            },
            None => {
                index.insert(key, vec![j]);
                assert(usize_seq_to_int(index@[key]@) =~= matching_prefix(gr, key as int, j as nat).push(j as int));
            },
        }
        proof {
            assert forall|k2: i128| #[trigger] index@.contains_key(k2) implies
                usize_seq_to_int(index@[k2]@) == matching_prefix(gr, k2 as int, (j + 1) as nat)
                && index@[k2]@.len() > 0 by {
                if k2 != key {
                    assert(before.contains_key(k2));
                    assert(matching_prefix(gr, k2 as int, (j + 1) as nat) == matching_prefix(gr, k2 as int, j as nat));
                }
            }
            assert forall|k2: i128| !#[trigger] index@.contains_key(k2) implies
                matching_prefix(gr, k2 as int, (j + 1) as nat).len() == 0 by {
                assert(k2 != key);
                assert(!before.contains_key(k2));
                assert(matching_prefix(gr, k2 as int, (j + 1) as nat) == matching_prefix(gr, k2 as int, j as nat));
            }
        }
        j = j + 1;
    }
    // probe with the left rows
    let nl = lc.len();
    let mut li: Vec<usize> = Vec::new();
    let mut ri: Vec<Option<usize>> = Vec::new();
    let mut i: usize = 0;
    while i < nl
        invariant
            gl == lc@,
            gr == rc@,
            nl == gl.cells.len(),
            nr == gr.cells.len(),
            i <= nl,
            forall|key: i128| #[trigger] index@.contains_key(key) ==>
                usize_seq_to_int(index@[key]@) == matching(gr, key as int)
                && index@[key]@.len() > 0,
            forall|key: i128| !#[trigger] index@.contains_key(key) ==> matching(gr, key as int).len() == 0,
            li@.len() == join_pairs(gl, gr, i as nat).len(),
            ri@.len() == join_pairs(gl, gr, i as nat).len(),
            forall|q: int| 0 <= q < li@.len() ==> #[trigger] li@[q] as int == join_pairs(gl, gr, i as nat)[q].0,
            forall|q: int| 0 <= q < ri@.len() ==> opt_to_int(ri@[q]) == join_pairs(gl, gr, i as nat)[q].1,
        decreases nl - i,
    {
        let key = lc.cell(i);
        let ghost pre = join_pairs(gl, gr, i as nat);
        let ghost rp = row_pairs(gl, gr, i as int);
        assert(join_pairs(gl, gr, (i + 1) as nat) == pre + rp);
        match index.get(&key) {
            Some(rows) => {
                let ghost m = matching(gr, key as int);
                assert(usize_seq_to_int(rows@) == m);
                assert(m.len() == rows@.len());
                let mut t: usize = 0;
                while t < rows.len()
                    invariant
                        usize_seq_to_int(rows@) == m,
                        m == matching(gr, key as int),
                        m.len() > 0,
                        rp == row_pairs(gl, gr, i as int),
                        i < nl,
                        nl == gl.cells.len(),
                        gl.cells[i as int] == key as int,
                        t <= rows@.len(),
                        li@.len() == pre.len() + t,
                        ri@.len() == pre.len() + t,
                        forall|q: int| 0 <= q < li@.len() ==> #[trigger] li@[q] as int == (pre + rp)[q].0,
                        forall|q: int| 0 <= q < ri@.len() ==> opt_to_int(ri@[q]) == (pre + rp)[q].1,
                    decreases rows@.len() - t,
                {
                    li.push(i);
                    ri.push(Some(rows[t]));
                    assert(rp[t as int] == (i as int, Some(m[t as int])));
                    t = t + 1;
                }
            },
            None => {
                li.push(i);
                ri.push(None);
            },
        }
        i = i + 1;
    }
    proof {
        lemma_pairs_in_range(gl, gr, nl as nat);
    }
    assert(forall|q: int| 0 <= q < li@.len() ==> #[trigger] li@[q] < nl);
    assert(forall|q: int| 0 <= q < ri@.len() && #[trigger] ri@[q] is Some ==> ri@[q]->0 < nr) by {
        assert forall|q: int| 0 <= q < ri@.len() && #[trigger] ri@[q] is Some implies ri@[q]->0 < nr by {
            assert(opt_to_int(ri@[q]) == join_pairs(gl, gr, nl as nat)[q].1);
        }
    }
    let ghost pairs = join_pairs(gl, gr, nl as nat);
    assert(usize_seq_to_int(li@) =~= pairs.map_values(|p: (int, Option<int>)| p.0));
    assert(opt_seq_to_int(ri@) =~= pairs.map_values(|p: (int, Option<int>)| p.1));
    assert(left@.position(left_key@) == lpos);
    assert(right@.position(right_key@) == rpos);
    assemble(left, right, rpos, &li, &ri)
}

/// The table that `assemble` builds.
pub open spec fn assembled(left: TableModel, right: TableModel, rpos: int, lm: Seq<int>, rm: Seq<Option<int>>) -> TableModel {
    let rest = right_rest(right, rpos);
    TableModel {
        names: left.names + rest.map_values(|k: int| right_out_name(left, right.names[k])),
        columns: left.columns.map_values(|c: ColumnModel| gather_model(c, lm))
            + rest.map_values(|k: int| gather_or_missing_model(right.columns[k], rm)),
        rows: lm.len(),
    }
}

proof fn lemma_range_filter_prefix(k: nat, n: nat, pred: spec_fn(int) -> bool)
    requires
        k <= n,
    ensures
        range_filter(k, pred).len() <= range_filter(n, pred).len(),
        forall|j: int| 0 <= j < range_filter(k, pred).len() ==> #[trigger] range_filter(n, pred)[j] == range_filter(k, pred)[j],
    decreases n - k,
{
    if k < n {
        lemma_range_filter_prefix(k, (n - 1) as nat, pred);
        lemma_range_filter_step((n - 1) as nat, pred);
    }
}

/// The left columns gathered by `li`, then the right columns but the one at
/// `rpos` gathered by `ri` and renamed where the left table has their name;
/// refused where two output names are the same.
fn assemble(left: &Table, right: &Table, rpos: usize, li: &Vec<usize>, ri: &Vec<Option<usize>>) -> (r: Result<Table, TableError>)
    requires
        left@.wf(),
        right@.wf(),
        rpos < right@.columns.len(),
        li@.len() == ri@.len(),
        forall|q: int| 0 <= q < li@.len() ==> #[trigger] li@[q] < left@.rows,
        forall|q: int| 0 <= q < ri@.len() && #[trigger] ri@[q] is Some ==> ri@[q]->0 < right@.rows,
    ensures
        r matches Ok(out) ==> out@ == assembled(left@, right@, rpos as int, usize_seq_to_int(li@), opt_seq_to_int(ri@))
            && out@.wf(),
        r matches Err(e) ==> (e is DuplicateColumn)
            && !assembled(left@, right@, rpos as int, usize_seq_to_int(li@), opt_seq_to_int(ri@)).wf(),
{
    let ghost lm = usize_seq_to_int(li@);
    let ghost rm = opt_seq_to_int(ri@);
    let ghost model = assembled(left@, right@, rpos as int, lm, rm);
    let ghost nl = left@.names.len();
    let mut t = Table::new(li.len());
    let mut k: usize = 0;
    while k < left.num_columns()
        invariant
            left@.wf(),
            forall|q: int| 0 <= q < li@.len() ==> #[trigger] li@[q] < left@.rows,
            lm == usize_seq_to_int(li@),
            model == assembled(left@, right@, rpos as int, lm, rm),
            nl == left@.names.len(),
            k <= left@.columns.len(),
            t@.wf(),
            t@.rows == li@.len(),
            t@.names == model.names.subrange(0, k as int),
            t@.columns == model.columns.subrange(0, k as int),
        decreases left@.columns.len() - k,
    {
        assert(left@.columns[k as int].cells.len() == left@.rows);
        let c = left.column_at(k).gather(li);
        let name = left.name_at(k).clone();
        assert(!t@.has(name@)) by {
            if t@.has(name@) {
                let p = t@.position(name@);
                assert(left@.names[p] == left@.names[k as int]);
            }
        }
        let _ = t.push_column(name, c);
        k = k + 1;
        assert(t@.names =~= model.names.subrange(0, k as int));
        assert(t@.columns =~= model.columns.subrange(0, k as int));
    }
    let ghost pred = not_at(rpos as int);
    let ghost rest = right_rest(right@, rpos as int);
    let mut k: usize = 0;
    while k < right.num_columns()
        invariant
            left@.wf(),
            right@.wf(),
            rpos < right@.columns.len(),
            forall|q: int| 0 <= q < ri@.len() && #[trigger] ri@[q] is Some ==> ri@[q]->0 < right@.rows,
            rm == opt_seq_to_int(ri@),
            lm == usize_seq_to_int(li@),
            li@.len() == ri@.len(),
            model == assembled(left@, right@, rpos as int, lm, rm),
            nl == left@.names.len(),
            pred == not_at(rpos as int),
            rest == right_rest(right@, rpos as int),
            rest == range_filter(right@.columns.len(), pred),
            k <= right@.columns.len(),
            t@.wf(),
            t@.rows == li@.len(),
            t@.names.len() == nl + range_filter(k as nat, pred).len(),
            t@.names == model.names.subrange(0, t@.names.len() as int),
            t@.columns == model.columns.subrange(0, t@.names.len() as int),
        decreases right@.columns.len() - k,
    {
        proof {
            lemma_range_filter_step(k as nat, pred);
        }
        if k != rpos {
            let ghost at: int = t@.names.len() as int;
            proof {
                lemma_range_filter_prefix((k + 1) as nat, right@.columns.len(), pred);
                assert(rest[at - nl] == k);
                assert(model.names[at] == right_out_name(left@, right@.names[k as int]));
                assert(model.columns[at] == gather_or_missing_model(right@.columns[k as int], rm));
            }
            assert(right@.columns[k as int].cells.len() == right@.rows);
            let c = right.column_at(k).gather_or_missing(ri);
            let base = right.name_at(k).clone();
            let name = if left.find(base.as_str()).is_some() {
                base.concat("_right")
            } else {
                base
            };
            assert(name@ == model.names[at]);
            let ghost before = t@;
            match t.push_column(name, c) {
                Ok(()) => {},
                Err(e) => {
                    proof {
                        let p = before.position(model.names[at]);
                        assert(model.names[p] == model.names[at]);
                    }
                    return Err(e);
                },
            }
            assert(t@.names =~= model.names.subrange(0, t@.names.len() as int));
            assert(t@.columns =~= model.columns.subrange(0, t@.names.len() as int));
        }
        k = k + 1;
    }
    assert(t@.names =~= model.names);
    assert(t@.columns =~= model.columns);
    Ok(t)
}

} // verus!

verus! {

/// Every output row of a left join comes from a left row, in left order; it
/// carries a right row exactly when some right row has the left row's key,
/// and then that right row has the key; each left row gives as many output
/// rows as it has matches, and one where it has none.
pub proof fn law_join_rows(l: ColumnModel, r: ColumnModel, n: nat)
    requires
        n <= l.cells.len(),
    ensures
        ({
            let pairs = join_pairs(l, r, n);
            &&& forall|q: int| 0 <= q < pairs.len() ==> 0 <= (#[trigger] pairs[q]).0 < n
            &&& forall|q1: int, q2: int| 0 <= q1 < q2 < pairs.len() ==> (#[trigger] pairs[q1]).0 <= (#[trigger] pairs[q2]).0
            &&& forall|q: int| 0 <= q < pairs.len() ==> ((#[trigger] pairs[q]).1 is None
                <==> matching(r, l.cells[pairs[q].0]).len() == 0)
            &&& forall|q: int| 0 <= q < pairs.len() && (#[trigger] pairs[q]).1 is Some ==>
                0 <= pairs[q].1->0 < r.cells.len() && r.cells[pairs[q].1->0] == l.cells[pairs[q].0]
            &&& pairs.len() == join_row_count(l, r, n)
        }),
    decreases n,
{
    if n > 0 {
        let m = (n - 1) as nat;
        law_join_rows(l, r, m);
        let key = l.cells[m as int];
        lemma_range_filter_facts(r.cells.len(), key_is(r, key));
        let pre = join_pairs(l, r, m);
        let rp = row_pairs(l, r, m as int);
        assert(join_pairs(l, r, n) == pre + rp);
        assert forall|q: int| 0 <= q < rp.len() implies (#[trigger] rp[q]).0 == m by {}
    }
}

/// The number of output rows of the first `n` left rows: for each, its number
/// of matches, or one where it has none.
pub open spec fn join_row_count(l: ColumnModel, r: ColumnModel, n: nat) -> nat
    decreases n,
{
    if n == 0 {
        0
    } else {
        let m = matching(r, l.cells[n - 1]).len();
        join_row_count(l, r, (n - 1) as nat) + if m == 0 {
            1
        } else {
            m
        }
    }
}

} // verus!
