use vstd::prelude::*;
use crate::filter::{Cmp, Scalar, filter_model, kept};
use crate::group::group_firsts;
use crate::join::{join_model, join_pairs};
use crate::sort::is_sorted_order;
use crate::table::TableModel;

verus! {

/// Every operation maps a table of no rows to a table of no rows: filtering
/// keeps none, a join of an empty left table has no rows, grouping finds no
/// group, and sorting orders nothing.
pub proof fn law_empty_input(
    t: TableModel,
    right: TableModel,
    name: Seq<char>,
    op: Cmp,
    v: Scalar,
    rk: Seq<char>,
    pos: Seq<int>,
    desc: Seq<bool>,
    p: Seq<int>,
)
    requires
        t.wf(),
        right.wf(),
        t.rows == 0,
        t.has(name),
        right.has(rk),
    ensures
        filter_model(t, name, op, v).rows == 0,
        join_model(t, right, name, rk).rows == 0,
        group_firsts(t.named(name)).len() == 0,
        is_sorted_order(t, pos, desc, p) <==> p.len() == 0,
{
    let c = t.named(name);
    assert(c.cells.len() == 0);
    assert(Seq::new(0, |i: int| i) =~= Seq::<int>::empty());
    reveal_with_fuel(Seq::filter, 1);
    assert(kept(c, op, v).len() == 0);
    assert(join_pairs(t.named(name), right.named(rk), 0) =~= Seq::<(int, Option<int>)>::empty());
}

} // verus!
