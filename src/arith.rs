use vstd::prelude::*;
use crate::column::Kind;
use crate::table::{Table, TableError, TableModel};

verus! {

pub open spec fn is_numeric(k: Kind) -> bool {
    k == Kind::Int32 || k == Kind::Int64 || k == Kind::Float64
}

/// The first of `names` that `t` lacks, if any.
pub open spec fn first_missing(t: TableModel, names: Seq<Seq<char>>) -> Option<Seq<char>>
    decreases names.len(),
{
    if names.len() == 0 {
        None
    } else if !t.has(names[0]) {
        Some(names[0])
    } else {
        first_missing(t, names.drop_first())
    }
}

/// The positions of the operand columns of `(left * right) / divisor`,
/// refusing a missing column, then a column that is not numeric, in operand
/// order.
pub fn arithmetic_operands(t: &Table, left: &str, right: &str, divisor: &str) -> (r: Result<(usize, usize, usize), TableError>)
    requires
        t@.wf(),
    ensures
        ({
            let names = seq![left@, right@, divisor@];
            &&& first_missing(t@, names) matches Some(s) ==> (r matches Err(TableError::ColumnNotFound(e)) && e@ == s)
            &&& first_missing(t@, names) is None && !is_numeric(t@.named(left@).kind) ==> r == Err::<(usize, usize, usize), TableError>(
                TableError::TypeMismatch(Kind::Float64, t@.named(left@).kind))
            &&& first_missing(t@, names) is None && is_numeric(t@.named(left@).kind) && !is_numeric(t@.named(right@).kind)
                ==> r == Err::<(usize, usize, usize), TableError>(TableError::TypeMismatch(Kind::Float64, t@.named(right@).kind))
            &&& first_missing(t@, names) is None && is_numeric(t@.named(left@).kind) && is_numeric(t@.named(right@).kind)
                && !is_numeric(t@.named(divisor@).kind)
                ==> r == Err::<(usize, usize, usize), TableError>(TableError::TypeMismatch(Kind::Float64, t@.named(divisor@).kind))
            &&& first_missing(t@, names) is None && is_numeric(t@.named(left@).kind) && is_numeric(t@.named(right@).kind)
                && is_numeric(t@.named(divisor@).kind) ==> r == Ok::<(usize, usize, usize), TableError>((
                t@.position(left@) as usize, t@.position(right@) as usize, t@.position(divisor@) as usize))
        }),
{
    let ghost names = seq![left@, right@, divisor@];
    assert(names.drop_first() =~= seq![right@, divisor@]);
    assert(names.drop_first().drop_first() =~= seq![divisor@]);
    assert(names.drop_first().drop_first().drop_first() =~= Seq::<Seq<char>>::empty());
    proof {
        reveal_with_fuel(first_missing, 4);
    }
    let l = match t.find(left) {
        Some(p) => p,
        None => return Err(TableError::ColumnNotFound(left.to_owned())),
    };
    let r = match t.find(right) {
        Some(p) => p,
        None => return Err(TableError::ColumnNotFound(right.to_owned())),
    };
    let d = match t.find(divisor) {
        Some(p) => p,
        None => return Err(TableError::ColumnNotFound(divisor.to_owned())),
    };
    let lk = t.column_at(l).kind();
    if lk == Kind::Category {
        return Err(TableError::TypeMismatch(Kind::Float64, lk));
    }
    let rk = t.column_at(r).kind();
    if rk == Kind::Category {
        return Err(TableError::TypeMismatch(Kind::Float64, rk));
    }
    let dk = t.column_at(d).kind();
    if dk == Kind::Category {
        return Err(TableError::TypeMismatch(Kind::Float64, dk));
    }
    Ok((l, r, d))
}

} // verus!
