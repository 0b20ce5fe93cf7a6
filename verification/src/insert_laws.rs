//! What INSERT does with the values that it is given.
use crate::ast::Expr;
use crate::error::ErrorView;
use crate::eval::eval;
use crate::host::HostView;
use crate::insert::{given_from, nulls, reordered_from, row_given};
use crate::schema::{lemma_name_from, name_from};
use crate::text::same_name;
use crate::types::ValueView;
use vstd::prelude::*;

verus! {

// ---------------------------------------------------------------------------
// Column lists
// ---------------------------------------------------------------------------

/// Whether a name stands for a column: it is its name, and that of no column before it.
pub open spec fn stands_for_column(name: Seq<char>, names: Seq<Seq<char>>, k: int) -> bool {
    &&& 0 <= k < names.len()
    &&& same_name(names[k], name)
    &&& forall|j: int| 0 <= j < k ==> !same_name(#[trigger] names[j], name)
}

/// Whether no two names of a list stand for the same column.
pub open spec fn distinct_columns(cols: Seq<Seq<char>>, names: Seq<Seq<char>>) -> bool {
    forall|i: int, j: int, k: int|
        0 <= i < cols.len() && 0 <= j < cols.len() && #[trigger] stands_for_column(
            cols[i],
            names,
            k,
        ) && #[trigger] stands_for_column(cols[j], names, k) ==> i == j
}

pub proof fn lemma_first_name(name: Seq<char>, names: Seq<Seq<char>>, i: int, k: int)
    requires
        stands_for_column(name, names, k),
        0 <= i <= k,
    ensures
        name_from(names, name, i) == Some(k),
    decreases k - i,
{
    if i < k {
        assert(!same_name(names[i], name));
        lemma_first_name(name, names, i + 1, k);
    }
}

pub proof fn lemma_found_is_first(name: Seq<char>, names: Seq<Seq<char>>, i: int)
    requires
        0 <= i,
        forall|j: int| 0 <= j < i ==> !same_name(#[trigger] names[j], name),
    ensures
        name_from(names, name, i) matches Some(k) ==> stands_for_column(name, names, k),
    decreases names.len() - i,
{
    if i < names.len() && !same_name(names[i], name) {
        lemma_found_is_first(name, names, i + 1);
    }
}

proof fn lemma_reordered(
    vals: Seq<ValueView>,
    cols: Seq<Seq<char>>,
    names: Seq<Seq<char>>,
    i: int,
    acc: Seq<ValueView>,
)
    requires
        0 <= i <= cols.len(),
        vals.len() == cols.len(),
        acc.len() == names.len(),
        distinct_columns(cols, names),
        forall|j: int, k: int|
            0 <= j < i && #[trigger] stands_for_column(cols[j], names, k) ==> acc[k] == vals[j],
        forall|k: int|
            0 <= k < names.len() && (forall|j: int|
                0 <= j < i ==> !#[trigger] stands_for_column(cols[j], names, k))
                ==> #[trigger] acc[k] is Null,
        reordered_from(vals, cols, names, i, acc) is Ok,
    ensures
        ({
            let row = reordered_from(vals, cols, names, i, acc)->Ok_0;
            &&& row.len() == names.len()
            &&& forall|j: int, k: int|
                0 <= j < cols.len() && #[trigger] stands_for_column(cols[j], names, k) ==> row[k]
                    == vals[j]
            &&& forall|k: int|
                0 <= k < names.len() && (forall|j: int|
                    0 <= j < cols.len() ==> !#[trigger] stands_for_column(cols[j], names, k))
                    ==> #[trigger] row[k] is Null
        }),
    decreases cols.len() - i,
{
    if i < cols.len() {
        lemma_name_from(names, cols[i], 0);
        lemma_found_is_first(cols[i], names, 0);
        let at = name_from(names, cols[i], 0)->0;
        let next = acc.update(at, vals[i]);
        assert forall|j: int, k: int|
            0 <= j < i + 1 && #[trigger] stands_for_column(cols[j], names, k) implies next[k]
            == vals[j] by {
            if j == i {
                lemma_first_name(cols[i], names, 0, k);
            } else {
                if k == at {
                    assert(stands_for_column(cols[i], names, k));
                }
            }
        }
        assert forall|k: int|
            0 <= k < names.len() && (forall|j: int|
                0 <= j < i + 1 ==> !#[trigger] stands_for_column(cols[j], names, k)) implies (
        #[trigger] next[k]) is Null by {
            assert(!stands_for_column(cols[i], names, k));
            assert(k != at);
            assert(acc[k] is Null);
        }
        lemma_reordered(vals, cols, names, i + 1, next);
    }
}

proof fn lemma_given(exprs: Seq<Expr>, i: int, acc: Seq<ValueView>, h: HostView)
    requires
        0 <= i <= exprs.len(),
        acc.len() == i,
        given_from(exprs, i, acc, h) is Ok,
        forall|k: int|
            0 <= k < i ==> eval(#[trigger] exprs[k], Seq::empty(), Seq::empty(), h) == Ok::<
                ValueView,
                ErrorView,
            >(acc[k]),
    ensures
        ({
            let vals = given_from(exprs, i, acc, h)->Ok_0;
            &&& vals.len() == exprs.len()
            &&& forall|k: int|
                0 <= k < exprs.len() ==> eval(#[trigger] exprs[k], Seq::empty(), Seq::empty(), h)
                    == Ok::<ValueView, ErrorView>(vals[k])
        }),
    decreases exprs.len() - i,
{
    if i < exprs.len() {
        let v = eval(exprs[i], Seq::empty(), Seq::empty(), h)->Ok_0;
        lemma_given(exprs, i + 1, acc.push(v), h);
    }
}

/// An INSERT that names columns puts the value of its first expression into the column that the
/// first name stands for, that of the second into the second, and so on; the columns that it does
/// not name are NULL.
pub proof fn law_named_columns_get_their_values(
    exprs: Seq<Expr>,
    cols: Seq<Seq<char>>,
    names: Seq<Seq<char>>,
    h: HostView,
)
    requires
        exprs.len() == cols.len(),
        distinct_columns(cols, names),
        row_given(exprs, Some(cols), names, h) is Ok,
    ensures
        ({
            let row = row_given(exprs, Some(cols), names, h)->Ok_0;
            &&& row.len() == names.len()
            &&& forall|i: int, k: int|
                0 <= i < cols.len() && #[trigger] stands_for_column(cols[i], names, k) ==> eval(
                    exprs[i],
                    Seq::empty(),
                    Seq::empty(),
                    h,
                ) == Ok::<ValueView, ErrorView>(row[k])
            &&& forall|k: int|
                0 <= k < names.len() && (forall|i: int|
                    0 <= i < cols.len() ==> !#[trigger] stands_for_column(cols[i], names, k))
                    ==> #[trigger] row[k] is Null
        }),
{
    lemma_given(exprs, 0, Seq::empty(), h);
    let vals = given_from(exprs, 0, Seq::empty(), h)->Ok_0;
    lemma_reordered(vals, cols, names, 0, nulls(names.len()));
    let row = row_given(exprs, Some(cols), names, h)->Ok_0;
    assert forall|i: int, k: int|
        0 <= i < cols.len() && #[trigger] stands_for_column(cols[i], names, k) implies eval(
        exprs[i],
        Seq::empty(),
        Seq::empty(),
        h,
    ) == Ok::<ValueView, ErrorView>(row[k]) by {
        assert(row[k] == vals[i]);
    }
}

/// An INSERT without a column list puts the value of its first expression into the first column,
/// that of the second into the second, and so on.
pub proof fn law_values_go_in_order(exprs: Seq<Expr>, names: Seq<Seq<char>>, h: HostView)
    requires
        row_given(exprs, None, names, h) is Ok,
    ensures
        ({
            let row = row_given(exprs, None, names, h)->Ok_0;
            &&& row.len() == exprs.len()
            &&& forall|k: int|
                0 <= k < exprs.len() ==> eval(#[trigger] exprs[k], Seq::empty(), Seq::empty(), h)
                    == Ok::<ValueView, ErrorView>(row[k])
        }),
{
    lemma_given(exprs, 0, Seq::empty(), h);
}

} // verus!
