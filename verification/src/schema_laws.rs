//! What ALTER TABLE does to columns, and what ANALYZE finds in them.
use crate::ast::{AlterTableOp, ColumnDef};
use crate::catalog_changes::{
    altered, column_named, column_stat, columns_without, tallied, tally_from, Tally,
};
use crate::gather_laws::{all_integers, firsts, keys_of, lemma_firsts, lemma_keys_grow};
use crate::order::Order;
use crate::schema::Column;
use crate::table_aggregate_laws::is_extreme;
use crate::text::same_name;
use crate::types::ValueView;
use crate::values::{row_key, value_key};
use crate::window_laws::{held, no_better};
use vstd::prelude::*;

verus! {

// ---------------------------------------------------------------------------
// ALTER TABLE
// ---------------------------------------------------------------------------

/// ADD COLUMN puts a column behind the others, with the name and the type of its definition, and
/// leaves the others as they were.
pub proof fn law_added_column_is_last(cols: Seq<Column>, def: ColumnDef)
    ensures
        ({
            let after = altered(cols, AlterTableOp::AddColumn(def));
            &&& after.len() == cols.len() + 1
            &&& forall|i: int| 0 <= i < cols.len() ==> #[trigger] after[i] == cols[i]
            &&& after.last().name == def.name
            &&& after.last().data_type == def.data_type
            &&& after.last().nullable == def.nullable
            &&& after.last().auto_increment == def.auto_increment
            &&& after.last().is_primary_key == def.is_primary_key
        }),
{
}

/// The columns among the first `n` with other names, in their order.
pub open spec fn others_than(cols: Seq<Column>, name: Seq<char>, n: int) -> Seq<Column>
    decreases n,
{
    if n <= 0 {
        Seq::empty()
    } else if same_name(cols[n - 1].name@, name) {
        others_than(cols, name, n - 1)
    } else {
        others_than(cols, name, n - 1).push(cols[n - 1])
    }
}

proof fn lemma_without(cols: Seq<Column>, name: Seq<char>, i: int)
    requires
        0 <= i <= cols.len(),
    ensures
        columns_without(cols, name, i, others_than(cols, name, i)) == others_than(
            cols,
            name,
            cols.len() as int,
        ),
    decreases cols.len() - i,
{
    if i < cols.len() {
        lemma_without(cols, name, i + 1);
    }
}

/// DROP COLUMN leaves the columns with other names, in their order.
pub proof fn law_dropped_column_is_gone(cols: Seq<Column>, name: String)
    ensures
        altered(cols, AlterTableOp::DropColumn(name)) == others_than(
            cols,
            name@,
            cols.len() as int,
        ),
{
    lemma_without(cols, name@, 0);
}

proof fn lemma_column_named(cols: Seq<Column>, name: Seq<char>, i: int, k: int)
    requires
        0 <= i <= k < cols.len(),
        same_name(cols[k].name@, name),
        forall|j: int| i <= j < k ==> !same_name((#[trigger] cols[j]).name@, name),
    ensures
        column_named(cols, name, i) == Some(k),
    decreases k - i,
{
    if i < k {
        lemma_column_named(cols, name, i + 1, k);
    }
}

/// RENAME COLUMN gives the first column with a name another one, and changes nothing else.
pub proof fn law_renamed_column(cols: Seq<Column>, old_name: String, new_name: String, k: int)
    requires
        0 <= k < cols.len(),
        same_name(cols[k].name@, old_name@),
        forall|j: int| 0 <= j < k ==> !same_name((#[trigger] cols[j]).name@, old_name@),
    ensures
        ({
            let after = altered(cols, AlterTableOp::RenameColumn { old_name, new_name });
            &&& after.len() == cols.len()
            &&& after[k] == (Column { name: new_name, ..cols[k] })
            &&& forall|i: int| 0 <= i < cols.len() && i != k ==> #[trigger] after[i] == cols[i]
        }),
{
    lemma_column_named(cols, old_name@, 0, k);
}

/// MODIFY COLUMN gives the first column with a name another type, and lets it be NULL or not, and
/// changes nothing else.
pub proof fn law_modified_column(cols: Seq<Column>, def: ColumnDef, k: int)
    requires
        0 <= k < cols.len(),
        same_name(cols[k].name@, def.name@),
        forall|j: int| 0 <= j < k ==> !same_name((#[trigger] cols[j]).name@, def.name@),
    ensures
        ({
            let after = altered(cols, AlterTableOp::ModifyColumn(def));
            &&& after.len() == cols.len()
            &&& after[k] == (Column {
                data_type: def.data_type,
                nullable: def.nullable,
                ..cols[k]
            })
            &&& forall|i: int| 0 <= i < cols.len() && i != k ==> #[trigger] after[i] == cols[i]
        }),
{
    lemma_column_named(cols, def.name@, 0, k);
}

// ---------------------------------------------------------------------------
// ANALYZE
// ---------------------------------------------------------------------------

/// The values other than NULL in a column of the first `n` rows.
pub open spec fn filled(rows: Seq<Seq<ValueView>>, c: int, n: int) -> Seq<ValueView>
    decreases n,
{
    if n <= 0 {
        Seq::empty()
    } else if c >= rows[n - 1].len() || rows[n - 1][c] is Null {
        filled(rows, c, n - 1)
    } else {
        filled(rows, c, n - 1).push(rows[n - 1][c])
    }
}

/// How many of the first `n` rows have NULL in a column.
pub open spec fn empty_places(rows: Seq<Seq<ValueView>>, c: int, n: int) -> nat
    decreases n,
{
    if n <= 0 {
        0
    } else {
        empty_places(rows, c, n - 1) + if c < rows[n - 1].len() && rows[n - 1][c] is Null {
            1nat
        } else {
            0
        }
    }
}

/// Whether a tally is that of the values seen so far.
spec fn tallies(t: Tally, vals: Seq<ValueView>, nulls: nat) -> bool {
    &&& t.nulls == nulls
    &&& t.seen.len() == firsts(vals).len()
    &&& forall|k: Seq<u8>| t.seen.contains(k) <==> #[trigger] keys_of(vals).contains(k)
    &&& all_integers(vals) ==> (if vals.len() == 0 {
        t.min is None && t.max is None
    } else {
        (t.min matches Some(m) && is_extreme(m, vals, Order::Less)) && (t.max matches Some(x)
            && is_extreme(x, vals, Order::Greater))
    })
}

proof fn lemma_single_key(v: ValueView)
    ensures
        row_key(seq![v]) == value_key(v),
{
    let row = seq![v];
    assert(row.drop_last() =~= Seq::<ValueView>::empty());
    reveal_with_fuel(row_key, 2);
    assert(row_key(row) =~= value_key(v));
}

proof fn lemma_extreme_more(vals: Seq<ValueView>, v: ValueView, m: ValueView, want: Order)
    requires
        want == Order::Less || want == Order::Greater,
        all_integers(vals.push(v)),
        vals.len() > 0,
        is_extreme(m, vals, want),
    ensures
        is_extreme(
            if v.compare(m) == Some(want) {
                v
            } else {
                m
            },
            vals.push(v),
            want,
        ),
{
    let more = vals.push(v);
    let best = if v.compare(m) == Some(want) {
        v
    } else {
        m
    };
    let j = choose|j: int| 0 <= j < vals.len() && vals[j] == m;
    assert(more[j] == m);
    assert(held(more[j]) is Some);
    assert(more[vals.len() as int] == v);
    assert(held(more[vals.len() as int]) is Some);
    assert(more.contains(best));
    assert forall|i: int| 0 <= i < more.len() implies no_better(#[trigger] more[i], best, want) by {
        assert(held(more[i]) is Some);
        if i < vals.len() {
            assert(more[i] == vals[i]);
            assert(no_better(vals[i], m, want));
        }
    }
}

proof fn lemma_tallied(t: Tally, vals: Seq<ValueView>, nulls: nat, v: ValueView)
    requires
        tallies(t, vals, nulls),
        !(v is Null),
    ensures
        tallies(tallied(t, v), vals.push(v), nulls),
{
    let more = vals.push(v);
    let next = tallied(t, v);
    let key = value_key(v);
    assert(more.drop_last() =~= vals);
    lemma_single_key(v);
    lemma_keys_grow(vals, v);
    assert(t.seen.contains(key) <==> keys_of(vals).contains(key));
    assert forall|k: Seq<u8>| next.seen.contains(k) <==> #[trigger] keys_of(more).contains(k) by {
        assert(t.seen.contains(k) <==> keys_of(vals).contains(k));
        if !t.seen.contains(key) {
            let s = t.seen.push(key);
            if t.seen.contains(k) {
                let j = choose|j: int| 0 <= j < t.seen.len() && t.seen[j] == k;
                assert(s[j] == k);
            }
            if k == key {
                assert(s[t.seen.len() as int] == k);
            }
            if s.contains(k) {
                let j = choose|j: int| 0 <= j < s.len() && s[j] == k;
                if j < t.seen.len() {
                    assert(t.seen[j] == k);
                }
            }
        }
    }
    if all_integers(more) {
        assert forall|i: int| 0 <= i < vals.len() implies held(#[trigger] vals[i]) is Some by {
            assert(more[i] == vals[i]);
        }
        if vals.len() == 0 {
            assert(more[0] == v);
            assert(more.contains(v));
        } else {
            lemma_extreme_more(vals, v, t.min->0, Order::Less);
            lemma_extreme_more(vals, v, t.max->0, Order::Greater);
        }
    }
}

proof fn lemma_tally(rows: Seq<Seq<ValueView>>, c: int, i: int, t: Tally)
    requires
        0 <= i <= rows.len(),
        0 <= c,
        tallies(t, filled(rows, c, i), empty_places(rows, c, i)),
    ensures
        tallies(
            tally_from(rows, c, i, t),
            filled(rows, c, rows.len() as int),
            empty_places(rows, c, rows.len() as int),
        ),
    decreases rows.len() - i,
{
    if i < rows.len() {
        if c < rows[i].len() {
            if !(rows[i][c] is Null) {
                lemma_tallied(t, filled(rows, c, i), empty_places(rows, c, i), rows[i][c]);
            }
            lemma_tally(rows, c, i + 1, tallied(t, rows[i][c]));
        } else {
            lemma_tally(rows, c, i + 1, t);
        }
    }
}

/// The statistics of a column say how many different values it holds and in how many rows it is
/// NULL, and, of integers, which is the least and which the greatest.
pub proof fn law_statistics_are_right(rows: Seq<Seq<ValueView>>, c: int)
    requires
        0 <= c,
    ensures
        ({
            let vals = filled(rows, c, rows.len() as int);
            let s = column_stat(rows, c);
            &&& s.nulls == empty_places(rows, c, rows.len() as int)
            &&& keys_of(vals).finite()
            &&& s.distinct == keys_of(vals).len()
            &&& all_integers(vals) && vals.len() == 0 ==> s.min is None && s.max is None
            &&& all_integers(vals) && vals.len() > 0 ==> (s.min matches Some(m) && is_extreme(
                m,
                vals,
                Order::Less,
            )) && (s.max matches Some(x) && is_extreme(x, vals, Order::Greater))
        }),
{
    let vals = filled(rows, c, rows.len() as int);
    let none = Tally { seen: Seq::empty(), nulls: 0, min: None, max: None };
    lemma_firsts(Seq::empty());
    assert(filled(rows, c, 0) =~= Seq::<ValueView>::empty());
    assert forall|k: Seq<u8>| none.seen.contains(k) <==> #[trigger] keys_of(
        filled(rows, c, 0),
    ).contains(k) by {}
    lemma_tally(rows, c, 0, none);
    lemma_firsts(vals);
}

} // verus!
