//! Rows have equal keys exactly if they are equal, but for the case of texts.
use crate::error::ErrorView;
use crate::catalog_format::type_of;
use crate::text::lower_text;
use crate::tuple::{field_bytes, field_read, lemma_field, stands, value_fits};
use crate::types::ValueView;
use crate::values::{row_key, value_key};
use vstd::prelude::*;

verus! {

/// A value with the case of its text left out.
pub open spec fn folded(v: ValueView) -> ValueView {
    match v {
        ValueView::Varchar(s) => ValueView::Varchar(lower_text(s)),
        _ => v,
    }
}

/// The values of a row with the case of texts left out.
pub open spec fn folded_row(row: Seq<ValueView>) -> Seq<ValueView> {
    Seq::new(row.len(), |i: int| folded(row[i]))
}

/// Whether the lengths of the texts and bytes of a row fit four bytes.
pub open spec fn keys_fit(row: Seq<ValueView>) -> bool {
    forall|i: int| 0 <= i < row.len() ==> value_fits(folded(#[trigger] row[i]))
}

/// What the key of a value begins with.
spec fn key_tag(v: ValueView) -> u8 {
    match v {
        ValueView::Null => 0,
        ValueView::Boolean(_) => 1,
        ValueView::Integer(_) => 2,
        ValueView::BigInt(_) => 3,
        ValueView::Float(_) => 4,
        ValueView::Varchar(_) => 5,
        ValueView::DateTime(_) => 6,
        ValueView::Decimal(_, _) => 7,
        ValueView::Date(_) => 8,
        ValueView::Time(_) => 9,
        ValueView::Binary(_) => 10,
        ValueView::Json(_) => 11,
        ValueView::Uuid(_) => 12,
    }
}

proof fn lemma_key_shape(v: ValueView)
    ensures
        value_key(v) == seq![key_tag(v)] + field_bytes(folded(v)),
{
    assert(value_key(v) =~= seq![key_tag(v)] + field_bytes(folded(v)));
}

/// What was written behind a tag is read there.
proof fn lemma_key_read(v: ValueView, x: Seq<u8>)
    requires
        !v.is_null(),
        value_fits(folded(v)),
    ensures
        ({
            let data = value_key(v) + x;
            &&& data[0] == key_tag(v)
            &&& field_read(data, 1, type_of(folded(v))) == Ok::<_, ErrorView>(
                (folded(v), value_key(v).len() as int),
            )
        }),
{
    let data = value_key(v) + x;
    let b = field_bytes(folded(v));
    lemma_key_shape(v);
    assert(data.subrange(1, 1 + b.len() as int) =~= b);
    assert(stands(data, 1, b));
    lemma_field(data, 1, folded(v), type_of(folded(v)));
}

proof fn lemma_key_prefix(a: ValueView, x: Seq<u8>, b: ValueView, y: Seq<u8>)
    requires
        value_fits(folded(a)),
        value_fits(folded(b)),
        value_key(a) + x == value_key(b) + y,
    ensures
        folded(a) == folded(b),
        x == y,
{
    let data = value_key(a) + x;
    lemma_key_shape(a);
    lemma_key_shape(b);
    assert(data[0] == key_tag(a));
    assert((value_key(b) + y)[0] == key_tag(b));
    if !a.is_null() {
        lemma_key_read(a, x);
        lemma_key_read(b, y);
        match (a, b) {
            (ValueView::Decimal(_, s), ValueView::Decimal(_, t)) => {
                let n = value_key(a).len() as int;
                assert(field_read(data, 1, type_of(folded(a))) == field_read(
                    data,
                    1,
                    type_of(folded(b)),
                ));
            },
            _ => {
                assert(type_of(folded(a)) == type_of(folded(b)));
            },
        }
        assert(value_key(a).len() == value_key(b).len());
    }
    let n = value_key(a).len() as int;
    assert(x =~= data.skip(n));
    assert(y =~= data.skip(n));
}

/// The key of two rows put together is the key of the one and, behind it, that of the other.
pub proof fn law_row_keys_join(a: Seq<ValueView>, b: Seq<ValueView>)
    ensures
        row_key(a + b) == row_key(a) + row_key(b),
    decreases b.len(),
{
    if b.len() == 0 {
        assert(a + b =~= a);
        assert(row_key(a) + row_key(b) =~= row_key(a));
    } else {
        law_row_keys_join(a, b.drop_last());
        assert((a + b).drop_last() =~= a + b.drop_last());
        assert((a + b).last() == b.last());
        assert(row_key(a) + row_key(b.drop_last()) + value_key(b.last()) =~= row_key(a) + (row_key(
            b.drop_last(),
        ) + value_key(b.last())));
    }
}

proof fn lemma_first_key(row: Seq<ValueView>)
    requires
        row.len() > 0,
    ensures
        row_key(row) == value_key(row[0]) + row_key(row.skip(1)),
        row_key(row).len() > 0,
{
    let one = seq![row[0]];
    assert(row =~= one + row.skip(1));
    law_row_keys_join(one, row.skip(1));
    assert(one.drop_last() =~= Seq::<ValueView>::empty());
    assert(one.last() == row[0]);
    assert(row_key(one.drop_last()) =~= Seq::<u8>::empty());
    assert(row_key(one) == row_key(one.drop_last()) + value_key(one.last()));
    assert(row_key(one) =~= value_key(row[0]));
    lemma_key_shape(row[0]);
}

proof fn lemma_keys_tell_rows_apart(a: Seq<ValueView>, b: Seq<ValueView>)
    requires
        keys_fit(a),
        keys_fit(b),
        row_key(a) == row_key(b),
    ensures
        folded_row(a) == folded_row(b),
    decreases a.len(),
{
    if a.len() > 0 {
        lemma_first_key(a);
    }
    if b.len() > 0 {
        lemma_first_key(b);
    }
    if a.len() > 0 && b.len() > 0 {
        let x = a.skip(1);
        let y = b.skip(1);
        lemma_key_prefix(a[0], row_key(x), b[0], row_key(y));
        assert(keys_fit(x)) by {
            assert forall|i: int| 0 <= i < x.len() implies value_fits(folded(#[trigger] x[i])) by {
                assert(x[i] == a[i + 1]);
            }
        }
        assert(keys_fit(y)) by {
            assert forall|i: int| 0 <= i < y.len() implies value_fits(folded(#[trigger] y[i])) by {
                assert(y[i] == b[i + 1]);
            }
        }
        lemma_keys_tell_rows_apart(x, y);
        assert(folded_row(x).len() == folded_row(y).len());
        assert forall|i: int| 0 <= i < a.len() implies folded_row(a)[i] == folded_row(b)[i] by {
            if i > 0 {
                assert(folded_row(x)[i - 1] == folded_row(y)[i - 1]);
            }
        }
        assert(folded_row(a) =~= folded_row(b));
    } else {
        assert(folded_row(a) =~= folded_row(b));
    }
}

proof fn lemma_folded_keys(a: Seq<ValueView>, b: Seq<ValueView>)
    requires
        folded_row(a) == folded_row(b),
    ensures
        row_key(a) == row_key(b),
    decreases a.len(),
{
    assert(a.len() == b.len()) by {
        assert(folded_row(a).len() == a.len() && folded_row(b).len() == b.len());
    }
    if a.len() > 0 {
        let n = a.len() - 1;
        let x = a.drop_last();
        let y = b.drop_last();
        assert forall|i: int| 0 <= i < n implies folded_row(x)[i] == folded_row(y)[i] by {
            assert(folded_row(a)[i] == folded_row(b)[i]);
            assert(folded_row(a)[i] == folded(a[i]) && folded_row(b)[i] == folded(b[i]));
            assert(x[i] == a[i] && y[i] == b[i]);
        }
        assert(folded_row(x) =~= folded_row(y));
        lemma_folded_keys(x, y);
        assert(folded_row(a)[n] == folded_row(b)[n]);
        assert(folded_row(a)[n] == folded(a[n]) && folded_row(b)[n] == folded(b[n]));
        assert(a.last() == a[n] && b.last() == b[n]);
        lemma_key_shape(a[n]);
        lemma_key_shape(b[n]);
    }
}

/// Two rows have the same key exactly if they have the same values, where texts that differ in
/// case alone count as the same.
pub proof fn law_equal_keys_are_equal_rows(a: Seq<ValueView>, b: Seq<ValueView>)
    requires
        keys_fit(a),
        keys_fit(b),
    ensures
        row_key(a) == row_key(b) <==> folded_row(a) == folded_row(b),
{
    if row_key(a) == row_key(b) {
        lemma_keys_tell_rows_apart(a, b);
    }
    if folded_row(a) == folded_row(b) {
        lemma_folded_keys(a, b);
    }
}

} // verus!
