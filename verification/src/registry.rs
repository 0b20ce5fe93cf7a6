//! Lists of entries that are found by name.
use crate::state::{find_named, lemma_named_from, named_from};
use vstd::prelude::*;

verus! {

/// Whether no two entries have the same name.
pub open spec fn distinct_names<T>(entries: Seq<(Seq<char>, T)>) -> bool {
    forall|i: int, j: int|
        0 <= i < j < entries.len() ==> (#[trigger] entries[i]).0 != (#[trigger] entries[j]).0
}

/// The value under a name.
pub open spec fn entry_of<T>(entries: Seq<(Seq<char>, T)>, name: Seq<char>) -> Option<T> {
    match named_from(entries, name, 0) {
        Some(k) => Some(entries[k].1),
        None => None,
    }
}

/// The entries with the one under a name replaced, or added.
pub open spec fn set_entry<T>(entries: Seq<(Seq<char>, T)>, name: Seq<char>, value: T) -> Seq<
    (Seq<char>, T),
> {
    match named_from(entries, name, 0) {
        Some(k) => entries.update(k, (name, value)),
        None => entries.push((name, value)),
    }
}

/// The entries without the one under a name.
pub open spec fn drop_entry<T>(entries: Seq<(Seq<char>, T)>, name: Seq<char>) -> Seq<
    (Seq<char>, T),
> {
    match named_from(entries, name, 0) {
        Some(k) => entries.remove(k),
        None => entries,
    }
}

/// Where an entry with a name is, the first one is not behind it.
pub proof fn lemma_none_before<T>(entries: Seq<(Seq<char>, T)>, name: Seq<char>, i: int, j: int)
    requires
        0 <= i <= j < entries.len(),
        entries[j].0 == name,
    ensures
        named_from(entries, name, i) is Some,
        named_from(entries, name, i)->0 <= j,
    decreases entries.len() - i,
{
    if entries[i].0 != name {
        lemma_none_before(entries, name, i + 1, j);
    }
}

/// An entry that is set is found under its name, and the others are as they were.
pub proof fn law_set_entry<T>(
    entries: Seq<(Seq<char>, T)>,
    name: Seq<char>,
    value: T,
    other: Seq<char>,
)
    ensures
        entry_of(set_entry(entries, name, value), name) == Some(value),
        other != name ==> entry_of(set_entry(entries, name, value), other) == entry_of(
            entries,
            other,
        ),
        distinct_names(entries) ==> distinct_names(set_entry(entries, name, value)),
{
    let after = set_entry(entries, name, value);
    lemma_named_from(entries, name, 0);
    lemma_named_from(after, name, 0);
    lemma_named_from(entries, other, 0);
    lemma_named_from(after, other, 0);
    let k = match named_from(entries, name, 0) {
        Some(k) => k,
        None => entries.len() as int,
    };
    assert(after[k] == (name, value));
    lemma_none_before(after, name, 0, k);
    let p = named_from(after, name, 0)->0;
    if p < k {
        assert(after[p] == entries[p]);
        lemma_none_before(entries, name, 0, p);
    }
    if other != name {
        match named_from(entries, other, 0) {
            Some(q) => {
                assert(after[q] == entries[q]);
                lemma_none_before(after, other, 0, q);
                let z = named_from(after, other, 0)->0;
                assert(after[z] == entries[z]);
                lemma_none_before(entries, other, 0, z);
            },
            None => {
                if let Some(z) = named_from(after, other, 0) {
                    assert(after[z] == entries[z]);
                }
            },
        }
    }
    if distinct_names(entries) {
        assert forall|i: int, j: int| 0 <= i < j < after.len() implies (#[trigger] after[i]).0
            != (#[trigger] after[j]).0 by {
            if i != k && j != k {
                assert(entries[i].0 != entries[j].0);
            } else if i == k && j < entries.len() {
                assert(entries[i].0 != entries[j].0);
            } else if j == k && k < entries.len() {
                assert(entries[i].0 != entries[j].0);
            }
        }
    }
}

/// An entry that is dropped is not found any more, and the others are as they were.
pub proof fn law_drop_entry<T>(entries: Seq<(Seq<char>, T)>, name: Seq<char>, other: Seq<char>)
    requires
        distinct_names(entries),
    ensures
        entry_of(drop_entry(entries, name), name) is None,
        other != name ==> entry_of(drop_entry(entries, name), other) == entry_of(entries, other),
        distinct_names(drop_entry(entries, name)),
{
    let after = drop_entry(entries, name);
    lemma_named_from(entries, name, 0);
    lemma_named_from(after, name, 0);
    lemma_named_from(entries, other, 0);
    lemma_named_from(after, other, 0);
    if let Some(k) = named_from(entries, name, 0) {
        assert forall|i: int| 0 <= i < after.len() implies #[trigger] after[i] == entries[if i < k {
            i
        } else {
            i + 1
        }] by {}
        if let Some(z) = named_from(after, name, 0) {
            let o = if z < k {
                z
            } else {
                z + 1
            };
            assert(after[z] == entries[o]);
        }
        if other != name {
            match named_from(entries, other, 0) {
                Some(q) => {
                    let a = if q < k {
                        q
                    } else {
                        q - 1
                    };
                    assert(after[a] == entries[q]);
                    lemma_none_before(after, other, 0, a);
                    let z = named_from(after, other, 0)->0;
                    let o = if z < k {
                        z
                    } else {
                        z + 1
                    };
                    assert(after[z] == entries[o]);
                    if o != q {
                        assert(entries[o].0 != entries[q].0);
                    }
                },
                None => {
                    if let Some(z) = named_from(after, other, 0) {
                        let o = if z < k {
                            z
                        } else {
                            z + 1
                        };
                        assert(after[z] == entries[o]);
                    }
                },
            }
        }
    }
}

/// Sets the entry under a name.
pub fn put_entry<T: DeepView>(entries: &mut Vec<(String, T)>, name: String, value: T)
    ensures
        final(entries).deep_view() == set_entry(
            old(entries).deep_view(),
            name@,
            value.deep_view(),
        ),
{
    let ghost before = entries.deep_view();
    let ghost nv = name@;
    let ghost vv = value.deep_view();
    match find_named(entries, name.as_str()) {
        Some(k) => {
            entries.set(k, (name, value));
            assert(entries.deep_view() =~= before.update(k as int, (nv, vv)));
        },
        None => {
            entries.push((name, value));
            assert(entries.deep_view() =~= before.push((nv, vv)));
        },
    }
}

/// Removes the entry under a name.
pub fn remove_entry<T: DeepView>(entries: &mut Vec<(String, T)>, name: &str)
    ensures
        final(entries).deep_view() == drop_entry(old(entries).deep_view(), name@),
{
    let ghost before = entries.deep_view();
    if let Some(k) = find_named(entries, name) {
        let _ = entries.remove(k);
        assert(entries.deep_view() =~= before.remove(k as int));
    }
}

} // verus!
