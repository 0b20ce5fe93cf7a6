//! Grouping by keys, in the order in which the keys first occur.
use crate::bytes::{find_key, lemma_bytes_deep};
use vstd::prelude::*;

verus! {

/// Whether the places lie within a range.
pub open spec fn within(idx: Seq<usize>, n: int) -> bool {
    forall|k: int| 0 <= k < idx.len() ==> #[trigger] idx[k] < n
}

/// All places of a sequence, in order.
pub open spec fn all_places(n: int) -> Seq<usize> {
    Seq::new(n as nat, |i: int| i as usize)
}

/// All places of a sequence, in order.
pub fn every_place(n: usize) -> (r: Vec<usize>)
    ensures
        r@ == all_places(n as int),
        within(r@, n as int),
{
    let mut out: Vec<usize> = Vec::new();
    let mut i: usize = 0;
    while i < n
        invariant
            0 <= i <= n,
            out@ == all_places(i as int),
        decreases n - i,
    {
        out.push(i);
        assert(out@ =~= all_places(i + 1));
        i += 1;
    }
    out
}

/// The different keys, in the order in which they first occur.
pub open spec fn distinct_keys(keys: Seq<Seq<u8>>) -> Seq<Seq<u8>>
    decreases keys.len(),
{
    if keys.len() == 0 {
        Seq::empty()
    } else {
        let d = distinct_keys(keys.drop_last());
        if d.contains(keys.last()) {
            d
        } else {
            d.push(keys.last())
        }
    }
}

/// The places at which a key stands, in order.
pub open spec fn places(keys: Seq<Seq<u8>>, key: Seq<u8>) -> Seq<usize>
    decreases keys.len(),
{
    if keys.len() == 0 {
        Seq::empty()
    } else {
        let p = places(keys.drop_last(), key);
        if keys.last() == key {
            p.push((keys.len() - 1) as usize)
        } else {
            p
        }
    }
}

/// The groups: for each different key the places at which it stands.
pub open spec fn groups(keys: Seq<Seq<u8>>) -> Seq<Seq<usize>> {
    let d = distinct_keys(keys);
    Seq::new(d.len(), |g: int| places(keys, d[g]))
}

pub proof fn lemma_places(keys: Seq<Seq<u8>>, key: Seq<u8>)
    requires
        keys.len() <= usize::MAX,
    ensures
        within(places(keys, key), keys.len() as int),
        forall|k: int|
            0 <= k < places(keys, key).len() ==> keys[#[trigger] places(keys, key)[k] as int]
                == key,
        !keys.contains(key) ==> places(keys, key).len() == 0,
    decreases keys.len(),
{
    if keys.len() > 0 {
        let short = keys.drop_last();
        lemma_places(short, key);
        let p = places(keys, key);
        let q = places(short, key);
        assert forall|k: int| 0 <= k < p.len() implies #[trigger] p[k] < keys.len()
            && keys[p[k] as int] == key by {
            if k < q.len() {
                assert(p[k] == q[k]);
                assert(short[q[k] as int] == key);
            }
        }
        if !keys.contains(key) {
            assert(keys.last() != key) by {
                assert(keys[keys.len() - 1] == keys.last());
            }
            assert(!short.contains(key)) by {
                if short.contains(key) {
                    let j = choose|j: int| 0 <= j < short.len() && short[j] == key;
                    assert(keys[j] == key);
                }
            }
        }
    }
}

pub proof fn lemma_distinct_keys(keys: Seq<Seq<u8>>)
    ensures
        distinct_keys(keys).no_duplicates(),
        forall|k: Seq<u8>| #[trigger] distinct_keys(keys).contains(k) ==> keys.contains(k),
        forall|k: Seq<u8>| #[trigger] keys.contains(k) ==> distinct_keys(keys).contains(k),
    decreases keys.len(),
{
    if keys.len() > 0 {
        let short = keys.drop_last();
        lemma_distinct_keys(short);
        let d = distinct_keys(short);
        let e = distinct_keys(keys);
        assert forall|k: Seq<u8>| #[trigger] keys.contains(k) implies e.contains(k) by {
            let j = choose|j: int| 0 <= j < keys.len() && keys[j] == k;
            if j < keys.len() - 1 {
                assert(short[j] == k);
                assert(short.contains(k));
                assert(d.contains(k));
                let m = choose|m: int| 0 <= m < d.len() && d[m] == k;
                assert(e[m] == k);
            } else if !d.contains(k) {
                assert(e[d.len() as int] == k);
            }
        }
        assert forall|k: Seq<u8>| #[trigger] e.contains(k) implies keys.contains(k) by {
            let m = choose|m: int| 0 <= m < e.len() && e[m] == k;
            if m < d.len() {
                assert(d[m] == k);
                assert(d.contains(k));
                assert(short.contains(k));
                let j = choose|j: int| 0 <= j < short.len() && short[j] == k;
                assert(keys[j] == k);
            } else {
                assert(keys[keys.len() - 1] == k);
            }
        }
    }
}

pub proof fn lemma_join_group(keys: Seq<Seq<u8>>, key: Seq<u8>, g: int)
    requires
        0 <= g < distinct_keys(keys).len(),
        distinct_keys(keys)[g] == key,
    ensures
        distinct_keys(keys.push(key)) == distinct_keys(keys),
        groups(keys.push(key)) == groups(keys).update(g, groups(keys)[g].push(keys.len() as usize)),
{
    let more = keys.push(key);
    assert(more.drop_last() =~= keys);
    lemma_distinct_keys(keys);
    let d = distinct_keys(keys);
    assert(d.contains(key));
    assert(groups(more) =~= groups(keys).update(g, groups(keys)[g].push(keys.len() as usize))) by {
        assert forall|m: int| 0 <= m < d.len() && m != g implies d[m] != key by {
            assert(d[m] != d[g]);
        }
    }
}

pub proof fn lemma_new_group(keys: Seq<Seq<u8>>, key: Seq<u8>)
    requires
        !distinct_keys(keys).contains(key),
        keys.len() <= usize::MAX,
    ensures
        distinct_keys(keys.push(key)) == distinct_keys(keys).push(key),
        groups(keys.push(key)) == groups(keys).push(seq![keys.len() as usize]),
{
    let more = keys.push(key);
    assert(more.drop_last() =~= keys);
    lemma_distinct_keys(keys);
    let d = distinct_keys(keys);
    assert(!keys.contains(key));
    lemma_places(keys, key);
    assert(places(keys, key) =~= Seq::<usize>::empty());
    assert(places(more, key) =~= seq![keys.len() as usize]);
    assert(groups(more) =~= groups(keys).push(seq![keys.len() as usize])) by {
        assert forall|m: int| 0 <= m < d.len() implies d[m] != key by {
            assert(d.contains(d[m]));
        }
    }
}

fn push_place(out: &mut Vec<Vec<usize>>, g: usize, i: usize)
    requires
        g < old(out).len(),
    ensures
        final(out).deep_view() == old(out).deep_view().update(
            g as int,
            old(out).deep_view()[g as int].push(i),
        ),
{
    let ghost before = out.deep_view();
    let mut list: Vec<usize> = Vec::new();
    core::mem::swap(&mut list, &mut out[g]);
    assert(list.deep_view() == before[g as int]);
    list.push(i);
    assert(list.deep_view() =~= before[g as int].push(i));
    out.set(g, list);
    assert(out.deep_view() =~= before.update(g as int, before[g as int].push(i)));
}

/// Keys seen so far and the places of each.
pub struct Grouping {
    found: Vec<Vec<u8>>,
    members: Vec<Vec<usize>>,
}

impl Grouping {
    /// Whether this is the grouping of a sequence of keys.
    pub closed spec fn of(self, keys: Seq<Seq<u8>>) -> bool {
        self.found.deep_view() == distinct_keys(keys) && self.members.deep_view() == groups(keys)
    }

    /// The grouping of nothing.
    pub fn new() -> (g: Grouping)
        ensures
            g.of(Seq::empty()),
    {
        let g = Grouping { found: Vec::new(), members: Vec::new() };
        assert(g.found.deep_view() =~= distinct_keys(Seq::empty()));
        assert(g.members.deep_view() =~= groups(Seq::empty()));
        g
    }

    /// Adds the key that stands at place `i`; gives the number of its group and whether the
    /// group is new.
    pub fn add(&mut self, key: Vec<u8>, i: usize, Ghost(keys): Ghost<Seq<Seq<u8>>>) -> (r: (
        usize,
        bool,
    ))
        requires
            old(self).of(keys),
            keys.len() == i,
        ensures
            final(self).of(keys.push(key@)),
            r.0 < distinct_keys(keys.push(key@)).len(),
            distinct_keys(keys.push(key@))[r.0 as int] == key@,
            r.1 == !distinct_keys(keys).contains(key@),
            r.1 ==> r.0 == distinct_keys(keys).len(),
    {
        match find_key(&self.found, &key) {
            Some(g) => {
                proof {
                    lemma_join_group(keys, key@, g as int);
                    assert(distinct_keys(keys)[g as int] == key@);
                    assert(self.members.deep_view().len() == self.members@.len());
                }
                push_place(&mut self.members, g, i);
                (g, false)
            },
            None => {
                let ghost old_found = self.found.deep_view();
                let ghost old_members = self.members.deep_view();
                proof {
                    lemma_new_group(keys, key@);
                    lemma_bytes_deep(key);
                }
                let g: usize = self.found.len();
                let mut list: Vec<usize> = Vec::new();
                list.push(i);
                assert(list.deep_view() =~= seq![i]);
                self.found.push(key);
                assert(self.found.deep_view() =~= old_found.push(key@));
                self.members.push(list);
                assert(self.members.deep_view() =~= old_members.push(seq![i]));
                (g, true)
            },
        }
    }

    /// The groups.
    pub fn into_groups(self, Ghost(keys): Ghost<Seq<Seq<u8>>>) -> (r: Vec<Vec<usize>>)
        requires
            self.of(keys),
            keys.len() <= usize::MAX,
        ensures
            r.deep_view() == groups(keys),
            forall|k: int|
                0 <= k < r@.len() ==> within((#[trigger] r@[k])@, keys.len() as int),
    {
        proof {
            assert(self.members.deep_view().len() == self.members@.len());
            assert forall|k: int| 0 <= k < self.members@.len() implies within(
                (#[trigger] self.members@[k])@,
                keys.len() as int,
            ) by {
                lemma_places(keys, distinct_keys(keys)[k]);
                assert(self.members.deep_view()[k] == places(keys, distinct_keys(keys)[k]));
                assert(self.members.deep_view()[k] =~= self.members@[k]@);
            }
        }
        self.members
    }
}

/// Grouping puts every row into exactly one group, that of its key.
pub proof fn law_every_row_is_in_one_group(keys: Seq<Seq<u8>>, i: int)
    requires
        0 <= i < keys.len() <= usize::MAX,
    ensures
        exists|g: int|
            0 <= g < groups(keys).len() && (#[trigger] groups(keys)[g]).contains(i as usize),
        forall|g: int|
            0 <= g < groups(keys).len() && (#[trigger] groups(keys)[g]).contains(i as usize)
                ==> distinct_keys(keys)[g] == keys[i],
        forall|g: int, k: int|
            0 <= g < k < distinct_keys(keys).len() ==> #[trigger] distinct_keys(keys)[g]
                != #[trigger] distinct_keys(keys)[k],
{
    let d = distinct_keys(keys);
    lemma_distinct(keys);
    assert(d.contains(keys[i]));
    let g = choose|g: int| 0 <= g < d.len() && d[g] == keys[i];
    assert(groups(keys)[g] == places(keys, d[g]));
    assert forall|g: int| 0 <= g < d.len() implies ((#[trigger] groups(keys)[g]).contains(
        i as usize,
    ) <==> d[g] == keys[i]) by {
        lemma_place_of_key(keys, d[g], i);
    }
}

proof fn lemma_distinct(keys: Seq<Seq<u8>>)
    ensures
        forall|key: Seq<u8>| #[trigger] distinct_keys(keys).contains(key) <==> keys.contains(key),
        forall|g: int, k: int|
            0 <= g < k < distinct_keys(keys).len() ==> #[trigger] distinct_keys(keys)[g]
                != #[trigger] distinct_keys(keys)[k],
    decreases keys.len(),
{
    if keys.len() > 0 {
        let short = keys.drop_last();
        let last = keys.last();
        let before = distinct_keys(short);
        let d = distinct_keys(keys);
        lemma_distinct(short);
        assert forall|key: Seq<u8>| #[trigger] d.contains(key) <==> keys.contains(key) by {
            if keys.contains(key) {
                let k = choose|k: int| 0 <= k < keys.len() && keys[k] == key;
                if k < short.len() {
                    assert(short[k] == key);
                    assert(before.contains(key));
                    let z = choose|z: int| 0 <= z < before.len() && before[z] == key;
                    assert(d[z] == key);
                } else if !before.contains(last) {
                    assert(d[before.len() as int] == key);
                }
            }
            if d.contains(key) {
                let z = choose|z: int| 0 <= z < d.len() && d[z] == key;
                if z < before.len() {
                    assert(before[z] == key);
                    assert(before.contains(key));
                    let k = choose|k: int| 0 <= k < short.len() && short[k] == key;
                    assert(keys[k] == key);
                } else {
                    assert(keys[keys.len() - 1] == key);
                }
            }
        }
        assert forall|g: int, k: int| 0 <= g < k < d.len() implies #[trigger] d[g]
            != #[trigger] d[k] by {
            assert(d[g] == before[g]);
            if k < before.len() {
                assert(d[k] == before[k]);
            } else {
                assert(before.contains(before[g]));
            }
        }
    }
}

proof fn lemma_place_of_key(keys: Seq<Seq<u8>>, key: Seq<u8>, i: int)
    requires
        0 <= i < keys.len() <= usize::MAX,
    ensures
        places(keys, key).contains(i as usize) <==> keys[i] == key,
    decreases keys.len(),
{
    let short = keys.drop_last();
    let before = places(short, key);
    let all = places(keys, key);
    lemma_places(short, key);
    if i < short.len() {
        lemma_place_of_key(short, key, i);
        if before.contains(i as usize) {
            let z = choose|z: int| 0 <= z < before.len() && before[z] == i as usize;
            assert(all[z] == i as usize);
        }
        if all.contains(i as usize) {
            let z = choose|z: int| 0 <= z < all.len() && all[z] == i as usize;
            if z < before.len() {
                assert(before[z] == i as usize);
            }
        }
    } else {
        if keys.last() == key {
            assert(all[before.len() as int] == i as usize);
        }
        if all.contains(i as usize) {
            let z = choose|z: int| 0 <= z < all.len() && all[z] == i as usize;
            if z < before.len() {
                assert(before[z] < short.len());
            }
        }
    }
}

} // verus!
