//! What looking a value up in an index finds, on one column or on several.
use crate::bytes::{le, lemma_le_len, lemma_le_round_trip, lemma_pow256};
use crate::common::RID;
use crate::composite::{bytes_as_text, composite_from, composite_key, first_part, part_bytes};
use crate::index::{key_meets, rids_from, IndexView};
use crate::types::ValueView;
use crate::values::sort_key;
use vstd::prelude::*;
use vstd::utf8::{
    char_u32_cast, decode_first_scalar, encode_scalar, encode_utf8, encode_utf8_first_scalar,
    length_of_first_scalar,
};

verus! {

/// A lookup finds the places of the entries whose keys meet the value, and no others.
pub proof fn law_lookup_finds_entries(index: IndexView, v: ValueView, rid: RID)
    ensures
        index.all_found(v).contains(rid) <==> exists|k: int|
            0 <= k < index.entries.len() && (#[trigger] index.entries[k]).1 == rid && key_meets(
                index.entries[k].0,
                index.wanted(v),
                index.several(),
            ),
{
    lemma_rids_from(index.entries, index.wanted(v), index.several(), 0, Seq::empty(), rid);
}

proof fn lemma_rids_from(
    entries: Seq<(Seq<u8>, RID)>,
    key: Seq<u8>,
    several: bool,
    i: int,
    acc: Seq<RID>,
    rid: RID,
)
    requires
        0 <= i <= entries.len(),
    ensures
        rids_from(entries, key, several, i, acc).contains(rid) <==> acc.contains(rid) || exists|
            k: int,
        |
            i <= k < entries.len() && (#[trigger] entries[k]).1 == rid && key_meets(
                entries[k].0,
                key,
                several,
            ),
    decreases entries.len() - i,
{
    if i < entries.len() {
        let next = if key_meets(entries[i].0, key, several) {
            acc.push(entries[i].1)
        } else {
            acc
        };
        lemma_rids_from(entries, key, several, i + 1, next, rid);
        if key_meets(entries[i].0, key, several) {
            assert(next.contains(rid) <==> acc.contains(rid) || entries[i].1 == rid) by {
                assert(next[acc.len() as int] == entries[i].1);
                if acc.contains(rid) {
                    let j = choose|j: int| 0 <= j < acc.len() && acc[j] == rid;
                    assert(next[j] == rid);
                }
                if next.contains(rid) {
                    let j = choose|j: int| 0 <= j < next.len() && next[j] == rid;
                    if j < acc.len() {
                        assert(acc[j] == rid);
                    }
                }
            }
        }
    }
}

/// In an index on several columns a lookup by the first one meets the keys of just those rows
/// that have the value there.
pub proof fn law_prefix_meets_first_column(row: Seq<ValueView>, cols: Seq<int>, v: ValueView)
    requires
        cols.len() > 0,
        composite_key(row, cols) is Some,
        sort_key(v).len() < 0x1_0000_0000,
        sort_key(row[cols[0]]).len() < 0x1_0000_0000,
    ensures
        key_meets(sort_key(composite_key(row, cols)->0), sort_key(first_part(v)), true) <==> sort_key(
            row[cols[0]],
        ) == sort_key(v),
{
    let own = part_bytes(row[cols[0]]);
    let all = composite_from(row, cols, 0, Seq::empty())->0;
    let p = part_bytes(v);
    lemma_composite(row, cols, 0, Seq::empty());
    assert(Seq::<u8>::empty() + le(sort_key(row[cols[0]]).len() as int, 4) + sort_key(row[cols[0]])
        =~= own);
    lemma_composite(row, cols, 1, own);
    assert(all.take(own.len() as int) =~= own);
    lemma_part(row[cols[0]]);
    lemma_part(v);
    let a = bytes_as_text(all);
    let b = bytes_as_text(p);
    let ea = encode_utf8(a);
    let eb = encode_utf8(b);
    let ka = seq![5u8] + ea;
    let kb = seq![5u8] + eb;
    if key_meets(ka, kb, true) {
        assert(ea.take(eb.len() as int) =~= ka.take(kb.len() as int).skip(1));
        assert(ea.take(eb.len() as int) =~= eb);
        lemma_encoded_prefix(a, b);
        assert forall|i: int| 0 <= i < p.len() implies all[i] == p[i] by {
            assert(a.take(b.len() as int)[i] == b[i]);
            assert(a[i] == b[i]);
        }
        assert(all.take(4) =~= p.take(4));
        assert(own.take(4) =~= all.take(4)) by {
            assert(all.take(own.len() as int).take(4) =~= all.take(4));
        }
        lemma_pow256();
        lemma_le_round_trip(sort_key(v).len() as int, 4);
        lemma_le_round_trip(sort_key(row[cols[0]]).len() as int, 4);
        assert(own.len() == p.len());
        assert(own =~= p) by {
            assert forall|i: int| 0 <= i < p.len() implies own[i] == p[i] by {
                assert(all.take(own.len() as int)[i] == own[i]);
            }
        }
        assert(own.skip(4) =~= sort_key(row[cols[0]]));
        assert(p.skip(4) =~= sort_key(v));
    }
    if sort_key(row[cols[0]]) == sort_key(v) {
        let rest = bytes_as_text(all.skip(own.len() as int));
        assert(a =~= b + rest);
        lemma_encoded_sum(b, rest);
        assert(ka.take(kb.len() as int) =~= kb);
    }
}

proof fn lemma_part(v: ValueView)
    ensures
        part_bytes(v).len() == 4 + sort_key(v).len(),
        part_bytes(v).take(4) == le(sort_key(v).len() as int, 4),
{
    lemma_le_len(sort_key(v).len() as int, 4);
    assert(part_bytes(v).take(4) =~= le(sort_key(v).len() as int, 4));
}

/// What has been gathered of a key stays at its beginning.
proof fn lemma_composite(row: Seq<ValueView>, cols: Seq<int>, i: int, acc: Seq<u8>)
    requires
        0 <= i,
        composite_from(row, cols, i, acc) is Some,
    ensures
        acc.len() <= composite_from(row, cols, i, acc)->0.len(),
        composite_from(row, cols, i, acc)->0.take(acc.len() as int) == acc,
    decreases cols.len() - i,
{
    if i < cols.len() {
        let part = sort_key(row[cols[i]]);
        let next = acc + le(part.len() as int, 4) + part;
        lemma_composite(row, cols, i + 1, next);
        let all = composite_from(row, cols, i, acc)->0;
        assert(all.take(acc.len() as int) =~= all.take(next.len() as int).take(acc.len() as int));
        assert(next.take(acc.len() as int) =~= acc);
    } else {
        assert(acc.take(acc.len() as int) =~= acc);
    }
}

proof fn lemma_encoded_sum(a: Seq<char>, b: Seq<char>)
    ensures
        encode_utf8(a + b) == encode_utf8(a) + encode_utf8(b),
    decreases a.len(),
{
    if a.len() == 0 {
        assert(a + b =~= b);
        assert(encode_utf8(a) + encode_utf8(b) =~= encode_utf8(b));
    } else {
        assert((a + b).drop_first() =~= a.drop_first() + b);
        lemma_encoded_sum(a.drop_first(), b);
        let s = encode_scalar(a[0] as u32);
        assert(s + (encode_utf8(a.drop_first()) + encode_utf8(b)) =~= s + encode_utf8(
            a.drop_first(),
        ) + encode_utf8(b));
    }
}

/// A text whose bytes begin with those of another begins with it.
proof fn lemma_encoded_prefix(a: Seq<char>, p: Seq<char>)
    requires
        encode_utf8(p).len() <= encode_utf8(a).len(),
        encode_utf8(a).take(encode_utf8(p).len() as int) == encode_utf8(p),
    ensures
        p.len() <= a.len(),
        a.take(p.len() as int) == p,
    decreases p.len(),
{
    if p.len() == 0 {
        assert(a.take(0) =~= p);
    } else {
        let ea = encode_utf8(a);
        let ep = encode_utf8(p);
        encode_utf8_first_scalar(p);
        assert(ep.len() > 0);
        assert(a.len() > 0);
        encode_utf8_first_scalar(a);
        let n = length_of_first_scalar(ep);
        assert(ea.take(ep.len() as int)[0] == ea[0]);
        assert(n == length_of_first_scalar(ea));
        assert(ep.len() >= n);
        assert forall|i: int| 0 <= i < n implies ea[i] == ep[i] by {
            assert(ea.take(ep.len() as int)[i] == ea[i]);
        }
        assert(decode_first_scalar(ea) == decode_first_scalar(ep));
        char_u32_cast(a[0], decode_first_scalar(ea));
        char_u32_cast(p[0], decode_first_scalar(ep));
        assert(a[0] == p[0]);
        let ra = encode_utf8(a.drop_first());
        let rp = encode_utf8(p.drop_first());
        assert(ra =~= ea.skip(n));
        assert(rp =~= ep.skip(n));
        assert(ra.take(rp.len() as int) =~= ea.take(ep.len() as int).skip(n));
        lemma_encoded_prefix(a.drop_first(), p.drop_first());
        assert(a.take(p.len() as int) =~= p) by {
            assert forall|i: int| 0 <= i < p.len() implies a[i] == p[i] by {
                if i > 0 {
                    assert(a.drop_first().take(p.len() - 1)[i - 1] == p.drop_first()[i - 1]);
                }
            }
        }
    }
}

} // verus!
