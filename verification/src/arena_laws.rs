//! Joins over an arena give each pair of rows with the same integer in their columns once.
use crate::arena_join::{
    arena_from, arena_key, key_by, key_hash, matched, meeting, met_rows, met_values, paired,
    pairs_from, table_parts, ArenaTuple, Met, Sides,
};
use crate::insert::nulls;
use crate::join_count_laws::{
    beside_nulls, how_many, how_many_pairs, lemma_same_count, lemma_same_pairs, lemma_turned,
    turned,
};
use crate::storage::PageView;
use crate::tuple::{column_int, tuple_read, types_of};
use crate::types::{DataType, ValueView};
use vstd::prelude::*;

verus! {

// ---------------------------------------------------------------------------
// Counting
// ---------------------------------------------------------------------------

/// How many elements of a sequence have a property.
pub open spec fn tally<T>(s: Seq<T>, w: spec_fn(T) -> bool) -> nat
    decreases s.len(),
{
    if s.len() == 0 {
        0
    } else {
        tally(s.drop_last(), w) + if w(s.last()) {
            1nat
        } else {
            0
        }
    }
}

proof fn lemma_tally_push<T>(s: Seq<T>, x: T, w: spec_fn(T) -> bool)
    ensures
        tally(s.push(x), w) == tally(s, w) + if w(x) {
            1nat
        } else {
            0
        },
{
    assert(s.push(x).drop_last() =~= s);
}

proof fn lemma_tally_add<T>(s: Seq<T>, t: Seq<T>, w: spec_fn(T) -> bool)
    ensures
        tally(s + t, w) == tally(s, w) + tally(t, w),
    decreases t.len(),
{
    if t.len() == 0 {
        assert(s + t =~= s);
    } else {
        lemma_tally_add(s, t.drop_last(), w);
        assert((s + t).drop_last() =~= s + t.drop_last());
        assert((s + t).last() == t.last());
    }
}

proof fn lemma_none(p: spec_fn(int) -> bool, n: int)
    ensures
        how_many(p, n) == 0 <==> forall|i: int| 0 <= i < n ==> !#[trigger] p(i),
    decreases n,
{
    if n > 0 {
        lemma_none(p, n - 1);
        if how_many(p, n) == 0 {
            assert forall|i: int| 0 <= i < n implies !#[trigger] p(i) by {
                if i < n - 1 {
                    assert(!p(i));
                }
            }
        }
    }
}

// ---------------------------------------------------------------------------
// The arena
// ---------------------------------------------------------------------------

/// Whether the keys of rows are found alike in both ways.
pub open spec fn keys_agree(parts: Seq<Seq<u8>>, types: Seq<DataType>, col: int) -> bool {
    forall|i: int|
        0 <= i < parts.len() ==> arena_key(#[trigger] parts[i], types, col) == column_int(
            parts[i],
            types,
            col,
        )
}

/// Whether an arena holds those of the first `n` rows that have a key, with their hash values.
spec fn arena_of(
    arena: Seq<ArenaTuple>,
    parts: Seq<Seq<u8>>,
    n: int,
    types: Seq<DataType>,
    col: int,
) -> bool
    decreases n,
{
    if n <= 0 {
        arena.len() == 0
    } else {
        match column_int(parts[n - 1], types, col) {
            Some(k) => arena.len() > 0 && arena.last() == (key_hash(k), parts[n - 1]) && arena_of(
                arena.drop_last(),
                parts,
                n - 1,
                types,
                col,
            ),
            None => arena_of(arena, parts, n - 1, types, col),
        }
    }
}

proof fn lemma_arena_of(
    parts: Seq<Seq<u8>>,
    i: int,
    types: Seq<DataType>,
    col: int,
    acc: Seq<ArenaTuple>,
)
    requires
        0 <= i <= parts.len(),
        keys_agree(parts, types, col),
        arena_of(acc, parts, i, types, col),
    ensures
        arena_of(arena_from(parts, i, types, col, acc), parts, parts.len() as int, types, col),
    decreases parts.len() - i,
{
    if i < parts.len() {
        assert(arena_key(parts[i], types, col) == column_int(parts[i], types, col));
        let next = match arena_key(parts[i], types, col) {
            Some(k) => acc.push((key_hash(k), parts[i])),
            None => acc,
        };
        if next.len() > acc.len() {
            assert(next.drop_last() =~= acc);
        }
        lemma_arena_of(parts, i + 1, types, col, next);
    }
}

/// The rows with a key and the given bytes.
spec fn keyed_as(
    parts: Seq<Seq<u8>>,
    types: Seq<DataType>,
    col: int,
    k: i64,
    f: spec_fn(Seq<u8>) -> bool,
) -> spec_fn(int) -> bool {
    |j: int| column_int(parts[j], types, col) == Some(k) && f(parts[j])
}

/// The places of an arena whose bytes have a property.
spec fn bytes_at(arena: Seq<ArenaTuple>, f: spec_fn(Seq<u8>) -> bool) -> spec_fn(int) -> bool {
    |t: int| f(arena[t].1)
}

proof fn lemma_meeting_prefix(
    arena: Seq<ArenaTuple>,
    short: Seq<ArenaTuple>,
    n: int,
    k: i64,
    fast: bool,
    types: Seq<DataType>,
    col: int,
    f: spec_fn(Seq<u8>) -> bool,
)
    requires
        n <= short.len() <= arena.len(),
        forall|t: int| 0 <= t < short.len() ==> #[trigger] arena[t] == short[t],
    ensures
        meeting(arena, n, k, fast, types, col) == meeting(short, n, k, fast, types, col),
        tally(meeting(arena, n, k, fast, types, col), bytes_at(arena, f)) == tally(
            meeting(short, n, k, fast, types, col),
            bytes_at(short, f),
        ),
    decreases n,
{
    if n > 0 {
        lemma_meeting_prefix(arena, short, n - 1, k, fast, types, col, f);
        assert(arena[n - 1] == short[n - 1]);
        let rest = meeting(arena, n - 1, k, fast, types, col);
        lemma_tally_add(seq![n - 1], rest, bytes_at(arena, f));
        lemma_tally_add(seq![n - 1], rest, bytes_at(short, f));
        lemma_tally_one(n - 1, bytes_at(arena, f));
        lemma_tally_one(n - 1, bytes_at(short, f));
    }
}

proof fn lemma_tally_one<T>(x: T, w: spec_fn(T) -> bool)
    ensures
        tally(seq![x], w) == if w(x) {
            1nat
        } else {
            0
        },
{
    assert(seq![x].drop_last() =~= Seq::<T>::empty());
    assert(tally(seq![x].drop_last(), w) == 0);
}

proof fn lemma_meeting_count(
    arena: Seq<ArenaTuple>,
    parts: Seq<Seq<u8>>,
    n: int,
    k: i64,
    fast: bool,
    types: Seq<DataType>,
    col: int,
    f: spec_fn(Seq<u8>) -> bool,
)
    requires
        0 <= n <= parts.len(),
        keys_agree(parts, types, col),
        arena_of(arena, parts, n, types, col),
    ensures
        tally(meeting(arena, arena.len() as int, k, fast, types, col), bytes_at(arena, f))
            == how_many(keyed_as(parts, types, col, k, f), n),
    decreases n,
{
    if n > 0 {
        assert(arena_key(parts[n - 1], types, col) == column_int(parts[n - 1], types, col));
        match column_int(parts[n - 1], types, col) {
            None => lemma_meeting_count(arena, parts, n - 1, k, fast, types, col, f),
            Some(c) => {
                let short = arena.drop_last();
                let m = short.len() as int;
                lemma_meeting_count(short, parts, n - 1, k, fast, types, col, f);
                lemma_meeting_prefix(arena, short, m, k, fast, types, col, f);
                assert(arena[m] == (key_hash(c), parts[n - 1]));
                let rest = meeting(arena, m, k, fast, types, col);
                if c == k {
                    assert(meeting(arena, m + 1, k, fast, types, col) == seq![m] + rest);
                    lemma_tally_add(seq![m], rest, bytes_at(arena, f));
                    lemma_tally_one(m, bytes_at(arena, f));
                }
            },
        }
    }
}

// ---------------------------------------------------------------------------
// Pairs
// ---------------------------------------------------------------------------

/// Pairs of a row and a row of the arena with the given bytes.
spec fn pair_of(
    parts: Seq<Seq<u8>>,
    arena: Seq<ArenaTuple>,
    a: Seq<u8>,
    b: Seq<u8>,
) -> spec_fn((int, Option<int>)) -> bool {
    |p: (int, Option<int>)|
        p.1 is Some && parts[p.0] == a && arena[p.1->0].1 == b
}

/// Rows with the given bytes that stand alone.
spec fn single_of(parts: Seq<Seq<u8>>, a: Seq<u8>) -> spec_fn((int, Option<int>)) -> bool {
    |p: (int, Option<int>)| p.1 is None && parts[p.0] == a
}

/// Whether two rows have the same integer in their columns.
pub open spec fn keys_equal(
    parts: Seq<Seq<u8>>,
    types: Seq<DataType>,
    col: int,
    others: Seq<Seq<u8>>,
    other_types: Seq<DataType>,
    other_col: int,
    i: int,
    j: int,
) -> bool {
    column_int(parts[i], types, col) is Some && column_int(parts[i], types, col) == column_int(
        others[j],
        other_types,
        other_col,
    )
}

/// The pairs of places of rows with the given bytes and the same integer in their columns.
pub open spec fn meeting_bytes(
    parts: Seq<Seq<u8>>,
    types: Seq<DataType>,
    col: int,
    others: Seq<Seq<u8>>,
    other_types: Seq<DataType>,
    other_col: int,
    a: Seq<u8>,
    b: Seq<u8>,
) -> spec_fn(int, int) -> bool {
    |i: int, j: int|
        parts[i] == a && others[j] == b && keys_equal(
            parts,
            types,
            col,
            others,
            other_types,
            other_col,
            i,
            j,
        )
}

/// The places of rows with the given bytes that meet no other.
pub open spec fn lonely_bytes(
    parts: Seq<Seq<u8>>,
    types: Seq<DataType>,
    col: int,
    others: Seq<Seq<u8>>,
    other_types: Seq<DataType>,
    other_col: int,
    a: Seq<u8>,
) -> spec_fn(int) -> bool {
    |i: int|
        parts[i] == a && forall|j: int|
            0 <= j < others.len() ==> !#[trigger] keys_equal(
                parts,
                types,
                col,
                others,
                other_types,
                other_col,
                i,
                j,
            )
}

proof fn lemma_paired(
    i: int,
    found: Seq<int>,
    parts: Seq<Seq<u8>>,
    arena: Seq<ArenaTuple>,
    a: Seq<u8>,
    b: Seq<u8>,
)
    ensures
        tally(paired(i, found), pair_of(parts, arena, a, b)) == if parts[i] == a {
            tally(found, bytes_at(arena, |d: Seq<u8>| d == b))
        } else {
            0
        },
        tally(paired(i, found), single_of(parts, a)) == 0,
    decreases found.len(),
{
    if found.len() > 0 {
        lemma_paired(i, found.drop_last(), parts, arena, a, b);
        assert(paired(i, found).drop_last() =~= paired(i, found.drop_last()));
        assert(paired(i, found).last() == (i, Some(found.last())));
    } else {
        assert(paired(i, found) =~= Seq::<(int, Option<int>)>::empty());
    }
}

proof fn lemma_pairs_from(
    parts: Seq<Seq<u8>>,
    i: int,
    types: Seq<DataType>,
    col: int,
    others: Seq<Seq<u8>>,
    arena: Seq<ArenaTuple>,
    arena_types: Seq<DataType>,
    arena_col: int,
    fast: bool,
    outer: bool,
    acc: Seq<(int, Option<int>)>,
    a: Seq<u8>,
    b: Seq<u8>,
)
    requires
        0 <= i <= parts.len(),
        keys_agree(parts, types, col),
        keys_agree(others, arena_types, arena_col),
        arena_of(arena, others, others.len() as int, arena_types, arena_col),
    ensures
        ({
            let all = pairs_from(
                parts,
                i,
                types,
                col,
                arena,
                arena_types,
                arena_col,
                fast,
                outer,
                acc,
            );
            let g = meeting_bytes(parts, types, col, others, arena_types, arena_col, a, b);
            let s = lonely_bytes(parts, types, col, others, arena_types, arena_col, a);
            let n = parts.len() as int;
            let m = others.len() as int;
            &&& tally(all, pair_of(parts, arena, a, b)) + how_many_pairs(g, i, m) == tally(
                acc,
                pair_of(parts, arena, a, b),
            ) + how_many_pairs(g, n, m)
            &&& tally(all, single_of(parts, a)) + (if outer {
                how_many(s, i)
            } else {
                0
            }) == tally(acc, single_of(parts, a)) + (if outer {
                how_many(s, n)
            } else {
                0
            })
        }),
    decreases parts.len() - i,
{
    if i < parts.len() {
        let m = others.len() as int;
        let g = meeting_bytes(parts, types, col, others, arena_types, arena_col, a, b);
        let s = lonely_bytes(parts, types, col, others, arena_types, arena_col, a);
        assert(arena_key(parts[i], types, col) == column_int(parts[i], types, col));
        let key = key_by(fast, parts[i], types, col);
        assert(key == column_int(parts[i], types, col));
        let found = match key {
            Some(k) => meeting(arena, arena.len() as int, k, fast, arena_types, arena_col),
            None => Seq::empty(),
        };
        let more = if found.len() == 0 && outer {
            acc.push((i, None))
        } else {
            acc + paired(i, found)
        };
        let row = |j: int| g(i, j);
        assert(how_many_pairs(g, i + 1, m) == how_many_pairs(g, i, m) + how_many(row, m));
        assert(how_many(s, i + 1) == how_many(s, i) + if s(i) {
            1nat
        } else {
            0
        });
        let same = |d: Seq<u8>| d == b;
        let any = |d: Seq<u8>| true;
        // How many rows of the other side the row meets, and how many of these have the bytes.
        let with_bytes = match key {
            Some(k) => keyed_as(others, arena_types, arena_col, k, same),
            None => |j: int| false,
        };
        let with_any = match key {
            Some(k) => keyed_as(others, arena_types, arena_col, k, any),
            None => |j: int| false,
        };
        match key {
            Some(k) => {
                lemma_meeting_count(arena, others, m, k, fast, arena_types, arena_col, same);
                lemma_meeting_count(arena, others, m, k, fast, arena_types, arena_col, any);
            },
            None => {
                lemma_none(with_bytes, m);
                lemma_none(with_any, m);
            },
        }
        assert(tally(found, bytes_at(arena, same)) == how_many(with_bytes, m));
        lemma_all_counted(found, bytes_at(arena, any));
        assert(found.len() == how_many(with_any, m));
        lemma_none(with_any, m);
        assert(found.len() == 0 <==> forall|j: int| 0 <= j < m ==> !#[trigger] keys_equal(
            parts,
            types,
            col,
            others,
            arena_types,
            arena_col,
            i,
            j,
        )) by {
            if found.len() == 0 {
                assert forall|j: int| 0 <= j < m implies !#[trigger] keys_equal(
                    parts,
                    types,
                    col,
                    others,
                    arena_types,
                    arena_col,
                    i,
                    j,
                ) by {
                    assert(!with_any(j));
                }
            } else {
                let j = choose|j: int| 0 <= j < m && #[trigger] with_any(j);
                assert(keys_equal(
                    parts,
                    types,
                    col,
                    others,
                    arena_types,
                    arena_col,
                    i,
                    j,
                ));
            }
        }
        if parts[i] == a {
            assert forall|j: int| 0 <= j < m implies #[trigger] row(j) == with_bytes(j) by {}
            lemma_same_count(row, with_bytes, m);
        } else {
            lemma_none(row, m);
        }
        lemma_paired(i, found, parts, arena, a, b);
        lemma_tally_add(acc, paired(i, found), pair_of(parts, arena, a, b));
        lemma_tally_add(acc, paired(i, found), single_of(parts, a));
        lemma_tally_push(acc, (i, None), pair_of(parts, arena, a, b));
        lemma_tally_push(acc, (i, None), single_of(parts, a));
        if found.len() == 0 {
            assert(tally(found, bytes_at(arena, same)) == 0);
        }
        lemma_pairs_from(
            parts,
            i + 1,
            types,
            col,
            others,
            arena,
            arena_types,
            arena_col,
            fast,
            outer,
            more,
            a,
            b,
        );
    }
}

proof fn lemma_all_counted(s: Seq<int>, w: spec_fn(int) -> bool)
    requires
        forall|t: int| #[trigger] w(t),
    ensures
        tally(s, w) == s.len(),
    decreases s.len(),
{
    if s.len() > 0 {
        lemma_all_counted(s.drop_last(), w);
        assert(w(s.last()));
    }
}

/// Rows that meet, as the given bytes.
pub open spec fn is_met_as(x: Met) -> spec_fn(Met) -> bool {
    |m: Met| m == x
}

proof fn lemma_met_rows(
    pairs: Seq<(int, Option<int>)>,
    parts: Seq<Seq<u8>>,
    arena: Seq<ArenaTuple>,
    arena_is_left: bool,
    a: Seq<u8>,
    b: Seq<u8>,
)
    ensures
        ({
            let met = met_rows(pairs, parts, arena, arena_is_left);
            let x = if arena_is_left {
                (b, Some(a))
            } else {
                (a, Some(b))
            };
            &&& tally(met, is_met_as(x)) == tally(pairs, pair_of(parts, arena, a, b))
            &&& tally(met, is_met_as((a, None))) == tally(pairs, single_of(parts, a))
        }),
    decreases pairs.len(),
{
    let met = met_rows(pairs, parts, arena, arena_is_left);
    if pairs.len() > 0 {
        lemma_met_rows(pairs.drop_last(), parts, arena, arena_is_left, a, b);
        assert(met.drop_last() =~= met_rows(pairs.drop_last(), parts, arena, arena_is_left));
        assert(met.last() == met[pairs.len() - 1]);
    } else {
        assert(met =~= Seq::<Met>::empty());
    }
}

/// Two tables joined over an arena give each pair of a left and a right row with the same integer in
/// their columns, as often as there are such pairs, and an outer join besides each left row alone
/// that has the integer of no right row. Nothing else comes out.
pub proof fn law_arena_join_gives_each_pair(
    pages: Seq<PageView>,
    s: Sides,
    fast: bool,
    outer: bool,
    lparts: Seq<Seq<u8>>,
    rparts: Seq<Seq<u8>>,
    a: Seq<u8>,
    b: Seq<u8>,
)
    requires
        table_parts(pages, s.left) == Some(lparts),
        table_parts(pages, s.right) == Some(rparts),
        keys_agree(lparts, types_of(s.left.schema), s.lk),
        keys_agree(rparts, types_of(s.right.schema), s.rk),
    ensures
        ({
            let met = matched(pages, s, fast, outer);
            let ltypes = types_of(s.left.schema);
            let rtypes = types_of(s.right.schema);
            &&& met is Some
            &&& tally(met->0, is_met_as((a, Some(b)))) == how_many_pairs(
                meeting_bytes(lparts, ltypes, s.lk, rparts, rtypes, s.rk, a, b),
                lparts.len() as int,
                rparts.len() as int,
            )
            &&& tally(met->0, is_met_as((a, None))) == if outer {
                how_many(
                    lonely_bytes(lparts, ltypes, s.lk, rparts, rtypes, s.rk, a),
                    lparts.len() as int,
                )
            } else {
                0
            }
        }),
{
    let ltypes = types_of(s.left.schema);
    let rtypes = types_of(s.right.schema);
    let n = lparts.len() as int;
    let m = rparts.len() as int;
    let none = Seq::<(int, Option<int>)>::empty();
    if outer || rtypes.len() <= ltypes.len() {
        let arena = arena_from(rparts, 0, rtypes, s.rk, Seq::empty());
        lemma_arena_of(rparts, 0, rtypes, s.rk, Seq::empty());
        lemma_pairs_from(
            lparts,
            0,
            ltypes,
            s.lk,
            rparts,
            arena,
            rtypes,
            s.rk,
            fast,
            outer,
            none,
            a,
            b,
        );
        let pairs = pairs_from(lparts, 0, ltypes, s.lk, arena, rtypes, s.rk, fast, outer, none);
        lemma_met_rows(pairs, lparts, arena, false, a, b);
    } else {
        let arena = arena_from(lparts, 0, ltypes, s.lk, Seq::empty());
        lemma_arena_of(lparts, 0, ltypes, s.lk, Seq::empty());
        lemma_pairs_from(
            rparts,
            0,
            rtypes,
            s.rk,
            lparts,
            arena,
            ltypes,
            s.lk,
            fast,
            false,
            none,
            b,
            a,
        );
        let pairs = pairs_from(rparts, 0, rtypes, s.rk, arena, ltypes, s.lk, fast, false, none);
        lemma_met_rows(pairs, rparts, arena, true, b, a);
        let g = meeting_bytes(lparts, ltypes, s.lk, rparts, rtypes, s.rk, a, b);
        let back = meeting_bytes(rparts, rtypes, s.rk, lparts, ltypes, s.lk, b, a);
        assert forall|i: int, j: int| 0 <= i < m && 0 <= j < n implies #[trigger] back(i, j)
            == turned(g)(i, j) by {}
        lemma_same_pairs(back, turned(g), m, n);
        lemma_turned(g, n, m);
        lemma_pairs_from(
            rparts,
            0,
            rtypes,
            s.rk,
            lparts,
            arena,
            ltypes,
            s.lk,
            fast,
            false,
            none,
            a,
            a,
        );
        lemma_met_rows(pairs, rparts, arena, true, a, a);
    }
}

proof fn lemma_met_values(
    met: Seq<Met>,
    i: int,
    ltypes: Seq<DataType>,
    rtypes: Seq<DataType>,
    acc: Seq<Seq<ValueView>>,
)
    requires
        0 <= i <= met.len(),
        acc.len() == i,
        forall|k: int|
            0 <= k < i ==> tells_met(met[k], ltypes, rtypes, #[trigger] acc[k]),
        met_values(met, i, ltypes, rtypes, acc) is Some,
    ensures
        ({
            let out = met_values(met, i, ltypes, rtypes, acc)->0;
            out.len() == met.len() && forall|k: int|
                0 <= k < met.len() ==> tells_met(met[k], ltypes, rtypes, #[trigger] out[k])
        }),
    decreases met.len() - i,
{
    if i < met.len() {
        let l = tuple_read(met[i].0, ltypes)->Ok_0;
        let row = match met[i].1 {
            None => l + nulls(rtypes.len()),
            Some(d) => l + tuple_read(d, rtypes)->Ok_0,
        };
        let next = acc.push(row);
        assert(tells_met(met[i], ltypes, rtypes, row)) by {
            if met[i].1 is None {
                assert(row.take(l.len() as int) =~= l);
            }
        }
        assert forall|k: int| 0 <= k < i + 1 implies tells_met(
            met[k],
            ltypes,
            rtypes,
            #[trigger] next[k],
        ) by {
            if k < i {
                assert(next[k] == acc[k]);
            }
        }
        lemma_met_values(met, i + 1, ltypes, rtypes, next);
    }
}

/// Whether values are those of two rows that meet, one behind the other, or of the left one with
/// NULLs behind it.
pub open spec fn tells_met(
    m: Met,
    ltypes: Seq<DataType>,
    rtypes: Seq<DataType>,
    x: Seq<ValueView>,
) -> bool {
    tuple_read(m.0, ltypes) matches Ok(l) && match m.1 {
        None => beside_nulls(l, rtypes.len() as int, true, x),
        Some(d) => tuple_read(d, rtypes) matches Ok(r) && x == l + r,
    }
}

/// The rows of a join over an arena are those that meet, in their order.
pub proof fn law_met_rows_are_read(met: Seq<Met>, ltypes: Seq<DataType>, rtypes: Seq<DataType>)
    requires
        met_values(met, 0, ltypes, rtypes, Seq::empty()) is Some,
    ensures
        ({
            let out = met_values(met, 0, ltypes, rtypes, Seq::empty())->0;
            out.len() == met.len() && forall|k: int|
                0 <= k < met.len() ==> tells_met(met[k], ltypes, rtypes, #[trigger] out[k])
        }),
{
    lemma_met_values(met, 0, ltypes, rtypes, Seq::empty());
}

} // verus!
