//! Integers as little-endian bytes.
use vstd::prelude::*;

verus! {

/// The `k` low base-256 digits of `n`, the lowest first.
pub open spec fn le(n: int, k: nat) -> Seq<u8>
    decreases k,
{
    if k == 0 {
        Seq::empty()
    } else {
        seq![(n % 256) as u8] + le(n / 256, (k - 1) as nat)
    }
}

/// The number whose base-256 digits, the lowest first, are `s`.
pub open spec fn le_value(s: Seq<u8>) -> int
    decreases s.len(),
{
    if s.len() == 0 {
        0
    } else {
        s[0] as int + 256 * le_value(s.skip(1))
    }
}

/// 256 to the power `k`.
pub open spec fn pow256(k: nat) -> int
    decreases k,
{
    if k == 0 {
        1
    } else {
        256 * pow256((k - 1) as nat)
    }
}

/// Two's complement of an integer in a word of `k` bytes.
pub open spec fn complement(n: int, k: nat) -> int {
    if n < 0 {
        n + pow256(k)
    } else {
        n
    }
}

/// The signed integer that a word of `k` bytes holds in two's complement.
pub open spec fn signed(n: int, k: nat) -> int {
    if 2 * n >= pow256(k) {
        n - pow256(k)
    } else {
        n
    }
}

pub proof fn lemma_le_len(n: int, k: nat)
    ensures
        le(n, k).len() == k,
    decreases k,
{
    if k > 0 {
        lemma_le_len(n / 256, (k - 1) as nat);
    }
}

/// Reading gives back what was written.
pub proof fn lemma_le_round_trip(n: int, k: nat)
    requires
        0 <= n < pow256(k),
    ensures
        le(n, k).len() == k,
        le_value(le(n, k)) == n,
    decreases k,
{
    if k > 0 {
        assert(n / 256 < pow256((k - 1) as nat));
        lemma_le_round_trip(n / 256, (k - 1) as nat);
        assert(le(n, k).skip(1) == le(n / 256, (k - 1) as nat));
        assert(le(n, k)[0] == (n % 256) as u8);
    }
}

pub proof fn lemma_pow256()
    ensures
        pow256(0) == 1,
        pow256(1) == 0x100,
        pow256(2) == 0x1_0000,
        pow256(4) == 0x1_0000_0000,
        pow256(8) == 0x1_0000_0000_0000_0000,
{
    reveal_with_fuel(pow256, 9);
}

pub proof fn lemma_le_value_bound(s: Seq<u8>)
    ensures
        0 <= le_value(s) < pow256(s.len()),
    decreases s.len(),
{
    if s.len() > 0 {
        lemma_le_value_bound(s.skip(1));
    }
}

/// Appends the `k` low bytes of a number.
pub fn put_le(buf: &mut Vec<u8>, n: u64, k: usize)
    ensures
        final(buf)@ == old(buf)@ + le(n as int, k as nat),
{
    let mut rest: u64 = n;
    let mut i: usize = 0;
    let ghost start = buf@;
    assert(start + le(n as int, k as nat) == buf@ + le(rest as int, (k - i) as nat));
    while i < k
        invariant
            0 <= i <= k,
            start + le(n as int, k as nat) == buf@ + le(rest as int, (k - i) as nat),
        decreases k - i,
    {
        let ghost before = buf@;
        buf.push((rest % 256) as u8);
        assert(before + le(rest as int, (k - i) as nat) == buf@ + le(
            (rest / 256) as int,
            (k - i - 1) as nat,
        ));
        rest = rest / 256;
        i += 1;
    }
    assert(buf@ + le(rest as int, 0) == buf@);
}

/// The number that the `k` bytes from `at` on hold, the lowest byte first.
pub fn get_le(buf: &[u8], at: usize, k: usize) -> (n: u64)
    requires
        at + k <= buf.len(),
        k <= 8,
    ensures
        n == le_value(buf@.subrange(at as int, at + k)),
        n < pow256(k as nat),
{
    let mut acc: u64 = 0;
    let mut i: usize = k;
    let ghost s = buf@.subrange(at as int, at + k);
    proof {
        assert(s.skip(k as int) =~= Seq::<u8>::empty());
        lemma_pow256();
    }
    while i > 0
        invariant
            0 <= i <= k <= 8,
            at + k <= buf.len(),
            s == buf@.subrange(at as int, at + k),
            acc == le_value(s.skip(i as int)),
        decreases i,
    {
        i -= 1;
        proof {
            lemma_le_value_bound(s.skip(i + 1));
            assert(s.skip(i as int).skip(1) == s.skip(i + 1));
            lemma_pow256_mono((k - i - 1) as nat, 7);
            reveal_with_fuel(pow256, 9);
        }
        acc = acc * 256 + buf[at + i] as u64;
    }
    assert(s.skip(0) == s);
    proof {
        lemma_le_value_bound(s);
    }
    acc
}

pub proof fn lemma_pow256_mono(a: nat, b: nat)
    requires
        a <= b,
    ensures
        0 < pow256(a) <= pow256(b),
    decreases b,
{
    if a < b {
        lemma_pow256_mono(a, (b - 1) as nat);
    } else if a > 0 {
        lemma_pow256_mono((a - 1) as nat, (a - 1) as nat);
    }
}

/// The 32-bit word that holds a signed integer.
pub fn word_i32(n: i32) -> (r: u64)
    ensures
        r == complement(n as int, 4),
        r < 0x1_0000_0000,
{
    proof {
        lemma_pow256();
    }
    if n < 0 {
        (n as i64 + 0x1_0000_0000) as u64
    } else {
        n as u64
    }
}

/// The 64-bit word that holds a signed integer.
pub fn word_i64(n: i64) -> (r: u64)
    ensures
        r == complement(n as int, 8),
{
    proof {
        lemma_pow256();
    }
    if n < 0 {
        (n as i128 + 0x1_0000_0000_0000_0000) as u64
    } else {
        n as u64
    }
}

/// The signed integer that a 32-bit word holds.
pub fn as_i32(n: u64) -> (r: i32)
    requires
        n < 0x1_0000_0000,
    ensures
        r == signed(n as int, 4),
{
    proof {
        lemma_pow256();
    }
    if n >= 0x8000_0000 {
        (n as i64 - 0x1_0000_0000) as i32
    } else {
        n as i32
    }
}

/// The signed integer that a 64-bit word holds.
pub fn as_i64(n: u64) -> (r: i64)
    ensures
        r == signed(n as int, 8),
{
    proof {
        lemma_pow256();
    }
    if n >= 0x8000_0000_0000_0000 {
        (n as i128 - 0x1_0000_0000_0000_0000) as i64
    } else {
        n as i64
    }
}

/// A word gives back the signed integer that was put into it.
pub proof fn lemma_signed_round_trip(n: int, k: nat)
    requires
        k > 0,
        -pow256(k) <= 2 * n < pow256(k),
    ensures
        signed(complement(n, k), k) == n,
        0 <= complement(n, k) < pow256(k),
{
    lemma_pow256_mono(k, k);
}

/// Appends a copy of a byte slice.
pub fn put_bytes(buf: &mut Vec<u8>, more: &[u8])
    ensures
        final(buf)@ == old(buf)@ + more@,
{
    let ghost start = buf@;
    buf.extend_from_slice(more);
    assert(buf@ =~= start + more@);
}

/// Whether two byte vectors are equal.
pub fn same_bytes(x: &Vec<u8>, y: &Vec<u8>) -> (r: bool)
    ensures
        r == (x@ == y@),
{
    if x.len() != y.len() {
        return false;
    }
    let mut i: usize = 0;
    while i < x.len()
        invariant
            0 <= i <= x.len(),
            x.len() == y.len(),
            forall|j: int| 0 <= j < i ==> x@[j] == y@[j],
        decreases x.len() - i,
    {
        if x[i] != y[i] {
            return false;
        }
        i += 1;
    }
    assert(x@ =~= y@);
    true
}

/// The place of a key among keys; none, where it does not occur.
pub fn find_key(keys: &Vec<Vec<u8>>, key: &Vec<u8>) -> (r: Option<usize>)
    ensures
        r is Some ==> r->0 < keys.len() && keys.deep_view()[r->0 as int] == key@,
        r is Some ==> forall|j: int| 0 <= j < r->0 ==> keys.deep_view()[j] != key@,
        r is None ==> !keys.deep_view().contains(key@),
{
    let mut i: usize = 0;
    while i < keys.len()
        invariant
            0 <= i <= keys.len(),
            forall|j: int| 0 <= j < i ==> keys.deep_view()[j] != key@,
        decreases keys.len() - i,
    {
        assert(keys.deep_view()[i as int] == keys@[i as int].deep_view());
        proof {
            lemma_bytes_deep(keys@[i as int]);
        }
        if same_bytes(&keys[i], key) {
            return Some(i);
        }
        i += 1;
    }
    None
}

pub proof fn lemma_bytes_deep(v: Vec<u8>)
    ensures
        v.deep_view() == v@,
{
    assert(v.deep_view() =~= v@);
}

} // verus!
