//! Text as sequences of characters: comparison, search, trimming, numbers in decimal.
use crate::order::{int_order, Order};
use vstd::prelude::*;
use vstd::utf8::{decode_utf8, valid_utf8};

verus! {

/// The uppercase form of a text under the Unicode rules that `str::to_uppercase` follows.
pub uninterp spec fn upper_text(s: Seq<char>) -> Seq<char>;

/// The lowercase form of a text under the Unicode rules that `str::to_lowercase` follows.
pub uninterp spec fn lower_text(s: Seq<char>) -> Seq<char>;

/// `str::to_uppercase`: the result depends on the text alone and is named [`upper_text`].
pub assume_specification[ str::to_uppercase ](s: &str) -> (r: std::string::String)
    ensures
        r@ == upper_text(s@),
;

/// `str::to_lowercase`: the result depends on the text alone and is named [`lower_text`].
pub assume_specification[ str::to_lowercase ](s: &str) -> (r: std::string::String)
    ensures
        r@ == lower_text(s@),
;

/// `String::push` appends one character.
pub assume_specification[ std::string::String::push ](s: &mut std::string::String, c: char)
    ensures
        final(s)@ == old(s)@.push(c),
;

/// `String::from_utf8` gives the text that bytes encode in UTF-8, if they encode one.
#[verifier::external_body]
pub(crate) fn string_from_utf8(b: Vec<u8>) -> (r: Option<String>)
    ensures
        r is Some == valid_utf8(b@),
        r is Some ==> r->0@ == decode_utf8(b@),
{
    String::from_utf8(b).ok()
}

/// The characters of a text.
pub fn chars_of(s: &str) -> (r: Vec<char>)
    ensures
        r@ == s@,
{
    let mut out: Vec<char> = Vec::new();
    let it = s.chars();
    for c in iter: it
        invariant
            iter.seq() == s@,
            out@ == iter.seq().take(iter.index()),
    {
        assert(iter.seq().take(iter.index() + 1) == iter.seq().take(iter.index()).push(c));
        out.push(c);
    }
    assert(s@.take(s@.len() as int) == s@);
    out
}

/// The text made of `chars[from..to]`.
pub fn string_of(chars: &Vec<char>, from: usize, to: usize) -> (r: String)
    requires
        from <= to <= chars.len(),
    ensures
        r@ == chars@.subrange(from as int, to as int),
{
    let mut out = String::new();
    let mut i: usize = from;
    assert(chars@.subrange(from as int, from as int) == Seq::<char>::empty());
    while i < to
        invariant
            from <= i <= to <= chars.len(),
            out@ == chars@.subrange(from as int, i as int),
        decreases to - i,
    {
        out.push(chars[i]);
        assert(chars@.subrange(from as int, i + 1) == chars@.subrange(from as int, i as int).push(
            chars@[i as int],
        ));
        i += 1;
    }
    out
}

/// Whether two texts are equal.
pub fn same_text(a: &str, b: &str) -> (r: bool)
    ensures
        r == (a@ == b@),
{
    let x = chars_of(a);
    let y = chars_of(b);
    same_chars(&x, &y)
}

/// Whether two character vectors are equal.
pub fn same_chars(x: &Vec<char>, y: &Vec<char>) -> (r: bool)
    ensures
        r == (x@ == y@),
{
    if x.len() != y.len() {
        return false;
    }
    let mut i: usize = 0;
    while i < x.len()
        invariant
            0 <= i <= x.len(),
            x.len() == y.len(),
            forall|j: int| 0 <= j < i ==> x@[j] == y@[j],
        decreases x.len() - i,
    {
        if x[i] != y[i] {
            return false;
        }
        i += 1;
    }
    assert(x@ =~= y@);
    true
}

/// Appends `b` to `a`.
pub fn joined(a: &str, b: &str) -> (r: String)
    ensures
        r@ == a@ + b@,
{
    let mut s = a.to_owned();
    s.append(b);
    s
}

// ---------------------------------------------------------------------------
// Comparison
// ---------------------------------------------------------------------------

/// The code of a character, an ASCII capital counting as its small letter.
pub open spec fn ascii_fold(c: char) -> int {
    if 'A' <= c && c <= 'Z' {
        c as int + 32
    } else {
        c as int
    }
}

/// Equality of two texts up to the case of ASCII letters.
pub open spec fn same_name(a: Seq<char>, b: Seq<char>) -> bool {
    a.len() == b.len() && forall|i: int|
        0 <= i < a.len() ==> ascii_fold(#[trigger] a[i]) == ascii_fold(b[i])
}

/// The code of a character.
pub fn code(c: char) -> (r: u32)
    ensures
        r == c as int,
        r <= 0x10ffff,
{
    c as u32
}

fn fold(c: char) -> (r: u32)
    ensures
        r == ascii_fold(c),
{
    if 'A' <= c && c <= 'Z' {
        c as u32 + 32
    } else {
        c as u32
    }
}

/// Whether two texts are equal up to the case of ASCII letters.
pub fn eq_ignore_ascii_case(a: &str, b: &str) -> (r: bool)
    ensures
        r == same_name(a@, b@),
{
    let x = chars_of(a);
    let y = chars_of(b);
    if x.len() != y.len() {
        return false;
    }
    let mut i: usize = 0;
    while i < x.len()
        invariant
            0 <= i <= x.len(),
            x.len() == y.len(),
            x@ == a@,
            y@ == b@,
            forall|j: int| 0 <= j < i ==> ascii_fold(#[trigger] x@[j]) == ascii_fold(y@[j]),
        decreases x.len() - i,
    {
        if fold(x[i]) != fold(y[i]) {
            assert(ascii_fold(a@[i as int]) != ascii_fold(b@[i as int]));
            return false;
        }
        i += 1;
    }
    true
}

/// The lexicographic order of two texts by character codes.
pub open spec fn text_order(a: Seq<char>, b: Seq<char>) -> Order
    decreases a.len(),
{
    if a.len() == 0 {
        if b.len() == 0 {
            Order::Equal
        } else {
            Order::Less
        }
    } else if b.len() == 0 {
        Order::Greater
    } else if a[0] == b[0] {
        text_order(a.skip(1), b.skip(1))
    } else {
        int_order(a[0] as int, b[0] as int)
    }
}

/// Compares two texts by character codes.
pub fn order_text(a: &str, b: &str) -> (r: Order)
    ensures
        r == text_order(a@, b@),
{
    let x = chars_of(a);
    let y = chars_of(b);
    let mut i: usize = 0;
    assert(a@.skip(0) == a@ && b@.skip(0) == b@);
    while i < x.len() && i < y.len()
        invariant
            0 <= i <= x.len(),
            i <= y.len(),
            x@ == a@,
            y@ == b@,
            text_order(a@, b@) == text_order(a@.skip(i as int), b@.skip(i as int)),
        decreases x.len() - i,
    {
        if x[i] != y[i] {
            assert(a@.skip(i as int)[0] == x@[i as int]);
            assert(b@.skip(i as int)[0] == y@[i as int]);
            return if code(x[i]) < code(y[i]) {
                Order::Less
            } else {
                Order::Greater
            };
        }
        assert(a@.skip(i as int).skip(1) == a@.skip(i + 1));
        assert(b@.skip(i as int).skip(1) == b@.skip(i + 1));
        i += 1;
    }
    if i == x.len() {
        if i == y.len() {
            Order::Equal
        } else {
            Order::Less
        }
    } else {
        Order::Greater
    }
}

// ---------------------------------------------------------------------------
// Trimming
// ---------------------------------------------------------------------------

/// A class of characters that can be trimmed away.
#[derive(Debug, Clone, Copy, PartialEq, Eq, Structural)]
pub enum CharSet {
    /// The characters with the Unicode property White_Space.
    White,
    /// One character.
    One(char),
}

/// Whether a character has the Unicode property White_Space.
pub open spec fn white(c: char) -> bool {
    let n = c as int;
    (9 <= n <= 13) || n == 0x20 || n == 0x85 || n == 0xa0 || n == 0x1680 || (0x2000 <= n <= 0x200a)
        || n == 0x2028 || n == 0x2029 || n == 0x202f || n == 0x205f || n == 0x3000
}

/// Whether a character has the Unicode property White_Space.
pub fn is_white(c: char) -> (r: bool)
    ensures
        r == white(c),
{
    let n: u32 = c as u32;
    (9 <= n && n <= 13) || n == 0x20 || n == 0x85 || n == 0xa0 || n == 0x1680 || (0x2000 <= n && n
        <= 0x200a) || n == 0x2028 || n == 0x2029 || n == 0x202f || n == 0x205f || n == 0x3000
}

impl CharSet {
    pub open spec fn has(self, c: char) -> bool {
        match self {
            CharSet::White => white(c),
            CharSet::One(d) => c == d,
        }
    }

    fn holds(self, c: char) -> (r: bool)
        ensures
            r == self.has(c),
    {
        match self {
            CharSet::White => is_white(c),
            CharSet::One(d) => c == d,
        }
    }
}

/// A text without its leading characters of a class.
pub open spec fn trim_start(s: Seq<char>, set: CharSet) -> Seq<char>
    decreases s.len(),
{
    if s.len() > 0 && set.has(s[0]) {
        trim_start(s.skip(1), set)
    } else {
        s
    }
}

/// A text without its trailing characters of a class.
pub open spec fn trim_end(s: Seq<char>, set: CharSet) -> Seq<char>
    decreases s.len(),
{
    if s.len() > 0 && set.has(s.last()) {
        trim_end(s.drop_last(), set)
    } else {
        s
    }
}

/// A text without its leading and trailing characters of a class.
pub open spec fn trim_both(s: Seq<char>, set: CharSet) -> Seq<char> {
    trim_end(trim_start(s, set), set)
}

/// A text without its surrounding white space.
pub open spec fn trimmed(s: Seq<char>) -> Seq<char> {
    trim_both(s, CharSet::White)
}

/// The number of leading characters of a class.
pub fn skip_start(s: &Vec<char>, set: CharSet) -> (n: usize)
    ensures
        n <= s.len(),
        trim_start(s@, set) == s@.skip(n as int),
        n < s.len() ==> !set.has(s@[n as int]),
{
    let mut i: usize = 0;
    assert(s@.skip(0) == s@);
    while i < s.len() && set.holds(s[i])
        invariant
            0 <= i <= s.len(),
            trim_start(s@, set) == trim_start(s@.skip(i as int), set),
        decreases s.len() - i,
    {
        assert(s@.skip(i as int).skip(1) == s@.skip(i + 1));
        i += 1;
    }
    i
}

/// A text without its leading characters of a class.
pub fn trim_start_text(s: &str, set: CharSet) -> (r: String)
    ensures
        r@ == trim_start(s@, set),
{
    let c = chars_of(s);
    let n = skip_start(&c, set);
    assert(c@.subrange(n as int, c@.len() as int) == c@.skip(n as int));
    string_of(&c, n, c.len())
}

/// A text without its trailing characters of a class.
pub fn trim_end_text(s: &str, set: CharSet) -> (r: String)
    ensures
        r@ == trim_end(s@, set),
{
    let c = chars_of(s);
    let mut n: usize = c.len();
    assert(s@.take(s@.len() as int) == s@);
    while n > 0 && set.holds(c[n - 1])
        invariant
            0 <= n <= c.len(),
            c@ == s@,
            trim_end(s@, set) == trim_end(s@.take(n as int), set),
        decreases n,
    {
        assert(s@.take(n as int).drop_last() == s@.take(n - 1));
        n -= 1;
    }
    assert(c@.subrange(0, n as int) == s@.take(n as int));
    string_of(&c, 0, n)
}

/// A text without its leading and trailing characters of a class.
pub fn trim_both_text(s: &str, set: CharSet) -> (r: String)
    ensures
        r@ == trim_both(s@, set),
{
    trim_end_text(trim_start_text(s, set).as_str(), set)
}

/// A text without its surrounding white space.
pub fn trim(s: &str) -> (r: String)
    ensures
        r@ == trimmed(s@),
{
    trim_both_text(s, CharSet::White)
}

// ---------------------------------------------------------------------------
// Search
// ---------------------------------------------------------------------------

/// Whether `p` stands in `s` at position `i`.
pub open spec fn occurs_at(s: Seq<char>, p: Seq<char>, i: int) -> bool {
    0 <= i && i + p.len() <= s.len() && s.subrange(i, i + p.len()) == p
}

/// The first position of `p` in `s`, from `i` on.
pub open spec fn find_from(s: Seq<char>, p: Seq<char>, i: int) -> Option<int>
    decreases s.len() + 1 - i,
{
    if i < 0 || i + p.len() > s.len() {
        None
    } else if occurs_at(s, p, i) {
        Some(i)
    } else {
        find_from(s, p, i + 1)
    }
}

/// The last position of `p` in `s` that is not beyond `i`.
pub open spec fn rfind_from(s: Seq<char>, p: Seq<char>, i: int) -> Option<int>
    decreases i + 1,
{
    if i < 0 {
        None
    } else if occurs_at(s, p, i) {
        Some(i)
    } else {
        rfind_from(s, p, i - 1)
    }
}

/// Whether `p` stands somewhere in `s`.
pub open spec fn has_text(s: Seq<char>, p: Seq<char>) -> bool {
    find_from(s, p, 0) is Some
}

/// Whether `s` begins with `p`.
pub open spec fn begins(s: Seq<char>, p: Seq<char>) -> bool {
    occurs_at(s, p, 0)
}

/// Whether `s` ends with `p`.
pub open spec fn ends(s: Seq<char>, p: Seq<char>) -> bool {
    occurs_at(s, p, s.len() - p.len())
}

/// Whether `p` stands in `s` at position `i`.
pub fn stands_at(s: &Vec<char>, p: &Vec<char>, i: usize) -> (r: bool)
    ensures
        r == occurs_at(s@, p@, i as int),
{
    if p.len() > s.len() || i > s.len() - p.len() {
        return false;
    }
    let ghost part = s@.subrange(i as int, i + p.len());
    let mut j: usize = 0;
    while j < p.len()
        invariant
            0 <= j <= p.len(),
            i + p.len() <= s.len(),
            part == s@.subrange(i as int, i + p.len()),
            forall|k: int| 0 <= k < j ==> part[k] == p@[k],
        decreases p.len() - j,
    {
        if s[i + j] != p[j] {
            assert(part[j as int] != p@[j as int]);
            return false;
        }
        j += 1;
    }
    assert(part =~= p@);
    true
}

/// The first position of `p` in `s`, from `i` on.
pub fn find(s: &Vec<char>, p: &Vec<char>, i: usize) -> (r: Option<usize>)
    ensures
        r is Some == find_from(s@, p@, i as int) is Some,
        r is Some ==> find_from(s@, p@, i as int) == Some(r->0 as int) && i <= r->0 && r->0
            + p.len() <= s.len(),
{
    let mut j: usize = i;
    while p.len() <= s.len() && j <= s.len() - p.len()
        invariant
            i <= j,
            find_from(s@, p@, i as int) == find_from(s@, p@, j as int),
        decreases s.len() + 1 - j,
    {
        if stands_at(s, p, j) {
            return Some(j);
        }
        if j == s.len() {
            assert(find_from(s@, p@, j + 1) is None);
            return None;
        }
        j += 1;
    }
    None
}

/// The last position of `p` in `s`.
pub fn rfind(s: &Vec<char>, p: &Vec<char>) -> (r: Option<usize>)
    ensures
        r is Some == rfind_from(s@, p@, s.len() as int) is Some,
        r is Some ==> rfind_from(s@, p@, s.len() as int) == Some(r->0 as int) && r->0 + p.len()
            <= s.len(),
{
    let mut j: usize = s.len();
    loop
        invariant
            j <= s.len(),
            rfind_from(s@, p@, s.len() as int) == rfind_from(s@, p@, j as int),
        decreases j,
    {
        if stands_at(s, p, j) {
            return Some(j);
        }
        if j == 0 {
            assert(rfind_from(s@, p@, -1) is None);
            return None;
        }
        j -= 1;
    }
}

/// Whether `p` stands somewhere in `s`.
pub fn contains(s: &str, p: &str) -> (r: bool)
    ensures
        r == has_text(s@, p@),
{
    let a = chars_of(s);
    let b = chars_of(p);
    match find(&a, &b, 0) {
        Some(_) => true,
        None => false,
    }
}

/// Whether `s` begins with `p`.
pub fn starts_with(s: &str, p: &str) -> (r: bool)
    ensures
        r == begins(s@, p@),
{
    let a = chars_of(s);
    let b = chars_of(p);
    stands_at(&a, &b, 0)
}

/// Whether `s` ends with `p`.
pub fn ends_with(s: &str, p: &str) -> (r: bool)
    ensures
        r == ends(s@, p@),
{
    let a = chars_of(s);
    let b = chars_of(p);
    if b.len() > a.len() {
        return false;
    }
    stands_at(&a, &b, a.len() - b.len())
}

/// The part of a text from character `from` on.
pub open spec fn tail(s: Seq<char>, from: int) -> Seq<char> {
    if 0 <= from <= s.len() {
        s.skip(from)
    } else {
        Seq::empty()
    }
}

/// The part of a text from character `from` on; nothing, where there is no such character.
pub fn tail_text(s: &str, from: usize) -> (r: String)
    ensures
        r@ == tail(s@, from as int),
{
    let c = chars_of(s);
    if from <= c.len() {
        assert(c@.subrange(from as int, c@.len() as int) == c@.skip(from as int));
        string_of(&c, from, c.len())
    } else {
        String::new()
    }
}

// ---------------------------------------------------------------------------
// Words and pieces
// ---------------------------------------------------------------------------

/// The number of characters before the first white one.
pub open spec fn word_len(s: Seq<char>) -> int
    decreases s.len(),
{
    if s.len() == 0 || white(s[0]) {
        0
    } else {
        1 + word_len(s.skip(1))
    }
}

pub proof fn lemma_word_len(s: Seq<char>)
    ensures
        0 <= word_len(s) <= s.len(),
    decreases s.len(),
{
    if s.len() > 0 && !white(s[0]) {
        lemma_word_len(s.skip(1));
    }
}

pub proof fn lemma_trim_start_len(s: Seq<char>, set: CharSet)
    ensures
        trim_start(s, set).len() <= s.len(),
    decreases s.len(),
{
    if s.len() > 0 && set.has(s[0]) {
        lemma_trim_start_len(s.skip(1), set);
    }
}

/// The words of a text: its maximal runs of characters that are not white.
pub open spec fn words(s: Seq<char>) -> Seq<Seq<char>>
    decreases s.len(),
    via words_decreases
{
    let t = trim_start(s, CharSet::White);
    if t.len() == 0 {
        Seq::empty()
    } else {
        seq![t.take(word_len(t))] + words(t.skip(word_len(t)))
    }
}

#[via_fn]
proof fn words_decreases(s: Seq<char>) {
    let t = trim_start(s, CharSet::White);
    lemma_trim_start_len(s, CharSet::White);
    lemma_trim_start_stop(s, CharSet::White);
    lemma_word_len(t);
    if t.len() > 0 {
        lemma_word_len(t.skip(1));
    }
}

pub proof fn lemma_trim_start_stop(s: Seq<char>, set: CharSet)
    ensures
        trim_start(s, set).len() > 0 ==> !set.has(trim_start(s, set)[0]),
    decreases s.len(),
{
    if s.len() > 0 && set.has(s[0]) {
        lemma_trim_start_stop(s.skip(1), set);
    }
}

/// The words of a text.
pub fn split_whitespace(s: &str) -> (r: Vec<String>)
    ensures
        r.deep_view() == words(s@),
{
    let c = chars_of(s);
    let n = c.len();
    let mut out: Vec<String> = Vec::new();
    let mut i: usize = 0;
    assert(s@.skip(0) == s@);
    assert(out.deep_view() + words(s@.skip(0)) == words(s@));
    loop
        invariant
            0 <= i <= n,
            n == c.len(),
            c@ == s@,
            out.deep_view() + words(s@.skip(i as int)) == words(s@),
        decreases n - i,
    {
        let mut j: usize = i;
        assert(s@.skip(i as int) == s@.skip(j as int));
        while j < n && is_white(c[j])
            invariant
                i <= j <= n,
                n == c.len(),
                c@ == s@,
                trim_start(s@.skip(i as int), CharSet::White) == trim_start(
                    s@.skip(j as int),
                    CharSet::White,
                ),
            decreases n - j,
        {
            assert(s@.skip(j as int).skip(1) == s@.skip(j + 1));
            j += 1;
        }
        let ghost t = s@.skip(j as int);
        assert(trim_start(t, CharSet::White) == t);
        if j == n {
            assert(out.deep_view() + words(s@.skip(i as int)) == out.deep_view());
            return out;
        }
        let mut k: usize = j;
        while k < n && !is_white(c[k])
            invariant
                j <= k <= n,
                n == c.len(),
                c@ == s@,
                t == s@.skip(j as int),
                word_len(t) == (k - j) + word_len(s@.skip(k as int)),
            decreases n - k,
        {
            assert(s@.skip(k as int).skip(1) == s@.skip(k + 1));
            k += 1;
        }
        assert(word_len(t) == k - j);
        proof {
            if k == j {
                assert(white(t[0]));
                lemma_trim_start_stop(s@.skip(i as int), CharSet::White);
            }
            assert(t.take(k - j) == c@.subrange(j as int, k as int));
            assert(t.skip(k - j) == s@.skip(k as int));
        }
        let ghost before = out.deep_view();
        let w = string_of(&c, j, k);
        out.push(w);
        assert(out.deep_view() == before.push(w@));
        assert(before.push(w@) + words(s@.skip(k as int)) == before + (seq![w@] + words(
            s@.skip(k as int),
        )));
        i = k;
    }
}

/// The pieces of a text between the places where `sep` stands.
pub open spec fn pieces(s: Seq<char>, sep: char) -> Seq<Seq<char>>
    decreases s.len(),
{
    if s.len() == 0 {
        seq![s]
    } else if s.last() == sep {
        pieces(s.drop_last(), sep).push(Seq::empty())
    } else {
        let p = pieces(s.drop_last(), sep);
        p.drop_last().push(p.last().push(s.last()))
    }
}

pub proof fn lemma_pieces_nonempty(s: Seq<char>, sep: char)
    ensures
        pieces(s, sep).len() > 0,
    decreases s.len(),
{
    if s.len() > 0 {
        lemma_pieces_nonempty(s.drop_last(), sep);
    }
}

/// The pieces of a text between the places where `sep` stands.
pub fn split_char(s: &str, sep: char) -> (r: Vec<String>)
    ensures
        r.deep_view() == pieces(s@, sep),
{
    let c = chars_of(s);
    let mut out: Vec<String> = Vec::new();
    let mut from: usize = 0;
    let mut i: usize = 0;
    assert(s@.take(0).len() == 0);
    assert(s@.subrange(0, 0) == s@.take(0));
    assert(out.deep_view().push(s@.subrange(0, 0)) == pieces(s@.take(0), sep));
    while i < c.len()
        invariant
            0 <= from <= i <= c.len(),
            c@ == s@,
            out.deep_view().push(s@.subrange(from as int, i as int)) == pieces(
                s@.take(i as int),
                sep,
            ),
        decreases c.len() - i,
    {
        let ghost before = out.deep_view();
        assert(s@.take(i + 1).drop_last() == s@.take(i as int));
        assert(s@.take(i + 1).last() == s@[i as int]);
        if c[i] == sep {
            let w = string_of(&c, from, i);
            out.push(w);
            assert(out.deep_view() == before.push(w@));
            from = i + 1;
            assert(s@.subrange(i + 1, i + 1) == Seq::<char>::empty());
        } else {
            let ghost p = pieces(s@.take(i as int), sep);
            assert(p.drop_last() == before);
            assert(p.last() == s@.subrange(from as int, i as int));
            assert(s@.subrange(from as int, i + 1) == s@.subrange(from as int, i as int).push(
                s@[i as int],
            ));
        }
        i += 1;
    }
    let ghost before = out.deep_view();
    let w = string_of(&c, from, c.len());
    out.push(w);
    assert(out.deep_view() == before.push(w@));
    assert(s@.take(s@.len() as int) == s@);
    out
}

/// `s` with every occurrence of `from` replaced by `to`, the occurrences taken from the
/// left without overlap. An empty `from` stands before every character and at the end.
pub open spec fn replaced(s: Seq<char>, from: Seq<char>, to: Seq<char>) -> Seq<char>
    decreases s.len(),
{
    if from.len() == 0 {
        if s.len() == 0 {
            to
        } else {
            to + seq![s[0]] + replaced(s.skip(1), from, to)
        }
    } else if s.len() < from.len() {
        s
    } else if begins(s, from) {
        to + replaced(s.skip(from.len() as int), from, to)
    } else {
        seq![s[0]] + replaced(s.skip(1), from, to)
    }
}

/// `s` with every occurrence of `from` replaced by `to`.
pub fn replace(s: &str, from: &str, to: &str) -> (r: String)
    ensures
        r@ == replaced(s@, from@, to@),
{
    let c = chars_of(s);
    let f = chars_of(from);
    let n = c.len();
    let mut out = String::new();
    let mut i: usize = 0;
    assert(s@.skip(0) == s@);
    assert(out@ + replaced(s@, from@, to@) == replaced(s@, from@, to@));
    if f.len() == 0 {
        while i < n
            invariant
                0 <= i <= n,
                n == c.len(),
                c@ == s@,
                from@.len() == 0,
                out@ + replaced(s@.skip(i as int), from@, to@) == replaced(s@, from@, to@),
            decreases n - i,
        {
            let ghost before = out@;
            let ghost rest = replaced(s@.skip(i + 1), from@, to@);
            assert(s@.skip(i as int).skip(1) == s@.skip(i + 1));
            assert(s@.skip(i as int)[0] == c@[i as int]);
            out.append(to);
            out.push(c[i]);
            assert(out@ + rest == before + (to@ + seq![c@[i as int]] + rest));
            i += 1;
        }
        assert(s@.skip(n as int).len() == 0);
        out.append(to);
        return out;
    }
    while i < n && f.len() <= n - i
        invariant
            0 <= i <= n,
            n == c.len(),
            c@ == s@,
            f@ == from@,
            from@.len() > 0,
            out@ + replaced(s@.skip(i as int), from@, to@) == replaced(s@, from@, to@),
        decreases n - i,
    {
        let ghost before = out@;
        let ghost rest = s@.skip(i as int);
        assert(rest.subrange(0, f@.len() as int) == s@.subrange(i as int, i + f@.len()));
        if stands_at(&c, &f, i) {
            assert(begins(rest, from@));
            assert(rest.skip(from@.len() as int) == s@.skip(i + f@.len()));
            out.append(to);
            i += f.len();
            assert(out@ + replaced(s@.skip(i as int), from@, to@) == before + (to@ + replaced(
                s@.skip(i as int),
                from@,
                to@,
            )));
        } else {
            assert(!begins(rest, from@));
            assert(rest.skip(1) == s@.skip(i + 1));
            out.push(c[i]);
            assert(out@ + replaced(s@.skip(i + 1), from@, to@) == before + (seq![c@[i as int]]
                + replaced(s@.skip(i + 1), from@, to@)));
            i += 1;
        }
    }
    let ghost before = out@;
    let rest = string_of(&c, i, n);
    assert(rest@ == s@.skip(i as int));
    out.append(rest.as_str());
    out
}

/// The characters of a text in reverse order.
pub fn reversed(s: &str) -> (r: String)
    ensures
        r@ == s@.reverse(),
{
    let c = chars_of(s);
    let mut out = String::new();
    let mut i: usize = c.len();
    assert(s@.reverse().take(0) == Seq::<char>::empty());
    while i > 0
        invariant
            0 <= i <= c.len(),
            c@ == s@,
            out@ == s@.reverse().take(c.len() - i),
        decreases i,
    {
        i -= 1;
        out.push(c[i]);
        assert(s@.reverse().take(c.len() - i) == s@.reverse().take(c.len() - i - 1).push(
            s@[i as int],
        ));
    }
    assert(s@.reverse().take(c.len() as int) == s@.reverse());
    out
}

// ---------------------------------------------------------------------------
// Numbers
// ---------------------------------------------------------------------------

/// The decimal digit of a number below ten.
pub open spec fn digit(n: int) -> char {
    if n == 0 {
        '0'
    } else if n == 1 {
        '1'
    } else if n == 2 {
        '2'
    } else if n == 3 {
        '3'
    } else if n == 4 {
        '4'
    } else if n == 5 {
        '5'
    } else if n == 6 {
        '6'
    } else if n == 7 {
        '7'
    } else if n == 8 {
        '8'
    } else {
        '9'
    }
}

fn digit_char(n: u64) -> (c: char)
    requires
        n < 10,
    ensures
        c == digit(n as int),
{
    if n == 0 {
        '0'
    } else if n == 1 {
        '1'
    } else if n == 2 {
        '2'
    } else if n == 3 {
        '3'
    } else if n == 4 {
        '4'
    } else if n == 5 {
        '5'
    } else if n == 6 {
        '6'
    } else if n == 7 {
        '7'
    } else if n == 8 {
        '8'
    } else {
        '9'
    }
}

/// The decimal text of a natural number.
pub open spec fn nat_text(n: nat) -> Seq<char>
    decreases n,
{
    if n < 10 {
        seq![digit(n as int)]
    } else {
        nat_text(n / 10).push(digit((n % 10) as int))
    }
}

/// The decimal text of an integer.
pub open spec fn int_text(n: int) -> Seq<char> {
    if n < 0 {
        seq!['-'] + nat_text((-n) as nat)
    } else {
        nat_text(n as nat)
    }
}

/// The decimal text of an unsigned number.
pub fn show_u64(n: u64) -> (r: String)
    ensures
        r@ == nat_text(n as nat),
    decreases n,
{
    let mut s = if n < 10 {
        String::new()
    } else {
        show_u64(n / 10)
    };
    s.push(digit_char(n % 10));
    assert(n < 10 ==> s@ == seq![digit(n as int)]);
    s
}

/// The decimal text of an integer.
pub fn show_i64(n: i64) -> (r: String)
    ensures
        r@ == int_text(n as int),
{
    if n < 0 {
        let m: u64 = if n == i64::MIN {
            0x8000_0000_0000_0000
        } else {
            (-n) as u64
        };
        let mut s = String::new();
        s.push('-');
        let d = show_u64(m);
        s.append(d.as_str());
        assert(s@ == seq!['-'] + d@);
        s
    } else {
        show_u64(n as u64)
    }
}

/// The value of a decimal digit.
pub open spec fn digit_value(c: char) -> Option<int> {
    if '0' <= c && c <= '9' {
        Some(c as int - 48)
    } else {
        None
    }
}

/// The number that a non-empty sequence of decimal digits denotes.
pub open spec fn digits_value(s: Seq<char>) -> Option<int>
    decreases s.len(),
{
    if s.len() == 0 {
        None
    } else if s.len() == 1 {
        digit_value(s[0])
    } else {
        match (digits_value(s.drop_last()), digit_value(s.last())) {
            (Some(h), Some(d)) => Some(h * 10 + d),
            _ => None,
        }
    }
}

/// The integer that a text denotes: an optional sign and at least one decimal digit.
pub open spec fn int_value(s: Seq<char>) -> Option<int> {
    if s.len() > 0 && s[0] == '-' {
        match digits_value(s.skip(1)) {
            Some(n) => Some(-n),
            None => None,
        }
    } else if s.len() > 0 && s[0] == '+' {
        digits_value(s.skip(1))
    } else {
        digits_value(s)
    }
}

/// The integer that a text denotes, if it lies in a range.
pub open spec fn int_value_in(s: Seq<char>, lo: int, hi: int) -> Option<int> {
    match int_value(s) {
        Some(n) => if lo <= n <= hi {
            Some(n)
        } else {
            None
        },
        None => None,
    }
}

/// The number that `c[from..]` denotes as decimal digits, capped at `cap`.
fn digits_capped(c: &Vec<char>, from: usize, cap: u128) -> (r: Option<u128>)
    requires
        from <= c.len(),
        cap <= 0xffff_ffff_ffff_ffff,
    ensures
        r is Some == digits_value(c@.skip(from as int)) is Some,
        r is Some ==> {
            let n = digits_value(c@.skip(from as int))->0;
            &&& n >= 0
            &&& r->0 == if n <= cap {
                n
            } else {
                cap + 1
            }
        },
{
    if from == c.len() {
        return None;
    }
    let ghost s = c@.skip(from as int);
    let mut acc: u128 = 0;
    let mut i: usize = from;
    while i < c.len()
        invariant
            from <= i <= c.len(),
            from < c.len(),
            s == c@.skip(from as int),
            cap <= 0xffff_ffff_ffff_ffff,
            i == from ==> acc == 0,
            i > from ==> digits_value(s.take(i - from)) is Some,
            i > from ==> {
                let n = digits_value(s.take(i - from))->0;
                &&& n >= 0
                &&& acc == if n <= cap {
                    n
                } else {
                    cap + 1
                }
            },
        decreases c.len() - i,
    {
        let d: u32 = code(c[i]);
        let ghost t = s.take(i + 1 - from);
        assert(t.last() == c@[i as int]);
        assert(i > from ==> t.drop_last() == s.take(i - from));
        if d < 48 || d > 57 {
            proof {
                lemma_digits_prefix(s, i + 1 - from);
            }
            return None;
        }
        let next: u128 = acc * 10 + (d - 48) as u128;
        acc = if next <= cap {
            next
        } else {
            cap + 1
        };
        i += 1;
    }
    assert(s.take(s.len() as int) == s);
    Some(acc)
}

pub proof fn lemma_digits_prefix(s: Seq<char>, k: int)
    requires
        0 < k <= s.len(),
        digits_value(s.take(k)) is None,
    ensures
        digits_value(s) is None,
    decreases s.len() - k,
{
    if k < s.len() {
        let t = s.take(k + 1);
        assert(t.drop_last() == s.take(k));
        lemma_digits_prefix(s, k + 1);
    } else {
        assert(s.take(k) == s);
    }
}

/// The 64-bit integer that a text denotes, if it denotes one.
pub fn parse_i64(s: &str) -> (r: Option<i64>)
    ensures
        r is Some == int_value_in(s@, i64::MIN as int, i64::MAX as int) is Some,
        r is Some ==> int_value_in(s@, i64::MIN as int, i64::MAX as int) == Some(r->0 as int),
{
    let c = chars_of(s);
    if c.len() > 0 && c[0] == '-' {
        match digits_capped(&c, 1, 0x8000_0000_0000_0000) {
            Some(n) => if n <= 0x8000_0000_0000_0000 {
                Some((-(n as i128)) as i64)
            } else {
                None
            },
            None => None,
        }
    } else {
        let from: usize = if c.len() > 0 && c[0] == '+' {
            1
        } else {
            0
        };
        assert(c@.skip(0) == c@);
        match digits_capped(&c, from, 0x7fff_ffff_ffff_ffff) {
            Some(n) => if n <= 0x7fff_ffff_ffff_ffff {
                Some(n as i64)
            } else {
                None
            },
            None => None,
        }
    }
}

/// The 32-bit integer that a text denotes, if it denotes one.
pub fn parse_i32(s: &str) -> (r: Option<i32>)
    ensures
        r is Some == int_value_in(s@, i32::MIN as int, i32::MAX as int) is Some,
        r is Some ==> int_value_in(s@, i32::MIN as int, i32::MAX as int) == Some(r->0 as int),
{
    match parse_i64(s) {
        Some(n) => if -0x8000_0000 <= n && n <= 0x7fff_ffff {
            Some(n as i32)
        } else {
            None
        },
        None => None,
    }
}


/// Texts put together with a separator between them.
pub open spec fn list_text(parts: Seq<Seq<char>>, sep: Seq<char>) -> Seq<char>
    decreases parts.len(),
{
    if parts.len() == 0 {
        Seq::empty()
    } else if parts.len() == 1 {
        parts[0]
    } else {
        list_text(parts.drop_last(), sep) + sep + parts.last()
    }
}

/// Puts texts together with a separator between them.
pub fn join_texts(parts: &Vec<String>, sep: &str) -> (r: String)
    ensures
        r@ == list_text(parts.deep_view(), sep@),
{
    let ghost pv = parts.deep_view();
    let mut out = String::new();
    let mut i: usize = 0;
    assert(out@ =~= list_text(pv.take(0), sep@));
    while i < parts.len()
        invariant
            0 <= i <= parts.len(),
            pv == parts.deep_view(),
            out@ == list_text(pv.take(i as int), sep@),
        decreases parts.len() - i,
    {
        let ghost before = out@;
        assert(pv[i as int] == parts@[i as int]@);
        if i > 0 {
            out.append(sep);
        }
        out.append(parts[i].as_str());
        assert(pv.take(i + 1).drop_last() =~= pv.take(i as int));
        assert(pv.take(i + 1).last() == pv[i as int]);
        if i == 0 {
            assert(before =~= Seq::<char>::empty());
            assert(out@ =~= pv[0]);
        } else {
            assert(out@ =~= before + sep@ + pv[i as int]);
        }
        i += 1;
    }
    assert(pv.take(parts.len() as int) =~= pv);
    out
}

/// Texts in lowercase.
pub open spec fn all_lower(parts: Seq<Seq<char>>) -> Seq<Seq<char>> {
    Seq::new(parts.len(), |i: int| lower_text(parts[i]))
}

/// Texts in lowercase.
pub fn lower_texts(parts: &Vec<String>) -> (r: Vec<String>)
    ensures
        r.deep_view() == all_lower(parts.deep_view()),
{
    let ghost pv = parts.deep_view();
    let mut out: Vec<String> = Vec::new();
    let mut i: usize = 0;
    while i < parts.len()
        invariant
            0 <= i <= parts.len(),
            pv == parts.deep_view(),
            out.len() == i,
            forall|k: int| 0 <= k < i ==> (#[trigger] out@[k])@ == lower_text(pv[k]),
        decreases parts.len() - i,
    {
        assert(pv[i as int] == parts@[i as int]@);
        out.push(parts[i].as_str().to_lowercase());
        i += 1;
    }
    assert(out.deep_view() =~= all_lower(pv));
    out
}

/// Copies texts.
pub fn copy_texts(parts: &Vec<String>) -> (r: Vec<String>)
    ensures
        r.deep_view() == parts.deep_view(),
{
    let mut out: Vec<String> = Vec::new();
    let mut i: usize = 0;
    while i < parts.len()
        invariant
            0 <= i <= parts.len(),
            out.len() == i,
            forall|k: int| 0 <= k < i ==> (#[trigger] out@[k])@ == parts@[k]@,
        decreases parts.len() - i,
    {
        out.push(parts[i].clone());
        i += 1;
    }
    assert(out.deep_view() =~= parts.deep_view());
    out
}


/// A text in quotation marks, with the characters escaped that cannot stand there, as the
/// standard library shows a text for debugging.
pub uninterp spec fn quoted_text(s: Seq<char>) -> Seq<char>;

/// A text in quotation marks: what `std::fmt::Debug` writes for a `str` under `{:?}`. The
/// contract names that text and says nothing more of it.
#[verifier::external_body]
pub(crate) fn quote(s: &str) -> (r: String)
    ensures
        r@ == quoted_text(s@),
{
    format!("{:?}", s)
}


/// The natural number below 2^64 that a text denotes: an optional plus sign and digits.
pub open spec fn natural_value(s: Seq<char>) -> Option<u64> {
    if s.len() > 0 && s[0] == '-' {
        None
    } else {
        match int_value_in(s, 0, u64::MAX as int) {
            Some(n) => Some(n as u64),
            None => None,
        }
    }
}

/// The natural number that a text denotes.
pub fn parse_u64(s: &str) -> (r: Option<u64>)
    ensures
        r == natural_value(s@),
{
    let c = chars_of(s);
    if c.len() > 0 && c[0] == '-' {
        return None;
    }
    let from: usize = if c.len() > 0 && c[0] == '+' {
        1
    } else {
        0
    };
    assert(c@.skip(0) == c@);
    match digits_capped(&c, from, 0xffff_ffff_ffff_ffff) {
        Some(n) => if n <= 0xffff_ffff_ffff_ffff {
            Some(n as u64)
        } else {
            None
        },
        None => None,
    }
}

/// The first position of a text in another, from `i` on.
pub fn find_text(s: &str, p: &str, i: usize) -> (r: Option<usize>)
    ensures
        match r {
            Some(k) => find_from(s@, p@, i as int) == Some(k as int) && i <= k && k + p@.len()
                <= s@.len() <= usize::MAX,
            None => find_from(s@, p@, i as int) is None,
        },
{
    let a = chars_of(s);
    let b = chars_of(p);
    find(&a, &b, i)
}

/// The digits of a number denote it.
pub proof fn lemma_digits_of_nat(n: nat)
    ensures
        nat_text(n).len() > 0,
        digits_value(nat_text(n)) == Some(n as int),
        forall|i: int| 0 <= i < nat_text(n).len() ==> '0' <= #[trigger] nat_text(n)[i] <= '9',
    decreases n,
{
    if n < 10 {
        assert(nat_text(n)[0] == digit(n as int));
    } else {
        lemma_digits_of_nat(n / 10);
        let head = nat_text(n / 10);
        let s = nat_text(n);
        let d = digit((n % 10) as int);
        assert(s == head.push(d));
        assert(s.drop_last() =~= head);
        assert(s.last() == d);
        assert(digit_value(d) == Some((n % 10) as int));
        assert forall|i: int| 0 <= i < s.len() implies '0' <= #[trigger] s[i] <= '9' by {
            if i < head.len() {
                assert(s[i] == head[i]);
            }
        }
    }
}

/// An integer that is written out in digits is read back.
pub proof fn law_integer_text_is_read_back(n: int)
    ensures
        int_value(int_text(n)) == Some(n),
{
    if n < 0 {
        lemma_digits_of_nat((-n) as nat);
        let d = nat_text((-n) as nat);
        assert((seq!['-'] + d).skip(1) =~= d);
    } else {
        lemma_digits_of_nat(n as nat);
        assert('0' <= nat_text(n as nat)[0] <= '9');
    }
}

} // verus!
