//! Finding keywords in statements, whatever their case.
use crate::text::{
    chars_of, code, same_name, split_char, split_whitespace, string_of, trim, trim_both_text,
    trim_end, trim_end_text, trimmed, white, is_white, words, pieces, trim_both, CharSet,
    ascii_fold, lower_text, replaced, replace, upper_text,
};
use vstd::prelude::*;

verus! {

/// Whether a keyword stands in a text at a position, up to the case of ASCII letters.
pub open spec fn word_at(s: Seq<char>, w: Seq<char>, i: int) -> bool {
    0 <= i && i + w.len() <= s.len() && same_name(s.subrange(i, i + w.len()), w)
}

/// The first position of a keyword in a text, from `i` on.
pub open spec fn word_from(s: Seq<char>, w: Seq<char>, i: int) -> Option<int>
    decreases s.len() + 1 - i,
{
    if i < 0 || i + w.len() > s.len() {
        None
    } else if word_at(s, w, i) {
        Some(i)
    } else {
        word_from(s, w, i + 1)
    }
}

/// The last position of a keyword in a text, up to `i`.
pub open spec fn last_word_from(s: Seq<char>, w: Seq<char>, i: int) -> Option<int>
    decreases i + 1,
{
    if i < 0 {
        None
    } else if word_at(s, w, i) {
        Some(i)
    } else {
        last_word_from(s, w, i - 1)
    }
}

/// Whether a text is made of ASCII characters.
pub open spec fn plain(s: Seq<char>) -> bool {
    forall|i: int| 0 <= i < s.len() ==> (#[trigger] s[i] as u32) < 128
}

/// A text as keywords are looked for in it: in uppercase, if it has letters beyond ASCII; else
/// case makes no difference.
pub open spec fn folded(s: Seq<char>) -> Seq<char> {
    if plain(s) {
        s
    } else {
        upper_text(s)
    }
}

/// Whether a text begins with a keyword, whatever its case.
pub open spec fn opens_with(s: Seq<char>, w: Seq<char>) -> bool {
    word_at(folded(s), w, 0)
}

/// Whether a keyword stands somewhere in a text, whatever its case.
pub open spec fn has_word(s: Seq<char>, w: Seq<char>) -> bool {
    word_from(folded(s), w, 0) is Some
}

fn fold_text(s: &str) -> (r: String)
    ensures
        r@ == folded(s@),
{
    let c = chars_of(s);
    let mut i: usize = 0;
    while i < c.len()
        invariant
            0 <= i <= c.len(),
            c@ == s@,
            forall|k: int| 0 <= k < i ==> (#[trigger] s@[k] as u32) < 128,
        decreases c.len() - i,
    {
        if code(c[i]) >= 128 {
            assert(s@[i as int] as u32 >= 128);
            return s.to_uppercase();
        }
        i += 1;
    }
    s.to_owned()
}

fn fold(c: char) -> (r: u32)
    ensures
        r == ascii_fold(c),
{
    let n: u32 = code(c);
    if 65 <= n && n <= 90 {
        n + 32
    } else {
        n
    }
}

fn stands(s: &Vec<char>, w: &Vec<char>, i: usize) -> (r: bool)
    ensures
        r == word_at(s@, w@, i as int),
{
    if w.len() > s.len() || i > s.len() - w.len() {
        return false;
    }
    let ghost part = s@.subrange(i as int, i + w.len());
    let mut k: usize = 0;
    while k < w.len()
        invariant
            0 <= k <= w.len(),
            i + w.len() <= s.len(),
            part == s@.subrange(i as int, i + w.len()),
            forall|j: int| 0 <= j < k ==> ascii_fold(#[trigger] part[j]) == ascii_fold(w@[j]),
        decreases w.len() - k,
    {
        assert(part[k as int] == s@[i + k]);
        if fold(s[i + k]) != fold(w[k]) {
            assert(!same_name(part, w@));
            return false;
        }
        k += 1;
    }
    true
}

/// The first position of a keyword in a text, from `i` on.
pub fn find_word_from(s: &str, w: &str, i: usize) -> (r: Option<usize>)
    ensures
        match r {
            Some(k) => word_from(s@, w@, i as int) == Some(k as int) && i <= k && k + w@.len()
                <= s@.len() <= usize::MAX,
            None => word_from(s@, w@, i as int) is None,
        },
{
    let c = chars_of(s);
    let p = chars_of(w);
    if p.len() > c.len() {
        return None;
    }
    let mut k: usize = i;
    while k <= c.len() - p.len()
        invariant
            c@ == s@,
            p@ == w@,
            p.len() <= c.len(),
            i <= k,
            word_from(s@, w@, i as int) == word_from(s@, w@, k as int),
        decreases c.len() + 1 - k,
    {
        if stands(&c, &p, k) {
            return Some(k);
        }
        if k == c.len() - p.len() {
            assert(word_from(s@, w@, k + 1) is None);
            return None;
        }
        k += 1;
    }
    None
}

/// The first position of a keyword in a text.
pub fn find_word(s: &str, w: &str) -> (r: Option<usize>)
    ensures
        match r {
            Some(k) => word_from(s@, w@, 0) == Some(k as int) && k + w@.len() <= s@.len()
                <= usize::MAX,
            None => word_from(s@, w@, 0) is None,
        },
{
    find_word_from(s, w, 0)
}

/// The last position of a keyword in a text.
pub fn find_last_word(s: &str, w: &str) -> (r: Option<usize>)
    ensures
        match r {
            Some(k) => last_word_from(s@, w@, s@.len() as int) == Some(k as int) && k <= s@.len(),
            None => last_word_from(s@, w@, s@.len() as int) is None,
        },
{
    let c = chars_of(s);
    let p = chars_of(w);
    let mut k: usize = c.len();
    loop
        invariant
            c@ == s@,
            p@ == w@,
            k <= c.len(),
            last_word_from(s@, w@, s@.len() as int) == last_word_from(s@, w@, k as int),
        decreases k,
    {
        if stands(&c, &p, k) {
            return Some(k);
        }
        if k == 0 {
            assert(last_word_from(s@, w@, -1) is None);
            return None;
        }
        k -= 1;
    }
}

/// Whether a text begins with a keyword.
pub fn begins_with_word(s: &str, w: &str) -> (r: bool)
    ensures
        r == opens_with(s@, w@),
{
    let c = chars_of(fold_text(s).as_str());
    let p = chars_of(w);
    stands(&c, &p, 0)
}

/// Whether a keyword stands at the beginning of a text, up to the case of ASCII letters.
pub fn stands_first(s: &str, w: &str) -> (r: bool)
    ensures
        r == word_at(s@, w@, 0),
{
    let c = chars_of(s);
    let p = chars_of(w);
    stands(&c, &p, 0)
}

/// Whether a keyword stands somewhere in a text.
pub fn contains_word(s: &str, w: &str) -> (r: bool)
    ensures
        r == has_word(s@, w@),
{
    find_word(fold_text(s).as_str(), w).is_some()
}

/// A text without a keyword at its beginning, however often it stands there.
pub open spec fn without_word(s: Seq<char>, w: Seq<char>) -> Seq<char>
    decreases s.len(),
{
    if w.len() > 0 && word_at(s, w, 0) {
        without_word(s.skip(w.len() as int), w)
    } else {
        s
    }
}

/// A text without a keyword at its beginning.
pub fn strip_word(s: &str, w: &str) -> (r: String)
    ensures
        r@ == without_word(s@, w@),
{
    let c = chars_of(s);
    let p = chars_of(w);
    let mut k: usize = 0;
    assert(c@.skip(0) =~= c@);
    while p.len() > 0 && stands(&c, &p, k)
        invariant
            c@ == s@,
            p@ == w@,
            k <= c.len(),
            without_word(s@, w@) == without_word(s@.skip(k as int), w@),
        decreases c.len() - k,
    {
        let ghost rest = s@.skip(k as int);
        assert(rest.subrange(0, p.len() as int) =~= s@.subrange(k as int, k + p.len()));
        assert(word_at(rest, w@, 0));
        assert(rest.skip(p.len() as int) =~= s@.skip(k + p.len()));
        k = k + p.len();
    }
    assert(s@.subrange(k as int, c.len() as int) =~= s@.skip(k as int));
    proof {
        let rest = s@.skip(k as int);
        if w@.len() > 0 && word_at(rest, w@, 0) {
            assert(rest.subrange(0, w@.len() as int) =~= s@.subrange(k as int, k + w@.len()));
            assert(word_at(s@, w@, k as int));
        }
    }
    string_of(&c, k, c.len())
}

/// The characters of a text from one position to another; none, if they are not in order.
pub open spec fn between(s: Seq<char>, from: int, to: int) -> Seq<char> {
    if 0 <= from <= to <= s.len() {
        s.subrange(from, to)
    } else {
        Seq::empty()
    }
}

/// The characters of a text from one position to another.
pub fn between_text(s: &str, from: usize, to: usize) -> (r: String)
    ensures
        r@ == between(s@, from as int, to as int),
{
    let c = chars_of(s);
    if from <= to && to <= c.len() {
        string_of(&c, from, to)
    } else {
        let r = String::new();
        assert(r@ =~= Seq::<char>::empty());
        r
    }
}

/// The word at a place; nothing, if there is none.
pub open spec fn word(s: Seq<char>, n: int) -> Seq<char> {
    if 0 <= n < words(s).len() {
        words(s)[n]
    } else {
        Seq::empty()
    }
}

/// The word at a place.
pub fn nth_word(s: &str, n: usize) -> (r: String)
    ensures
        r@ == word(s@, n as int),
{
    let w = split_whitespace(s);
    let ghost wv = w.deep_view();
    if n < w.len() {
        assert(wv[n as int] == w@[n as int]@);
        w[n].clone()
    } else {
        let r = String::new();
        assert(r@ =~= Seq::<char>::empty());
        r
    }
}

/// A statement without surrounding white space and closing semicolons.
pub open spec fn statement_text(s: Seq<char>) -> Seq<char> {
    trimmed(trim_end(trimmed(s), CharSet::One(';')))
}

/// A statement without surrounding white space and closing semicolons.
pub fn bare_statement(s: &str) -> (r: String)
    ensures
        r@ == statement_text(s@),
{
    trim(trim_end_text(trim(s).as_str(), CharSet::One(';')).as_str())
}

/// A name without the quotation marks around it.
pub open spec fn unquoted(s: Seq<char>) -> Seq<char> {
    trim_both(trim_both(s, CharSet::One('\'')), CharSet::One('"'))
}

/// A name without the quotation marks around it.
pub fn unquote(s: &str) -> (r: String)
    ensures
        r@ == unquoted(s@),
{
    trim_both_text(trim_both_text(s, CharSet::One('\'')).as_str(), CharSet::One('"'))
}

/// A name in lowercase, without the quotation marks of identifiers.
pub open spec fn plain_name(s: Seq<char>) -> Seq<char> {
    replaced(replaced(lower_text(s), "`"@, ""@), "\""@, ""@)
}

/// A name in lowercase, without the quotation marks of identifiers.
pub fn make_plain_name(s: &str) -> (r: String)
    ensures
        r@ == plain_name(s@),
{
    replace(replace(s.to_lowercase().as_str(), "`", "").as_str(), "\"", "")
}

/// The statements of a body from `i` on: the pieces between semicolons that are not empty.
pub open spec fn statements_from(parts: Seq<Seq<char>>, i: int, acc: Seq<Seq<char>>) -> Seq<
    Seq<char>,
>
    decreases parts.len() - i,
{
    if i < 0 || i >= parts.len() {
        acc
    } else {
        statements_from(
            parts,
            i + 1,
            if trimmed(parts[i]).len() == 0 {
                acc
            } else {
                acc.push(trimmed(parts[i]))
            },
        )
    }
}

/// The statements of a body.
pub open spec fn statements(body: Seq<char>) -> Seq<Seq<char>> {
    statements_from(pieces(body, ';'), 0, Seq::empty())
}

/// The statements of a body.
pub fn split_statements(body: &str) -> (r: Vec<String>)
    ensures
        r.deep_view() == statements(body@),
{
    let parts = split_char(body, ';');
    let ghost pv = parts.deep_view();
    let mut out: Vec<String> = Vec::new();
    assert(out.deep_view() =~= Seq::<Seq<char>>::empty());
    let mut i: usize = 0;
    while i < parts.len()
        invariant
            0 <= i <= parts.len(),
            pv == parts.deep_view(),
            statements_from(pv, 0, Seq::empty()) == statements_from(
                pv,
                i as int,
                out.deep_view(),
            ),
        decreases parts.len() - i,
    {
        assert(pv[i as int] == parts@[i as int]@);
        let t = trim(parts[i].as_str());
        let ghost tv = t@;
        if t.as_str().unicode_len() > 0 {
            let ghost had = out.deep_view();
            out.push(t);
            assert(out.deep_view() =~= had.push(tv));
        }
        i += 1;
    }
    out
}

/// The part of a text before the first white space or semicolon.
pub open spec fn head(s: Seq<char>) -> Seq<char>
    decreases s.len(),
{
    if s.len() == 0 || white(s[0]) || s[0] == ';' {
        Seq::empty()
    } else {
        seq![s[0]] + head(s.skip(1))
    }
}

/// The part of a text before the first white space or semicolon.
pub fn head_text(s: &str) -> (r: String)
    ensures
        r@ == head(s@),
{
    let c = chars_of(s);
    let mut k: usize = 0;
    assert(s@.subrange(0, 0) + head(s@.skip(0)) =~= head(s@.skip(0)));
    assert(s@.skip(0) =~= s@);
    while k < c.len() && !is_white(c[k]) && c[k] != ';'
        invariant
            c@ == s@,
            k <= c.len(),
            head(s@) == s@.subrange(0, k as int) + head(s@.skip(k as int)),
        decreases c.len() - k,
    {
        let ghost rest = s@.skip(k as int);
        assert(rest[0] == s@[k as int]);
        assert(rest.skip(1) =~= s@.skip(k + 1));
        assert(s@.subrange(0, k as int) + (seq![s@[k as int]] + head(s@.skip(k + 1)))
            =~= s@.subrange(0, k + 1) + head(s@.skip(k + 1)));
        k += 1;
    }
    proof {
        let rest = s@.skip(k as int);
        if k < c.len() {
            assert(rest[0] == s@[k as int]);
        }
        assert(head(rest) =~= Seq::<char>::empty());
        assert(head(s@) =~= s@.subrange(0, k as int));
    }
    string_of(&c, 0, k)
}

} // verus!
