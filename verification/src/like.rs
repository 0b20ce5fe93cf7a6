//! LIKE patterns.
use crate::text::{chars_of, lower_text};
use vstd::prelude::*;

verus! {

/// Whether the text from `i` on matches the pattern from `j` on. `%` stands for any sequence
/// of characters, the empty one too; `_` for exactly one; every other character for itself.
pub open spec fn like_at(s: Seq<char>, p: Seq<char>, i: int, j: int) -> bool
    decreases (s.len() - i) + (p.len() - j),
{
    if i < 0 || i > s.len() || j < 0 || j > p.len() {
        false
    } else if j == p.len() {
        i == s.len()
    } else if p[j] == '%' {
        like_at(s, p, i, j + 1) || (i < s.len() && like_at(s, p, i + 1, j))
    } else {
        i < s.len() && (p[j] == '_' || p[j] == s[i]) && like_at(s, p, i + 1, j + 1)
    }
}

/// Whether a text matches a LIKE pattern, both taken in lowercase.
pub open spec fn like(s: Seq<char>, p: Seq<char>) -> bool {
    like_at(lower_text(s), lower_text(p), 0, 0)
}

/// Whether the `n` pattern characters from `j` on are no `%`.
spec fn plain(p: Seq<char>, j: int, n: int) -> bool {
    0 <= j && j + n <= p.len() && forall|t: int| j <= t < j + n ==> p[t] != '%'
}

/// A run of pattern characters without `%` needs as many characters of text.
proof fn lemma_plain_len(s: Seq<char>, p: Seq<char>, i: int, j: int, n: int)
    requires
        plain(p, j, n),
        0 <= n,
        like_at(s, p, i, j),
    ensures
        i + n <= s.len(),
        like_at(s, p, i + n, j + n),
    decreases n,
{
    if n > 0 {
        assert(p[j] != '%');
        lemma_plain_len(s, p, i + 1, j + 1, n - 1);
    }
}

/// A leading `%` takes over whatever text stands before a match.
proof fn lemma_percent_absorbs(s: Seq<char>, p: Seq<char>, i: int, k: int, j: int)
    requires
        0 <= i <= k,
        0 <= j < p.len(),
        p[j] == '%',
        like_at(s, p, k, j),
    ensures
        like_at(s, p, i, j),
    decreases k - i,
{
    if i < k {
        lemma_percent_absorbs(s, p, i + 1, k, j);
    }
}

/// Behind a `%` the rest of the pattern matches at some later place.
proof fn lemma_percent_place(s: Seq<char>, p: Seq<char>, i: int, j: int) -> (k: int)
    requires
        0 <= i <= s.len(),
        0 <= j < p.len(),
        p[j] == '%',
        like_at(s, p, i, j),
    ensures
        i <= k <= s.len(),
        like_at(s, p, k, j + 1),
    decreases s.len() - i,
{
    if like_at(s, p, i, j + 1) {
        i
    } else {
        lemma_percent_place(s, p, i + 1, j)
    }
}

/// Whether a text matches a LIKE pattern, both taken in lowercase.
pub fn like_match(s: &str, pattern: &str) -> (r: bool)
    ensures
        r == like(s@, pattern@),
{
    let s_lower = chars_of(s.to_lowercase().as_str());
    let p_lower = chars_of(pattern.to_lowercase().as_str());
    like_match_inner(&s_lower, &p_lower)
}

/// Whether a text matches a LIKE pattern. The shortest stretch of text is tried for each
/// `%` first; a mismatch lengthens the stretch of the last one.
pub fn like_match_inner(s: &Vec<char>, p: &Vec<char>) -> (r: bool)
    ensures
        r == like_at(s@, p@, 0, 0),
{
    let mut si: usize = 0;
    let mut pi: usize = 0;
    let mut star: Option<usize> = None;
    let mut star_si: usize = 0;
    while si < s.len()
        invariant
            0 <= si <= s.len(),
            0 <= pi <= p.len(),
            star is None ==> like_at(s@, p@, 0, 0) == like_at(s@, p@, si as int, pi as int),
            star is Some ==> {
                let sp = star->0;
                &&& sp < pi
                &&& p@[sp as int] == '%'
                &&& star_si <= si
                &&& si - star_si == pi - sp - 1
                &&& plain(p@, sp + 1, pi - sp - 1)
                &&& like_at(s@, p@, 0, 0) == like_at(s@, p@, star_si as int, sp as int)
                &&& like_at(s@, p@, star_si as int, sp + 1) == like_at(
                    s@,
                    p@,
                    si as int,
                    pi as int,
                )
            },
        decreases
                p.len() - (if star is Some {
                    star->0 + 1
                } else {
                    0int
                }),
                s.len() - star_si,
                s.len() - si,
    {
        if pi < p.len() && p[pi] == '%' {
            proof {
                if star is Some {
                    let sp = star->0;
                    let n = pi - sp - 1;
                    if like_at(s@, p@, star_si as int, sp as int) {
                        let k = lemma_percent_place(s@, p@, star_si as int, sp as int);
                        lemma_plain_len(s@, p@, k, sp + 1, n);
                        lemma_percent_absorbs(s@, p@, si as int, k + n, pi as int);
                    }
                }
            }
            star = Some(pi);
            star_si = si;
            pi += 1;
        } else if pi < p.len() && (p[pi] == '_' || p[pi] == s[si]) {
            si += 1;
            pi += 1;
        } else if let Some(sp) = star {
            pi = sp + 1;
            star_si += 1;
            si = star_si;
        } else {
            return false;
        }
    }
    proof {
        if star is Some {
            let sp = star->0;
            let n = pi - sp - 1;
            if like_at(s@, p@, star_si as int, sp as int) {
                let k = lemma_percent_place(s@, p@, star_si as int, sp as int);
                lemma_plain_len(s@, p@, k, sp + 1, n);
            }
        }
    }
    assert(like_at(s@, p@, 0, 0) == like_at(s@, p@, s.len() as int, pi as int));
    while pi < p.len() && p[pi] == '%'
        invariant
            0 <= pi <= p.len(),
            like_at(s@, p@, 0, 0) == like_at(s@, p@, s.len() as int, pi as int),
        decreases p.len() - pi,
    {
        pi += 1;
    }
    pi == p.len()
}

/// A pattern of nothing but `%` matches every text.
pub proof fn law_percent_matches_everything(s: Seq<char>, i: int)
    requires
        0 <= i <= s.len(),
    ensures
        like_at(s, seq!['%'], i, 0),
    decreases s.len() - i,
{
    let p = seq!['%'];
    assert(p[0] == '%');
    if i < s.len() {
        law_percent_matches_everything(s, i + 1);
    } else {
        assert(like_at(s, p, i, 1));
    }
}

/// A pattern without `%` and `_` matches the text that is written like it, and no other.
pub proof fn law_plain_pattern_matches_itself(s: Seq<char>, p: Seq<char>, i: int)
    requires
        0 <= i <= s.len(),
        i <= p.len(),
        forall|j: int| 0 <= j < p.len() ==> #[trigger] p[j] != '%' && p[j] != '_',
        s.take(i) == p.take(i),
    ensures
        like_at(s, p, i, i) <==> s == p,
    decreases p.len() - i,
{
    if i < p.len() {
        assert(p[i] != '%' && p[i] != '_');
        if i < s.len() && s[i] == p[i] {
            assert(s.take(i + 1) =~= s.take(i).push(s[i]));
            assert(p.take(i + 1) =~= p.take(i).push(p[i]));
            law_plain_pattern_matches_itself(s, p, i + 1);
        }
    } else {
        assert(p.take(i) =~= p);
        if i == s.len() {
            assert(s.take(i) =~= s);
        }
    }
}

} // verus!
