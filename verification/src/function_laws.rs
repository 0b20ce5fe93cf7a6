//! What the scalar functions of the query language give.
use crate::ast::Expr;
use crate::builtins::{builtin, midnight, moment, BinaryFn, Builtin, TernaryFn, UnaryFn};
use crate::call_laws::{
    gives, is_call, lemma_binary_call, lemma_other_call, lemma_ternary_call, lemma_unary_call,
};
use crate::error::ErrorView;
use crate::eval::{concat_from, eval, extreme_from, first_known};
use crate::expression_laws::{as_double, comes_to, host_gives, stands_for};
use crate::host::{FloatOp, HostView};
use crate::order::Order;
use crate::text::{
    lower_text, occurs_at, replaced, trim_end, trim_start, upper_text, white, CharSet,
};
use crate::types::ValueView;
use crate::window_laws::held;
use vstd::prelude::*;

verus! {

// ---------------------------------------------------------------------------
// Names
// ---------------------------------------------------------------------------

/// What tells the names of the functions apart.
proof fn lemma_letters()
    ensures
        "IF"@.len() == 2,
        "DAY"@.len() == 3 && "DAY"@[0] == 'D' && "DAY"@[1] == 'A' && "DAY"@[2] == 'Y',
        "NOW"@.len() == 3 && "NOW"@[0] == 'N' && "NOW"@[1] == 'O' && "NOW"@[2] == 'W',
        "MID"@.len() == 3 && "MID"@[0] == 'M' && "MID"@[1] == 'I' && "MID"@[2] == 'D',
        "ABS"@.len() == 3 && "ABS"@[0] == 'A' && "ABS"@[1] == 'B' && "ABS"@[2] == 'S',
        "POW"@.len() == 3 && "POW"@[0] == 'P' && "POW"@[1] == 'O' && "POW"@[2] == 'W',
        "MOD"@.len() == 3 && "MOD"@[0] == 'M' && "MOD"@[1] == 'O' && "MOD"@[2] == 'D',
        "SUM"@.len() == 3 && "SUM"@[0] == 'S' && "SUM"@[1] == 'U' && "SUM"@[2] == 'M',
        "AVG"@.len() == 3 && "AVG"@[0] == 'A' && "AVG"@[1] == 'V' && "AVG"@[2] == 'G',
        "MIN"@.len() == 3 && "MIN"@[0] == 'M' && "MIN"@[1] == 'I' && "MIN"@[2] == 'N',
        "MAX"@.len() == 3 && "MAX"@[0] == 'M' && "MAX"@[1] == 'A' && "MAX"@[2] == 'X',
        "YEAR"@.len() == 4 && "YEAR"@[0] == 'Y' && "YEAR"@[1] == 'E',
        "TRIM"@.len() == 4 && "TRIM"@[0] == 'T' && "TRIM"@[1] == 'R',
        "LEFT"@.len() == 4 && "LEFT"@[0] == 'L' && "LEFT"@[1] == 'E',
        "LPAD"@.len() == 4 && "LPAD"@[0] == 'L' && "LPAD"@[1] == 'P',
        "RPAD"@.len() == 4 && "RPAD"@[0] == 'R' && "RPAD"@[1] == 'P',
        "CEIL"@.len() == 4 && "CEIL"@[0] == 'C' && "CEIL"@[1] == 'E',
        "SQRT"@.len() == 4 && "SQRT"@[0] == 'S' && "SQRT"@[1] == 'Q',
        "SIGN"@.len() == 4 && "SIGN"@[0] == 'S' && "SIGN"@[1] == 'I',
        "CAST"@.len() == 4 && "CAST"@[0] == 'C' && "CAST"@[1] == 'A',
        "UUID"@.len() == 4 && "UUID"@[0] == 'U' && "UUID"@[1] == 'U',
        "MONTH"@.len() == 5 && "MONTH"@[0] == 'M' && "MONTH"@[1] == 'O',
        "UPPER"@.len() == 5 && "UPPER"@[0] == 'U' && "UPPER"@[1] == 'P',
        "UCASE"@.len() == 5 && "UCASE"@[0] == 'U' && "UCASE"@[1] == 'C',
        "LOWER"@.len() == 5 && "LOWER"@[0] == 'L' && "LOWER"@[1] == 'O',
        "LCASE"@.len() == 5 && "LCASE"@[0] == 'L' && "LCASE"@[1] == 'C',
        "LTRIM"@.len() == 5 && "LTRIM"@[0] == 'L' && "LTRIM"@[1] == 'T',
        "RTRIM"@.len() == 5 && "RTRIM"@[0] == 'R' && "RTRIM"@[1] == 'T',
        "RIGHT"@.len() == 5 && "RIGHT"@[0] == 'R' && "RIGHT"@[1] == 'I',
        "ROUND"@.len() == 5 && "ROUND"@[0] == 'R' && "ROUND"@[1] == 'O',
        "FLOOR"@.len() == 5 && "FLOOR"@[0] == 'F' && "FLOOR"@[1] == 'L',
        "POWER"@.len() == 5 && "POWER"@[0] == 'P' && "POWER"@[1] == 'O',
        "LEAST"@.len() == 5 && "LEAST"@[0] == 'L' && "LEAST"@[1] == 'E',
        "NEWID"@.len() == 5 && "NEWID"@[0] == 'N' && "NEWID"@[1] == 'E',
        "COUNT"@.len() == 5 && "COUNT"@[0] == 'C' && "COUNT"@[1] == 'O',
        "CONCAT"@.len() == 6 && "CONCAT"@[0] == 'C',
        "IFNULL"@.len() == 6 && "IFNULL"@[0] == 'I',
        "LENGTH"@.len() == 6 && "LENGTH"@[0] == 'L',
        "SUBSTR"@.len() == 6 && "SUBSTR"@[0] == 'S',
        "NULLIF"@.len() == 6 && "NULLIF"@[0] == 'N',
        "REPLACE"@.len() == 7 && "REPLACE"@[2] == 'P',
        "REVERSE"@.len() == 7 && "REVERSE"@[2] == 'V',
        "CEILING"@.len() == 7 && "CEILING"@[2] == 'I',
        "ADDDATE"@.len() == 7 && "ADDDATE"@[2] == 'D',
        "SUBDATE"@.len() == 7 && "SUBDATE"@[2] == 'B',
        "CURDATE"@.len() == 7 && "CURDATE"@[2] == 'R',
        "COALESCE"@.len() == 8 && "COALESCE"@[6] == 'C',
        "DATE_ADD"@.len() == 8 && "DATE_ADD"@[6] == 'D',
        "DATE_SUB"@.len() == 8 && "DATE_SUB"@[6] == 'U',
        "DATEDIFF"@.len() == 8 && "DATEDIFF"@[6] == 'F',
        "GREATEST"@.len() == 8 && "GREATEST"@[6] == 'S',
        "CONTAINS"@.len() == 8 && "CONTAINS"@[6] == 'N',
        "FREETEXT"@.len() == 8 && "FREETEXT"@[6] == 'X',
        "SUBSTRING"@.len() == 9,
        "DAYOFMONTH"@.len() == 10,
        "CHAR_LENGTH"@.len() == 11,
        "CURRENT_DATE"@.len() == 12,
        "GEN_RANDOM_UUID"@.len() == 15,
        "CHARACTER_LENGTH"@.len() == 16 && "CHARACTER_LENGTH"@[0] == 'C',
        "UUID_GENERATE_V4"@.len() == 16 && "UUID_GENERATE_V4"@[0] == 'U',
        "CURRENT_TIMESTAMP"@.len() == 17,
{
    reveal_strlit("YEAR");
    reveal_strlit("MONTH");
    reveal_strlit("DAY");
    reveal_strlit("DAYOFMONTH");
    reveal_strlit("NOW");
    reveal_strlit("CURRENT_TIMESTAMP");
    reveal_strlit("CONCAT");
    reveal_strlit("IF");
    reveal_strlit("IFNULL");
    reveal_strlit("COALESCE");
    reveal_strlit("UPPER");
    reveal_strlit("UCASE");
    reveal_strlit("LOWER");
    reveal_strlit("LCASE");
    reveal_strlit("TRIM");
    reveal_strlit("LTRIM");
    reveal_strlit("RTRIM");
    reveal_strlit("LENGTH");
    reveal_strlit("CHAR_LENGTH");
    reveal_strlit("CHARACTER_LENGTH");
    reveal_strlit("SUBSTRING");
    reveal_strlit("SUBSTR");
    reveal_strlit("MID");
    reveal_strlit("LEFT");
    reveal_strlit("RIGHT");
    reveal_strlit("REPLACE");
    reveal_strlit("REVERSE");
    reveal_strlit("LPAD");
    reveal_strlit("RPAD");
    reveal_strlit("ABS");
    reveal_strlit("ROUND");
    reveal_strlit("CEIL");
    reveal_strlit("CEILING");
    reveal_strlit("FLOOR");
    reveal_strlit("POWER");
    reveal_strlit("POW");
    reveal_strlit("SQRT");
    reveal_strlit("MOD");
    reveal_strlit("SIGN");
    reveal_strlit("DATE_ADD");
    reveal_strlit("ADDDATE");
    reveal_strlit("DATE_SUB");
    reveal_strlit("SUBDATE");
    reveal_strlit("DATEDIFF");
    reveal_strlit("CURDATE");
    reveal_strlit("CURRENT_DATE");
    reveal_strlit("CAST");
    reveal_strlit("NULLIF");
    reveal_strlit("GREATEST");
    reveal_strlit("LEAST");
    reveal_strlit("NEWID");
    reveal_strlit("UUID");
    reveal_strlit("GEN_RANDOM_UUID");
    reveal_strlit("UUID_GENERATE_V4");
    reveal_strlit("CONTAINS");
    reveal_strlit("FREETEXT");
    reveal_strlit("COUNT");
    reveal_strlit("SUM");
    reveal_strlit("AVG");
    reveal_strlit("MIN");
    reveal_strlit("MAX");
}

#[verifier::rlimit(60)]
proof fn lemma_names_1()
    ensures
        builtin("YEAR"@) == Builtin::Unary(UnaryFn::Year),
        builtin("MONTH"@) == Builtin::Unary(UnaryFn::Month),
        builtin("DAY"@) == Builtin::Unary(UnaryFn::Day),
        builtin("DAYOFMONTH"@) == Builtin::Unary(UnaryFn::Day),
        builtin("NOW"@) == Builtin::Now,
        builtin("CURRENT_TIMESTAMP"@) == Builtin::Now,
        builtin("CONCAT"@) == Builtin::Concat,
        builtin("IF"@) == Builtin::If,
        builtin("IFNULL"@) == Builtin::Coalesce,
        builtin("COALESCE"@) == Builtin::Coalesce,
        builtin("UPPER"@) == Builtin::Unary(UnaryFn::Upper),
        builtin("UCASE"@) == Builtin::Unary(UnaryFn::Upper),
        builtin("LOWER"@) == Builtin::Unary(UnaryFn::Lower),
        builtin("LCASE"@) == Builtin::Unary(UnaryFn::Lower),
{
    reveal(builtin);
    lemma_letters();
}

#[verifier::rlimit(60)]
proof fn lemma_names_2()
    ensures
        builtin("TRIM"@) == Builtin::Unary(UnaryFn::Trim),
        builtin("LTRIM"@) == Builtin::Unary(UnaryFn::TrimStart),
        builtin("RTRIM"@) == Builtin::Unary(UnaryFn::TrimEnd),
        builtin("LENGTH"@) == Builtin::Unary(UnaryFn::Length),
        builtin("CHAR_LENGTH"@) == Builtin::Unary(UnaryFn::Length),
        builtin("CHARACTER_LENGTH"@) == Builtin::Unary(UnaryFn::Length),
        builtin("SUBSTRING"@) == Builtin::Substring,
        builtin("SUBSTR"@) == Builtin::Substring,
        builtin("MID"@) == Builtin::Substring,
        builtin("LEFT"@) == Builtin::Binary(BinaryFn::Left),
        builtin("RIGHT"@) == Builtin::Binary(BinaryFn::Right),
        builtin("REPLACE"@) == Builtin::Ternary(TernaryFn::Replace),
        builtin("REVERSE"@) == Builtin::Unary(UnaryFn::Reverse),
        builtin("LPAD"@) == Builtin::Ternary(TernaryFn::PadLeft),
{
    reveal(builtin);
    lemma_letters();
}

#[verifier::rlimit(60)]
proof fn lemma_names_3()
    ensures
        builtin("RPAD"@) == Builtin::Ternary(TernaryFn::PadRight),
        builtin("ABS"@) == Builtin::Unary(UnaryFn::Abs),
        builtin("ROUND"@) == Builtin::Round,
        builtin("CEIL"@) == Builtin::Unary(UnaryFn::Ceil),
        builtin("CEILING"@) == Builtin::Unary(UnaryFn::Ceil),
        builtin("FLOOR"@) == Builtin::Unary(UnaryFn::Floor),
        builtin("POWER"@) == Builtin::Binary(BinaryFn::Power),
        builtin("POW"@) == Builtin::Binary(BinaryFn::Power),
        builtin("SQRT"@) == Builtin::Unary(UnaryFn::Sqrt),
        builtin("MOD"@) == Builtin::Binary(BinaryFn::Mod),
        builtin("SIGN"@) == Builtin::Unary(UnaryFn::Sign),
        builtin("DATE_ADD"@) == Builtin::Binary(BinaryFn::DateAdd),
        builtin("ADDDATE"@) == Builtin::Binary(BinaryFn::DateAdd),
        builtin("DATE_SUB"@) == Builtin::Binary(BinaryFn::DateSub),
{
    reveal(builtin);
    lemma_letters();
}

#[verifier::rlimit(60)]
proof fn lemma_names_4()
    ensures
        builtin("SUBDATE"@) == Builtin::Binary(BinaryFn::DateSub),
        builtin("DATEDIFF"@) == Builtin::Binary(BinaryFn::DateDiff),
        builtin("CURDATE"@) == Builtin::CurrentDate,
        builtin("CURRENT_DATE"@) == Builtin::CurrentDate,
        builtin("CAST"@) == Builtin::Unary(UnaryFn::Same),
        builtin("NULLIF"@) == Builtin::Binary(BinaryFn::NullIf),
        builtin("GREATEST"@) == Builtin::Greatest,
        builtin("LEAST"@) == Builtin::Least,
        builtin("NEWID"@) == Builtin::NewId,
        builtin("UUID"@) == Builtin::NewId,
        builtin("GEN_RANDOM_UUID"@) == Builtin::NewId,
        builtin("UUID_GENERATE_V4"@) == Builtin::NewId,
        builtin("CONTAINS"@) == Builtin::Binary(BinaryFn::Contains),
        builtin("FREETEXT"@) == Builtin::Binary(BinaryFn::FreeText),
{
    reveal(builtin);
    lemma_letters();
}

pub proof fn lemma_names()
    ensures
        builtin("YEAR"@) == Builtin::Unary(UnaryFn::Year),
        builtin("MONTH"@) == Builtin::Unary(UnaryFn::Month),
        builtin("DAY"@) == Builtin::Unary(UnaryFn::Day),
        builtin("DAYOFMONTH"@) == Builtin::Unary(UnaryFn::Day),
        builtin("NOW"@) == Builtin::Now,
        builtin("CURRENT_TIMESTAMP"@) == Builtin::Now,
        builtin("CONCAT"@) == Builtin::Concat,
        builtin("IF"@) == Builtin::If,
        builtin("IFNULL"@) == Builtin::Coalesce,
        builtin("COALESCE"@) == Builtin::Coalesce,
        builtin("UPPER"@) == Builtin::Unary(UnaryFn::Upper),
        builtin("UCASE"@) == Builtin::Unary(UnaryFn::Upper),
        builtin("LOWER"@) == Builtin::Unary(UnaryFn::Lower),
        builtin("LCASE"@) == Builtin::Unary(UnaryFn::Lower),
        builtin("TRIM"@) == Builtin::Unary(UnaryFn::Trim),
        builtin("LTRIM"@) == Builtin::Unary(UnaryFn::TrimStart),
        builtin("RTRIM"@) == Builtin::Unary(UnaryFn::TrimEnd),
        builtin("LENGTH"@) == Builtin::Unary(UnaryFn::Length),
        builtin("CHAR_LENGTH"@) == Builtin::Unary(UnaryFn::Length),
        builtin("CHARACTER_LENGTH"@) == Builtin::Unary(UnaryFn::Length),
        builtin("SUBSTRING"@) == Builtin::Substring,
        builtin("SUBSTR"@) == Builtin::Substring,
        builtin("MID"@) == Builtin::Substring,
        builtin("LEFT"@) == Builtin::Binary(BinaryFn::Left),
        builtin("RIGHT"@) == Builtin::Binary(BinaryFn::Right),
        builtin("REPLACE"@) == Builtin::Ternary(TernaryFn::Replace),
        builtin("REVERSE"@) == Builtin::Unary(UnaryFn::Reverse),
        builtin("LPAD"@) == Builtin::Ternary(TernaryFn::PadLeft),
        builtin("RPAD"@) == Builtin::Ternary(TernaryFn::PadRight),
        builtin("ABS"@) == Builtin::Unary(UnaryFn::Abs),
        builtin("ROUND"@) == Builtin::Round,
        builtin("CEIL"@) == Builtin::Unary(UnaryFn::Ceil),
        builtin("CEILING"@) == Builtin::Unary(UnaryFn::Ceil),
        builtin("FLOOR"@) == Builtin::Unary(UnaryFn::Floor),
        builtin("POWER"@) == Builtin::Binary(BinaryFn::Power),
        builtin("POW"@) == Builtin::Binary(BinaryFn::Power),
        builtin("SQRT"@) == Builtin::Unary(UnaryFn::Sqrt),
        builtin("MOD"@) == Builtin::Binary(BinaryFn::Mod),
        builtin("SIGN"@) == Builtin::Unary(UnaryFn::Sign),
        builtin("DATE_ADD"@) == Builtin::Binary(BinaryFn::DateAdd),
        builtin("ADDDATE"@) == Builtin::Binary(BinaryFn::DateAdd),
        builtin("DATE_SUB"@) == Builtin::Binary(BinaryFn::DateSub),
        builtin("SUBDATE"@) == Builtin::Binary(BinaryFn::DateSub),
        builtin("DATEDIFF"@) == Builtin::Binary(BinaryFn::DateDiff),
        builtin("CURDATE"@) == Builtin::CurrentDate,
        builtin("CURRENT_DATE"@) == Builtin::CurrentDate,
        builtin("CAST"@) == Builtin::Unary(UnaryFn::Same),
        builtin("NULLIF"@) == Builtin::Binary(BinaryFn::NullIf),
        builtin("GREATEST"@) == Builtin::Greatest,
        builtin("LEAST"@) == Builtin::Least,
        builtin("NEWID"@) == Builtin::NewId,
        builtin("UUID"@) == Builtin::NewId,
        builtin("GEN_RANDOM_UUID"@) == Builtin::NewId,
        builtin("UUID_GENERATE_V4"@) == Builtin::NewId,
        builtin("CONTAINS"@) == Builtin::Binary(BinaryFn::Contains),
        builtin("FREETEXT"@) == Builtin::Binary(BinaryFn::FreeText),
{
    lemma_names_1();
    lemma_names_2();
    lemma_names_3();
    lemma_names_4();
}
// ---------------------------------------------------------------------------
// Texts
// ---------------------------------------------------------------------------

/// Whether a text is what is left of another when white space is taken from its ends: `a`
/// characters in front and what is behind `b`.
pub open spec fn stripped(s: Seq<char>, t: Seq<char>, a: int, b: int) -> bool {
    &&& 0 <= a <= b <= s.len()
    &&& t == s.subrange(a, b)
    &&& forall|i: int| 0 <= i < a ==> white(#[trigger] s[i])
    &&& forall|i: int| b <= i < s.len() ==> white(#[trigger] s[i])
}

proof fn lemma_trim_start(s: Seq<char>) -> (a: int)
    ensures
        0 <= a <= s.len(),
        trim_start(s, CharSet::White) == s.skip(a),
        forall|i: int| 0 <= i < a ==> white(#[trigger] s[i]),
        a < s.len() ==> !white(s[a]),
    decreases s.len(),
{
    if s.len() > 0 && white(s[0]) {
        let t = s.skip(1);
        let a = lemma_trim_start(t);
        assert(t.skip(a) =~= s.skip(a + 1));
        assert forall|i: int| 0 <= i < a + 1 implies white(#[trigger] s[i]) by {
            if i > 0 {
                assert(t[i - 1] == s[i]);
            }
        }
        if a + 1 < s.len() {
            assert(t[a] == s[a + 1]);
        }
        a + 1
    } else {
        assert(s.skip(0) =~= s);
        0
    }
}

proof fn lemma_trim_end(s: Seq<char>) -> (b: int)
    ensures
        0 <= b <= s.len(),
        trim_end(s, CharSet::White) == s.take(b),
        forall|i: int| b <= i < s.len() ==> white(#[trigger] s[i]),
        b > 0 ==> !white(s[b - 1]),
    decreases s.len(),
{
    if s.len() > 0 && white(s.last()) {
        let t = s.drop_last();
        let b = lemma_trim_end(t);
        assert(t.take(b) =~= s.take(b));
        assert forall|i: int| b <= i < s.len() implies white(#[trigger] s[i]) by {
            if i < t.len() {
                assert(t[i] == s[i]);
            }
        }
        if b > 0 {
            assert(t[b - 1] == s[b - 1]);
        }
        b
    } else {
        assert(s.take(s.len() as int) =~= s);
        s.len() as int
    }
}

/// LTRIM takes the white space from the front of a text, RTRIM that from its end, and TRIM both:
/// what is left does not begin, or end, with white space.
#[verifier::rlimit(60)]
pub proof fn law_trimming_strips_white_space(
    e: Expr,
    args: Vec<Expr>,
    s: Seq<char>,
    row: Seq<ValueView>,
    names: Seq<Seq<char>>,
    h: HostView,
) -> (ends: (int, int))
    requires
        args.len() > 0,
        gives(args[0], ValueView::Varchar(s), row, names, h),
        is_call(e, "TRIM"@, args) || is_call(e, "LTRIM"@, args) || is_call(e, "RTRIM"@, args),
    ensures
        eval(e, row, names, h) matches Ok(ValueView::Varchar(t)) && stripped(s, t, ends.0, ends.1)
            && (is_call(e, "LTRIM"@, args) ==> ends.1 == s.len() && (t.len() > 0 ==> !white(t[0])))
            && (is_call(e, "RTRIM"@, args) ==> ends.0 == 0 && (t.len() > 0 ==> !white(t.last())))
            && (is_call(e, "TRIM"@, args) && t.len() > 0 ==> !white(t[0]) && !white(t.last())),
{
    assert(builtin("TRIM"@) == Builtin::Unary(UnaryFn::Trim)) by {
        lemma_names();
    }
    if is_call(e, "TRIM"@, args) {
        lemma_unary_call(e, "TRIM"@, args, UnaryFn::Trim, ValueView::Varchar(s), row, names, h);
    }
    assert(builtin("LTRIM"@) == Builtin::Unary(UnaryFn::TrimStart)) by {
        lemma_names();
    }
    if is_call(e, "LTRIM"@, args) {
        lemma_unary_call(e, "LTRIM"@, args, UnaryFn::TrimStart, ValueView::Varchar(s), row, names, h);
    }
    assert(builtin("RTRIM"@) == Builtin::Unary(UnaryFn::TrimEnd)) by {
        lemma_names();
    }
    if is_call(e, "RTRIM"@, args) {
        lemma_unary_call(e, "RTRIM"@, args, UnaryFn::TrimEnd, ValueView::Varchar(s), row, names, h);
    }
    reveal_strlit("TRIM");
    reveal_strlit("LTRIM");
    reveal_strlit("RTRIM");
    assert("LTRIM"@[0] == 'L' && "RTRIM"@[0] == 'R' && "TRIM"@.len() == 4);
    let a = lemma_trim_start(s);
    if is_call(e, "RTRIM"@, args) {
        let b = lemma_trim_end(s);
        assert(s.take(b) =~= s.subrange(0, b));
        (0, b)
    } else if is_call(e, "LTRIM"@, args) {
        assert(s.skip(a) =~= s.subrange(a, s.len() as int));
        (a, s.len() as int)
    } else {
        let t = s.skip(a);
        let b = lemma_trim_end(t);
        assert(t.take(b) =~= s.subrange(a, a + b));
        assert forall|i: int| a + b <= i < s.len() implies white(#[trigger] s[i]) by {
            assert(t[i - a] == s[i]);
        }
        if b > 0 {
            assert(t[b - 1] == s[a + b - 1]);
            assert(t[0] == s[a]);
        }
        (a, a + b)
    }
}

/// UPPER and LOWER give a text in upper and lower case, LENGTH the number of its characters, and
/// REVERSE its characters from the last to the first.
#[verifier::rlimit(60)]
pub proof fn law_texts_are_turned_and_measured(
    e: Expr,
    args: Vec<Expr>,
    s: Seq<char>,
    row: Seq<ValueView>,
    names: Seq<Seq<char>>,
    h: HostView,
)
    requires
        args.len() > 0,
        gives(args[0], ValueView::Varchar(s), row, names, h),
    ensures
        is_call(e, "UPPER"@, args) || is_call(e, "UCASE"@, args) ==> gives(
            e,
            ValueView::Varchar(upper_text(s)),
            row,
            names,
            h,
        ),
        is_call(e, "LOWER"@, args) || is_call(e, "LCASE"@, args) ==> gives(
            e,
            ValueView::Varchar(lower_text(s)),
            row,
            names,
            h,
        ),
        s.len() <= i32::MAX && (is_call(e, "LENGTH"@, args) || is_call(e, "CHAR_LENGTH"@, args)
            || is_call(e, "CHARACTER_LENGTH"@, args)) ==> gives(
            e,
            ValueView::Integer(s.len() as i32),
            row,
            names,
            h,
        ),
        is_call(e, "REVERSE"@, args) ==> (eval(e, row, names, h) matches Ok(ValueView::Varchar(t))
            && t.len() == s.len() && forall|i: int|
            0 <= i < s.len() ==> #[trigger] t[i] == s[s.len() - 1 - i]),
{
    assert(builtin("UPPER"@) == Builtin::Unary(UnaryFn::Upper)) by {
        lemma_names();
    }
    if is_call(e, "UPPER"@, args) {
        lemma_unary_call(e, "UPPER"@, args, UnaryFn::Upper, ValueView::Varchar(s), row, names, h);
    }
    assert(builtin("UCASE"@) == Builtin::Unary(UnaryFn::Upper)) by {
        lemma_names();
    }
    if is_call(e, "UCASE"@, args) {
        lemma_unary_call(e, "UCASE"@, args, UnaryFn::Upper, ValueView::Varchar(s), row, names, h);
    }
    assert(builtin("LOWER"@) == Builtin::Unary(UnaryFn::Lower)) by {
        lemma_names();
    }
    if is_call(e, "LOWER"@, args) {
        lemma_unary_call(e, "LOWER"@, args, UnaryFn::Lower, ValueView::Varchar(s), row, names, h);
    }
    assert(builtin("LCASE"@) == Builtin::Unary(UnaryFn::Lower)) by {
        lemma_names();
    }
    if is_call(e, "LCASE"@, args) {
        lemma_unary_call(e, "LCASE"@, args, UnaryFn::Lower, ValueView::Varchar(s), row, names, h);
    }
    assert(builtin("LENGTH"@) == Builtin::Unary(UnaryFn::Length)) by {
        lemma_names();
    }
    if is_call(e, "LENGTH"@, args) {
        lemma_unary_call(e, "LENGTH"@, args, UnaryFn::Length, ValueView::Varchar(s), row, names, h);
    }
    assert(builtin("CHAR_LENGTH"@) == Builtin::Unary(UnaryFn::Length)) by {
        lemma_names();
    }
    if is_call(e, "CHAR_LENGTH"@, args) {
        lemma_unary_call(e, "CHAR_LENGTH"@, args, UnaryFn::Length, ValueView::Varchar(s), row, names, h);
    }
    assert(builtin("CHARACTER_LENGTH"@) == Builtin::Unary(UnaryFn::Length)) by {
        lemma_names();
    }
    if is_call(e, "CHARACTER_LENGTH"@, args) {
        lemma_unary_call(e, "CHARACTER_LENGTH"@, args, UnaryFn::Length, ValueView::Varchar(s), row, names, h);
    }
    assert(builtin("REVERSE"@) == Builtin::Unary(UnaryFn::Reverse)) by {
        lemma_names();
    }
    if is_call(e, "REVERSE"@, args) {
        lemma_unary_call(e, "REVERSE"@, args, UnaryFn::Reverse, ValueView::Varchar(s), row, names, h);
    }
}

/// LEFT(s, n) gives the first `n` characters of a text, RIGHT(s, n) the last `n`, and all of it if
/// it has no more.
#[verifier::rlimit(60)]
pub proof fn law_left_and_right_cut(
    e: Expr,
    args: Vec<Expr>,
    s: Seq<char>,
    v: ValueView,
    n: int,
    row: Seq<ValueView>,
    names: Seq<Seq<char>>,
    h: HostView,
)
    requires
        args.len() >= 2,
        gives(args[0], ValueView::Varchar(s), row, names, h),
        gives(args[1], v, row, names, h),
        stands_for(v, n),
        n >= 0,
    ensures
        is_call(e, "LEFT"@, args) ==> (eval(e, row, names, h) matches Ok(ValueView::Varchar(t)) && if n
            <= s.len() {
            t.len() == n && forall|i: int| 0 <= i < n ==> #[trigger] t[i] == s[i]
        } else {
            t == s
        }),
        is_call(e, "RIGHT"@, args) ==> (eval(e, row, names, h) matches Ok(ValueView::Varchar(t))
            && if n <= s.len() {
            t.len() == n && forall|i: int| 0 <= i < n ==> #[trigger] t[i] == s[s.len() - n + i]
        } else {
            t == s
        }),
{
    assert(builtin("LEFT"@) == Builtin::Binary(BinaryFn::Left)) by {
        lemma_names();
    }
    if is_call(e, "LEFT"@, args) {
        lemma_binary_call(e, "LEFT"@, args, BinaryFn::Left, ValueView::Varchar(s), v, row, names, h);
    }
    assert(builtin("RIGHT"@) == Builtin::Binary(BinaryFn::Right)) by {
        lemma_names();
    }
    if is_call(e, "RIGHT"@, args) {
        lemma_binary_call(e, "RIGHT"@, args, BinaryFn::Right, ValueView::Varchar(s), v, row, names, h);
    }
    assert(s.take(s.len() as int) =~= s);
    assert(s.skip(0) =~= s);
}

/// SUBSTRING(s, k, n) gives `n` characters of a text from the `k`-th on, of which the first is the
/// one with the number one; fewer where it ends before, and all to its end without `n`.
#[verifier::rlimit(60)]
pub proof fn law_substring_cuts(
    e: Expr,
    args: Vec<Expr>,
    s: Seq<char>,
    v: ValueView,
    k: int,
    w: ValueView,
    n: int,
    row: Seq<ValueView>,
    names: Seq<Seq<char>>,
    h: HostView,
)
    requires
        args.len() >= 2,
        is_call(e, "SUBSTRING"@, args) || is_call(e, "SUBSTR"@, args) || is_call(e, "MID"@, args),
        gives(args[0], ValueView::Varchar(s), row, names, h),
        gives(args[1], v, row, names, h),
        stands_for(v, k),
        1 <= k <= s.len(),
        args.len() >= 3 ==> gives(args[2], w, row, names, h) && stands_for(w, n) && n >= 0,
    ensures
        eval(e, row, names, h) matches Ok(ValueView::Varchar(t)) && t.len() == (if args.len() >= 3
            && n <= s.len() - (k - 1) {
            n
        } else {
            s.len() - (k - 1)
        }) && forall|i: int| 0 <= i < t.len() ==> #[trigger] t[i] == s[k - 1 + i],
{
    assert(builtin("SUBSTRING"@) == Builtin::Substring) by {
        lemma_names();
    }
    if is_call(e, "SUBSTRING"@, args) {
        lemma_other_call(e, "SUBSTRING"@, args, row, names, h);
    }
    assert(builtin("SUBSTR"@) == Builtin::Substring) by {
        lemma_names();
    }
    if is_call(e, "SUBSTR"@, args) {
        lemma_other_call(e, "SUBSTR"@, args, row, names, h);
    }
    assert(builtin("MID"@) == Builtin::Substring) by {
        lemma_names();
    }
    if is_call(e, "MID"@, args) {
        lemma_other_call(e, "MID"@, args, row, names, h);
    }
}

/// Behind the last character of a text SUBSTRING gives nothing.
#[verifier::rlimit(60)]
pub proof fn law_substring_ends(
    e: Expr,
    args: Vec<Expr>,
    s: Seq<char>,
    v: ValueView,
    k: int,
    row: Seq<ValueView>,
    names: Seq<Seq<char>>,
    h: HostView,
)
    requires
        args.len() >= 2,
        is_call(e, "SUBSTRING"@, args) || is_call(e, "SUBSTR"@, args) || is_call(e, "MID"@, args),
        gives(args[0], ValueView::Varchar(s), row, names, h),
        gives(args[1], v, row, names, h),
        stands_for(v, k),
        k > s.len(),
        k >= 1,
    ensures
        gives(e, ValueView::Varchar(Seq::empty()), row, names, h),
{
    assert(builtin("SUBSTRING"@) == Builtin::Substring) by {
        lemma_names();
    }
    if is_call(e, "SUBSTRING"@, args) {
        lemma_other_call(e, "SUBSTRING"@, args, row, names, h);
    }
    assert(builtin("SUBSTR"@) == Builtin::Substring) by {
        lemma_names();
    }
    if is_call(e, "SUBSTR"@, args) {
        lemma_other_call(e, "SUBSTR"@, args, row, names, h);
    }
    assert(builtin("MID"@) == Builtin::Substring) by {
        lemma_names();
    }
    if is_call(e, "MID"@, args) {
        lemma_other_call(e, "MID"@, args, row, names, h);
    }
}

/// Whether a text stands in another at a place.
pub open spec fn stands_at(s: Seq<char>, p: Seq<char>, k: int) -> bool {
    0 <= k && k + p.len() <= s.len() && s.subrange(k, k + p.len()) == p
}

/// Whether a text stands nowhere in another before a place.
pub open spec fn nowhere_before(s: Seq<char>, p: Seq<char>, k: int) -> bool {
    forall|i: int| 0 <= i < k ==> !#[trigger] stands_at(s, p, i)
}

proof fn lemma_replaced(s: Seq<char>, p: Seq<char>, q: Seq<char>, k: int)
    requires
        p.len() > 0,
        0 <= k <= s.len(),
        nowhere_before(s, p, k),
    ensures
        stands_at(s, p, k) ==> replaced(s, p, q) == s.take(k)
            + q + replaced(s.skip(k + p.len()), p, q),
        k == s.len() ==> replaced(s, p, q) == s,
    decreases s.len(),
{
    let m = p.len() as int;
    if k == 0 {
        if stands_at(s, p, 0) {
            assert(occurs_at(s, p, 0));
            assert(s.take(0) + q =~= q);
        }
        if s.len() == 0 {
            assert(replaced(s, p, q) == s);
        }
    } else if s.len() < m {
        assert(replaced(s, p, q) == s);
    } else {
        assert(!stands_at(s, p, 0));
        assert(!occurs_at(s, p, 0));
        let t = s.skip(1);
        assert forall|i: int| 0 <= i < k - 1 implies !#[trigger] stands_at(t, p, i) by {
            if stands_at(t, p, i) {
                assert(t.subrange(i, i + m) =~= s.subrange(i + 1, i + 1 + m));
                assert(stands_at(s, p, i + 1));
            }
        }
        lemma_replaced(t, p, q, k - 1);
        if stands_at(s, p, k) {
            assert(t.subrange(k - 1, k - 1 + m) =~= s.subrange(k, k + m));
            assert(t.skip(k - 1 + m) =~= s.skip(k + m));
            assert(seq![s[0]] + (t.take(k - 1) + q + replaced(t.skip(k - 1 + m), p, q)) =~= s.take(k)
                + q + replaced(s.skip(k + m), p, q));
        }
        if k == s.len() {
            assert(seq![s[0]] + t =~= s);
        }
    }
}

/// REPLACE(s, p, q) leaves a text in which `p` stands nowhere as it is; else it puts `q` where `p`
/// stands first, leaves what is before, and does the same with what is behind.
#[verifier::rlimit(60)]
pub proof fn law_replace_puts_one_for_the_other(
    e: Expr,
    args: Vec<Expr>,
    s: Seq<char>,
    p: Seq<char>,
    q: Seq<char>,
    k: int,
    rest: Expr,
    after: Vec<Expr>,
    row: Seq<ValueView>,
    names: Seq<Seq<char>>,
    h: HostView,
)
    requires
        args.len() >= 3,
        after.len() >= 3,
        is_call(e, "REPLACE"@, args),
        is_call(rest, "REPLACE"@, after),
        gives(args[0], ValueView::Varchar(s), row, names, h),
        gives(args[1], ValueView::Varchar(p), row, names, h),
        gives(args[2], ValueView::Varchar(q), row, names, h),
        p.len() > 0,
        0 <= k <= s.len(),
        nowhere_before(s, p, k),
        k + p.len() <= s.len() ==> gives(
            after[0],
            ValueView::Varchar(s.skip(k + p.len())),
            row,
            names,
            h,
        ),
        gives(after[1], ValueView::Varchar(p), row, names, h),
        gives(after[2], ValueView::Varchar(q), row, names, h),
    ensures
        k == s.len() ==> gives(e, ValueView::Varchar(s), row, names, h),
        stands_at(s, p, k) ==> (eval(
            rest,
            row,
            names,
            h,
        ) matches Ok(ValueView::Varchar(t)) && gives(
            e,
            ValueView::Varchar(s.take(k) + q + t),
            row,
            names,
            h,
        )),
{
    assert(builtin("REPLACE"@) == Builtin::Ternary(TernaryFn::Replace)) by {
        lemma_names();
    }
    if is_call(e, "REPLACE"@, args) {
        lemma_ternary_call(e, "REPLACE"@, args, TernaryFn::Replace, ValueView::Varchar(s), ValueView::Varchar(p), ValueView::Varchar(q), row, names, h);
    }
    if k + p.len() <= s.len() {
        lemma_ternary_call(
            rest,
            "REPLACE"@,
            after,
            TernaryFn::Replace,
            ValueView::Varchar(s.skip(k + p.len())),
            ValueView::Varchar(p),
            ValueView::Varchar(q),
            row,
            names,
            h,
        );
    }
    lemma_replaced(s, p, q, k);
}

/// LPAD and RPAD bring a text to a length: a longer one is cut behind, a shorter one filled up with
/// a text again and again, in front and behind.
#[verifier::rlimit(60)]
pub proof fn law_padding_fills_up(
    e: Expr,
    args: Vec<Expr>,
    s: Seq<char>,
    v: ValueView,
    n: int,
    p: Seq<char>,
    row: Seq<ValueView>,
    names: Seq<Seq<char>>,
    h: HostView,
)
    requires
        args.len() >= 3,
        is_call(e, "LPAD"@, args) || is_call(e, "RPAD"@, args),
        gives(args[0], ValueView::Varchar(s), row, names, h),
        gives(args[1], v, row, names, h),
        gives(args[2], ValueView::Varchar(p), row, names, h),
        stands_for(v, n),
        n >= 0,
        p.len() > 0,
    ensures
        eval(e, row, names, h) matches Ok(ValueView::Varchar(t)) && t.len() == n && if n <= s.len() {
            forall|i: int| 0 <= i < n ==> #[trigger] t[i] == s[i]
        } else if is_call(e, "LPAD"@, args) {
            (forall|i: int| 0 <= i < n - s.len() ==> #[trigger] t[i] == p[i % p.len() as int]) && (
            forall|i: int| n - s.len() <= i < n ==> #[trigger] t[i] == s[i - (n - s.len())])
        } else {
            (forall|i: int| 0 <= i < s.len() ==> #[trigger] t[i] == s[i]) && (forall|i: int|
                s.len() <= i < n ==> #[trigger] t[i] == p[(i - s.len()) % p.len() as int])
        },
{
    assert(builtin("LPAD"@) == Builtin::Ternary(TernaryFn::PadLeft)) by {
        lemma_names();
    }
    if is_call(e, "LPAD"@, args) {
        lemma_ternary_call(e, "LPAD"@, args, TernaryFn::PadLeft, ValueView::Varchar(s), v, ValueView::Varchar(p), row, names, h);
    }
    assert(builtin("RPAD"@) == Builtin::Ternary(TernaryFn::PadRight)) by {
        lemma_names();
    }
    if is_call(e, "RPAD"@, args) {
        lemma_ternary_call(e, "RPAD"@, args, TernaryFn::PadRight, ValueView::Varchar(s), v, ValueView::Varchar(p), row, names, h);
    }
}

/// CONCAT puts the texts of its arguments one behind the other: with one argument more, the text
/// of that stands behind the rest.
#[verifier::rlimit(60)]
pub proof fn law_concat_joins_texts(
    e: Expr,
    args: Vec<Expr>,
    texts: Seq<Seq<char>>,
    row: Seq<ValueView>,
    names: Seq<Seq<char>>,
    h: HostView,
)
    requires
        is_call(e, "CONCAT"@, args),
        texts.len() == args.len(),
        forall|i: int|
            0 <= i < args.len() ==> gives(
                #[trigger] args[i],
                ValueView::Varchar(texts[i]),
                row,
                names,
                h,
            ),
    ensures
        gives(e, ValueView::Varchar(strung(texts)), row, names, h),
{
    assert(builtin("CONCAT"@) == Builtin::Concat) by {
        lemma_names();
    }
    if is_call(e, "CONCAT"@, args) {
        lemma_other_call(e, "CONCAT"@, args, row, names, h);
    }
    lemma_concat(args, 0, texts, row, names, h);
    assert(texts.take(0) =~= Seq::<Seq<char>>::empty());
}

/// Texts one behind the other.
pub open spec fn strung(texts: Seq<Seq<char>>) -> Seq<char>
    decreases texts.len(),
{
    if texts.len() == 0 {
        Seq::empty()
    } else {
        strung(texts.drop_last()) + texts.last()
    }
}

proof fn lemma_concat(
    args: Vec<Expr>,
    i: int,
    texts: Seq<Seq<char>>,
    row: Seq<ValueView>,
    names: Seq<Seq<char>>,
    h: HostView,
)
    requires
        0 <= i <= args.len(),
        texts.len() == args.len(),
        forall|k: int|
            0 <= k < args.len() ==> gives(
                #[trigger] args[k],
                ValueView::Varchar(texts[k]),
                row,
                names,
                h,
            ),
    ensures
        concat_from(args, i, strung(texts.take(i)), row, names, h) == Ok::<ValueView, ErrorView>(
            ValueView::Varchar(strung(texts)),
        ),
    decreases args.len() - i,
{
    if i < args.len() {
        assert(gives(args[i], ValueView::Varchar(texts[i]), row, names, h));
        assert(texts.take(i + 1).drop_last() =~= texts.take(i));
        assert(texts.take(i + 1).last() == texts[i]);
        lemma_concat(args, i + 1, texts, row, names, h);
    } else {
        assert(texts.take(i) =~= texts);
    }
}

// ---------------------------------------------------------------------------
// Numbers
// ---------------------------------------------------------------------------

/// ABS takes the sign from an integer, SIGN gives it alone, and CEIL and FLOOR leave integers as
/// they are.
#[verifier::rlimit(60)]
pub proof fn law_integers_and_their_signs(
    e: Expr,
    args: Vec<Expr>,
    v: ValueView,
    n: int,
    row: Seq<ValueView>,
    names: Seq<Seq<char>>,
    h: HostView,
)
    requires
        args.len() > 0,
        gives(args[0], v, row, names, h),
        stands_for(v, n),
    ensures
        is_call(e, "ABS"@, args) && n != i32::MIN && n != i64::MIN ==> (eval(
            e,
            row,
            names,
            h,
        ) matches Ok(r) && stands_for(
            r,
            if n < 0 {
                -n
            } else {
                n
            },
        )),
        is_call(e, "SIGN"@, args) ==> (eval(e, row, names, h) matches Ok(r) && stands_for(
            r,
            if n < 0 {
                -1
            } else if n > 0 {
                1
            } else {
                0
            },
        )),
        is_call(e, "CEIL"@, args) || is_call(e, "CEILING"@, args) || is_call(e, "FLOOR"@, args)
            ==> gives(e, v, row, names, h),
{
    assert(builtin("ABS"@) == Builtin::Unary(UnaryFn::Abs)) by {
        lemma_names();
    }
    if is_call(e, "ABS"@, args) {
        lemma_unary_call(e, "ABS"@, args, UnaryFn::Abs, v, row, names, h);
    }
    assert(builtin("SIGN"@) == Builtin::Unary(UnaryFn::Sign)) by {
        lemma_names();
    }
    if is_call(e, "SIGN"@, args) {
        lemma_unary_call(e, "SIGN"@, args, UnaryFn::Sign, v, row, names, h);
    }
    assert(builtin("CEIL"@) == Builtin::Unary(UnaryFn::Ceil)) by {
        lemma_names();
    }
    if is_call(e, "CEIL"@, args) {
        lemma_unary_call(e, "CEIL"@, args, UnaryFn::Ceil, v, row, names, h);
    }
    assert(builtin("CEILING"@) == Builtin::Unary(UnaryFn::Ceil)) by {
        lemma_names();
    }
    if is_call(e, "CEILING"@, args) {
        lemma_unary_call(e, "CEILING"@, args, UnaryFn::Ceil, v, row, names, h);
    }
    assert(builtin("FLOOR"@) == Builtin::Unary(UnaryFn::Floor)) by {
        lemma_names();
    }
    if is_call(e, "FLOOR"@, args) {
        lemma_unary_call(e, "FLOOR"@, args, UnaryFn::Floor, v, row, names, h);
    }
}

/// POWER(x, y) is what the host computes for `x` to the power of `y`, and SQRT(x) its root of `x`;
/// MOD is the remainder of its first argument by its second.
#[verifier::rlimit(60)]
pub proof fn law_powers_come_from_the_host(
    e: Expr,
    args: Vec<Expr>,
    v: ValueView,
    w: ValueView,
    a: u64,
    b: u64,
    row: Seq<ValueView>,
    names: Seq<Seq<char>>,
    h: HostView,
)
    requires
        args.len() >= 2,
        gives(args[0], v, row, names, h),
        gives(args[1], w, row, names, h),
        as_double(v, a),
        as_double(w, b),
    ensures
        is_call(e, "POWER"@, args) || is_call(e, "POW"@, args) ==> eval(e, row, names, h)
            == host_gives(h.numeric(FloatOp::Pow, a, b)),
        is_call(e, "SQRT"@, args) && a < 0x7ff0_0000_0000_0000 ==> eval(e, row, names, h)
            == host_gives(h.numeric(FloatOp::Sqrt, a, 0)),
        is_call(e, "MOD"@, args) ==> eval(e, row, names, h) == crate::compare::modulo(v, w, h),
{
    assert(builtin("POWER"@) == Builtin::Binary(BinaryFn::Power)) by {
        lemma_names();
    }
    if is_call(e, "POWER"@, args) {
        lemma_binary_call(e, "POWER"@, args, BinaryFn::Power, v, w, row, names, h);
    }
    assert(builtin("POW"@) == Builtin::Binary(BinaryFn::Power)) by {
        lemma_names();
    }
    if is_call(e, "POW"@, args) {
        lemma_binary_call(e, "POW"@, args, BinaryFn::Power, v, w, row, names, h);
    }
    assert(builtin("MOD"@) == Builtin::Binary(BinaryFn::Mod)) by {
        lemma_names();
    }
    if is_call(e, "MOD"@, args) {
        lemma_binary_call(e, "MOD"@, args, BinaryFn::Mod, v, w, row, names, h);
    }
    assert(builtin("SQRT"@) == Builtin::Unary(UnaryFn::Sqrt)) by {
        lemma_names();
    }
    if is_call(e, "SQRT"@, args) {
        lemma_unary_call(e, "SQRT"@, args, UnaryFn::Sqrt, v, row, names, h);
    }
}

// ---------------------------------------------------------------------------
// Choice
// ---------------------------------------------------------------------------

proof fn lemma_first_known(
    args: Vec<Expr>,
    i: int,
    k: int,
    row: Seq<ValueView>,
    names: Seq<Seq<char>>,
    h: HostView,
)
    requires
        0 <= i <= k <= args.len(),
        forall|j: int|
            0 <= j < k ==> gives(#[trigger] args[j], ValueView::Null, row, names, h),
    ensures
        first_known(args, i, row, names, h) == first_known(args, k, row, names, h),
    decreases k - i,
{
    if i < k {
        assert(gives(args[i], ValueView::Null, row, names, h));
        lemma_first_known(args, i + 1, k, row, names, h);
    }
}

/// COALESCE and IFNULL give the first of their arguments that is not NULL, and NULL if all are.
#[verifier::rlimit(60)]
pub proof fn law_coalesce_takes_the_first_known(
    e: Expr,
    args: Vec<Expr>,
    k: int,
    row: Seq<ValueView>,
    names: Seq<Seq<char>>,
    h: HostView,
)
    requires
        is_call(e, "COALESCE"@, args) || is_call(e, "IFNULL"@, args),
        0 <= k <= args.len(),
        forall|j: int| 0 <= j < k ==> gives(#[trigger] args[j], ValueView::Null, row, names, h),
        k < args.len() ==> !gives(args[k], ValueView::Null, row, names, h),
    ensures
        eval(e, row, names, h) == if k < args.len() {
            eval(args[k], row, names, h)
        } else {
            Ok(ValueView::Null)
        },
{
    assert(builtin("COALESCE"@) == Builtin::Coalesce) by {
        lemma_names();
    }
    if is_call(e, "COALESCE"@, args) {
        lemma_other_call(e, "COALESCE"@, args, row, names, h);
    }
    assert(builtin("IFNULL"@) == Builtin::Coalesce) by {
        lemma_names();
    }
    if is_call(e, "IFNULL"@, args) {
        lemma_other_call(e, "IFNULL"@, args, row, names, h);
    }
    lemma_first_known(args, 0, k, row, names, h);
}

/// IF gives its second argument where the first holds, and else its third. NULLIF gives NULL where
/// its arguments are equal, and else the first.
#[verifier::rlimit(60)]
pub proof fn law_if_and_nullif(
    e: Expr,
    args: Vec<Expr>,
    v: ValueView,
    row: Seq<ValueView>,
    names: Seq<Seq<char>>,
    h: HostView,
)
    requires
        args.len() >= 2,
        gives(args[0], v, row, names, h),
    ensures
        is_call(e, "IF"@, args) && args.len() >= 3 && v is Boolean ==> eval(e, row, names, h) == if v
            == ValueView::Boolean(true) {
            eval(args[1], row, names, h)
        } else {
            eval(args[2], row, names, h)
        },
        is_call(e, "IF"@, args) && args.len() >= 3 && v is Null ==> eval(e, row, names, h) == eval(
            args[2],
            row,
            names,
            h,
        ),
        is_call(e, "NULLIF"@, args) && v is Integer ==> (eval(args[1], row, names, h) matches Ok(
            ValueView::Integer(b),
        ) ==> gives(
            e,
            if v == ValueView::Integer(b) {
                ValueView::Null
            } else {
                v
            },
            row,
            names,
            h,
        )),
{
    assert(builtin("IF"@) == Builtin::If) by {
        lemma_names();
    }
    if is_call(e, "IF"@, args) {
        lemma_other_call(e, "IF"@, args, row, names, h);
    }
    assert(builtin("NULLIF"@) == Builtin::Binary(BinaryFn::NullIf)) by {
        lemma_names();
    }
    if is_call(e, "NULLIF"@, args) {
        if let Ok(w) = eval(args[1], row, names, h) {
            lemma_binary_call(e, "NULLIF"@, args, BinaryFn::NullIf, v, w, row, names, h);
        }
    }
}

proof fn lemma_extreme_from(
    args: Vec<Expr>,
    i: int,
    best: ValueView,
    most: bool,
    row: Seq<ValueView>,
    names: Seq<Seq<char>>,
    h: HostView,
)
    requires
        1 <= i <= args.len(),
        held(best) is Some,
        forall|k: int|
            0 <= k < args.len() ==> (eval(#[trigger] args[k], row, names, h) matches Ok(v) && held(
                v,
            ) is Some),
        exists|k: int| 0 <= k < i && gives(#[trigger] args[k], best, row, names, h),
        forall|k: int|
            0 <= k < i ==> within(eval(#[trigger] args[k], row, names, h)->Ok_0, best, most),
    ensures
        ({
            let r = extreme_from(
                args,
                i,
                best,
                if most {
                    Order::Less
                } else {
                    Order::Greater
                },
                row,
                names,
                h,
            );
            r matches Ok(m) && held(m) is Some && (exists|k: int|
                0 <= k < args.len() && gives(#[trigger] args[k], m, row, names, h)) && forall|k: int|
                0 <= k < args.len() ==> within(
                    eval(#[trigger] args[k], row, names, h)->Ok_0,
                    m,
                    most,
                )
        }),
    decreases args.len() - i,
{
    if i < args.len() {
        let x = args[i];
        let v = eval(args[i], row, names, h)->Ok_0;
        let next = if within(v, best, most) {
            best
        } else {
            v
        };
        assert(gives(args[i], v, row, names, h));
        lemma_extreme_from(args, i + 1, next, most, row, names, h);
    }
}

/// Whether an integer is at most, or else at least, another.
pub open spec fn within(v: ValueView, m: ValueView, most: bool) -> bool {
    held(v) matches Some(a) && held(m) matches Some(b) && if most {
        a <= b
    } else {
        b <= a
    }
}

/// GREATEST gives the greatest and LEAST the least of the integers that it is called on.
#[verifier::rlimit(60)]
pub proof fn law_greatest_and_least(
    e: Expr,
    args: Vec<Expr>,
    row: Seq<ValueView>,
    names: Seq<Seq<char>>,
    h: HostView,
)
    requires
        args.len() > 0,
        is_call(e, "GREATEST"@, args) || is_call(e, "LEAST"@, args),
        forall|k: int|
            0 <= k < args.len() ==> (eval(#[trigger] args[k], row, names, h) matches Ok(v) && held(
                v,
            ) is Some),
    ensures
        eval(e, row, names, h) matches Ok(m) && (exists|k: int|
            0 <= k < args.len() && gives(#[trigger] args[k], m, row, names, h)) && forall|k: int|
            0 <= k < args.len() ==> within(
                eval(#[trigger] args[k], row, names, h)->Ok_0,
                m,
                is_call(e, "GREATEST"@, args),
            ),
{
    assert(builtin("GREATEST"@) == Builtin::Greatest) by {
        lemma_names();
    }
    if is_call(e, "GREATEST"@, args) {
        lemma_other_call(e, "GREATEST"@, args, row, names, h);
    }
    assert(builtin("LEAST"@) == Builtin::Least) by {
        lemma_names();
    }
    if is_call(e, "LEAST"@, args) {
        lemma_other_call(e, "LEAST"@, args, row, names, h);
    }
    let x = args[0];
    let v = eval(args[0], row, names, h)->Ok_0;
    assert(gives(args[0], v, row, names, h));
    lemma_extreme_from(args, 1, v, is_call(e, "GREATEST"@, args), row, names, h);
}

// ---------------------------------------------------------------------------
// Dates
// ---------------------------------------------------------------------------

/// DATE_ADD and DATE_SUB go forth and back by days, and DATEDIFF says how many days a moment lies
/// behind another.
#[verifier::rlimit(60)]
pub proof fn law_dates_move_by_days(
    e: Expr,
    args: Vec<Expr>,
    t: i64,
    w: ValueView,
    n: int,
    row: Seq<ValueView>,
    names: Seq<Seq<char>>,
    h: HostView,
)
    requires
        args.len() >= 2,
        gives(args[0], ValueView::DateTime(t), row, names, h),
        gives(args[1], w, row, names, h),
    ensures
        stands_for(w, n) && i64::MIN <= t + n * 86400 <= i64::MAX && (is_call(e, "DATE_ADD"@, args)
            || is_call(e, "ADDDATE"@, args)) ==> gives(
            e,
            ValueView::DateTime((t + n * 86400) as i64),
            row,
            names,
            h,
        ),
        stands_for(w, n) && i64::MIN <= t - n * 86400 <= i64::MAX && (is_call(e, "DATE_SUB"@, args)
            || is_call(e, "SUBDATE"@, args)) ==> gives(
            e,
            ValueView::DateTime((t - n * 86400) as i64),
            row,
            names,
            h,
        ),
        is_call(e, "DATEDIFF"@, args) ==> (w matches ValueView::DateTime(u) ==> comes_to(
            eval(e, row, names, h),
            t as int / 86400 - u as int / 86400,
            true,
        )),
{
    assert(builtin("DATE_ADD"@) == Builtin::Binary(BinaryFn::DateAdd)) by {
        lemma_names();
    }
    if is_call(e, "DATE_ADD"@, args) {
        lemma_binary_call(e, "DATE_ADD"@, args, BinaryFn::DateAdd, ValueView::DateTime(t), w, row, names, h);
    }
    assert(builtin("ADDDATE"@) == Builtin::Binary(BinaryFn::DateAdd)) by {
        lemma_names();
    }
    if is_call(e, "ADDDATE"@, args) {
        lemma_binary_call(e, "ADDDATE"@, args, BinaryFn::DateAdd, ValueView::DateTime(t), w, row, names, h);
    }
    assert(builtin("DATE_SUB"@) == Builtin::Binary(BinaryFn::DateSub)) by {
        lemma_names();
    }
    if is_call(e, "DATE_SUB"@, args) {
        lemma_binary_call(e, "DATE_SUB"@, args, BinaryFn::DateSub, ValueView::DateTime(t), w, row, names, h);
    }
    assert(builtin("SUBDATE"@) == Builtin::Binary(BinaryFn::DateSub)) by {
        lemma_names();
    }
    if is_call(e, "SUBDATE"@, args) {
        lemma_binary_call(e, "SUBDATE"@, args, BinaryFn::DateSub, ValueView::DateTime(t), w, row, names, h);
    }
    assert(builtin("DATEDIFF"@) == Builtin::Binary(BinaryFn::DateDiff)) by {
        lemma_names();
    }
    if is_call(e, "DATEDIFF"@, args) {
        lemma_binary_call(e, "DATEDIFF"@, args, BinaryFn::DateDiff, ValueView::DateTime(t), w, row, names, h);
    }
}

proof fn lemma_midnight(now: i64)
    requires
        now >= i64::MIN + 86400,
    ensures
        moment(midnight(now as int)) matches Ok(ValueView::DateTime(m)) && m % 86400 == 0 && m
            <= now < m + 86400,
{
}

/// NOW is the moment that the host gives, and CURDATE the midnight before it.
#[verifier::rlimit(60)]
pub proof fn law_now_is_the_hosts_time(
    e: Expr,
    args: Vec<Expr>,
    row: Seq<ValueView>,
    names: Seq<Seq<char>>,
    h: HostView,
)
    requires
        h.now >= i64::MIN + 86400,
    ensures
        is_call(e, "NOW"@, args) || is_call(e, "CURRENT_TIMESTAMP"@, args) ==> gives(
            e,
            ValueView::DateTime(h.now),
            row,
            names,
            h,
        ),
        is_call(e, "CURDATE"@, args) || is_call(e, "CURRENT_DATE"@, args) ==> (eval(
            e,
            row,
            names,
            h,
        ) matches Ok(ValueView::DateTime(m)) && m % 86400 == 0 && m <= h.now < m + 86400),
{
    lemma_midnight(h.now);
    assert(builtin("NOW"@) == Builtin::Now && builtin("CURRENT_TIMESTAMP"@) == Builtin::Now
        && builtin("CURDATE"@) == Builtin::CurrentDate && builtin("CURRENT_DATE"@)
        == Builtin::CurrentDate) by {
        lemma_names();
    }
    assert(is_call(e, "NOW"@, args) ==> gives(e, ValueView::DateTime(h.now), row, names, h)) by {
        if is_call(e, "NOW"@, args) {
            lemma_other_call(e, "NOW"@, args, row, names, h);
        }
    }
    assert(is_call(e, "CURRENT_TIMESTAMP"@, args) ==> gives(
        e,
        ValueView::DateTime(h.now),
        row,
        names,
        h,
    )) by {
        if is_call(e, "CURRENT_TIMESTAMP"@, args) {
            lemma_other_call(e, "CURRENT_TIMESTAMP"@, args, row, names, h);
        }
    }
    assert(is_call(e, "CURDATE"@, args) ==> eval(e, row, names, h) == moment(
        midnight(h.now as int),
    )) by {
        if is_call(e, "CURDATE"@, args) {
            lemma_other_call(e, "CURDATE"@, args, row, names, h);
        }
    }
    assert(is_call(e, "CURRENT_DATE"@, args) ==> eval(e, row, names, h) == moment(
        midnight(h.now as int),
    )) by {
        if is_call(e, "CURRENT_DATE"@, args) {
            lemma_other_call(e, "CURRENT_DATE"@, args, row, names, h);
        }
    }
}

} // verus!
