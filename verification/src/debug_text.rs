//! How values are shown in complaints: by their kind and what they hold.
use crate::error::{outcome, ErrorView, ForgeError, Result};
use crate::host::{Host, HostView};
use crate::text::{int_text, quote, quoted_text, show_i64};
use crate::types::{Value, ValueView};
use vstd::prelude::*;

verus! {

/// Something of a kind that holds what a text shows.
pub open spec fn kind_text(kind: Seq<char>, held: Seq<char>) -> Seq<char> {
    kind + "("@ + held + ")"@
}

/// The bytes from `i` on as a list of numbers.
pub open spec fn numbers_from(b: Seq<u8>, i: int, acc: Seq<char>) -> Seq<char>
    decreases b.len() - i,
{
    if i < 0 || i >= b.len() {
        acc
    } else {
        numbers_from(
            b,
            i + 1,
            if i == 0 {
                acc + int_text(b[i] as int)
            } else {
                acc + ", "@ + int_text(b[i] as int)
            },
        )
    }
}

/// A value as a complaint shows it. The text of a double comes from the host.
pub open spec fn debug_text(v: ValueView, h: HostView) -> std::result::Result<
    Seq<char>,
    ErrorView,
> {
    match v {
        ValueView::Null => Ok("Null"@),
        ValueView::Boolean(b) => Ok(
            kind_text(
                "Boolean"@,
                if b {
                    "true"@
                } else {
                    "false"@
                },
            ),
        ),
        ValueView::Integer(n) => Ok(kind_text("Integer"@, int_text(n as int))),
        ValueView::BigInt(n) => Ok(kind_text("BigInt"@, int_text(n as int))),
        ValueView::Float(f) => match h.debugged(f) {
            Err(e) => Err(e),
            Ok(t) => Ok(kind_text("Float"@, t)),
        },
        ValueView::Varchar(s) => Ok(kind_text("Varchar"@, quoted_text(s))),
        ValueView::DateTime(n) => Ok(kind_text("DateTime"@, int_text(n as int))),
        ValueView::Decimal(n, s) => Ok(
            kind_text("Decimal"@, int_text(n as int) + ", "@ + int_text(s as int)),
        ),
        ValueView::Date(n) => Ok(kind_text("Date"@, int_text(n as int))),
        ValueView::Time(n) => Ok(kind_text("Time"@, int_text(n as int))),
        ValueView::Binary(b) => Ok(kind_text("Binary"@, numbers_from(b, 0, "["@) + "]"@)),
        ValueView::Json(s) => Ok(kind_text("Json"@, quoted_text(s))),
        ValueView::Uuid(s) => Ok(kind_text("Uuid"@, quoted_text(s))),
    }
}

fn show_kind(kind: &str, held: &str) -> (r: String)
    ensures
        r@ == kind_text(kind@, held@),
{
    let mut s = kind.to_owned();
    s.append("(");
    s.append(held);
    s.append(")");
    s
}

fn show_numbers(b: &Vec<u8>) -> (r: String)
    ensures
        r@ == numbers_from(b@, 0, "["@) + "]"@,
{
    let mut s = "[".to_owned();
    let mut i: usize = 0;
    while i < b.len()
        invariant
            0 <= i <= b.len(),
            numbers_from(b@, 0, "["@) == numbers_from(b@, i as int, s@),
        decreases b.len() - i,
    {
        if i > 0 {
            s.append(", ");
        }
        s.append(show_i64(b[i] as i64).as_str());
        i += 1;
    }
    s.append("]");
    s
}

/// Shows a value as complaints do.
pub fn show_debug(v: &Value, host: &Host) -> (r: Result<String>)
    ensures
        outcome(r) == debug_text(v@, host@),
{
    match v {
        Value::Null => Ok("Null".to_owned()),
        Value::Boolean(b) => Ok(
            show_kind(
                "Boolean",
                if *b {
                    "true"
                } else {
                    "false"
                },
            ),
        ),
        Value::Integer(n) => Ok(show_kind("Integer", show_i64(*n as i64).as_str())),
        Value::BigInt(n) => Ok(show_kind("BigInt", show_i64(*n).as_str())),
        Value::Float(f) => {
            let t = host.debugged(*f)?;
            Ok(show_kind("Float", t.as_str()))
        },
        Value::Varchar(s) => Ok(show_kind("Varchar", quote(s.as_str()).as_str())),
        Value::DateTime(n) => Ok(show_kind("DateTime", show_i64(*n).as_str())),
        Value::Decimal(n, s) => {
            let mut t = show_i64(*n);
            t.append(", ");
            t.append(show_i64(*s as i64).as_str());
            Ok(show_kind("Decimal", t.as_str()))
        },
        Value::Date(n) => Ok(show_kind("Date", show_i64(*n as i64).as_str())),
        Value::Time(n) => Ok(show_kind("Time", show_i64(*n as i64).as_str())),
        Value::Binary(b) => {
            assert(v@ == ValueView::Binary(b@));
            Ok(show_kind("Binary", show_numbers(b).as_str()))
        },
        Value::Json(s) => Ok(show_kind("Json", quote(s.as_str()).as_str())),
        Value::Uuid(s) => Ok(show_kind("Uuid", quote(s.as_str()).as_str())),
    }
}

/// A complaint about a value: what is said, and the value.
pub open spec fn value_complaint(before: Seq<char>, v: ValueView, h: HostView) -> ErrorView {
    match debug_text(v, h) {
        Err(e) => e,
        Ok(t) => ErrorView::Execution(before + t),
    }
}

/// A complaint about two values: what is said before the first and between them.
pub open spec fn pair_complaint(
    before: Seq<char>,
    l: ValueView,
    between: Seq<char>,
    r: ValueView,
    h: HostView,
) -> ErrorView {
    match debug_text(l, h) {
        Err(e) => e,
        Ok(a) => match debug_text(r, h) {
            Err(e) => e,
            Ok(b) => ErrorView::Execution(before + a + between + b),
        },
    }
}

/// Complains about a value.
pub fn complain_of_value<T: DeepView>(before: &str, v: &Value, host: &Host) -> (r: Result<T>)
    ensures
        outcome(r) == Err::<T::V, ErrorView>(value_complaint(before@, v@, host@)),
{
    let t = show_debug(v, host)?;
    let mut s = before.to_owned();
    s.append(t.as_str());
    Err(ForgeError::Execution(s))
}

/// Complains about two values.
pub fn complain_of_pair<T: DeepView>(
    before: &str,
    l: &Value,
    between: &str,
    r: &Value,
    host: &Host,
) -> (res: Result<T>)
    ensures
        outcome(res) == Err::<T::V, ErrorView>(pair_complaint(before@, l@, between@, r@, host@)),
{
    let a = show_debug(l, host)?;
    let b = show_debug(r, host)?;
    let mut s = before.to_owned();
    s.append(a.as_str());
    s.append(between);
    s.append(b.as_str());
    Err(ForgeError::Execution(s))
}

} // verus!
