//! Functions applied to values, where an argument contains an aggregate function.
use crate::builtins::{
    apply_binary, apply_round, apply_ternary, apply_unary, binary, builtin, builtin_of, cut,
    first_index, make_uuid, midnight, moment, moment_value, round_to, substring, ternary, unary,
    uuid_text, wrap32, wrap_i32, BinaryFn, Builtin,
};
use crate::compare::{coerced_order, order_coerced};
use crate::dates::div_floor;
use crate::error::{execution_on, outcome, ErrorView, Result};
use crate::eval::{truth, value_truth};
use crate::host::{Host, HostView};
use crate::order::Order;
use crate::text::{chars_of, upper_text};
use crate::types::{Value, ValueView};
use crate::values::{show, value_int, value_text, value_to_i64};
use vstd::prelude::*;

verus! {

/// Two texts, one behind the other; NULL, if one of the values is.
pub open spec fn joined_text(l: ValueView, r: ValueView, h: HostView) -> std::result::Result<
    ValueView,
    ErrorView,
> {
    if l.is_null() || r.is_null() {
        Ok(ValueView::Null)
    } else {
        match value_text(l, h) {
            Err(x) => Err(x),
            Ok(s) => match value_text(r, h) {
                Err(x) => Err(x),
                Ok(t) => Ok(ValueView::Varchar(s + t)),
            },
        }
    }
}

/// Two texts, one behind the other.
pub fn join_texts(l: &Value, r: &Value, host: &Host) -> (res: Result<Value>)
    ensures
        outcome(res) == joined_text(l@, r@, host@),
{
    if l.is_null() || r.is_null() {
        return Ok(Value::Null);
    }
    let mut s = show(l, host)?;
    let t = show(r, host)?;
    s.append(t.as_str());
    Ok(Value::Varchar(s))
}

/// A function applied to the values of its arguments.
pub open spec fn call_on(name: Seq<char>, args: Seq<ValueView>, h: HostView) -> std::result::Result<
    ValueView,
    ErrorView,
> {
    match builtin(upper_text(name)) {
        Builtin::Unary(f) => if args.len() == 0 {
            Ok(ValueView::Null)
        } else {
            unary(f, args[0], h)
        },
        Builtin::Binary(f) => if args.len() < 2 {
            if f == BinaryFn::Contains || f == BinaryFn::FreeText {
                Ok(ValueView::Boolean(false))
            } else {
                Ok(ValueView::Null)
            }
        } else {
            binary(f, args[0], args[1], h)
        },
        Builtin::Ternary(f) => if args.len() < 3 {
            Ok(ValueView::Null)
        } else {
            ternary(f, args[0], args[1], args[2], h)
        },
        Builtin::Substring => substring_on(args, h),
        Builtin::Round => round_on(args, h),
        Builtin::If => if args.len() < 3 {
            Ok(ValueView::Null)
        } else {
            match truth(args[0], h) {
                Err(x) => Err(x),
                Ok(b) => Ok(
                    if b {
                        args[1]
                    } else {
                        args[2]
                    },
                ),
            }
        },
        Builtin::Coalesce => Ok(known_on(args, 0)),
        Builtin::Concat => concat_on(args, 0, Seq::empty(), h),
        Builtin::Greatest => extreme_on(args, Order::Less, h),
        Builtin::Least => extreme_on(args, Order::Greater, h),
        Builtin::Now => Ok(ValueView::DateTime(h.now)),
        Builtin::CurrentDate => moment(midnight(h.now as int)),
        Builtin::NewId => Ok(ValueView::Uuid(uuid_text(h.nanos as int))),
        Builtin::Aggregate => Err(
            ErrorView::Execution(
                "aggregate function '"@ + name + "' used outside aggregate context"@,
            ),
        ),
        Builtin::Unknown => Ok(ValueView::Null),
    }
}

/// SUBSTRING(text, start[, length]) on values.
pub open spec fn substring_on(args: Seq<ValueView>, h: HostView) -> std::result::Result<
    ValueView,
    ErrorView,
> {
    if args.len() < 2 || args[0].is_null() || args[1].is_null() {
        Ok(ValueView::Null)
    } else {
        match value_text(args[0], h) {
            Err(x) => Err(x),
            Ok(s) => {
                let from = first_index(value_int(args[1]));
                if from >= s.len() {
                    Ok(ValueView::Varchar(Seq::empty()))
                } else if args.len() < 3 {
                    Ok(ValueView::Varchar(cut(s, from, None)))
                } else if args[2].is_null() {
                    Ok(ValueView::Null)
                } else {
                    Ok(ValueView::Varchar(cut(s, from, Some(value_int(args[2])))))
                }
            },
        }
    }
}

/// ROUND(number[, digits]) on values.
pub open spec fn round_on(args: Seq<ValueView>, h: HostView) -> std::result::Result<
    ValueView,
    ErrorView,
> {
    if args.len() == 0 || args[0].is_null() {
        Ok(ValueView::Null)
    } else if args.len() < 2 {
        round_to(args[0], 0, h)
    } else if args[1].is_null() {
        Ok(ValueView::Null)
    } else {
        round_to(args[0], wrap32(value_int(args[1])), h)
    }
}

/// The first value that is not NULL, from `i` on.
pub open spec fn known_on(args: Seq<ValueView>, i: int) -> ValueView
    decreases args.len() - i,
{
    if i < 0 || i >= args.len() {
        ValueView::Null
    } else if args[i].is_null() {
        known_on(args, i + 1)
    } else {
        args[i]
    }
}

/// The texts of the values from `i` on behind `acc`; NULL, if one of them is.
pub open spec fn concat_on(args: Seq<ValueView>, i: int, acc: Seq<char>, h: HostView) -> std::result::Result<
    ValueView,
    ErrorView,
>
    decreases args.len() - i,
{
    if i < 0 || i >= args.len() {
        Ok(ValueView::Varchar(acc))
    } else if args[i].is_null() {
        Ok(ValueView::Null)
    } else {
        match value_text(args[i], h) {
            Err(x) => Err(x),
            Ok(s) => concat_on(args, i + 1, acc + s, h),
        }
    }
}

/// The extreme of the values: a later value takes over where the best so far stands to it in
/// the order `over`.
pub open spec fn extreme_on(args: Seq<ValueView>, over: Order, h: HostView) -> std::result::Result<
    ValueView,
    ErrorView,
> {
    if args.len() == 0 || args[0].is_null() {
        Ok(ValueView::Null)
    } else {
        extreme_on_from(args, 1, 0, over, h)
    }
}

/// The extreme of the value at `best` and the values from `i` on.
pub open spec fn extreme_on_from(
    args: Seq<ValueView>,
    i: int,
    best: int,
    over: Order,
    h: HostView,
) -> std::result::Result<ValueView, ErrorView>
    decreases args.len() - i,
{
    if i < 0 || i >= args.len() {
        Ok(args[best])
    } else if args[i].is_null() {
        Ok(ValueView::Null)
    } else {
        match coerced_order(args[best], args[i], h) {
            Err(x) => Err(x),
            Ok(None) => Ok(ValueView::Null),
            Ok(Some(o)) => extreme_on_from(
                args,
                i + 1,
                if o == over {
                    i
                } else {
                    best
                },
                over,
                h,
            ),
        }
    }
}

/// A function applied to the values of its arguments.
pub fn apply_call(name: &str, args: &Vec<Value>, host: &Host) -> (r: Result<Value>)
    ensures
        outcome(r) == call_on(name@, args.deep_view(), host@),
{
    match builtin_of(name.to_uppercase().as_str()) {
        Builtin::Unary(f) => {
            if args.len() == 0 {
                return Ok(Value::Null);
            }
            apply_unary(f, args[0].clone(), host)
        },
        Builtin::Binary(f) => {
            if args.len() < 2 {
                return if f == BinaryFn::Contains || f == BinaryFn::FreeText {
                    Ok(Value::Boolean(false))
                } else {
                    Ok(Value::Null)
                };
            }
            apply_binary(f, args[0].clone(), args[1].clone(), host)
        },
        Builtin::Ternary(f) => {
            if args.len() < 3 {
                return Ok(Value::Null);
            }
            apply_ternary(f, args[0].clone(), args[1].clone(), args[2].clone(), host)
        },
        Builtin::Substring => apply_substring(args, host),
        Builtin::Round => {
            if args.len() == 0 || args[0].is_null() {
                return Ok(Value::Null);
            }
            if args.len() < 2 {
                return apply_round(&args[0], 0, host);
            }
            if args[1].is_null() {
                return Ok(Value::Null);
            }
            apply_round(&args[0], wrap_i32(value_to_i64(&args[1]) as i128), host)
        },
        Builtin::If => {
            if args.len() < 3 {
                return Ok(Value::Null);
            }
            if value_truth(&args[0], host)? {
                Ok(args[1].clone())
            } else {
                Ok(args[2].clone())
            }
        },
        Builtin::Coalesce => Ok(apply_coalesce(args)),
        Builtin::Concat => apply_concat(args, host),
        Builtin::Greatest => apply_extreme(args, Order::Less, host),
        Builtin::Least => apply_extreme(args, Order::Greater, host),
        Builtin::Now => Ok(Value::DateTime(host.now)),
        Builtin::CurrentDate => moment_value(div_floor(host.now, 86400) as i128 * 86400),
        Builtin::NewId => Ok(Value::Uuid(make_uuid(host.nanos))),
        Builtin::Aggregate => execution_on(
            "aggregate function '",
            name,
            "' used outside aggregate context",
        ),
        Builtin::Unknown => Ok(Value::Null),
    }
}

fn apply_substring(args: &Vec<Value>, host: &Host) -> (r: Result<Value>)
    ensures
        outcome(r) == substring_on(args.deep_view(), host@),
{
    if args.len() < 2 || args[0].is_null() || args[1].is_null() {
        return Ok(Value::Null);
    }
    let s = show(&args[0], host)?;
    let n: i64 = value_to_i64(&args[1]);
    let from: u64 = if n < 1 {
        0
    } else {
        (n - 1) as u64
    };
    let c = chars_of(s.as_str());
    if from >= c.len() as u64 {
        return Ok(Value::Varchar(String::new()));
    }
    if args.len() < 3 {
        return Ok(Value::Varchar(substring(&c, from as usize, None)));
    }
    if args[2].is_null() {
        return Ok(Value::Null);
    }
    Ok(Value::Varchar(substring(&c, from as usize, Some(value_to_i64(&args[2])))))
}

fn apply_coalesce(args: &Vec<Value>) -> (r: Value)
    ensures
        r@ == known_on(args.deep_view(), 0),
{
    let mut i: usize = 0;
    while i < args.len()
        invariant
            0 <= i <= args.len(),
            known_on(args.deep_view(), 0) == known_on(args.deep_view(), i as int),
        decreases args.len() - i,
    {
        if !args[i].is_null() {
            return args[i].clone();
        }
        i += 1;
    }
    Value::Null
}

fn apply_concat(args: &Vec<Value>, host: &Host) -> (r: Result<Value>)
    ensures
        outcome(r) == concat_on(args.deep_view(), 0, Seq::empty(), host@),
{
    let mut acc = String::new();
    let mut i: usize = 0;
    while i < args.len()
        invariant
            0 <= i <= args.len(),
            concat_on(args.deep_view(), 0, Seq::empty(), host@) == concat_on(
                args.deep_view(),
                i as int,
                acc@,
                host@,
            ),
        decreases args.len() - i,
    {
        if args[i].is_null() {
            return Ok(Value::Null);
        }
        let s = show(&args[i], host)?;
        acc.append(s.as_str());
        i += 1;
    }
    Ok(Value::Varchar(acc))
}

fn apply_extreme(args: &Vec<Value>, over: Order, host: &Host) -> (r: Result<Value>)
    ensures
        outcome(r) == extreme_on(args.deep_view(), over, host@),
{
    if args.len() == 0 || args[0].is_null() {
        return Ok(Value::Null);
    }
    let mut best: usize = 0;
    let mut i: usize = 1;
    while i < args.len()
        invariant
            1 <= i <= args.len(),
            0 <= best < args.len(),
            extreme_on(args.deep_view(), over, host@) == extreme_on_from(
                args.deep_view(),
                i as int,
                best as int,
                over,
                host@,
            ),
        decreases args.len() - i,
    {
        if args[i].is_null() {
            return Ok(Value::Null);
        }
        match order_coerced(&args[best], &args[i], host)? {
            None => {
                return Ok(Value::Null);
            },
            Some(o) => if o == over {
                best = i;
            },
        }
        i += 1;
    }
    Ok(args[best].clone())
}

} // verus!
