//! Calls of functions are evaluated by what their names stand for.
use crate::ast::Expr;
use crate::builtins::{
    binary, builtin, midnight, moment, ternary, unary, BinaryFn, Builtin, TernaryFn, UnaryFn,
};
use crate::error::ErrorView;
use crate::eval::{concat_from, eval, eval_call, eval_substring, extreme, first_known, truth};
use crate::host::HostView;
use crate::order::Order;
use crate::text::upper_text;
use crate::types::ValueView;
use vstd::prelude::*;

verus! {

/// Whether an expression calls a function, in upper or lower case, on expressions.
pub open spec fn is_call(e: Expr, name: Seq<char>, args: Vec<Expr>) -> bool {
    e matches Expr::Function { name: n, args: a, distinct } && upper_text(n@) == name && a == args
}

/// Whether an expression has a value on a row.
pub open spec fn gives(
    e: Expr,
    v: ValueView,
    row: Seq<ValueView>,
    names: Seq<Seq<char>>,
    h: HostView,
) -> bool {
    eval(e, row, names, h) == Ok::<ValueView, ErrorView>(v)
}

/// A call is evaluated as one.
pub proof fn lemma_call(
    e: Expr,
    name: Seq<char>,
    args: Vec<Expr>,
    row: Seq<ValueView>,
    names: Seq<Seq<char>>,
    h: HostView,
)
    requires
        is_call(e, name, args),
    ensures
        e matches Expr::Function { name: n, args: a, distinct } && upper_text(n@) == name && eval(
            e,
            row,
            names,
            h,
        ) == eval_call(n@, args, row, names, h),
{
}

pub proof fn lemma_unary_call(
    e: Expr,
    name: Seq<char>,
    args: Vec<Expr>,
    f: UnaryFn,
    v: ValueView,
    row: Seq<ValueView>,
    names: Seq<Seq<char>>,
    h: HostView,
)
    requires
        is_call(e, name, args),
        builtin(name) == Builtin::Unary(f),
        args.len() > 0,
        gives(args[0], v, row, names, h),
    ensures
        eval(e, row, names, h) == unary(f, v, h),
{
    lemma_call(e, name, args, row, names, h);
}

pub proof fn lemma_binary_call(
    e: Expr,
    name: Seq<char>,
    args: Vec<Expr>,
    f: BinaryFn,
    v: ValueView,
    w: ValueView,
    row: Seq<ValueView>,
    names: Seq<Seq<char>>,
    h: HostView,
)
    requires
        is_call(e, name, args),
        builtin(name) == Builtin::Binary(f),
        args.len() >= 2,
        gives(args[0], v, row, names, h),
        gives(args[1], w, row, names, h),
    ensures
        eval(e, row, names, h) == binary(f, v, w, h),
{
    lemma_call(e, name, args, row, names, h);
}

pub proof fn lemma_ternary_call(
    e: Expr,
    name: Seq<char>,
    args: Vec<Expr>,
    f: TernaryFn,
    v: ValueView,
    w: ValueView,
    x: ValueView,
    row: Seq<ValueView>,
    names: Seq<Seq<char>>,
    h: HostView,
)
    requires
        is_call(e, name, args),
        builtin(name) == Builtin::Ternary(f),
        args.len() >= 3,
        gives(args[0], v, row, names, h),
        gives(args[1], w, row, names, h),
        gives(args[2], x, row, names, h),
    ensures
        eval(e, row, names, h) == ternary(f, v, w, x, h),
{
    lemma_call(e, name, args, row, names, h);
}

/// What a call of one of the other functions comes to.
pub proof fn lemma_other_call(
    e: Expr,
    name: Seq<char>,
    args: Vec<Expr>,
    row: Seq<ValueView>,
    names: Seq<Seq<char>>,
    h: HostView,
)
    requires
        is_call(e, name, args),
    ensures
        eval(e, row, names, h) == eval_call(e->Function_name@, args, row, names, h),
        builtin(name) == Builtin::Substring ==> eval(e, row, names, h) == eval_substring(
            args,
            row,
            names,
            h,
        ),
        builtin(name) == Builtin::Coalesce ==> eval(e, row, names, h) == first_known(
            args,
            0,
            row,
            names,
            h,
        ),
        builtin(name) == Builtin::Concat ==> eval(e, row, names, h) == concat_from(
            args,
            0,
            Seq::empty(),
            row,
            names,
            h,
        ),
        builtin(name) == Builtin::Greatest ==> eval(e, row, names, h) == extreme(
            args,
            Order::Less,
            row,
            names,
            h,
        ),
        builtin(name) == Builtin::Least ==> eval(e, row, names, h) == extreme(
            args,
            Order::Greater,
            row,
            names,
            h,
        ),
        builtin(name) == Builtin::Now ==> eval(e, row, names, h) == Ok::<ValueView, ErrorView>(
            ValueView::DateTime(h.now),
        ),
        builtin(name) == Builtin::CurrentDate ==> eval(e, row, names, h) == moment(
            midnight(h.now as int),
        ),
        builtin(name) == Builtin::If && args.len() >= 3 ==> eval(e, row, names, h) == match eval(
            args[0],
            row,
            names,
            h,
        ) {
            Err(x) => Err(x),
            Ok(c) => match truth(c, h) {
                Err(x) => Err(x),
                Ok(b) => if b {
                    eval(args[1], row, names, h)
                } else {
                    eval(args[2], row, names, h)
                },
            },
        },
{
    lemma_call(e, name, args, row, names, h);
}

} // verus!
