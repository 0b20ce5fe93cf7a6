//! The engine's error type and the view that contracts speak of.
use crate::host::{FloatCall, FloatCallView};
use crate::text::joined;
use vstd::prelude::*;

verus! {

/// What went wrong. `NeedsFloat` is no failure of the statement: it names the
/// floating-point result that the host has to supply before the work can go on.
#[derive(Debug, Clone, PartialEq, Eq)]
pub enum ForgeError {
    Io(String),
    BufferPool(String),
    Page(String),
    Tuple(String),
    Catalog(String),
    Index(String),
    Parse(String),
    Plan(String),
    Execution(String),
    Transaction(String),
    Wal(String),
    NeedsFloat(FloatCall),
}

pub type Result<T> = std::result::Result<T, ForgeError>;

/// [`ForgeError`] with its texts as character sequences.
pub enum ErrorView {
    Io(Seq<char>),
    BufferPool(Seq<char>),
    Page(Seq<char>),
    Tuple(Seq<char>),
    Catalog(Seq<char>),
    Index(Seq<char>),
    Parse(Seq<char>),
    Plan(Seq<char>),
    Execution(Seq<char>),
    Transaction(Seq<char>),
    Wal(Seq<char>),
    NeedsFloat(FloatCallView),
}

impl View for ForgeError {
    type V = ErrorView;

    open spec fn view(&self) -> ErrorView {
        match *self {
            ForgeError::Io(s) => ErrorView::Io(s@),
            ForgeError::BufferPool(s) => ErrorView::BufferPool(s@),
            ForgeError::Page(s) => ErrorView::Page(s@),
            ForgeError::Tuple(s) => ErrorView::Tuple(s@),
            ForgeError::Catalog(s) => ErrorView::Catalog(s@),
            ForgeError::Index(s) => ErrorView::Index(s@),
            ForgeError::Parse(s) => ErrorView::Parse(s@),
            ForgeError::Plan(s) => ErrorView::Plan(s@),
            ForgeError::Execution(s) => ErrorView::Execution(s@),
            ForgeError::Transaction(s) => ErrorView::Transaction(s@),
            ForgeError::Wal(s) => ErrorView::Wal(s@),
            ForgeError::NeedsFloat(c) => ErrorView::NeedsFloat(c@),
        }
    }
}

impl ErrorView {
    /// What an error is told to people with.
    pub open spec fn message(self) -> Seq<char> {
        match self {
            ErrorView::Io(s) => "I/O error: "@ + s,
            ErrorView::BufferPool(s) => "Buffer pool error: "@ + s,
            ErrorView::Page(s) => "Page error: "@ + s,
            ErrorView::Tuple(s) => "Tuple error: "@ + s,
            ErrorView::Catalog(s) => "Catalog error: "@ + s,
            ErrorView::Index(s) => "Index error: "@ + s,
            ErrorView::Parse(s) => "Parse error: "@ + s,
            ErrorView::Plan(s) => "Plan error: "@ + s,
            ErrorView::Execution(s) => "Execution error: "@ + s,
            ErrorView::Transaction(s) => "Transaction error: "@ + s,
            ErrorView::Wal(s) => "WAL error: "@ + s,
            ErrorView::NeedsFloat(_) => "a floating-point result is needed"@,
        }
    }
}

impl ForgeError {
    /// What the error is told to people with.
    pub fn message(&self) -> (r: String)
        ensures
            r@ == self@.message(),
    {
        match self {
            ForgeError::Io(s) => joined("I/O error: ", s.as_str()),
            ForgeError::BufferPool(s) => joined("Buffer pool error: ", s.as_str()),
            ForgeError::Page(s) => joined("Page error: ", s.as_str()),
            ForgeError::Tuple(s) => joined("Tuple error: ", s.as_str()),
            ForgeError::Catalog(s) => joined("Catalog error: ", s.as_str()),
            ForgeError::Index(s) => joined("Index error: ", s.as_str()),
            ForgeError::Parse(s) => joined("Parse error: ", s.as_str()),
            ForgeError::Plan(s) => joined("Plan error: ", s.as_str()),
            ForgeError::Execution(s) => joined("Execution error: ", s.as_str()),
            ForgeError::Transaction(s) => joined("Transaction error: ", s.as_str()),
            ForgeError::Wal(s) => joined("WAL error: ", s.as_str()),
            ForgeError::NeedsFloat(_) => "a floating-point result is needed".to_owned(),
        }
    }
}

/// A result of the library, seen through the views of its two sides.
pub open spec fn outcome<T: DeepView>(r: std::result::Result<T, ForgeError>) -> std::result::Result<
    T::V,
    ErrorView,
> {
    match r {
        Ok(v) => Ok(v.deep_view()),
        Err(e) => Err(e@),
    }
}

/// A result of the library whose value is taken as it is.
pub open spec fn viewed<T>(r: std::result::Result<T, ForgeError>) -> std::result::Result<
    T,
    ErrorView,
> {
    match r {
        Ok(v) => Ok(v),
        Err(e) => Err(e@),
    }
}

/// The error of a result, if it is one.
pub open spec fn error_of<T>(r: std::result::Result<T, ForgeError>) -> Option<ErrorView> {
    match r {
        Ok(_) => None,
        Err(e) => Some(e@),
    }
}

/// A copy of an error.
pub fn copy_error(e: &ForgeError) -> (r: ForgeError)
    ensures
        r@ == e@,
{
    match e {
        ForgeError::Io(s) => ForgeError::Io(s.clone()),
        ForgeError::BufferPool(s) => ForgeError::BufferPool(s.clone()),
        ForgeError::Page(s) => ForgeError::Page(s.clone()),
        ForgeError::Tuple(s) => ForgeError::Tuple(s.clone()),
        ForgeError::Catalog(s) => ForgeError::Catalog(s.clone()),
        ForgeError::Index(s) => ForgeError::Index(s.clone()),
        ForgeError::Parse(s) => ForgeError::Parse(s.clone()),
        ForgeError::Plan(s) => ForgeError::Plan(s.clone()),
        ForgeError::Execution(s) => ForgeError::Execution(s.clone()),
        ForgeError::Transaction(s) => ForgeError::Transaction(s.clone()),
        ForgeError::Wal(s) => ForgeError::Wal(s.clone()),
        ForgeError::NeedsFloat(FloatCall::Numeric(op, x, y)) => ForgeError::NeedsFloat(
            FloatCall::Numeric(*op, *x, *y),
        ),
        ForgeError::NeedsFloat(FloatCall::Parse(s)) => ForgeError::NeedsFloat(
            FloatCall::Parse(s.clone()),
        ),
        ForgeError::NeedsFloat(FloatCall::Show(x)) => ForgeError::NeedsFloat(FloatCall::Show(*x)),
        ForgeError::NeedsFloat(FloatCall::Debug(x)) => ForgeError::NeedsFloat(FloatCall::Debug(*x)),
    }
}

/// An execution error with the given text.
pub fn execution<T: DeepView>(text: &str) -> (r: Result<T>)
    ensures
        outcome(r) == Err::<T::V, ErrorView>(ErrorView::Execution(text@)),
{
    Err(ForgeError::Execution(text.to_owned()))
}

/// An execution error whose text is `before`, `name` and `after` put together.
pub fn execution_on<T: DeepView>(before: &str, name: &str, after: &str) -> (r: Result<T>)
    ensures
        outcome(r) == Err::<T::V, ErrorView>(ErrorView::Execution(before@ + name@ + after@)),
{
    let mut s = before.to_owned();
    s.append(name);
    s.append(after);
    Err(ForgeError::Execution(s))
}

} // verus!
