//! What the host program supplies: the clock, and results of floating-point work.
//!
//! A double travels through the engine as its IEEE 754 bit pattern. Arithmetic on doubles
//! is done by the host. An evaluation that needs a result which the host has not yet
//! supplied stops with [`ForgeError::NeedsFloat`]; the host computes it, records it here
//! and evaluates again. Every function of the engine is then a function of its arguments.
use crate::error::{outcome, ErrorView, ForgeError, Result};
use crate::text::same_text;
use vstd::prelude::*;

verus! {

/// A numeric operation on doubles. `PowTen` raises ten to the power that `x` holds as an
/// integer; operations of one operand ignore `y`.
#[derive(Debug, Clone, Copy, PartialEq, Eq, Structural)]
pub enum FloatOp {
    Add,
    Sub,
    Mul,
    Div,
    Rem,
    Pow,
    Sqrt,
    Round,
    Ceil,
    Floor,
    PowTen,
}

/// A request to the host.
#[derive(Debug, Clone, PartialEq, Eq)]
pub enum FloatCall {
    /// The operation on two bit patterns.
    Numeric(FloatOp, u64, u64),
    /// The double that a text denotes, if it denotes one.
    Parse(String),
    /// The text of a double.
    Show(u64),
    /// The text of a double in a complaint, which tells it from an integer.
    Debug(u64),
}

/// [`FloatCall`] with its text as a character sequence.
pub enum FloatCallView {
    Numeric(FloatOp, u64, u64),
    Parse(Seq<char>),
    Show(u64),
    Debug(u64),
}

impl View for FloatCall {
    type V = FloatCallView;

    open spec fn view(&self) -> FloatCallView {
        match *self {
            FloatCall::Numeric(op, x, y) => FloatCallView::Numeric(op, x, y),
            FloatCall::Parse(s) => FloatCallView::Parse(s@),
            FloatCall::Show(x) => FloatCallView::Show(x),
            FloatCall::Debug(x) => FloatCallView::Debug(x),
        }
    }
}

/// The clock reading and the floating-point results known so far.
#[derive(Debug, Clone)]
pub struct Host {
    /// Seconds since the Unix epoch.
    pub now: i64,
    /// Nanoseconds since the Unix epoch.
    pub nanos: u128,
    /// Operation, operands and result.
    pub numeric: Vec<(FloatOp, u64, u64, u64)>,
    /// Text and the double it denotes.
    pub parsed: Vec<(String, Option<u64>)>,
    /// Double and its text.
    pub shown: Vec<(u64, String)>,
    /// Double and its text in a complaint.
    pub debugged: Vec<(u64, String)>,
}

/// What a [`Host`] knows, as mathematical values.
pub struct HostView {
    pub now: i64,
    pub nanos: u128,
    pub numeric: Seq<(FloatOp, u64, u64, u64)>,
    pub parsed: Seq<(Seq<char>, Option<u64>)>,
    pub shown: Seq<(u64, Seq<char>)>,
    pub debugged: Seq<(u64, Seq<char>)>,
}

impl View for Host {
    type V = HostView;

    open spec fn view(&self) -> HostView {
        HostView {
            now: self.now,
            nanos: self.nanos,
            numeric: self.numeric@,
            parsed: Seq::new(self.parsed@.len(), |i: int| (self.parsed@[i].0@, self.parsed@[i].1)),
            shown: Seq::new(self.shown@.len(), |i: int| (self.shown@[i].0, self.shown@[i].1@)),
            debugged: Seq::new(
                self.debugged@.len(),
                |i: int| (self.debugged@[i].0, self.debugged@[i].1@),
            ),
        }
    }
}

/// The first recorded result of an operation, from entry `i` on.
pub open spec fn numeric_from(
    log: Seq<(FloatOp, u64, u64, u64)>,
    i: int,
    op: FloatOp,
    x: u64,
    y: u64,
) -> Option<u64>
    decreases log.len() - i,
{
    if i < 0 || i >= log.len() {
        None
    } else if log[i].0 == op && log[i].1 == x && log[i].2 == y {
        Some(log[i].3)
    } else {
        numeric_from(log, i + 1, op, x, y)
    }
}

/// The first recorded reading of a text, from entry `i` on.
pub open spec fn parsed_from(
    log: Seq<(Seq<char>, Option<u64>)>,
    i: int,
    s: Seq<char>,
) -> Option<Option<u64>>
    decreases log.len() - i,
{
    if i < 0 || i >= log.len() {
        None
    } else if log[i].0 == s {
        Some(log[i].1)
    } else {
        parsed_from(log, i + 1, s)
    }
}

/// The first recorded text of a double, from entry `i` on.
pub open spec fn shown_from(log: Seq<(u64, Seq<char>)>, i: int, x: u64) -> Option<Seq<char>>
    decreases log.len() - i,
{
    if i < 0 || i >= log.len() {
        None
    } else if log[i].0 == x {
        Some(log[i].1)
    } else {
        shown_from(log, i + 1, x)
    }
}

impl HostView {
    /// The result of an operation, or the request for it.
    pub open spec fn numeric(self, op: FloatOp, x: u64, y: u64) -> std::result::Result<u64, ErrorView> {
        match numeric_from(self.numeric, 0, op, x, y) {
            Some(r) => Ok(r),
            None => Err(ErrorView::NeedsFloat(FloatCallView::Numeric(op, x, y))),
        }
    }

    /// The double that a text denotes, or the request for it.
    pub open spec fn parsed(self, s: Seq<char>) -> std::result::Result<Option<u64>, ErrorView> {
        match parsed_from(self.parsed, 0, s) {
            Some(r) => Ok(r),
            None => Err(ErrorView::NeedsFloat(FloatCallView::Parse(s))),
        }
    }

    /// The text of a double, or the request for it.
    pub open spec fn shown(self, x: u64) -> std::result::Result<Seq<char>, ErrorView> {
        match shown_from(self.shown, 0, x) {
            Some(r) => Ok(r),
            None => Err(ErrorView::NeedsFloat(FloatCallView::Show(x))),
        }
    }

    /// The text of a double in a complaint, or the request for it.
    pub open spec fn debugged(self, x: u64) -> std::result::Result<Seq<char>, ErrorView> {
        match shown_from(self.debugged, 0, x) {
            Some(r) => Ok(r),
            None => Err(ErrorView::NeedsFloat(FloatCallView::Debug(x))),
        }
    }
}

impl Host {
    /// A host that has read the given clock and has no floating-point result yet.
    pub fn new(now: i64, nanos: u128) -> (h: Host)
        ensures
            h@.now == now,
            h@.nanos == nanos,
            h@.numeric.len() == 0,
            h@.parsed.len() == 0,
            h@.shown.len() == 0,
            h@.debugged.len() == 0,
    {
        Host {
            now,
            nanos,
            numeric: Vec::new(),
            parsed: Vec::new(),
            shown: Vec::new(),
            debugged: Vec::new(),
        }
    }

    /// The result of an operation on doubles.
    pub fn numeric(&self, op: FloatOp, x: u64, y: u64) -> (r: Result<u64>)
        ensures
            outcome(r) == self@.numeric(op, x, y),
    {
        let mut i: usize = 0;
        while i < self.numeric.len()
            invariant
                0 <= i <= self.numeric.len(),
                numeric_from(self.numeric@, 0, op, x, y) == numeric_from(
                    self.numeric@,
                    i as int,
                    op,
                    x,
                    y,
                ),
            decreases self.numeric.len() - i,
        {
            let e = &self.numeric[i];
            if e.0 == op && e.1 == x && e.2 == y {
                return Ok(e.3);
            }
            i += 1;
        }
        Err(ForgeError::NeedsFloat(FloatCall::Numeric(op, x, y)))
    }

    /// The double that a text denotes, if it denotes one.
    pub fn parsed(&self, s: &str) -> (r: Result<Option<u64>>)
        ensures
            outcome(r) == self@.parsed(s@),
    {
        let ghost log = self@.parsed;
        let mut i: usize = 0;
        while i < self.parsed.len()
            invariant
                0 <= i <= self.parsed.len(),
                log == self@.parsed,
                parsed_from(log, 0, s@) == parsed_from(log, i as int, s@),
            decreases self.parsed.len() - i,
        {
            if same_text(self.parsed[i].0.as_str(), s) {
                assert(log[i as int].0 == s@);
                return Ok(self.parsed[i].1);
            }
            assert(log[i as int].0 != s@);
            i += 1;
        }
        Err(ForgeError::NeedsFloat(FloatCall::Parse(s.to_owned())))
    }

    /// The text of a double.
    pub fn shown(&self, x: u64) -> (r: Result<String>)
        ensures
            outcome(r) == self@.shown(x),
    {
        let ghost log = self@.shown;
        let mut i: usize = 0;
        while i < self.shown.len()
            invariant
                0 <= i <= self.shown.len(),
                log == self@.shown,
                shown_from(log, 0, x) == shown_from(log, i as int, x),
            decreases self.shown.len() - i,
        {
            if self.shown[i].0 == x {
                assert(log[i as int].0 == x);
                return Ok(self.shown[i].1.clone());
            }
            assert(log[i as int].0 != x);
            i += 1;
        }
        Err(ForgeError::NeedsFloat(FloatCall::Show(x)))
    }

    /// The text of a double in a complaint.
    pub fn debugged(&self, x: u64) -> (r: Result<String>)
        ensures
            outcome(r) == self@.debugged(x),
    {
        let ghost log = self@.debugged;
        let mut i: usize = 0;
        while i < self.debugged.len()
            invariant
                0 <= i <= self.debugged.len(),
                log == self@.debugged,
                shown_from(log, 0, x) == shown_from(log, i as int, x),
            decreases self.debugged.len() - i,
        {
            if self.debugged[i].0 == x {
                assert(log[i as int].0 == x);
                return Ok(self.debugged[i].1.clone());
            }
            assert(log[i as int].0 != x);
            i += 1;
        }
        Err(ForgeError::NeedsFloat(FloatCall::Debug(x)))
    }
}

} // verus!
