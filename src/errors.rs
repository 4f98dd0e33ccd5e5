use vstd::prelude::*;

use crate::types::{command_same, Command, CommandView, QueueType, Value, ValueView};

verus! {

/// Malformed program text, reported by the parser.
#[derive(Debug, Clone)]
pub enum SyntaxError {
    ParseError(String),
}

/// A failure that comes from the data: what a queue holds, or what a command
/// expected of it.
#[derive(Debug, Clone)]
#[allow(inconsistent_fields)]
pub enum DataError {
    /// A read from a queue that was never filled or has been drained.
    EmptyQueue(String),
    /// An `Assert` or `AssertError` whose expectation does not hold. `expected`
    /// is the value asked for, or `None` where a failure was asked for; `got`
    /// is the value that came, or `None` where the command gave no value.
    FailedAssertion { command: Box<Command>, expected: Option<Value>, got: Option<Value> },
    /// A value of another type than the one the queue was opened with.
    IncorrectType { expected: QueueType, got: QueueType },
    /// A close of a queue that is not there.
    ClosedQueue { queue: String },
    /// An open of a queue that is already there.
    AlreadyOpen { queue: String },
}

/// A failure of the storage itself.
#[derive(Debug, Clone, Copy, PartialEq, Eq, Structural)]
pub enum StorageError {
    FailedInitialize,
    FailedLock,
}

/// A failure of the connection between a client and the daemon.
#[derive(Debug, Clone, Copy, PartialEq, Eq, Structural)]
pub enum ClientError {
    ConnectionError,
}

/// Every failure that an operation of the library can report.
#[derive(Debug, Clone)]
pub enum Error {
    Data(DataError),
    Storage(StorageError),
}

/// What a failure is, with strings, commands and values as their views.
#[allow(inconsistent_fields)]
pub enum ErrorView {
    EmptyQueue(Seq<char>),
    FailedAssertion { command: CommandView, expected: Option<ValueView>, got: Option<ValueView> },
    IncorrectType { expected: QueueType, got: QueueType },
    ClosedQueue(Seq<char>),
    AlreadyOpen(Seq<char>),
    Storage(StorageError),
}

pub open spec fn value_option_view(v: Option<Value>) -> Option<ValueView> {
    match v {
        Some(x) => Some(x@),
        None => None,
    }
}

impl View for DataError {
    type V = ErrorView;

    open spec fn view(&self) -> ErrorView {
        match self {
            DataError::EmptyQueue(q) => ErrorView::EmptyQueue(q@),
            DataError::FailedAssertion { command, expected, got } => ErrorView::FailedAssertion {
                command: command@,
                expected: value_option_view(*expected),
                got: value_option_view(*got),
            },
            DataError::IncorrectType { expected, got } => ErrorView::IncorrectType {
                expected: *expected,
                got: *got,
            },
            DataError::ClosedQueue { queue } => ErrorView::ClosedQueue(queue@),
            DataError::AlreadyOpen { queue } => ErrorView::AlreadyOpen(queue@),
        }
    }
}

impl View for Error {
    type V = ErrorView;

    open spec fn view(&self) -> ErrorView {
        match self {
            Error::Data(e) => e@,
            Error::Storage(e) => ErrorView::Storage(*e),
        }
    }
}

/// Equality of optional values, with values compared by `ValueView::same`.
pub open spec fn option_same(a: Option<ValueView>, b: Option<ValueView>) -> bool {
    match (a, b) {
        (Some(x), Some(y)) => x.same(y),
        (None, None) => true,
        _ => false,
    }
}

/// Equality of failures: the same kind, with equal names, commands and
/// values.
pub open spec fn error_same(a: ErrorView, b: ErrorView) -> bool {
    match (a, b) {
        (
            ErrorView::FailedAssertion { command: c, expected: e, got: g },
            ErrorView::FailedAssertion { command: d, expected: f, got: h },
        ) => command_same(c, d) && option_same(e, f) && option_same(g, h),
        (ErrorView::FailedAssertion { .. }, _) => false,
        (_, ErrorView::FailedAssertion { .. }) => false,
        _ => a == b,
    }
}

fn option_value_eq(a: &Option<Value>, b: &Option<Value>) -> (r: bool)
    ensures
        r == option_same(value_option_view(*a), value_option_view(*b)),
{
    match (a, b) {
        (Some(x), Some(y)) => x.eq(y),
        (None, None) => true,
        _ => false,
    }
}

impl PartialEq for SyntaxError {
    fn eq(&self, other: &SyntaxError) -> (r: bool) {
        match (self, other) {
            (SyntaxError::ParseError(a), SyntaxError::ParseError(b)) => *a == *b,
        }
    }
}

impl vstd::std_specs::cmp::PartialEqSpecImpl for SyntaxError {
    open spec fn obeys_eq_spec() -> bool {
        true
    }

    open spec fn eq_spec(&self, other: &SyntaxError) -> bool {
        match (self, other) {
            (SyntaxError::ParseError(a), SyntaxError::ParseError(b)) => a@ == b@,
        }
    }
}

impl PartialEq for DataError {
    fn eq(&self, other: &DataError) -> (r: bool) {
        match (self, other) {
            (DataError::EmptyQueue(a), DataError::EmptyQueue(b)) => *a == *b,
            (
                DataError::FailedAssertion { command: c, expected: e, got: g },
                DataError::FailedAssertion { command: d, expected: f, got: h },
            ) => (**c).eq(&**d) && option_value_eq(e, f) && option_value_eq(g, h),
            (
                DataError::IncorrectType { expected: e, got: g },
                DataError::IncorrectType { expected: f, got: h },
            ) => *e == *f && *g == *h,
            (DataError::ClosedQueue { queue: a }, DataError::ClosedQueue { queue: b }) => *a == *b,
            (DataError::AlreadyOpen { queue: a }, DataError::AlreadyOpen { queue: b }) => *a == *b,
            _ => false,
        }
    }
}

impl vstd::std_specs::cmp::PartialEqSpecImpl for DataError {
    open spec fn obeys_eq_spec() -> bool {
        true
    }

    open spec fn eq_spec(&self, other: &DataError) -> bool {
        error_same(self@, other@)
    }
}

impl PartialEq for Error {
    fn eq(&self, other: &Error) -> (r: bool) {
        match (self, other) {
            (Error::Data(a), Error::Data(b)) => a.eq(b),
            (Error::Storage(a), Error::Storage(b)) => *a == *b,
            _ => false,
        }
    }
}

impl vstd::std_specs::cmp::PartialEqSpecImpl for Error {
    open spec fn obeys_eq_spec() -> bool {
        true
    }

    open spec fn eq_spec(&self, other: &Error) -> bool {
        error_same(self@, other@)
    }
}

/// A result seen through the views of its value and its failure.
pub open spec fn result_view<T: View>(r: Result<T, Error>) -> Result<T::V, ErrorView> {
    match r {
        Ok(v) => Ok(v@),
        Err(e) => Err(e@),
    }
}

/// The result of a command seen through views.
pub open spec fn outcome_view(r: Result<Option<Value>, Error>) -> Result<Option<ValueView>, ErrorView> {
    match r {
        Ok(v) => Ok(value_option_view(v)),
        Err(e) => Err(e@),
    }
}

} // verus!
