//! A store of named FIFO queues of typed values, driven by a small command
//! language, with a volatile and a durable backend.
use vstd::prelude::*;

pub mod assoc;
pub mod errors;
pub mod laws;
pub mod storage;
pub mod types;

use errors::{outcome_view, DataError, Error, ErrorView};
use storage::{
    admits, after_dequeue, after_enqueue, empty_queue, incorrect_type, queue_of, Queues,
    StorageBackend,
};
use types::{Command, CommandView, QueueType, Value, ValueView};

verus! {

/// The failure of an assertion on `command`.
pub open spec fn failed_assertion(
    command: CommandView,
    expected: Option<ValueView>,
    got: Option<ValueView>,
) -> ErrorView {
    ErrorView::FailedAssertion { command, expected, got }
}

/// The result of a command: a value or none, or a failure.
pub type Outcome = Result<Option<ValueView>, ErrorView>;

/// What running `cmd` does: the queues afterwards, and the result. `kinds`
/// gives the type each queue is bound to; no command changes it.
pub open spec fn execute(
    queues: Queues,
    kinds: spec_fn(Seq<char>) -> Option<QueueType>,
    cmd: CommandView,
) -> (Queues, Outcome)
    decreases cmd,
{
    match cmd {
        CommandView::Enqueue(id, v) => {
            if admits(kinds(id), v) {
                (after_enqueue(queues, id, v), Ok(None))
            } else {
                (queues, Err(incorrect_type(kinds(id)->0, v.kind())))
            }
        },
        CommandView::Dequeue(id) => {
            let q = queue_of(queues, id);
            if q.len() > 0 {
                (after_dequeue(queues, id), Ok(Some(q[0])))
            } else {
                (queues, Err(empty_queue(id)))
            }
        },
        CommandView::Peek(id) => {
            let q = queue_of(queues, id);
            if q.len() > 0 {
                (queues, Ok(Some(q[0])))
            } else {
                (queues, Err(empty_queue(id)))
            }
        },
        CommandView::Length(id) => (
            queues,
            Ok(Some(ValueView::Integer(queue_of(queues, id).len() as i64))),
        ),
        CommandView::Assert(c, expected) => {
            let (after, r) = execute(queues, kinds, *c);
            match r {
                Err(e) => (after, Err(e)),
                Ok(Some(v)) => {
                    if v.same(expected) {
                        (after, Ok(None))
                    } else {
                        (after, Err(failed_assertion(*c, Some(expected), Some(v))))
                    }
                },
                Ok(None) => (after, Err(failed_assertion(*c, Some(expected), None))),
            }
        },
        CommandView::AssertError(c) => {
            let (after, r) = execute(queues, kinds, *c);
            match r {
                Err(_) => (after, Ok(None)),
                Ok(got) => (after, Err(failed_assertion(*c, None, got))),
            }
        },
        CommandView::Noop => (queues, Ok(None)),
    }
}

/// The command interpreter.
#[derive(Debug, Clone, Copy)]
pub struct Runtime;

impl Runtime {
    /// Runs `command` against `storage`.
    pub fn run_command<T: StorageBackend>(&self, storage: &mut T, command: Command) -> (r: Result<
        Option<Value>,
        Error,
    >)
        requires
            old(storage).well_formed(),
        ensures
            final(storage).well_formed(),
            forall|k: Seq<char>| final(storage).kind_of(k) == old(storage).kind_of(k),
            (final(storage).queues(), outcome_view(r)) == execute(
                old(storage).queues(),
                |k: Seq<char>| old(storage).kind_of(k),
                command@,
            ),
        decreases command,
    {
        match command {
            Command::Enqueue(id, value) => {
                storage.enqueue(&id, value)?;
                Ok(None)
            },
            Command::Dequeue(id) => {
                let value = storage.dequeue(&id)?;
                Ok(Some(value))
            },
            Command::Length(id) => {
                let n = storage.length(&id)?;
                Ok(Some(Value::Integer(n as i64)))
            },
            Command::Peek(id) => {
                let value = storage.peek(&id)?;
                Ok(Some(value))
            },
            Command::Assert(cmd, expected) => {
                let inner = (*cmd).clone();
                match self.run_command(storage, *cmd)? {
                    Some(result) => {
                        if result == expected {
                            Ok(None)
                        } else {
                            Err(
                                Error::Data(
                                    DataError::FailedAssertion {
                                        command: Box::new(inner),
                                        expected: Some(expected),
                                        got: Some(result),
                                    },
                                ),
                            )
                        }
                    },
                    None => Err(
                        Error::Data(
                            DataError::FailedAssertion {
                                command: Box::new(inner),
                                expected: Some(expected),
                                got: None,
                            },
                        ),
                    ),
                }
            },
            Command::AssertError(cmd) => {
                let inner = (*cmd).clone();
                match self.run_command(storage, *cmd) {
                    Ok(got) => Err(
                        Error::Data(
                            DataError::FailedAssertion {
                                command: Box::new(inner),
                                expected: None,
                                got,
                            },
                        ),
                    ),
                    Err(_) => Ok(None),
                }
            },
            Command::Noop => Ok(None),
        }
    }
}

} // verus!
