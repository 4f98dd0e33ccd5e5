//! The queue capability that every backend provides, stated over a model:
//! a map from queue names to the sequence of values each queue holds.
use vstd::prelude::*;

use crate::errors::{result_view, Error, ErrorView};
use crate::types::{Identifier, QueueType, Value, ValueView};

pub mod codec;
pub mod durable;
pub mod engine;
pub mod memory;

verus! {

/// The backend that a program uses where it names none.
pub type Storage = memory::MemoryStorage;

/// The queues of a backend: what each named queue holds, head first.
pub type Queues = Map<Seq<char>, Seq<ValueView>>;

/// The values that the queue named `id` holds: none where it is absent.
pub open spec fn queue_of(queues: Queues, id: Seq<char>) -> Seq<ValueView> {
    if queues.contains_key(id) {
        queues[id]
    } else {
        Seq::empty()
    }
}

/// The queues after `v` is appended to the tail of queue `id`.
pub open spec fn after_enqueue(queues: Queues, id: Seq<char>, v: ValueView) -> Queues {
    queues.insert(id, queue_of(queues, id).push(v))
}

/// The queues after the head of queue `id` is removed.
pub open spec fn after_dequeue(queues: Queues, id: Seq<char>) -> Queues {
    queues.insert(id, queue_of(queues, id).drop_first())
}

/// A queue bound to a type takes values of that type only; an unbound one
/// takes any value.
pub open spec fn admits(kind: Option<QueueType>, v: ValueView) -> bool {
    match kind {
        Some(k) => v.kind() == k,
        None => true,
    }
}

/// The failure of a read from the empty queue `id`.
pub open spec fn empty_queue(id: Seq<char>) -> ErrorView {
    ErrorView::EmptyQueue(id)
}

/// The failure of an enqueue of a value of type `got` into a queue bound to
/// type `expected`.
pub open spec fn incorrect_type(expected: QueueType, got: QueueType) -> ErrorView {
    ErrorView::IncorrectType { expected, got }
}

/// A storage of named FIFO queues.
pub trait StorageBackend {
    /// The invariant of the backend's own representation.
    spec fn well_formed(&self) -> bool;

    /// What each queue holds, head first.
    spec fn queues(&self) -> Queues;

    /// The type that queue `id` is bound to, if any.
    spec fn kind_of(&self, id: Seq<char>) -> Option<QueueType>;

    /// Appends `value` to the tail of queue `id`, creating the queue if absent.
    fn enqueue(&mut self, id: &Identifier, value: Value) -> (r: Result<(), Error>)
        requires
            old(self).well_formed(),
        ensures
            final(self).well_formed(),
            forall|k: Seq<char>| final(self).kind_of(k) == old(self).kind_of(k),
            admits(old(self).kind_of(id@), value@) ==> r is Ok && final(self).queues()
                == after_enqueue(old(self).queues(), id@, value@),
            !admits(old(self).kind_of(id@), value@) ==> result_view(r) == Err::<(), ErrorView>(
                incorrect_type(old(self).kind_of(id@)->0, value@.kind()),
            ) && final(self).queues() == old(self).queues(),
    ;

    /// Removes and returns the head of queue `id`.
    fn dequeue(&mut self, id: &Identifier) -> (r: Result<Value, Error>)
        requires
            old(self).well_formed(),
        ensures
            final(self).well_formed(),
            forall|k: Seq<char>| final(self).kind_of(k) == old(self).kind_of(k),
            queue_of(old(self).queues(), id@).len() > 0 ==> result_view(r) == Ok::<
                ValueView,
                ErrorView,
            >(queue_of(old(self).queues(), id@)[0]) && final(self).queues() == after_dequeue(
                old(self).queues(),
                id@,
            ),
            queue_of(old(self).queues(), id@).len() == 0 ==> result_view(r) == Err::<
                ValueView,
                ErrorView,
            >(empty_queue(id@)) && final(self).queues() == old(self).queues(),
    ;

    /// Returns the head of queue `id` and leaves the queue as it is.
    fn peek(&self, id: &Identifier) -> (r: Result<Value, Error>)
        requires
            self.well_formed(),
        ensures
            queue_of(self.queues(), id@).len() > 0 ==> result_view(r) == Ok::<ValueView, ErrorView>(
                queue_of(self.queues(), id@)[0],
            ),
            queue_of(self.queues(), id@).len() == 0 ==> result_view(r) == Err::<ValueView, ErrorView>(
                empty_queue(id@),
            ),
    ;

    /// The number of values that queue `id` holds.
    fn length(&self, id: &Identifier) -> (r: Result<usize, Error>)
        requires
            self.well_formed(),
        ensures
            r matches Ok(n) && n == queue_of(self.queues(), id@).len(),
    ;
}

} // verus!
