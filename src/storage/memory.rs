//! The volatile backend: every queue lives in memory, in a buffer that grows
//! at its tail and is read through a moving cursor.
use vstd::prelude::*;

use crate::assoc::{
    distinct_keys, lemma_to_map_domain, lemma_to_map_index, lemma_to_map_push,
    lemma_to_map_remove, lemma_to_map_update, to_map,
};
use crate::errors::{DataError, Error, ErrorView, result_view};
use crate::storage::{admits, incorrect_type, StorageBackend};
use crate::types::{Identifier, QueueType, Value, ValueView};

verus! {

/// The volatile backend takes no options.
#[derive(Debug, Clone, Copy)]
pub struct StorageOptions {}

/// One queue: a buffer that only grows, and the bounds `(start, end)` of the
/// values in it that are still queued.
#[derive(Debug)]
pub struct Item {
    kind: Option<QueueType>,
    bounds: (usize, usize),
    data: Vec<Value>,
}

impl View for Item {
    type V = Seq<ValueView>;

    /// The queued values, head first.
    closed spec fn view(&self) -> Seq<ValueView> {
        self.data@.subrange(self.bounds.0 as int, self.bounds.1 as int).map_values(|v: Value| v@)
    }
}

impl Default for Item {
    fn default() -> (r: Item)
        ensures
            r.well_formed(),
            r@ == Seq::<ValueView>::empty(),
            r.bound_kind() is None,
    {
        Item::with_kind(None)
    }
}

impl Item {
    pub closed spec fn well_formed(&self) -> bool {
        self.bounds.0 <= self.bounds.1 && self.bounds.1 == self.data.len()
    }

    /// The type the queue is bound to, if any.
    pub closed spec fn bound_kind(&self) -> Option<QueueType> {
        self.kind
    }

    /// An empty queue, bound to `kind` if that is given.
    pub fn with_kind(kind: Option<QueueType>) -> (r: Item)
        ensures
            r.well_formed(),
            r@ == Seq::<ValueView>::empty(),
            r.bound_kind() == kind,
    {
        let r = Item { kind, bounds: (0, 0), data: Vec::new() };
        assert(r@ =~= Seq::<ValueView>::empty());
        r
    }

    /// Appends `v` at the tail, if the queue admits its type.
    pub fn enqueue(&mut self, v: Value) -> (r: Result<(), Error>)
        requires
            old(self).well_formed(),
        ensures
            final(self).well_formed(),
            final(self).bound_kind() == old(self).bound_kind(),
            admits(old(self).bound_kind(), v@) ==> r is Ok && final(self)@ == old(self)@.push(v@),
            !admits(old(self).bound_kind(), v@) ==> result_view(r) == Err::<(), ErrorView>(
                incorrect_type(old(self).bound_kind()->0, v@.kind()),
            ) && final(self)@ == old(self)@,
    {
        if let Some(k) = self.kind {
            if v.kind() != k {
                return Err(Error::Data(DataError::IncorrectType { expected: k, got: v.kind() }));
            }
        }
        let start = self.bounds.0;
        self.data.push(v);
        self.bounds = (start, self.data.len());
        assert(self@ =~= old(self)@.push(v@));
        Ok(())
    }

    /// Removes and returns the head, if there is one.
    pub fn dequeue(&mut self) -> (r: Option<Value>)
        requires
            old(self).well_formed(),
        ensures
            final(self).well_formed(),
            final(self).bound_kind() == old(self).bound_kind(),
            old(self)@.len() > 0 ==> (r matches Some(x) && x@ == old(self)@[0]) && final(self)@ == old(
                self,
            )@.drop_first(),
            old(self)@.len() == 0 ==> r is None && final(self)@ == old(self)@,
    {
        let (start, end) = self.bounds;
        if start < end {
            let v = self.data[start].clone();
            self.bounds = (start + 1, end);
            assert(self@ =~= old(self)@.drop_first());
            Some(v)
        } else {
            None
        }
    }

    /// The head, if there is one.
    pub fn peek(&self) -> (r: Option<&Value>)
        requires
            self.well_formed(),
        ensures
            self@.len() > 0 ==> (r matches Some(x) && x@ == self@[0]),
            self@.len() == 0 ==> r is None,
    {
        let (start, end) = self.bounds;
        if start < end {
            Some(&self.data[start])
        } else {
            None
        }
    }

    /// The number of queued values.
    pub fn length(&self) -> (r: usize)
        requires
            self.well_formed(),
        ensures
            r == self@.len(),
    {
        let (start, end) = self.bounds;
        end - start
    }
}

/// The volatile backend: a table from queue names to queues.
///
/// The table is a list of pairs with distinct names, searched in order,
/// rather than a `BTreeMap`: for a map keyed by strings Verus knows too little
/// of `get` and `insert` to prove what the queues hold, while over a list
/// each step is proved (see `crate::assoc`).
#[derive(Debug)]
pub struct MemoryStorage {
    entries: Vec<(Identifier, Item)>,
}

impl MemoryStorage {
    /// Each entry as its name, type and contents.
    pub closed spec fn pairs(&self) -> Seq<(Seq<char>, (Option<QueueType>, Seq<ValueView>))> {
        self.entries@.map_values(
            |e: (Identifier, Item)| (e.0@, (e.1.bound_kind(), e.1@)),
        )
    }

    /// Names are distinct and every queue is well formed.
    pub closed spec fn inv(&self) -> bool {
        &&& distinct_keys(self.pairs())
        &&& forall|i: int|
            0 <= i < self.entries.len() ==> (#[trigger] self.entries@[i]).1.well_formed()
    }

    /// The queues as a table from name to type and contents.
    pub closed spec fn table(&self) -> Map<Seq<char>, (Option<QueueType>, Seq<ValueView>)> {
        to_map(self.pairs())
    }

    /// A backend with no queues.
    pub fn new() -> (r: MemoryStorage)
        ensures
            r.well_formed(),
            r.queues() == Map::<Seq<char>, Seq<ValueView>>::empty(),
            forall|k: Seq<char>| r.kind_of(k) is None,
    {
        let r = MemoryStorage { entries: Vec::new() };
        assert(r.pairs() =~= Seq::empty());
        assert(r.queues() =~= Map::<Seq<char>, Seq<ValueView>>::empty());
        r
    }

    /// The position of queue `id` in the table.
    fn find(&self, id: &Identifier) -> (r: Option<usize>)
        requires
            self.inv(),
        ensures
            r matches Some(i) ==> i < self.entries.len() && self.entries@[i as int].0@ == id@
                && self.table().contains_key(id@) && self.table()[id@] == self.pairs()[i as int].1,
            r is None ==> !self.table().contains_key(id@),
    {
        let mut i: usize = 0;
        while i < self.entries.len()
            invariant
                self.inv(),
                i <= self.entries.len(),
                forall|j: int| 0 <= j < i ==> self.entries@[j].0@ != id@,
            decreases self.entries.len() - i,
        {
            if self.entries[i].0.0 == id.0 {
                proof {
                    lemma_to_map_index(self.pairs(), i as int);
                }
                return Some(i);
            }
            i += 1;
        }
        proof {
            lemma_to_map_domain(self.pairs(), id@);
            if self.table().contains_key(id@) {
                let j = choose|j: int| 0 <= j < self.pairs().len() && self.pairs()[j].0 == id@;
                assert(self.entries@[j].0@ == id@);
            }
        }
        None
    }

    /// Replaces entry `i` by `e`, whose name is the same.
    proof fn lemma_set(&self, i: int, e: (Identifier, Item), next: &MemoryStorage)
        requires
            self.inv(),
            0 <= i < self.entries.len(),
            e.0@ == self.entries@[i].0@,
            e.1.well_formed(),
            next.entries@ == self.entries@.update(i, e),
        ensures
            next.inv(),
            next.table() == self.table().insert(e.0@, (e.1.bound_kind(), e.1@)),
    {
        lemma_to_map_update(self.pairs(), i, (e.1.bound_kind(), e.1@));
        assert(next.pairs() =~= self.pairs().update(i, (self.pairs()[i].0, (e.1.bound_kind(), e.1@))));
    }

    /// Binds a new, empty queue `id` to type `kind`. It fails with
    /// `AlreadyOpen` where queue `id` is there.
    pub fn open(&mut self, id: &Identifier, kind: QueueType) -> (r: Result<(), Error>)
        requires
            old(self).well_formed(),
        ensures
            final(self).well_formed(),
            old(self).queues().contains_key(id@) ==> result_view(r) == Err::<(), ErrorView>(
                ErrorView::AlreadyOpen(id@),
            ) && final(self).queues() == old(self).queues() && forall|k: Seq<char>|
                final(self).kind_of(k) == old(self).kind_of(k),
            !old(self).queues().contains_key(id@) ==> r is Ok && final(self).queues() == old(
                self,
            ).queues().insert(id@, Seq::empty()) && final(self).kind_of(id@) == Some(kind)
                && forall|k: Seq<char>| k != id@ ==> final(self).kind_of(k) == old(self).kind_of(k),
    {
        match self.find(id) {
            Some(_) => Err(Error::Data(DataError::AlreadyOpen { queue: id.0.clone() })),
            None => {
                let item = Item::with_kind(Some(kind));
                proof {
                    lemma_to_map_push(self.pairs(), id@, (Some(kind), item@));
                }
                self.entries.push((id.clone(), item));
                assert(self.pairs() =~= old(self).pairs().push((id@, (Some(kind), item@))));
                assert(self.queues() =~= old(self).queues().insert(id@, Seq::empty()));
                Ok(())
            },
        }
    }

    /// Drops queue `id` and everything it holds. It fails with `ClosedQueue`
    /// where queue `id` is not there.
    pub fn close(&mut self, id: &Identifier) -> (r: Result<(), Error>)
        requires
            old(self).well_formed(),
        ensures
            final(self).well_formed(),
            old(self).queues().contains_key(id@) ==> r is Ok && final(self).queues() == old(
                self,
            ).queues().remove(id@) && final(self).kind_of(id@) is None && forall|k: Seq<char>|
                k != id@ ==> final(self).kind_of(k) == old(self).kind_of(k),
            !old(self).queues().contains_key(id@) ==> result_view(r) == Err::<(), ErrorView>(
                ErrorView::ClosedQueue(id@),
            ) && final(self).queues() == old(self).queues() && forall|k: Seq<char>|
                final(self).kind_of(k) == old(self).kind_of(k),
    {
        match self.find(id) {
            Some(i) => {
                proof {
                    lemma_to_map_remove(self.pairs(), i as int);
                }
                self.entries.remove(i);
                assert(self.pairs() =~= old(self).pairs().remove(i as int));
                assert(self.queues() =~= old(self).queues().remove(id@));
                Ok(())
            },
            None => Err(Error::Data(DataError::ClosedQueue { queue: id.0.clone() })),
        }
    }
}

impl StorageBackend for MemoryStorage {
    closed spec fn well_formed(&self) -> bool {
        self.inv()
    }

    closed spec fn queues(&self) -> Map<Seq<char>, Seq<ValueView>> {
        self.table().map_values(|p: (Option<QueueType>, Seq<ValueView>)| p.1)
    }

    closed spec fn kind_of(&self, id: Seq<char>) -> Option<QueueType> {
        if self.table().contains_key(id) {
            self.table()[id].0
        } else {
            None
        }
    }

    fn enqueue(&mut self, id: &Identifier, value: Value) -> (r: Result<(), Error>) {
        match self.find(id) {
            Some(i) => {
                let mut item = Item::default();
                std::mem::swap(&mut item, &mut self.entries[i].1);
                let r = item.enqueue(value);
                std::mem::swap(&mut item, &mut self.entries[i].1);
                assert(self.entries@ =~= old(self).entries@.update(i as int, self.entries@[i as int]));
                proof {
                    old(self).lemma_set(i as int, self.entries@[i as int], self);
                }
                r
            },
            None => {
                let mut item = Item::default();
                let _ = item.enqueue(value);
                proof {
                    lemma_to_map_push(self.pairs(), id@, (None, item@));
                }
                self.entries.push((id.clone(), item));
                assert(self.pairs() =~= old(self).pairs().push((id@, (None, item@))));
                Ok(())
            },
        }
    }

    fn dequeue(&mut self, id: &Identifier) -> (r: Result<Value, Error>) {
        match self.find(id) {
            Some(i) => {
                let mut item = Item::default();
                std::mem::swap(&mut item, &mut self.entries[i].1);
                let r = item.dequeue();
                std::mem::swap(&mut item, &mut self.entries[i].1);
                assert(self.entries@ =~= old(self).entries@.update(i as int, self.entries@[i as int]));
                proof {
                    old(self).lemma_set(i as int, self.entries@[i as int], self);
                }
                match r {
                    Some(v) => Ok(v),
                    None => Err(Error::Data(DataError::EmptyQueue(id.0.clone()))),
                }
            },
            None => Err(Error::Data(DataError::EmptyQueue(id.0.clone()))),
        }
    }

    fn peek(&self, id: &Identifier) -> (r: Result<Value, Error>) {
        match self.find(id) {
            Some(i) => match self.entries[i].1.peek() {
                Some(v) => Ok(v.clone()),
                None => Err(Error::Data(DataError::EmptyQueue(id.0.clone()))),
            },
            None => Err(Error::Data(DataError::EmptyQueue(id.0.clone()))),
        }
    }

    fn length(&self, id: &Identifier) -> (r: Result<usize, Error>) {
        match self.find(id) {
            Some(i) => Ok(self.entries[i].1.length()),
            None => Ok(0),
        }
    }
}

} // verus!
