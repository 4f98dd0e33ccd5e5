//! The durable backend. Each queue is one key of an ordered key-value store,
//! whose value is the encoded queue. Writes never read first: they append a
//! merge operand (an encoded `Operation`) to the key, and `merge_queue` folds
//! the operands into the stored queue, in the order they were written.
use vstd::prelude::*;

use crate::storage::codec::{
    decode_queue, encode_queue, fits, lemma_parse_queue_fits, lemma_parse_value_fits,
    lemma_value_round_trip, parse_queue, parse_value, push_value, queue_bytes, read_value,
    value_bytes,
};
use crate::assoc::{distinct_keys, lemma_to_map_domain, lemma_to_map_index};
use crate::errors::{DataError, Error, StorageError};
use crate::storage::codec::{frame, lemma_queue_round_trip, push_frame};
use crate::storage::engine::{
    image_records, lemma_image_round_trip, merged_record, pairs_fit, parse_image, DbStorage,
    RecordView,
};
use crate::storage::{after_dequeue, after_enqueue, queue_of, Queues, StorageBackend};
use crate::types::{views, Identifier, QueueType, Value, ValueView};
use vstd::utf8::encode_utf8;

verus! {

/// Options of the durable backend.
#[derive(Debug)]
pub struct StorageOptions {
    /// Where the store is kept on disk.
    pub database_path: String,
}

/// A pending change to one queue.
#[derive(Debug)]
pub enum Operation {
    Enqueue(Value),
    Dequeue,
}

/// What an operation is, with its value as its view.
pub enum OperationView {
    Enqueue(ValueView),
    Dequeue,
}

impl View for Operation {
    type V = OperationView;

    open spec fn view(&self) -> OperationView {
        match self {
            Operation::Enqueue(v) => OperationView::Enqueue(v@),
            Operation::Dequeue => OperationView::Dequeue,
        }
    }
}

/// The encoding of an operation: tag 0 and a value, or tag 1.
pub open spec fn operation_bytes(op: OperationView) -> Seq<u8> {
    match op {
        OperationView::Enqueue(v) => seq![0u8] + value_bytes(v),
        OperationView::Dequeue => seq![1u8],
    }
}

/// Reads an operation that takes all of `b`.
pub open spec fn parse_operation(b: Seq<u8>) -> Option<OperationView> {
    if b.len() == 0 {
        None
    } else if b[0] == 0 {
        match parse_value(b.drop_first()) {
            Some((v, k)) => if 1 + k == b.len() {
                Some(OperationView::Enqueue(v))
            } else {
                None
            },
            None => None,
        }
    } else if b[0] == 1 && b.len() == 1 {
        Some(OperationView::Dequeue)
    } else {
        None
    }
}

pub proof fn lemma_operation_round_trip(op: OperationView)
    requires
        op matches OperationView::Enqueue(v) ==> fits(v),
    ensures
        parse_operation(operation_bytes(op)) == Some(op),
{
    if let OperationView::Enqueue(v) = op {
        let b = operation_bytes(op);
        lemma_value_round_trip(v, Seq::empty());
        assert(b.drop_first() =~= value_bytes(v) + Seq::<u8>::empty());
    }
}

/// The queue after one operation: an enqueue appends at the tail, a dequeue
/// drops the head, if there is one.
pub open spec fn apply_operation(q: Seq<ValueView>, op: OperationView) -> Seq<ValueView> {
    match op {
        OperationView::Enqueue(v) => q.push(v),
        OperationView::Dequeue => if q.len() > 0 {
            q.drop_first()
        } else {
            q
        },
    }
}

/// The queue after `ops`, applied in order.
pub open spec fn apply_operations(q: Seq<ValueView>, ops: Seq<OperationView>) -> Seq<ValueView>
    decreases ops.len(),
{
    if ops.len() == 0 {
        q
    } else {
        apply_operation(apply_operations(q, ops.drop_last()), ops.last())
    }
}

/// Every operand is an encoded operation.
pub open spec fn operands_parse(operands: Seq<Seq<u8>>) -> bool {
    forall|i: int| 0 <= i < operands.len() ==> (#[trigger] parse_operation(operands[i])) is Some
}

/// The operations that `operands` encode.
pub open spec fn parsed_operations(operands: Seq<Seq<u8>>) -> Seq<OperationView> {
    operands.map_values(|b: Seq<u8>| parse_operation(b)->0)
}

/// The queue that a stored value and the operands written after it stand
/// for; `None` where any of them is not an encoding.
pub open spec fn merged(existing: Option<Seq<u8>>, operands: Seq<Seq<u8>>) -> Option<Seq<ValueView>> {
    let base = match existing {
        Some(b) => parse_queue(b),
        None => Some(Seq::empty()),
    };
    match base {
        Some(q) => if operands_parse(operands) {
            Some(apply_operations(q, parsed_operations(operands)))
        } else {
            None
        },
        None => None,
    }
}

proof fn lemma_apply_fits(q: Seq<ValueView>, ops: Seq<OperationView>)
    requires
        forall|i: int| 0 <= i < q.len() ==> fits(#[trigger] q[i]),
        forall|i: int| 0 <= i < ops.len() ==> (#[trigger] ops[i] matches OperationView::Enqueue(v) ==> fits(v)),
    ensures
        forall|i: int|
            0 <= i < apply_operations(q, ops).len() ==> fits(#[trigger] apply_operations(q, ops)[i]),
    decreases ops.len(),
{
    if ops.len() > 0 {
        let init = ops.drop_last();
        assert forall|i: int| 0 <= i < init.len() implies (#[trigger] init[i] matches OperationView::Enqueue(v) ==> fits(v)) by {
            assert(init[i] == ops[i]);
        }
        lemma_apply_fits(q, init);
        let p = apply_operations(q, init);
        let last = ops[ops.len() - 1];
        assert(ops.last() == last);
        let r = apply_operations(q, ops);
        assert forall|i: int| 0 <= i < r.len() implies fits(#[trigger] r[i]) by {
            match last {
                OperationView::Enqueue(v) => {
                    if i < p.len() {
                        assert(r[i] == p[i]);
                    }
                },
                OperationView::Dequeue => {
                    if p.len() > 0 {
                        assert(r[i] == p[i + 1]);
                    }
                },
            }
        }
    }
}

/// Every value of a merged queue fits an encoding.
pub proof fn lemma_merged_fits(existing: Option<Seq<u8>>, operands: Seq<Seq<u8>>)
    requires
        merged(existing, operands) is Some,
    ensures
        forall|i: int|
            0 <= i < merged(existing, operands)->0.len() ==> fits(
                #[trigger] merged(existing, operands)->0[i],
            ),
{
    let base = match existing {
        Some(b) => parse_queue(b)->0,
        None => Seq::empty(),
    };
    if let Some(b) = existing {
        lemma_parse_queue_fits(b);
    }
    let ops = parsed_operations(operands);
    assert forall|i: int| 0 <= i < ops.len() implies (#[trigger] ops[i] matches OperationView::Enqueue(v) ==> fits(v)) by {
        let b = operands[i];
        assert(parse_operation(b) is Some);
        if b[0] == 0 {
            lemma_parse_value_fits(b.drop_first());
        }
    }
    lemma_apply_fits(base, ops);
}

/// The views of a list of byte buffers.
pub open spec fn byte_views(v: Seq<Vec<u8>>) -> Seq<Seq<u8>> {
    v.map_values(|b: Vec<u8>| b@)
}

/// The encoding of `op`.
pub fn encode_operation(op: &Operation) -> (r: Vec<u8>)
    ensures
        r@ == operation_bytes(op@),
{
    let mut out: Vec<u8> = Vec::new();
    match op {
        Operation::Enqueue(v) => {
            out.push(0u8);
            push_value(&mut out, v);
        },
        Operation::Dequeue => {
            out.push(1u8);
        },
    }
    assert(out@ =~= operation_bytes(op@));
    out
}

/// Reads an operation that takes all of `b`.
pub fn decode_operation(b: &[u8]) -> (r: Option<Operation>)
    ensures
        match r {
            Some(op) => parse_operation(b@) == Some(op@),
            None => parse_operation(b@) is None,
        },
{
    if b.len() == 0 {
        return None;
    }
    if b[0] == 0 {
        assert(b@.subrange(1, b@.len() as int) =~= b@.drop_first());
        match read_value(b, 1) {
            Some((v, end)) => if end == b.len() {
                Some(Operation::Enqueue(v))
            } else {
                None
            },
            None => None,
        }
    } else if b[0] == 1 && b.len() == 1 {
        Some(Operation::Dequeue)
    } else {
        None
    }
}

/// The merge operator of the store: folds `operands`, in the order they were
/// written, into the queue stored as `existing` (an empty queue if there is
/// none), and gives the encoding of the result. It gives `None` where the
/// stored value or an operand is not an encoding.
pub fn merge_queue(_key: &[u8], existing: Option<&[u8]>, operands: &Vec<Vec<u8>>) -> (r: Option<
    Vec<u8>,
>)
    ensures
        match merged(
            match existing {
                Some(b) => Some(b@),
                None => None,
            },
            byte_views(operands@),
        ) {
            Some(q) => r matches Some(out) && out@ == queue_bytes(q) && q.len() <= usize::MAX,
            None => r is None,
        },
{
    let ghost ex = match existing {
        Some(b) => Some(b@),
        None => None,
    };
    let ghost ops = byte_views(operands@);
    let mut current: Vec<Value> = match existing {
        Some(b) => match decode_queue(b) {
            Some(q) => q,
            None => return None,
        },
        None => Vec::new(),
    };
    let ghost base = views(current@);
    assert(ex is None ==> base =~= Seq::<ValueView>::empty());
    assert(merged(ex, ops) is Some ==> merged(ex, ops) == Some(
        apply_operations(base, parsed_operations(ops)),
    ));
    let mut i: usize = 0;
    while i < operands.len()
        invariant
            i <= operands@.len(),
            ops == byte_views(operands@),
            forall|j: int| 0 <= j < i ==> (#[trigger] parse_operation(ops[j])) is Some,
            views(current@) == apply_operations(base, parsed_operations(ops.take(i as int))),
        decreases operands.len() - i,
    {
        let ghost before = views(current@);
        assert(ops[i as int] == operands@[i as int]@);
        match decode_operation(operands[i].as_slice()) {
            Some(Operation::Enqueue(v)) => {
                current.push(v);
                assert(views(current@) =~= before.push(v@));
            },
            Some(Operation::Dequeue) => {
                if current.len() > 0 {
                    current.remove(0);
                    assert(views(current@) =~= before.drop_first());
                }
            },
            None => {
                assert(!operands_parse(ops));
                return None;
            },
        }
        let ghost t = parsed_operations(ops.take(i + 1));
        assert(t.drop_last() =~= parsed_operations(ops.take(i as int)));
        assert(t.last() == parse_operation(ops[i as int])->0);
        i += 1;
    }
    assert(ops.take(i as int) =~= ops);
    assert(operands_parse(ops));
    let count = current.len();
    assert(views(current@).len() == count);
    Some(encode_queue(&current))
}

/// The key of queue `id`: its UTF-8 bytes in a frame, so that no name is a
/// prefix of another's key.
pub open spec fn key_bytes(id: Seq<char>) -> Seq<u8> {
    frame(encode_utf8(id))
}

/// Distinct names have distinct keys.
pub proof fn lemma_key_injective(a: Seq<char>, b: Seq<char>)
    requires
        key_bytes(a) == key_bytes(b),
    ensures
        a == b,
{
    let ka = key_bytes(a);
    assert(encode_utf8(a) =~= ka.subrange(8, ka.len() as int));
    assert(encode_utf8(b) =~= key_bytes(b).subrange(8, key_bytes(b).len() as int));
    vstd::utf8::encode_utf8_decode_utf8(a);
    vstd::utf8::encode_utf8_decode_utf8(b);
}

/// The key of queue `id`.
fn queue_key(id: &Identifier) -> (r: Vec<u8>)
    ensures
        r@ == key_bytes(id@),
{
    let mut out: Vec<u8> = Vec::new();
    push_frame(&mut out, id.0.as_str().as_bytes());
    assert(out@ =~= key_bytes(id@));
    out
}

/// Every value that a `Value` holds fits an encoding: a string holds at most
/// `usize::MAX` bytes.
fn value_fits(v: &Value)
    ensures
        fits(v@),
{
    if let Value::String(s) = v {
        let _n = s.as_str().as_bytes().len();
    }
}

/// The queues that the records of a store stand for: queue `id` is what the
/// record under its key merges to.
pub open spec fn queues_of_records(records: Map<Seq<u8>, RecordView>) -> Queues {
    Map::new(
        |id: Seq<char>| records.contains_key(key_bytes(id)),
        |id: Seq<char>| merged(records[key_bytes(id)].0, records[key_bytes(id)].1)->0,
    )
}

/// The queues that an image stands for, where it is one.
pub open spec fn opened(image: Seq<u8>) -> Option<Queues> {
    match parse_image(image) {
        Some(s) => if distinct_keys(s) && forall|i: int|
            0 <= i < s.len() ==> (#[trigger] parse_queue(s[i].1)) is Some {
            Some(queues_of_records(image_records(s)))
        } else {
            None
        },
        None => None,
    }
}

/// Every record merges.
pub open spec fn records_consistent(records: Map<Seq<u8>, RecordView>) -> bool {
    forall|k: Seq<u8>| #[trigger] records.contains_key(k) ==> merged_record(records[k]) is Some
}

/// The records after `operand` is written under `key`.
pub open spec fn after_merge(records: Map<Seq<u8>, RecordView>, key: Seq<u8>, operand: Seq<u8>) -> Map<
    Seq<u8>,
    RecordView,
> {
    records.insert(
        key,
        if records.contains_key(key) {
            (records[key].0, records[key].1.push(operand))
        } else {
            (None, seq![operand])
        },
    )
}

/// Writing the encoding of `op` under the key of queue `id` applies `op` to
/// that queue and to no other.
proof fn lemma_merge_step(records: Map<Seq<u8>, RecordView>, id: Seq<char>, op: OperationView)
    requires
        records_consistent(records),
        parse_operation(operation_bytes(op)) == Some(op),
    ensures
        records_consistent(after_merge(records, key_bytes(id), operation_bytes(op))),
        queues_of_records(after_merge(records, key_bytes(id), operation_bytes(op)))
            == queues_of_records(records).insert(
            id,
            apply_operation(queue_of(queues_of_records(records), id), op),
        ),
{
    let key = key_bytes(id);
    let b = operation_bytes(op);
    let next = after_merge(records, key, b);
    let (base, ops) = if records.contains_key(key) {
        records[key]
    } else {
        (None, Seq::empty())
    };
    let nops = ops.push(b);
    assert(next[key] == (base, nops)) by {
        if !records.contains_key(key) {
            assert(nops =~= seq![b]);
        }
    }
    if records.contains_key(key) {
        assert(merged_record(records[key]) is Some);
    }
    assert(operands_parse(ops));
    assert(operands_parse(nops)) by {
        assert forall|i: int| 0 <= i < nops.len() implies (#[trigger] parse_operation(nops[i])) is Some by {
            if i < ops.len() {
                assert(nops[i] == ops[i]);
            }
        }
    }
    assert(parsed_operations(nops).drop_last() =~= parsed_operations(ops));
    assert(parsed_operations(nops).last() == op);
    let bq = match base {
        Some(x) => parse_queue(x)->0,
        None => Seq::<ValueView>::empty(),
    };
    assert(!records.contains_key(key) ==> parsed_operations(ops) =~= Seq::<OperationView>::empty());
    assert(merged(base, nops) == Some(apply_operation(apply_operations(bq, parsed_operations(ops)), op)));
    assert(queue_of(queues_of_records(records), id) == apply_operations(bq, parsed_operations(ops)));
    assert forall|k: Seq<u8>| #[trigger] next.contains_key(k) implies merged_record(next[k]) is Some by {
        if k != key {
            assert(next[k] == records[k]);
        }
    }
    assert forall|other: Seq<char>| other != id implies key_bytes(other) != key by {
        if key_bytes(other) == key {
            lemma_key_injective(other, id);
        }
    }
    assert(queues_of_records(next) =~= queues_of_records(records).insert(
        id,
        apply_operation(queue_of(queues_of_records(records), id), op),
    ));
}

/// Records that merge key by key to the same queues stand for the same
/// queues.
proof fn lemma_same_merges(
    before: Map<Seq<u8>, RecordView>,
    after: Map<Seq<u8>, RecordView>,
    key: Seq<u8>,
)
    requires
        records_consistent(before),
        after.dom() == before.dom(),
        forall|k: Seq<u8>| k != key && #[trigger] before.contains_key(k) ==> after[k] == before[k],
        before.contains_key(key) ==> merged(after[key].0, after[key].1) == merged(
            before[key].0,
            before[key].1,
        ),
    ensures
        records_consistent(after),
        queues_of_records(after) == queues_of_records(before),
{
    assert forall|k: Seq<u8>| #[trigger] after.contains_key(k) implies merged_record(after[k]) is Some by {
        assert(before.contains_key(k));
        if k != key {
            assert(after[k] == before[k]);
        }
    }
    assert forall|id: Seq<char>| #[trigger] after.contains_key(key_bytes(id)) implies merged(
        after[key_bytes(id)].0,
        after[key_bytes(id)].1,
    ) == merged(before[key_bytes(id)].0, before[key_bytes(id)].1) by {
        assert(before.contains_key(key_bytes(id)));
        if key_bytes(id) != key {
            assert(after[key_bytes(id)] == before[key_bytes(id)]);
        }
    }
    assert(queues_of_records(after) =~= queues_of_records(before));
}

/// The number of operands after which a key's value is merged anew.
pub const COMPACT_AFTER: usize = 16;

/// The durable backend, in the RocksDB design: each queue is one key of the
/// store (`DbStorage`), written only through merge operands, and read by
/// merging them. It is made durable through the store's image.
#[derive(Debug)]
pub struct RocksDBStorage {
    db: DbStorage,
}

impl RocksDBStorage {
    /// A backend with no queues.
    pub fn new() -> (r: RocksDBStorage)
        ensures
            r.well_formed(),
            r.queues() == Map::<Seq<char>, Seq<ValueView>>::empty(),
    {
        let r = RocksDBStorage { db: DbStorage::new() };
        assert(r.queues() =~= Map::<Seq<char>, Seq<ValueView>>::empty());
        r
    }

    /// Opens the backend that `image` holds. It fails with `FailedInitialize`
    /// where `image` is not the image of a backend.
    pub fn init(image: &[u8]) -> (r: Result<RocksDBStorage, StorageError>)
        ensures
            match opened(image@) {
                Some(qs) => r matches Ok(s) && s.well_formed() && s.queues() == qs,
                None => r == Err::<RocksDBStorage, StorageError>(StorageError::FailedInitialize),
            },
    {
        let db = DbStorage::init(image)?;
        if !db.all_merge() {
            proof {
                let s = parse_image(image@)->0;
                let k = choose|k: Seq<u8>|
                    db.records().contains_key(k) && !(merged_record(db.records()[k]) is Some);
                lemma_image_records_merge(s, k);
            }
            return Err(StorageError::FailedInitialize);
        }
        proof {
            let s = parse_image(image@)->0;
            assert forall|i: int| 0 <= i < s.len() implies (#[trigger] parse_queue(s[i].1)) is Some by {
                lemma_image_records_index(s, i);
                assert(merged_record(db.records()[s[i].0]) is Some);
            }
        }
        let r = RocksDBStorage { db };
        assert(r.queues() =~= opened(image@)->0);
        Ok(r)
    }

    /// The image of the backend, which `init` reads back as the same queues.
    pub fn image(&self) -> (r: Vec<u8>)
        requires
            self.well_formed(),
        ensures
            opened(r@) == Some(self.queues()),
    {
        let r = self.db.image();
        proof {
            self.lemma_image_opens();
        }
        r
    }

    proof fn lemma_image_opens(&self)
        requires
            self.well_formed(),
            pairs_fit(self.db.image_pairs()),
            forall|j: int|
                0 <= j < self.db.image_pairs().len() ==> parse_queue(
                    (#[trigger] self.db.image_pairs()[j]).1,
                ) == merged(self.db.pairs()[j].1.0, self.db.pairs()[j].1.1),
        ensures
            opened(self.db.image_view()) == Some(self.queues()),
    {
        lemma_image_round_trip(self.db.image_pairs());
        self.db.lemma_image_records();
        self.db.lemma_pairs_records();
        self.db.lemma_image_view();
        let s = self.db.image_pairs();
        assert forall|i: int| 0 <= i < s.len() implies (#[trigger] parse_queue(s[i].1)) is Some by {
            assert(self.db.records().contains_key(self.db.pairs()[i].0));
        }
        let recs = image_records(s);
        assert forall|id: Seq<char>| #[trigger] recs.contains_key(key_bytes(id)) implies merged(
            recs[key_bytes(id)].0,
            recs[key_bytes(id)].1,
        ) == merged(self.db.records()[key_bytes(id)].0, self.db.records()[key_bytes(id)].1) by {
            assert(self.db.records().contains_key(key_bytes(id)));
        }
        assert(queues_of_records(recs) =~= self.queues());
    }

    /// Removes every queue.
    pub fn cleanup(&mut self)
        ensures
            final(self).well_formed(),
            final(self).queues() == Map::<Seq<char>, Seq<ValueView>>::empty(),
    {
        self.db.cleanup();
        assert(self.queues() =~= Map::<Seq<char>, Seq<ValueView>>::empty());
    }

    /// Merges the value of `key` anew once enough operands have gathered.
    fn compact_if_due(&mut self, key: &Vec<u8>)
        requires
            old(self).well_formed(),
        ensures
            final(self).well_formed(),
            final(self).queues() == old(self).queues(),
    {
        if self.db.pending(key.as_slice()) >= COMPACT_AFTER {
            self.db.compact(key.as_slice());
            proof {
                lemma_same_merges(old(self).db.records(), self.db.records(), key@);
            }
        }
    }

    /// The queue stored under `key`, where there is one.
    fn load(&self, key: &Vec<u8>, id: &Identifier) -> (r: Option<Vec<Value>>)
        requires
            self.well_formed(),
            key@ == key_bytes(id@),
        ensures
            match r {
                Some(q) => views(q@) == queue_of(self.queues(), id@) && q@.len() > 0,
                None => queue_of(self.queues(), id@).len() == 0,
            },
    {
        match self.db.get(key.as_slice()) {
            Some(bytes) => {
                let ghost rec = self.db.records()[key@];
                proof {
                    lemma_merged_fits(rec.0, rec.1);
                    lemma_queue_round_trip(merged(rec.0, rec.1)->0);
                }
                match decode_queue(bytes.as_slice()) {
                    Some(q) => if q.len() > 0 {
                        Some(q)
                    } else {
                        None
                    },
                    None => None,
                }
            },
            None => None,
        }
    }
}

/// A key of the records of an image is the key of one of its pairs.
proof fn lemma_image_records_merge(s: Seq<(Seq<u8>, Seq<u8>)>, k: Seq<u8>)
    requires
        distinct_keys(s),
        image_records(s).contains_key(k),
    ensures
        exists|i: int|
            0 <= i < s.len() && s[i].0 == k && image_records(s)[k] == (
                Some(s[i].1),
                Seq::<Seq<u8>>::empty(),
            ),
{
    let m = s.map_values(|p: (Seq<u8>, Seq<u8>)| (p.0, (Some(p.1), Seq::<Seq<u8>>::empty())));
    lemma_to_map_domain(m, k);
    let i = choose|i: int| 0 <= i < m.len() && m[i].0 == k;
    lemma_image_records_index(s, i);
}

/// The record of a pair of an image is its value, with no operands.
proof fn lemma_image_records_index(s: Seq<(Seq<u8>, Seq<u8>)>, i: int)
    requires
        distinct_keys(s),
        0 <= i < s.len(),
    ensures
        image_records(s).contains_key(s[i].0),
        image_records(s)[s[i].0] == (Some(s[i].1), Seq::<Seq<u8>>::empty()),
        merged_record(image_records(s)[s[i].0]) is Some <==> parse_queue(s[i].1) is Some,
{
    let m = s.map_values(|p: (Seq<u8>, Seq<u8>)| (p.0, (Some(p.1), Seq::<Seq<u8>>::empty())));
    assert(distinct_keys(m)) by {
        assert forall|a: int, b: int| 0 <= a < b < m.len() implies m[a].0 != m[b].0 by {
            assert(m[a].0 == s[a].0 && m[b].0 == s[b].0);
        }
    }
    lemma_to_map_index(m, i);
    assert(operands_parse(Seq::<Seq<u8>>::empty()));
}

impl StorageBackend for RocksDBStorage {
    closed spec fn well_formed(&self) -> bool {
        self.db.inv() && self.db.consistent()
    }

    closed spec fn queues(&self) -> Queues {
        queues_of_records(self.db.records())
    }

    /// No queue of this backend is bound to a type.
    open spec fn kind_of(&self, id: Seq<char>) -> Option<QueueType> {
        None
    }

    fn enqueue(&mut self, id: &Identifier, value: Value) -> (r: Result<(), Error>) {
        value_fits(&value);
        let ghost v = value@;
        let key = queue_key(id);
        let op = encode_operation(&Operation::Enqueue(value));
        let ghost old_records = self.db.records();
        proof {
            lemma_operation_round_trip(OperationView::Enqueue(v));
        }
        self.db.merge(key.as_slice(), op);
        proof {
            lemma_merge_step(old_records, id@, OperationView::Enqueue(v));
            assert(self.queues() =~= after_enqueue(old(self).queues(), id@, v));
        }
        self.compact_if_due(&key);
        Ok(())
    }

    fn dequeue(&mut self, id: &Identifier) -> (r: Result<Value, Error>) {
        let key = queue_key(id);
        let q = match self.load(&key, id) {
            Some(q) => q,
            None => return Err(Error::Data(DataError::EmptyQueue(id.0.clone()))),
        };
        let head = q[0].clone();
        let op = encode_operation(&Operation::Dequeue);
        let ghost old_records = self.db.records();
        proof {
            lemma_operation_round_trip(OperationView::Dequeue);
        }
        self.db.merge(key.as_slice(), op);
        proof {
            lemma_merge_step(old_records, id@, OperationView::Dequeue);
            assert(self.queues() =~= after_dequeue(old(self).queues(), id@));
        }
        self.compact_if_due(&key);
        Ok(head)
    }

    fn peek(&self, id: &Identifier) -> (r: Result<Value, Error>) {
        let key = queue_key(id);
        match self.load(&key, id) {
            Some(q) => Ok(q[0].clone()),
            None => Err(Error::Data(DataError::EmptyQueue(id.0.clone()))),
        }
    }

    fn length(&self, id: &Identifier) -> (r: Result<usize, Error>) {
        let key = queue_key(id);
        match self.load(&key, id) {
            Some(q) => Ok(q.len()),
            None => Ok(0),
        }
    }
}

} // verus!
