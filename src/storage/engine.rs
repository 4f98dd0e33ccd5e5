//! The key-value store under the durable backend: a value changes through
//! merge operands, which `merge_queue` folds into it, and an image of the
//! whole store can be written to disk and read back.
//!
//! The store is kept in memory and made durable through its image, which the
//! program writes to a file after each command. The `rocksdb` binding, which
//! offers the same merge-operand model on disk, is not used: it needs the
//! native RocksDB library built from its C++ sources, and that build does not
//! go through. What the binding would do for this crate (point reads, merge
//! operands, compaction, opening and destroying) is what this module
//! provides, with contracts.
//!
//! The image is a count followed by one pair of frames per key: the key,
//! then its merged value.
use vstd::prelude::*;

use crate::assoc::{
    distinct_keys, lemma_to_map_domain, lemma_to_map_index, lemma_to_map_push,
    lemma_to_map_update, to_map,
};
use crate::errors::StorageError;
use crate::storage::codec::{
    frame, le_u64, lemma_frame_round_trip, lemma_le_u64_prefix, lemma_u64_round_trip,
    parse_frame, push_frame, push_u64, queue_bytes, read_frame, read_u64, u64_le,
};
use crate::storage::codec::{lemma_queue_round_trip, parse_queue};
use crate::storage::durable::{
    after_merge, byte_views, lemma_merged_fits, merge_queue, merged, parsed_operations,
    records_consistent, OperationView,
};

verus! {

/// What the store holds under one key: the last merged value, if any, and the
/// operands written since, oldest first.
#[derive(Debug)]
pub struct Record {
    base: Option<Vec<u8>>,
    operands: Vec<Vec<u8>>,
}

/// A record seen through the views of its bytes.
pub type RecordView = (Option<Seq<u8>>, Seq<Seq<u8>>);

impl View for Record {
    type V = RecordView;

    closed spec fn view(&self) -> RecordView {
        (
            match self.base {
                Some(b) => Some(b@),
                None => None,
            },
            byte_views(self.operands@),
        )
    }
}

/// The value a record stands for once merged.
pub open spec fn merged_record(r: RecordView) -> Option<Seq<u8>> {
    match merged(r.0, r.1) {
        Some(q) => Some(queue_bytes(q)),
        None => None,
    }
}

/// The key-value store: each key holds a record of a merged value and the
/// operands written since. `RocksDBStorage` keeps its queues here, one key
/// per queue.
#[derive(Debug)]
pub struct DbStorage {
    entries: Vec<(Vec<u8>, Record)>,
}

/// The encoding of key-value pairs, one pair of frames each.
pub open spec fn pairs_bytes(s: Seq<(Seq<u8>, Seq<u8>)>) -> Seq<u8>
    decreases s.len(),
{
    if s.len() == 0 {
        Seq::empty()
    } else {
        frame(s[0].0) + frame(s[0].1) + pairs_bytes(s.drop_first())
    }
}

/// The encoding of an image: the count of pairs, then the pairs.
pub open spec fn image_bytes(s: Seq<(Seq<u8>, Seq<u8>)>) -> Seq<u8> {
    u64_le(s.len() as u64) + pairs_bytes(s)
}

/// Reads exactly `n` pairs that take all of `b`.
pub open spec fn parse_pairs(b: Seq<u8>, n: nat) -> Option<Seq<(Seq<u8>, Seq<u8>)>>
    decreases n,
{
    if n == 0 {
        if b.len() == 0 {
            Some(Seq::empty())
        } else {
            None
        }
    } else {
        match parse_frame(b) {
            Some((k, i)) => {
                let b1 = b.subrange(i, b.len() as int);
                match parse_frame(b1) {
                    Some((v, j)) => match parse_pairs(b1.subrange(j, b1.len() as int), (n - 1) as nat) {
                        Some(rest) => Some(seq![(k, v)] + rest),
                        None => None,
                    },
                    None => None,
                }
            },
            None => None,
        }
    }
}

/// Reads an image that takes all of `b`.
pub open spec fn parse_image(b: Seq<u8>) -> Option<Seq<(Seq<u8>, Seq<u8>)>> {
    if b.len() < 8 {
        None
    } else {
        parse_pairs(b.subrange(8, b.len() as int), le_u64(b) as nat)
    }
}

/// Every key and value of `s` fits a frame, and the count fits too.
pub open spec fn pairs_fit(s: Seq<(Seq<u8>, Seq<u8>)>) -> bool {
    &&& s.len() <= u64::MAX
    &&& forall|i: int|
        0 <= i < s.len() ==> (#[trigger] s[i]).0.len() <= u64::MAX && s[i].1.len() <= u64::MAX
}

proof fn lemma_pairs_round_trip(s: Seq<(Seq<u8>, Seq<u8>)>)
    requires
        pairs_fit(s),
    ensures
        parse_pairs(pairs_bytes(s), s.len()) == Some(s),
    decreases s.len(),
{
    if s.len() > 0 {
        let tail = pairs_bytes(s.drop_first());
        let b = pairs_bytes(s);
        assert(s[0].0.len() <= u64::MAX && s[0].1.len() <= u64::MAX);
        assert(b =~= frame(s[0].0) + (frame(s[0].1) + tail));
        lemma_frame_round_trip(s[0].0, frame(s[0].1) + tail);
        let i = 8 + s[0].0.len();
        let b1 = b.subrange(i as int, b.len() as int);
        assert(b1 =~= frame(s[0].1) + tail);
        lemma_frame_round_trip(s[0].1, tail);
        let j = 8 + s[0].1.len();
        assert(b1.subrange(j as int, b1.len() as int) =~= tail);
        assert(pairs_fit(s.drop_first())) by {
            assert forall|k: int| 0 <= k < s.drop_first().len() implies (#[trigger] s.drop_first()[
                k
            ]).0.len() <= u64::MAX && s.drop_first()[k].1.len() <= u64::MAX by {
                assert(s.drop_first()[k] == s[k + 1]);
            }
        }
        lemma_pairs_round_trip(s.drop_first());
        assert(seq![(s[0].0, s[0].1)] + s.drop_first() =~= s);
    }
}

/// An image reads back as the pairs it was made of.
pub proof fn lemma_image_round_trip(s: Seq<(Seq<u8>, Seq<u8>)>)
    requires
        pairs_fit(s),
    ensures
        parse_image(image_bytes(s)) == Some(s),
{
    let b = image_bytes(s);
    lemma_u64_round_trip(s.len() as u64);
    lemma_le_u64_prefix(u64_le(s.len() as u64), pairs_bytes(s));
    assert(b.subrange(8, b.len() as int) =~= pairs_bytes(s));
    lemma_pairs_round_trip(s);
}

proof fn lemma_pairs_bytes_push(s: Seq<(Seq<u8>, Seq<u8>)>, p: (Seq<u8>, Seq<u8>))
    ensures
        pairs_bytes(s.push(p)) == pairs_bytes(s) + frame(p.0) + frame(p.1),
    decreases s.len(),
{
    let t = s.push(p);
    if s.len() == 0 {
        assert(t.drop_first() =~= Seq::<(Seq<u8>, Seq<u8>)>::empty());
        assert(pairs_bytes(t.drop_first()) == Seq::<u8>::empty());
        assert(t[0] == p);
        assert(pairs_bytes(t) =~= pairs_bytes(s) + frame(p.0) + frame(p.1));
    } else {
        lemma_pairs_bytes_push(s.drop_first(), p);
        assert(t.drop_first() =~= s.drop_first().push(p));
        assert(t[0] == s[0]);
        assert(pairs_bytes(t) =~= pairs_bytes(s) + frame(p.0) + frame(p.1));
    }
}

/// The records that an image stands for: each value becomes the merged
/// value of its key, with no operands after it.
pub open spec fn image_records(s: Seq<(Seq<u8>, Seq<u8>)>) -> Map<Seq<u8>, RecordView> {
    to_map(s.map_values(|p: (Seq<u8>, Seq<u8>)| (p.0, (Some(p.1), Seq::<Seq<u8>>::empty()))))
}

/// `r` follows `a`, where `o` is read.
pub open spec fn prepend_pairs(
    a: Seq<(Seq<u8>, Seq<u8>)>,
    o: Option<Seq<(Seq<u8>, Seq<u8>)>>,
) -> Option<Seq<(Seq<u8>, Seq<u8>)>> {
    match o {
        Some(r) => Some(a + r),
        None => None,
    }
}

/// Compares two runs of bytes.
fn same_bytes(a: &[u8], b: &[u8]) -> (r: bool)
    ensures
        r == (a@ == b@),
{
    if a.len() != b.len() {
        return false;
    }
    let mut i: usize = 0;
    while i < a.len()
        invariant
            a@.len() == b@.len(),
            i <= a@.len(),
            forall|j: int| 0 <= j < i ==> a@[j] == b@[j],
        decreases a.len() - i,
    {
        if a[i] != b[i] {
            return false;
        }
        i += 1;
    }
    assert(a@ =~= b@);
    true
}

/// Copies a run of bytes.
fn copy_bytes(b: &[u8]) -> (r: Vec<u8>)
    ensures
        r@ == b@,
{
    let mut out: Vec<u8> = Vec::new();
    let mut i: usize = 0;
    while i < b.len()
        invariant
            i <= b@.len(),
            out@ == b@.subrange(0, i as int),
        decreases b.len() - i,
    {
        out.push(b[i]);
        i += 1;
        assert(out@ =~= b@.subrange(0, i as int));
    }
    assert(b@.subrange(0, i as int) =~= b@);
    out
}

impl DbStorage {
    /// Each key with its record.
    pub closed spec fn pairs(&self) -> Seq<(Seq<u8>, RecordView)> {
        self.entries@.map_values(|e: (Vec<u8>, Record)| (e.0@, e.1@))
    }

    /// The store as a map from key to record.
    pub closed spec fn records(&self) -> Map<Seq<u8>, RecordView> {
        to_map(self.pairs())
    }

    /// Keys are distinct.
    pub closed spec fn inv(&self) -> bool {
        distinct_keys(self.pairs())
    }

    /// Every record merges.
    pub open spec fn consistent(&self) -> bool {
        records_consistent(self.records())
    }

    /// The image holds, in order, each key with the value its record merges to.
    pub proof fn lemma_image_view(&self)
        ensures
            self.image_view() == image_bytes(self.image_pairs()),
            self.image_pairs().len() == self.pairs().len(),
            forall|j: int|
                0 <= j < self.pairs().len() ==> (#[trigger] self.image_pairs()[j]).0
                    == self.pairs()[j].0,
    {
    }

    /// Each pair's key is in the records, with the pair's record.
    pub proof fn lemma_pairs_records(&self)
        requires
            self.inv(),
        ensures
            forall|i: int|
                0 <= i < self.pairs().len() ==> #[trigger] self.records().contains_key(
                    self.pairs()[i].0,
                ) && self.records()[self.pairs()[i].0] == self.pairs()[i].1,
    {
        assert forall|i: int| 0 <= i < self.pairs().len() implies #[trigger] self.records().contains_key(
            self.pairs()[i].0,
        ) && self.records()[self.pairs()[i].0] == self.pairs()[i].1 by {
            lemma_to_map_index(self.pairs(), i);
        }
    }

    /// The pairs of key and merged value that an image holds.
    pub closed spec fn image_pairs(&self) -> Seq<(Seq<u8>, Seq<u8>)> {
        self.pairs().map_values(|p: (Seq<u8>, RecordView)| (p.0, merged_record(p.1)->0))
    }

    /// The image of the store.
    pub closed spec fn image_view(&self) -> Seq<u8> {
        image_bytes(self.image_pairs())
    }

    /// An empty store.
    pub fn new() -> (r: DbStorage)
        ensures
            r.inv(),
            r.records() == Map::<Seq<u8>, RecordView>::empty(),
    {
        let r = DbStorage { entries: Vec::new() };
        assert(r.pairs() =~= Seq::empty());
        r
    }

    /// Removes everything the store holds.
    pub fn cleanup(&mut self)
        ensures
            final(self).inv(),
            final(self).records() == Map::<Seq<u8>, RecordView>::empty(),
    {
        self.entries = Vec::new();
        assert(self.pairs() =~= Seq::empty());
    }

    /// The position of `key`.
    fn find(&self, key: &[u8]) -> (r: Option<usize>)
        requires
            self.inv(),
        ensures
            r matches Some(i) ==> i < self.entries.len() && self.pairs()[i as int].0 == key@
                && self.records().contains_key(key@) && self.records()[key@] == self.pairs()[i as int].1,
            r is None ==> !self.records().contains_key(key@),
    {
        let mut i: usize = 0;
        while i < self.entries.len()
            invariant
                self.inv(),
                i <= self.entries.len(),
                forall|j: int| 0 <= j < i ==> self.pairs()[j].0 != key@,
            decreases self.entries.len() - i,
        {
            if same_bytes(self.entries[i].0.as_slice(), key) {
                proof {
                    lemma_to_map_index(self.pairs(), i as int);
                }
                return Some(i);
            }
            i += 1;
        }
        proof {
            lemma_to_map_domain(self.pairs(), key@);
        }
        None
    }

    /// Writes `operand` as a merge operand of `key`.
    pub fn merge(&mut self, key: &[u8], operand: Vec<u8>)
        requires
            old(self).inv(),
        ensures
            final(self).inv(),
            final(self).records() == after_merge(old(self).records(), key@, operand@),
    {
        match self.find(key) {
            Some(i) => {
                let ghost before = self.entries@[i as int].1@;
                let mut record = Record { base: None, operands: Vec::new() };
                std::mem::swap(&mut record, &mut self.entries[i].1);
                let ghost op_view = operand@;
                record.operands.push(operand);
                assert(byte_views(record.operands@) =~= before.1.push(op_view));
                std::mem::swap(&mut record, &mut self.entries[i].1);
                proof {
                    lemma_to_map_update(old(self).pairs(), i as int, (before.0, before.1.push(op_view)));
                    assert(self.pairs() =~= old(self).pairs().update(
                        i as int,
                        (key@, (before.0, before.1.push(op_view))),
                    ));
                }
            },
            None => {
                let ghost op_view = operand@;
                let mut operands: Vec<Vec<u8>> = Vec::new();
                operands.push(operand);
                let record = Record { base: None, operands };
                assert(byte_views(record.operands@) =~= seq![op_view]);
                proof {
                    lemma_to_map_push(self.pairs(), key@, (None, seq![op_view]));
                }
                self.entries.push((copy_bytes(key), record));
                assert(self.pairs() =~= old(self).pairs().push((key@, (None, seq![op_view]))));
            },
        }
    }

    /// The image of the store: each key with its merged value.
    pub fn image(&self) -> (r: Vec<u8>)
        requires
            self.inv(),
            self.consistent(),
        ensures
            r@ == self.image_view(),
            pairs_fit(self.image_pairs()),
            forall|j: int|
                0 <= j < self.image_pairs().len() ==> parse_queue(
                    (#[trigger] self.image_pairs()[j]).1,
                ) == merged(self.pairs()[j].1.0, self.pairs()[j].1.1),
    {
        let mut out: Vec<u8> = Vec::new();
        push_u64(&mut out, self.entries.len() as u64);
        let ghost all = self.image_pairs();
        let mut i: usize = 0;
        while i < self.entries.len()
            invariant
                self.inv(),
                self.consistent(),
                all == self.image_pairs(),
                i <= self.entries@.len(),
                out@ == u64_le(all.len() as u64) + pairs_bytes(all.take(i as int)),
                forall|j: int|
                    0 <= j < i ==> (#[trigger] all[j]).0.len() <= u64::MAX && all[j].1.len()
                        <= u64::MAX,
                forall|j: int|
                    0 <= j < i ==> parse_queue((#[trigger] all[j]).1) == merged(
                        self.pairs()[j].1.0,
                        self.pairs()[j].1.1,
                    ),
            decreases self.entries.len() - i,
        {
            let key = &self.entries[i].0;
            let record = &self.entries[i].1;
            proof {
                lemma_to_map_index(self.pairs(), i as int);
            }
            let merged_value = match &record.base {
                Some(b) => merge_queue(key.as_slice(), Some(b.as_slice()), &record.operands),
                None => merge_queue(key.as_slice(), None, &record.operands),
            };
            let value = match merged_value {
                Some(v) => v,
                None => {
                    assert(false);
                    Vec::new()
                },
            };
            let ghost before = all.take(i as int);
            assert(all[i as int] == (key@, value@));
            proof {
                let rec = self.pairs()[i as int].1;
                let q = merged(rec.0, rec.1)->0;
                lemma_merged_fits(rec.0, rec.1);
                lemma_queue_round_trip(q);
            }
            push_frame(&mut out, key.as_slice());
            push_frame(&mut out, value.as_slice());
            proof {
                lemma_pairs_bytes_push(before, all[i as int]);
                assert(all.take(i + 1) =~= before.push(all[i as int]));
            }
            i += 1;
        }
        assert(all.take(i as int) =~= all);
        out
    }

    /// Reads a store back from its image. It fails with `FailedInitialize`
    /// where `image` is not the image of pairs with distinct keys.
    pub fn init(image: &[u8]) -> (r: Result<DbStorage, StorageError>)
        ensures
            match parse_image(image@) {
                Some(s) => if distinct_keys(s) {
                    r matches Ok(db) && db.inv() && db.records() == image_records(s)
                } else {
                    r == Err::<DbStorage, StorageError>(StorageError::FailedInitialize)
                },
                None => r == Err::<DbStorage, StorageError>(StorageError::FailedInitialize),
            },
    {
        if image.len() < 8 {
            return Err(StorageError::FailedInitialize);
        }
        let n = read_u64(image, 0);
        assert(image@.subrange(0, image@.len() as int) =~= image@);
        let mut db = DbStorage { entries: Vec::new() };
        let mut pos: usize = 8;
        let mut i: u64 = 0;
        let ghost read: Seq<(Seq<u8>, Seq<u8>)> = Seq::empty();
        assert(prepend_pairs(read, parse_pairs(image@.subrange(8, image@.len() as int), n as nat))
            == parse_image(image@)) by {
            if let Some(r) = parse_image(image@) {
                assert(read + r =~= r);
            }
        }
        assert(db.pairs() =~= read.map_values(
            |p: (Seq<u8>, Seq<u8>)| (p.0, (Some(p.1), Seq::<Seq<u8>>::empty())),
        ));
        while i < n
            invariant
                8 <= pos <= image@.len(),
                i <= n,
                n == le_u64(image@),
                db.inv(),
                distinct_keys(read),
                db.pairs() == read.map_values(
                    |p: (Seq<u8>, Seq<u8>)| (p.0, (Some(p.1), Seq::<Seq<u8>>::empty())),
                ),
                parse_image(image@) == prepend_pairs(
                    read,
                    parse_pairs(image@.subrange(pos as int, image@.len() as int), (n - i) as nat),
                ),
            decreases n - i,
        {
            let ghost rest = image@.subrange(pos as int, image@.len() as int);
            let ghost m = (n - i) as nat;
            let (ks, ke) = match read_frame(image, pos) {
                Some(f) => f,
                None => return Err(StorageError::FailedInitialize),
            };
            let ghost k1 = ke - pos;
            let ghost b1 = rest.subrange(k1, rest.len() as int);
            assert(b1 =~= image@.subrange(ke as int, image@.len() as int));
            let (vs, ve) = match read_frame(image, ke) {
                Some(f) => f,
                None => return Err(StorageError::FailedInitialize),
            };
            let ghost k2 = ve - ke;
            assert(b1.subrange(k2, b1.len() as int) =~= image@.subrange(ve as int, image@.len() as int));
            let key = &image[ks..ke];
            let value = &image[vs..ve];
            let ghost pair = (key@, value@);
            proof {
                lemma_to_map_domain(db.pairs(), key@);
            }
            if db.find(key).is_some() {
                proof {
                    if let Some(all) = parse_image(image@) {
                        let j = choose|j: int| 0 <= j < db.pairs().len() && db.pairs()[j].0 == key@;
                        let tail = parse_pairs(image@.subrange(ve as int, image@.len() as int), (m - 1) as nat)->0;
                        assert(all == read + (seq![pair] + tail));
                        assert(all[j].0 == read[j].0);
                        assert(read[j].0 == db.pairs()[j].0);
                        assert(all[read.len() as int] == pair);
                        assert(!distinct_keys(all));
                    }
                }
                return Err(StorageError::FailedInitialize);
            }
            let record = Record { base: Some(copy_bytes(value)), operands: Vec::new() };
            assert(record@ == (Some(value@), Seq::<Seq<u8>>::empty())) by {
                assert(byte_views(record.operands@) =~= Seq::<Seq<u8>>::empty());
            }
            proof {
                lemma_to_map_push(db.pairs(), key@, record@);
            }
            let ghost db_before = db.pairs();
            db.entries.push((copy_bytes(key), record));
            proof {
                assert(db.pairs() =~= db_before.push((key@, record@)));
                let new_read = read.push(pair);
                assert(db.pairs() =~= new_read.map_values(
                    |p: (Seq<u8>, Seq<u8>)| (p.0, (Some(p.1), Seq::<Seq<u8>>::empty())),
                ));
                assert(distinct_keys(new_read)) by {
                    assert forall|a: int, b: int| 0 <= a < b < new_read.len() implies new_read[a].0
                        != new_read[b].0 by {
                        if b == read.len() {
                            assert(new_read[a].0 == db_before[a].0);
                        }
                    }
                }
                if let Some(tail) = parse_pairs(
                    image@.subrange(ve as int, image@.len() as int),
                    (m - 1) as nat,
                ) {
                    assert(read + (seq![pair] + tail) =~= new_read + tail);
                }
                read = new_read;
            }
            pos = ve;
            i += 1;
        }
        if pos != image.len() {
            return Err(StorageError::FailedInitialize);
        }
        assert(image@.subrange(pos as int, image@.len() as int) =~= Seq::<u8>::empty());
        assert(read + Seq::<(Seq<u8>, Seq<u8>)>::empty() =~= read);
        Ok(db)
    }

    /// Whether every record merges.
    pub fn all_merge(&self) -> (r: bool)
        requires
            self.inv(),
        ensures
            r == self.consistent(),
    {
        let mut i: usize = 0;
        while i < self.entries.len()
            invariant
                self.inv(),
                i <= self.entries@.len(),
                forall|j: int| 0 <= j < i ==> merged_record(#[trigger] self.pairs()[j].1) is Some,
            decreases self.entries.len() - i,
        {
            let key = &self.entries[i].0;
            let record = &self.entries[i].1;
            let m = match &record.base {
                Some(b) => merge_queue(key.as_slice(), Some(b.as_slice()), &record.operands),
                None => merge_queue(key.as_slice(), None, &record.operands),
            };
            if m.is_none() {
                proof {
                    lemma_to_map_index(self.pairs(), i as int);
                    assert(self.records().contains_key(self.pairs()[i as int].0));
                }
                return false;
            }
            i += 1;
        }
        assert forall|k: Seq<u8>| #[trigger]
            self.records().contains_key(k) implies merged_record(self.records()[k]) is Some by {
            lemma_to_map_domain(self.pairs(), k);
            let j = choose|j: int| 0 <= j < self.pairs().len() && self.pairs()[j].0 == k;
            lemma_to_map_index(self.pairs(), j);
        }
        true
    }

    /// The records of an image, read back, merge to what the records of the
    /// store merge to, key by key.
    pub proof fn lemma_image_records(&self)
        requires
            self.inv(),
            forall|j: int|
                0 <= j < self.image_pairs().len() ==> parse_queue(
                    (#[trigger] self.image_pairs()[j]).1,
                ) == merged(self.pairs()[j].1.0, self.pairs()[j].1.1),
        ensures
            distinct_keys(self.image_pairs()),
            forall|k: Seq<u8>|
                #[trigger] image_records(self.image_pairs()).contains_key(k)
                    == self.records().contains_key(k),
            forall|k: Seq<u8>| #[trigger]
                self.records().contains_key(k) ==> merged(
                    image_records(self.image_pairs())[k].0,
                    image_records(self.image_pairs())[k].1,
                ) == merged(self.records()[k].0, self.records()[k].1),
    {
        let ip = self.image_pairs();
        let m = ip.map_values(|p: (Seq<u8>, Seq<u8>)| (p.0, (Some(p.1), Seq::<Seq<u8>>::empty())));
        assert(distinct_keys(ip)) by {
            assert forall|a: int, b: int| 0 <= a < b < ip.len() implies ip[a].0 != ip[b].0 by {
                assert(ip[a].0 == self.pairs()[a].0 && ip[b].0 == self.pairs()[b].0);
            }
        }
        assert(distinct_keys(m)) by {
            assert forall|a: int, b: int| 0 <= a < b < m.len() implies m[a].0 != m[b].0 by {
                assert(m[a].0 == ip[a].0 && m[b].0 == ip[b].0);
            }
        }
        assert forall|k: Seq<u8>| #[trigger]
            image_records(ip).contains_key(k) == self.records().contains_key(k) by {
            lemma_to_map_domain(m, k);
            lemma_to_map_domain(self.pairs(), k);
            if self.records().contains_key(k) {
                let j = choose|j: int| 0 <= j < self.pairs().len() && self.pairs()[j].0 == k;
                assert(m[j].0 == k);
            }
            if image_records(ip).contains_key(k) {
                let j = choose|j: int| 0 <= j < m.len() && m[j].0 == k;
                assert(self.pairs()[j].0 == k);
            }
        }
        assert forall|k: Seq<u8>| #[trigger] self.records().contains_key(k) implies merged(
            image_records(ip)[k].0,
            image_records(ip)[k].1,
        ) == merged(self.records()[k].0, self.records()[k].1) by {
            lemma_to_map_domain(self.pairs(), k);
            let j = choose|j: int| 0 <= j < self.pairs().len() && self.pairs()[j].0 == k;
            lemma_to_map_index(self.pairs(), j);
            lemma_to_map_index(m, j);
            assert(m[j] == (k, (Some(ip[j].1), Seq::<Seq<u8>>::empty())));
            let e = Seq::<Seq<u8>>::empty();
            assert(parsed_operations(e) =~= Seq::<OperationView>::empty());
        }
    }

    /// The number of operands written under `key` since its value was last
    /// merged.
    pub fn pending(&self, key: &[u8]) -> (r: usize)
        requires
            self.inv(),
        ensures
            self.records().contains_key(key@) ==> r == self.records()[key@].1.len(),
            !self.records().contains_key(key@) ==> r == 0,
    {
        match self.find(key) {
            Some(i) => {
                let n = self.entries[i].1.operands.len();
                assert(byte_views(self.entries@[i as int].1.operands@).len() == n);
                n
            },
            None => 0,
        }
    }

    /// Folds the operands of `key` into its stored value: what the record
    /// merges to stays the same, and no operand is left.
    pub fn compact(&mut self, key: &[u8])
        requires
            old(self).inv(),
        ensures
            final(self).inv(),
            final(self).records().dom() == old(self).records().dom(),
            forall|k: Seq<u8>|
                k != key@ && #[trigger] old(self).records().contains_key(k) ==> final(self).records()[k]
                    == old(self).records()[k],
            old(self).records().contains_key(key@) ==> merged(
                final(self).records()[key@].0,
                final(self).records()[key@].1,
            ) == merged(old(self).records()[key@].0, old(self).records()[key@].1),
            old(self).records().contains_key(key@) && merged_record(old(self).records()[key@]) is Some
                ==> final(self).records()[key@] == (
                merged_record(old(self).records()[key@]),
                Seq::<Seq<u8>>::empty(),
            ),
            old(self).records().contains_key(key@) && merged_record(old(self).records()[key@]) is None
                ==> final(self).records() == old(self).records(),
    {
        if let Some(i) = self.find(key) {
            let m = {
                let record = &self.entries[i].1;
                match &record.base {
                    Some(b) => merge_queue(key, Some(b.as_slice()), &record.operands),
                    None => merge_queue(key, None, &record.operands),
                }
            };
            if let Some(b) = m {
                let ghost rec = self.pairs()[i as int].1;
                let ghost q = merged(rec.0, rec.1)->0;
                let ghost bv = b@;
                let compacted = Record { base: Some(b), operands: Vec::new() };
                proof {
                    lemma_merged_fits(rec.0, rec.1);
                    lemma_queue_round_trip(q);
                    assert(byte_views(compacted.operands@) =~= Seq::<Seq<u8>>::empty());
                    assert(parsed_operations(Seq::<Seq<u8>>::empty()) =~= Seq::<OperationView>::empty());
                    assert(compacted@ == (Some(bv), Seq::<Seq<u8>>::empty()));
                    lemma_to_map_update(self.pairs(), i as int, compacted@);
                }
                let mut compacted = compacted;
                std::mem::swap(&mut compacted, &mut self.entries[i].1);
                proof {
                    assert(self.pairs() =~= old(self).pairs().update(
                        i as int,
                        (key@, (Some(bv), Seq::<Seq<u8>>::empty())),
                    ));
                }
            }
        }
    }

    /// The merged value of `key`: `None` where the key is absent or its record
    /// does not merge.
    pub fn get(&self, key: &[u8]) -> (r: Option<Vec<u8>>)
        requires
            self.inv(),
        ensures
            !self.records().contains_key(key@) ==> r is None,
            self.records().contains_key(key@) ==> match merged(
                self.records()[key@].0,
                self.records()[key@].1,
            ) {
                Some(q) => r matches Some(b) && b@ == queue_bytes(q) && q.len() <= usize::MAX,
                None => r is None,
            },
    {
        match self.find(key) {
            Some(i) => {
                let record = &self.entries[i].1;
                match &record.base {
                    Some(b) => merge_queue(key, Some(b.as_slice()), &record.operands),
                    None => merge_queue(key, None, &record.operands),
                }
            },
            None => None,
        }
    }
}

} // verus!
