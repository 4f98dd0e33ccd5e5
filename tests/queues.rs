use xq::errors::{DataError, Error, StorageError};
use xq::storage::codec::{decode_queue, encode_queue};
use xq::storage::durable::{encode_operation, merge_queue, Operation, RocksDBStorage};
use xq::storage::engine::DbStorage;
use xq::storage::memory::{Item, MemoryStorage};
use xq::storage::StorageBackend;
use xq::types::{Command, Identifier, QueueType, Value};
use xq::Runtime;

fn run<T: StorageBackend>(storage: &mut T, command: Command) -> Result<Option<Value>, Error> {
    Runtime.run_command(storage, command)
}

fn is_empty_queue(r: &Result<Option<Value>, Error>, id: &str) -> bool {
    match r {
        Err(Error::Data(DataError::EmptyQueue(q))) => q == id,
        _ => false,
    }
}

fn fifo_scenario<T: StorageBackend>(s: &mut T) {
    assert_eq!(run(s, Command::enqueue("a", Value::Integer(1))).unwrap(), None);
    assert_eq!(run(s, Command::enqueue("a", Value::Integer(2))).unwrap(), None);
    assert_eq!(run(s, Command::dequeue("a")).unwrap(), Some(Value::Integer(1)));
    assert_eq!(run(s, Command::length("a")).unwrap(), Some(Value::Integer(1)));
    assert_eq!(run(s, Command::dequeue("a")).unwrap(), Some(Value::Integer(2)));
    assert!(is_empty_queue(&run(s, Command::dequeue("a")), "a"));
}

#[test]
fn enqueued_item_is_dequeued_correctly() -> Result<(), Error> {
    let mut item = Item::default();
    item.enqueue(Value::Integer(1))?;
    assert_eq!(item.dequeue(), Some(Value::Integer(1)));

    Ok(())
}

#[test]
fn item_keeps_order_and_length() {
    let mut item = Item::default();
    item.enqueue(Value::Integer(5)).unwrap();
    item.enqueue(Value::Null).unwrap();
    assert_eq!(item.length(), 2);
    assert_eq!(item.peek(), Some(&Value::Integer(5)));
    assert_eq!(item.dequeue(), Some(Value::Integer(5)));
    assert_eq!(item.dequeue(), Some(Value::Null));
    assert_eq!(item.dequeue(), None);
    assert_eq!(item.length(), 0);
}

#[test]
fn fifo_and_length_in_memory() {
    fifo_scenario(&mut MemoryStorage::new());
}

#[test]
fn fifo_and_length_durable() {
    fifo_scenario(&mut RocksDBStorage::new());
}

#[test]
fn peek_of_never_enqueued_queue() {
    for durable in [false, true] {
        let r_peek;
        let r_len;
        if durable {
            let mut s = RocksDBStorage::new();
            r_peek = run(&mut s, Command::peek("b"));
            r_len = run(&mut s, Command::length("b"));
        } else {
            let mut s = MemoryStorage::new();
            r_peek = run(&mut s, Command::peek("b"));
            r_len = run(&mut s, Command::length("b"));
        }
        assert!(is_empty_queue(&r_peek, "b"));
        assert_eq!(r_len.unwrap(), Some(Value::Integer(0)));
    }
}

#[test]
fn assert_on_peek() {
    let mut s = MemoryStorage::new();
    run(&mut s, Command::enqueue("a", Value::Integer(1))).unwrap();
    let ok = run(&mut s, Command::Assert(Box::new(Command::peek("a")), Value::Integer(1)));
    assert_eq!(ok.unwrap(), None);
    let bad = run(&mut s, Command::Assert(Box::new(Command::peek("a")), Value::Integer(2)));
    match bad {
        Err(Error::Data(DataError::FailedAssertion { command, expected, got })) => {
            assert_eq!(*command, Command::peek("a"));
            assert_eq!(expected, Some(Value::Integer(2)));
            assert_eq!(got, Some(Value::Integer(1)));
        },
        other => panic!("unexpected {:?}", other),
    }
    // Peek left the queue as it was.
    assert_eq!(run(&mut s, Command::length("a")).unwrap(), Some(Value::Integer(1)));
}

#[test]
fn assert_error_on_missing_queue() {
    let mut s = MemoryStorage::new();
    let r = run(&mut s, Command::AssertError(Box::new(Command::dequeue("c"))));
    assert_eq!(r.unwrap(), None);
}

#[test]
fn assert_error_on_success_fails() {
    let mut s = MemoryStorage::new();
    let r = run(&mut s, Command::AssertError(Box::new(Command::enqueue("c", Value::Integer(4)))));
    match r {
        Err(Error::Data(DataError::FailedAssertion { command, expected, got })) => {
            assert_eq!(*command, Command::enqueue("c", Value::Integer(4)));
            assert_eq!(expected, None);
            assert_eq!(got, None);
        },
        other => panic!("unexpected {:?}", other),
    }
    // The enqueue inside the assertion took effect.
    assert_eq!(run(&mut s, Command::length("c")).unwrap(), Some(Value::Integer(1)));
}

#[test]
fn assert_passes_backend_failure_through() {
    let mut s = MemoryStorage::new();
    let r = run(&mut s, Command::Assert(Box::new(Command::peek("z")), Value::Null));
    assert!(is_empty_queue(&r, "z"));
}

#[test]
fn assert_on_command_without_value() {
    let mut s = MemoryStorage::new();
    let r = run(&mut s, Command::Assert(Box::new(Command::Noop), Value::Null));
    match r {
        Err(Error::Data(DataError::FailedAssertion { expected, got, .. })) => {
            assert_eq!(expected, Some(Value::Null));
            assert_eq!(got, None);
        },
        other => panic!("unexpected {:?}", other),
    }
}

#[test]
fn values_of_mixed_types() {
    for durable in [false, true] {
        let mut m = MemoryStorage::new();
        let mut d = RocksDBStorage::new();
        let mut go = |c: Command| if durable { run(&mut d, c) } else { run(&mut m, c) };
        go(Command::enqueue("d", Value::String(String::from("hello")))).unwrap();
        go(Command::enqueue("d", Value::Float(3.14f64.to_bits()))).unwrap();
        assert_eq!(go(Command::dequeue("d")).unwrap(), Some(Value::String(String::from("hello"))));
        assert_eq!(go(Command::dequeue("d")).unwrap(), Some(Value::Float(3.14f64.to_bits())));
    }
}

#[test]
fn many_values_come_out_in_order() {
    let mut s = RocksDBStorage::new();
    for i in 0..50i64 {
        s.enqueue(&Identifier::from("q"), Value::Integer(i * 3)).unwrap();
    }
    for i in 0..50i64 {
        assert_eq!(s.dequeue(&Identifier::from("q")).unwrap(), Value::Integer(i * 3));
    }
    assert!(s.dequeue(&Identifier::from("q")).is_err());
}

#[test]
fn queues_are_isolated() {
    let mut s = MemoryStorage::new();
    run(&mut s, Command::enqueue("a", Value::Integer(1))).unwrap();
    run(&mut s, Command::enqueue("b", Value::Integer(10))).unwrap();
    run(&mut s, Command::enqueue("b", Value::Integer(11))).unwrap();
    run(&mut s, Command::dequeue("a")).unwrap();
    run(&mut s, Command::enqueue("a", Value::Integer(2))).unwrap();
    assert_eq!(run(&mut s, Command::length("b")).unwrap(), Some(Value::Integer(2)));
    assert_eq!(run(&mut s, Command::dequeue("b")).unwrap(), Some(Value::Integer(10)));
    assert_eq!(run(&mut s, Command::dequeue("b")).unwrap(), Some(Value::Integer(11)));
}

#[test]
fn length_counts_enqueues_minus_dequeues() {
    let mut s = RocksDBStorage::new();
    for i in 0..7i64 {
        run(&mut s, Command::enqueue("n", Value::Integer(i))).unwrap();
    }
    for _ in 0..3 {
        run(&mut s, Command::dequeue("n")).unwrap();
    }
    // A failed dequeue on another queue counts for nothing.
    assert!(run(&mut s, Command::dequeue("m")).is_err());
    assert_eq!(run(&mut s, Command::length("n")).unwrap(), Some(Value::Integer(4)));
}

#[test]
fn stored_null_is_not_emptiness() {
    let mut s = MemoryStorage::new();
    run(&mut s, Command::enqueue("z", Value::Null)).unwrap();
    assert_eq!(run(&mut s, Command::peek("z")).unwrap(), Some(Value::Null));
    assert_eq!(run(&mut s, Command::dequeue("z")).unwrap(), Some(Value::Null));
    assert!(is_empty_queue(&run(&mut s, Command::peek("z")), "z"));
    assert!(is_empty_queue(&run(&mut s, Command::dequeue("z")), "z"));
}

#[test]
fn enqueued_values_all_come_back() {
    let vs = [9i64, -4, 9, 0, i64::MAX, i64::MIN];
    let mut s = MemoryStorage::new();
    for v in vs {
        run(&mut s, Command::enqueue("p", Value::Integer(v))).unwrap();
    }
    let mut out = Vec::new();
    for _ in 0..vs.len() {
        out.push(run(&mut s, Command::dequeue("p")).unwrap().unwrap());
    }
    let expected: Vec<Value> = vs.iter().map(|v| Value::Integer(*v)).collect();
    assert_eq!(out, expected);
    assert_eq!(run(&mut s, Command::length("p")).unwrap(), Some(Value::Integer(0)));
}

#[test]
fn reopen_keeps_remaining_contents() {
    let mut s = RocksDBStorage::new();
    run(&mut s, Command::enqueue("a", Value::Integer(1))).unwrap();
    run(&mut s, Command::enqueue("a", Value::String(String::from("zwölf")))).unwrap();
    run(&mut s, Command::enqueue("a", Value::Null)).unwrap();
    run(&mut s, Command::enqueue("b", Value::Float((-0.5f64).to_bits()))).unwrap();
    run(&mut s, Command::dequeue("a")).unwrap();
    let image = s.image();
    let mut t = RocksDBStorage::init(&image).unwrap();
    assert_eq!(run(&mut t, Command::length("a")).unwrap(), Some(Value::Integer(2)));
    assert_eq!(
        run(&mut t, Command::dequeue("a")).unwrap(),
        Some(Value::String(String::from("zwölf")))
    );
    assert_eq!(run(&mut t, Command::dequeue("a")).unwrap(), Some(Value::Null));
    assert_eq!(run(&mut t, Command::dequeue("b")).unwrap(), Some(Value::Float((-0.5f64).to_bits())));
    assert!(is_empty_queue(&run(&mut t, Command::dequeue("a")), "a"));
}

#[test]
fn cleanup_removes_everything() {
    let mut s = RocksDBStorage::new();
    run(&mut s, Command::enqueue("a", Value::Integer(1))).unwrap();
    s.cleanup();
    assert_eq!(run(&mut s, Command::length("a")).unwrap(), Some(Value::Integer(0)));
    let mut db = DbStorage::new();
    db.merge(&[1, 2], encode_operation(&Operation::Dequeue));
    db.cleanup();
    assert_eq!(db.get(&[1, 2]), None);
}

#[test]
fn init_rejects_what_is_not_an_image() {
    assert!(matches!(RocksDBStorage::init(&[1, 2, 3]), Err(StorageError::FailedInitialize)));
    assert!(matches!(DbStorage::init(&[]), Err(StorageError::FailedInitialize)));
    // One pair whose value is no encoded queue.
    let mut image = vec![1, 0, 0, 0, 0, 0, 0, 0];
    image.extend_from_slice(&[1, 0, 0, 0, 0, 0, 0, 0, 7]);
    image.extend_from_slice(&[1, 0, 0, 0, 0, 0, 0, 0, 9]);
    assert!(DbStorage::init(&image).is_ok());
    assert!(matches!(RocksDBStorage::init(&image), Err(StorageError::FailedInitialize)));
    // The same key twice.
    let mut twice = vec![2, 0, 0, 0, 0, 0, 0, 0];
    for _ in 0..2 {
        twice.extend_from_slice(&[1, 0, 0, 0, 0, 0, 0, 0, 7]);
        twice.extend_from_slice(&[0, 0, 0, 0, 0, 0, 0, 0, 0, 0, 0, 0, 0, 0, 0, 0]);
    }
    assert!(matches!(DbStorage::init(&twice), Err(StorageError::FailedInitialize)));
    // An empty image.
    let empty = vec![0, 0, 0, 0, 0, 0, 0, 0];
    let mut s = RocksDBStorage::init(&empty).unwrap();
    assert_eq!(run(&mut s, Command::length("a")).unwrap(), Some(Value::Integer(0)));
}

#[test]
fn typed_queue_rejects_other_types() {
    let mut s = MemoryStorage::new();
    s.open(&Identifier::from("t"), QueueType::Integer).unwrap();
    let r = run(&mut s, Command::enqueue("t", Value::String(String::from("x"))));
    match r {
        Err(Error::Data(DataError::IncorrectType { expected, got })) => {
            assert_eq!(expected, QueueType::Integer);
            assert_eq!(got, QueueType::String);
        },
        other => panic!("unexpected {:?}", other),
    }
    run(&mut s, Command::enqueue("t", Value::Integer(3))).unwrap();
    assert_eq!(run(&mut s, Command::length("t")).unwrap(), Some(Value::Integer(1)));
}

#[test]
fn open_twice_and_close_missing() {
    let mut s = MemoryStorage::new();
    let t = Identifier::from("t");
    s.open(&t, QueueType::Null).unwrap();
    assert!(matches!(
        s.open(&t, QueueType::Null),
        Err(Error::Data(DataError::AlreadyOpen { ref queue })) if queue == "t"
    ));
    s.enqueue(&t, Value::Null).unwrap();
    s.close(&t).unwrap();
    assert_eq!(s.length(&t).unwrap(), 0);
    assert!(matches!(
        s.close(&t),
        Err(Error::Data(DataError::ClosedQueue { ref queue })) if queue == "t"
    ));
}

#[test]
fn queue_encoding_layout() {
    let q = vec![Value::Integer(-1), Value::String(String::from("hé")), Value::Null];
    let bytes = encode_queue(&q);
    let mut expected = vec![3, 0, 0, 0, 0, 0, 0, 0];
    expected.extend_from_slice(&[0, 255, 255, 255, 255, 255, 255, 255, 255]);
    expected.extend_from_slice(&[2, 3, 0, 0, 0, 0, 0, 0, 0, b'h', 0xc3, 0xa9]);
    expected.push(3);
    assert_eq!(bytes, expected);
    assert_eq!(decode_queue(&bytes), Some(q));
    let f = encode_queue(&vec![Value::Float(1.0f64.to_bits())]);
    assert_eq!(f, vec![1, 0, 0, 0, 0, 0, 0, 0, 1, 0, 0, 0, 0, 0, 0, 0xf0, 0x3f]);
}

#[test]
fn decoding_rejects_bad_bytes() {
    // A string that is not UTF-8.
    let bad = vec![1, 0, 0, 0, 0, 0, 0, 0, 2, 1, 0, 0, 0, 0, 0, 0, 0, 0xff];
    assert_eq!(decode_queue(&bad), None);
    // A count larger than what follows.
    assert_eq!(decode_queue(&[2, 0, 0, 0, 0, 0, 0, 0, 3]), None);
    // Bytes after the last value.
    assert_eq!(decode_queue(&[1, 0, 0, 0, 0, 0, 0, 0, 3, 3]), None);
    // An unknown tag.
    assert_eq!(decode_queue(&[1, 0, 0, 0, 0, 0, 0, 0, 4]), None);
}

#[test]
fn merge_folds_operands_in_order() {
    let base = encode_queue(&vec![Value::Integer(1), Value::Integer(2)]);
    let ops = vec![
        encode_operation(&Operation::Dequeue),
        encode_operation(&Operation::Enqueue(Value::Integer(3))),
        encode_operation(&Operation::Dequeue),
    ];
    let out = merge_queue(b"k", Some(base.as_slice()), &ops).unwrap();
    assert_eq!(out, encode_queue(&vec![Value::Integer(3)]));
    // Without a stored value the operands start from an empty queue; a
    // dequeue of an empty queue changes nothing.
    let ops = vec![
        encode_operation(&Operation::Dequeue),
        encode_operation(&Operation::Enqueue(Value::Null)),
    ];
    assert_eq!(merge_queue(b"k", None, &ops).unwrap(), encode_queue(&vec![Value::Null]));
    // An operand that is not an encoding.
    assert_eq!(merge_queue(b"k", None, &vec![vec![7]]), None);
    assert_eq!(merge_queue(b"k", Some(&[1u8, 2][..]), &Vec::new()), None);
}

#[test]
fn float_values_compare_as_numbers() {
    let nan = Value::Float(f64::NAN.to_bits());
    assert_ne!(nan, nan.clone());
    assert_eq!(Value::Float(0.0f64.to_bits()), Value::Float((-0.0f64).to_bits()));
    assert_ne!(Value::Float(1.0f64.to_bits()), Value::Integer(1));
    let mut s = MemoryStorage::new();
    run(&mut s, Command::enqueue("f", nan.clone())).unwrap();
    let r = run(&mut s, Command::Assert(Box::new(Command::peek("f")), nan));
    assert!(matches!(r, Err(Error::Data(DataError::FailedAssertion { .. }))));
}

#[test]
fn value_kinds_and_conversions() {
    assert_eq!(Value::Integer(1).kind(), QueueType::Integer);
    assert_eq!(Value::Float(0).kind(), QueueType::Float);
    assert_eq!(Value::String(String::new()).kind(), QueueType::String);
    assert_eq!(Value::Null.kind(), QueueType::Null);
    assert_eq!(Value::from(5i64), Value::Integer(5));
    assert_eq!(Value::from(String::from("s")), Value::String(String::from("s")));
    assert_eq!(Identifier::from("x"), Identifier(String::from("x")));
    assert_eq!(Command::dequeue("x"), Command::Dequeue(Identifier::from("x")));
    assert_ne!(Command::dequeue("x"), Command::peek("x"));
}

#[test]
fn noop_does_nothing() {
    let mut s = MemoryStorage::new();
    assert_eq!(run(&mut s, Command::Noop).unwrap(), None);
    assert_eq!(run(&mut s, Command::length("a")).unwrap(), Some(Value::Integer(0)));
}

#[test]
fn compaction_keeps_the_merged_value() {
    let mut db = DbStorage::new();
    let key = [9u8, 9];
    for i in 0..20i64 {
        db.merge(&key, encode_operation(&Operation::Enqueue(Value::Integer(i))));
    }
    db.merge(&key, encode_operation(&Operation::Dequeue));
    assert_eq!(db.pending(&key), 21);
    let before = db.get(&key).unwrap();
    db.compact(&key);
    assert_eq!(db.pending(&key), 0);
    assert_eq!(db.get(&key).unwrap(), before);
    let expected: Vec<Value> = (1..20i64).map(Value::Integer).collect();
    assert_eq!(decode_queue(&before), Some(expected));
    assert_eq!(db.pending(&[1]), 0);
}

#[test]
fn failures_compare_by_contents() {
    let mut s = MemoryStorage::new();
    let e = run(&mut s, Command::peek("b")).unwrap_err();
    assert_eq!(e, Error::Data(DataError::EmptyQueue(String::from("b"))));
    assert_ne!(e, Error::Data(DataError::EmptyQueue(String::from("c"))));
    assert_ne!(e, Error::Storage(StorageError::FailedLock));
    assert_eq!(e.clone(), e);
    run(&mut s, Command::enqueue("a", Value::Integer(1))).unwrap();
    let f = run(&mut s, Command::Assert(Box::new(Command::peek("a")), Value::Integer(2))).unwrap_err();
    let expected = Error::Data(DataError::FailedAssertion {
        command: Box::new(Command::peek("a")),
        expected: Some(Value::Integer(2)),
        got: Some(Value::Integer(1)),
    });
    assert_eq!(f, expected);
    assert_ne!(f, e);
    let syntax = xq::errors::SyntaxError::ParseError(String::from("x"));
    assert_eq!(syntax.clone(), syntax);
}
