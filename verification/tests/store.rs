use chrono::Local;
use delay_store::delay_queue::delay_message::DelayMessage;
use delay_store::error::StoreError;
use delay_store::storage::db_server::{
    delay_message_at, fetch_entries, new_entry, remaining_delay, trans_to_delay_message, Key,
    StorageInstance,
};
use delay_store::storage::namespace::Namespace;
use delay_store::topic_queue::topic_message::{Message, TopicMessage};

fn message(topic: &str, body: &str) -> Message {
    Message { topic: topic.to_string(), body: body.to_string() }
}

fn topics(messages: &[DelayMessage]) -> Vec<String> {
    messages.iter().map(|m| m.message.topic.clone()).collect()
}

#[test]
fn db_server_test_mod() {
    let mut db_server = StorageInstance::new(Namespace::new());
    let message = Message { topic: "hello".to_string(), body: "1".to_string() };
    let message = TopicMessage::new(1683165053, message);
    let string = db_server.put_message(&message).unwrap();
    println!("{:?}", string);
    let message2 = Message { topic: "pello".to_string(), body: "2".to_string() };
    let message2 = TopicMessage::new(1683165059, message2);
    let string1 = db_server.put_message(&message2).unwrap();
    println!("{:?}", string1);
    let vec = db_server.fetch_messages(5).unwrap();
    vec.iter().for_each(|message| {
        println!("{:?}", message);
    });
    assert_eq!(Key::from_str(&string).unwrap().delay_timestamp, 1683165053);
    assert_eq!(Key::from_str(&string1).unwrap().delay_timestamp, 1683165059);
    assert_eq!(vec.len(), 2);
    assert_eq!(vec[0].message.topic, "hello");
    assert_eq!(vec[0].message.body, "1");
    assert_eq!(vec[1].message.topic, "pello");
    assert_eq!(vec[1].message.body, "2");
    assert_eq!(vec[1].delay_time - vec[0].delay_time, 6);
}

#[test]
fn db_server_time_mod() {
    println!("{:?}", Local::now().timestamp());
}

#[test]
fn write_test_mod() {
    let mut db_server = StorageInstance::new(Namespace::new());
    let message = Message { topic: "hello".to_string(), body: "world".to_string() };
    let message = TopicMessage::new(1681825478, message);
    db_server.put_message(&message).unwrap();
    let message2 = Message { topic: "pello".to_string(), body: "world".to_string() };
    let message2 = TopicMessage::new(1681825478, message2);
    db_server.put_message(&message2).unwrap();

    let vec = db_server.fetch_messages(10).unwrap();
    println!("{:?}", vec);
    assert_eq!(vec.len(), 2);
    let mut found = topics(&vec);
    found.sort();
    assert_eq!(found, ["hello", "pello"]);
    assert!(vec.iter().all(|m| m.message.body == "world"));
}

#[test]
fn write_time_mod() {
    println!("{:?}", Local::now().timestamp());
}

#[test]
fn same_due_time_both_kept_then_both_deleted() {
    let due = 1681825478;
    let mut store = StorageInstance::new(Namespace::new());
    let first = store.put_message(&TopicMessage::new(due, message("hello", "world"))).unwrap();
    let second = store.put_message(&TopicMessage::new(due, message("pello", "world"))).unwrap();
    assert_ne!(first, second);

    let before = Local::now().timestamp();
    let fetched = store.fetch_messages(2).unwrap();
    let after = Local::now().timestamp();
    assert_eq!(fetched.len(), 2);
    let mut found = topics(&fetched);
    found.sort();
    assert_eq!(found, ["hello", "pello"]);
    for m in &fetched {
        assert_eq!(m.message.body, "world");
        assert!(due - after <= m.delay_time && m.delay_time <= due - before);
    }

    store.delete_message(&first).unwrap();
    store.delete_message(&second).unwrap();
    assert!(store.fetch_messages(10).unwrap().is_empty());
}

#[test]
fn fetch_at_a_given_time_gives_exact_delays() {
    let mut store = StorageInstance::new(Namespace::new());
    store.put_message(&TopicMessage::new(1000, message("a", "1"))).unwrap();
    store.put_message(&TopicMessage::new(400, message("b", "2"))).unwrap();
    let fetched = store.fetch_messages_at(10, 700).unwrap();
    assert_eq!(topics(&fetched), ["b", "a"]);
    assert_eq!(fetched[0].delay_time, -300);
    assert_eq!(fetched[1].delay_time, 300);
    assert_eq!(fetched[0].message.body, "2");
    assert_eq!(fetched[1].message.body, "1");
}

#[test]
fn fetch_is_in_due_order_whatever_the_order_of_puts() {
    let times: [i64; 9] = [10, -5, 9, 1683165053, 0, -1683165053, 100, i64::MAX, i64::MIN];
    let mut store = StorageInstance::new(Namespace::new());
    for t in times {
        store.put_message(&TopicMessage::new(t, message(&t.to_string(), "x"))).unwrap();
    }
    let mut sorted = times.to_vec();
    sorted.sort();
    let fetched = store.fetch_messages_at(times.len(), 0).unwrap();
    let expected: Vec<String> = sorted.iter().map(|t| t.to_string()).collect();
    assert_eq!(topics(&fetched), expected);
    for pair in fetched.windows(2) {
        assert!(pair[0].delay_time <= pair[1].delay_time);
    }
    let delays: Vec<i64> = fetched.iter().map(|m| m.delay_time).collect();
    assert_eq!(delays, sorted);

    let mut reversed = StorageInstance::new(Namespace::new());
    for t in times.iter().rev() {
        reversed.put_message(&TopicMessage::new(*t, message(&t.to_string(), "x"))).unwrap();
    }
    assert_eq!(topics(&reversed.fetch_messages_at(times.len(), 0).unwrap()), expected);
}

#[test]
fn fetch_takes_the_soonest_due_first() {
    let mut store = StorageInstance::new(Namespace::new());
    for t in [50i64, 20, 40, 10, 30] {
        store.put_message(&TopicMessage::new(t, message(&t.to_string(), "x"))).unwrap();
    }
    assert_eq!(topics(&store.fetch_messages_at(2, 0).unwrap()), ["10", "20"]);
    assert_eq!(topics(&store.fetch_messages_at(3, 1000).unwrap()), ["10", "20", "30"]);
}

#[test]
fn fetch_limit_boundaries() {
    let mut store = StorageInstance::new(Namespace::new());
    assert!(store.fetch_messages(0).unwrap().is_empty());
    assert!(store.fetch_messages(3).unwrap().is_empty());
    for t in [3i64, 1, 2] {
        store.put_message(&TopicMessage::new(t, message("t", "b"))).unwrap();
    }
    assert!(store.fetch_messages(0).unwrap().is_empty());
    assert_eq!(store.fetch_messages(1).unwrap().len(), 1);
    assert_eq!(store.fetch_messages(3).unwrap().len(), 3);
    assert_eq!(store.fetch_messages(4).unwrap().len(), 3);
    assert_eq!(store.fetch_messages(usize::MAX).unwrap().len(), 3);
}

#[test]
fn fetch_does_not_remove() {
    let mut store = StorageInstance::new(Namespace::new());
    store.put_message(&TopicMessage::new(5, message("t", "b"))).unwrap();
    assert_eq!(store.fetch_messages(10).unwrap().len(), 1);
    assert_eq!(store.fetch_messages(10).unwrap().len(), 1);
}

#[test]
fn delete_is_idempotent() {
    let mut store = StorageInstance::new(Namespace::new());
    let kept = store.put_message(&TopicMessage::new(7, message("kept", "b"))).unwrap();
    let gone = store.put_message(&TopicMessage::new(7, message("gone", "b"))).unwrap();
    assert_eq!(store.delete_message(&gone), Ok(()));
    assert_eq!(store.delete_message(&gone), Ok(()));
    assert_eq!(topics(&store.fetch_messages(10).unwrap()), ["kept"]);
    assert_eq!(store.delete_message("never stored"), Ok(()));
    assert_eq!(store.delete_message(""), Ok(()));
    assert_eq!(topics(&store.fetch_messages(10).unwrap()), ["kept"]);
    assert_eq!(store.delete_message(&kept), Ok(()));
    assert!(store.fetch_messages(10).unwrap().is_empty());
}

#[test]
fn overdue_message_has_negative_delay() {
    let mut store = StorageInstance::new(Namespace::new());
    let past = Local::now().timestamp() - 3600;
    store.put_message(&TopicMessage::new(past, message("late", "b"))).unwrap();
    store.put_message(&TopicMessage::new(-1683165053, message("very late", "b"))).unwrap();
    store.put_message(&TopicMessage::new(i64::MIN, message("earliest", "b"))).unwrap();
    let fetched = store.fetch_messages(10).unwrap();
    assert_eq!(topics(&fetched), ["earliest", "very late", "late"]);
    assert!(fetched.iter().all(|m| m.delay_time < 0));
    assert_eq!(fetched[0].delay_time, i64::MIN);
    assert!(-3700 < fetched[2].delay_time && fetched[2].delay_time <= -3600);
}

#[test]
fn new_entry_is_a_key_for_the_due_time_and_the_payload_text() {
    let (key, payload) = new_entry(&TopicMessage::new(-9, message("hello", "world"))).unwrap();
    assert_eq!(key.delay_timestamp, -9);
    assert_eq!((key.uuid >> 76) & 0xf, 4);
    assert_eq!(payload, "{\"topic\":\"hello\",\"body\":\"world\"}");
    let (other, _) = new_entry(&TopicMessage::new(-9, message("hello", "world"))).unwrap();
    assert_ne!(key, other);
}

#[test]
fn put_payload_uses_the_given_key() {
    let mut store = StorageInstance::new(Namespace::new());
    let key = Key::with_id(1681825478, 7);
    let text = store.put_payload(key, &message("hello", "world").serialize().unwrap());
    assert_eq!(text, "80000000643e9ec6:00000000-0000-0000-0000-000000000007");
    let again = store.put_payload(key, "{\"topic\":\"second\",\"body\":\"take\"}");
    assert_eq!(again, text);
    let fetched = store.fetch_messages_at(10, 1681825478).unwrap();
    assert_eq!(topics(&fetched), ["second"]);
    assert_eq!(fetched[0].delay_time, 0);
}

#[test]
fn stored_entry_is_key_text_and_json() {
    let mut db = Namespace::new();
    db.put(b"zz".to_vec(), b"last".to_vec());
    let mut store = StorageInstance::new(db);
    store.put_payload(Key::with_id(0, 1), "{\"topic\":\"hello\",\"body\":\"world\"}");
    store.delete_message("zz").unwrap();
    let fetched = store.fetch_messages_at(10, 0).unwrap();
    assert_eq!(topics(&fetched), ["hello"]);

    let mut raw = Namespace::new();
    raw.put(
        b"8000000000000000:00000000-0000-0000-0000-000000000001".to_vec(),
        b"{\"topic\":\"hello\",\"body\":\"world\"}".to_vec(),
    );
    let same = StorageInstance::new(raw).fetch_messages_at(10, 0).unwrap();
    assert_eq!(topics(&same), ["hello"]);
    assert_eq!(same[0].message.body, "world");
}

#[test]
fn corrupt_key_fails_the_fetch_with_the_key() {
    let mut db = Namespace::new();
    db.put(b"not a key".to_vec(), b"{\"topic\":\"t\",\"body\":\"b\"}".to_vec());
    let mut store = StorageInstance::new(db);
    store.put_message(&TopicMessage::new(5, message("fine", "b"))).unwrap();
    assert_eq!(
        store.fetch_messages(10).unwrap_err(),
        StoreError::CorruptEntry { key: b"not a key".to_vec() }
    );
    assert_eq!(topics(&store.fetch_messages(1).unwrap()), ["fine"]);
    assert!(store.fetch_messages(0).unwrap().is_empty());
    store.delete_message("not a key").unwrap();
    assert_eq!(topics(&store.fetch_messages(10).unwrap()), ["fine"]);
}

#[test]
fn corrupt_payload_fails_the_fetch_with_the_key() {
    let key = Key::with_id(5, 1).to_string();
    let payloads: [&[u8]; 5] =
        [b"not json", b"{\"topic\":\"t\"}", b"", b"\xff\xfe", b"{\"topic\":1,\"body\":\"b\"}"];
    for payload in payloads {
        let mut db = Namespace::new();
        db.put(key.as_bytes().to_vec(), payload.to_vec());
        let store = StorageInstance::new(db);
        assert_eq!(
            store.fetch_messages(10).unwrap_err(),
            StoreError::CorruptEntry { key: key.as_bytes().to_vec() }
        );
    }
}

#[test]
fn key_that_is_not_utf8_is_corrupt() {
    let mut db = Namespace::new();
    db.put(vec![0xff, 0x00, 0x80], b"{\"topic\":\"t\",\"body\":\"b\"}".to_vec());
    assert_eq!(
        StorageInstance::new(db).fetch_messages(10).unwrap_err(),
        StoreError::CorruptEntry { key: vec![0xff, 0x00, 0x80] }
    );
}

#[test]
fn first_corrupt_entry_is_reported() {
    let mut db = Namespace::new();
    db.put(b"b-bad".to_vec(), b"x".to_vec());
    db.put(b"a-bad".to_vec(), b"x".to_vec());
    assert_eq!(
        StorageInstance::new(db).fetch_messages_at(10, 0).unwrap_err(),
        StoreError::CorruptEntry { key: b"a-bad".to_vec() }
    );
}

#[test]
fn fetch_entries_reads_a_given_walk() {
    let entries = vec![
        (
            Key::with_id(-3, 1).to_string().into_bytes(),
            b"{\"topic\":\"a\",\"body\":\"1\"}".to_vec(),
        ),
        (
            Key::with_id(4, 1).to_string().into_bytes(),
            b"{\"body\":\"2\",\"topic\":\"b\"}".to_vec(),
        ),
        (b"junk".to_vec(), b"junk".to_vec()),
    ];
    let two = fetch_entries(&entries, 2, 1).unwrap();
    assert_eq!(topics(&two), ["a", "b"]);
    assert_eq!(two[0].delay_time, -4);
    assert_eq!(two[1].delay_time, 3);
    assert!(fetch_entries(&entries, 0, 1).unwrap().is_empty());
    assert_eq!(
        fetch_entries(&entries, 3, 1).unwrap_err(),
        StoreError::CorruptEntry { key: b"junk".to_vec() }
    );
    assert!(fetch_entries(&Vec::new(), 5, 1).unwrap().is_empty());
}

#[test]
fn one_entry_read_at_a_given_time() {
    let key = Key::with_id(1683165053, 9).to_string();
    let payload = b"{\"topic\":\"hello\",\"body\":\"1\"}";
    let m = delay_message_at(key.as_bytes(), payload, 1683165000).unwrap();
    assert_eq!(m.message.topic, "hello");
    assert_eq!(m.message.body, "1");
    assert_eq!(m.delay_time, 53);
    assert_eq!(
        delay_message_at(b"bad", b"{\"topic\":\"hello\",\"body\":\"1\"}", 0).unwrap_err(),
        StoreError::CorruptEntry { key: b"bad".to_vec() }
    );
}

#[test]
fn one_entry_read_now() {
    let due = Local::now().timestamp() + 100;
    let key = Key::with_id(due, 9).to_string();
    let payload = b"{\"topic\":\"hello\",\"body\":\"1\"}";
    let m = trans_to_delay_message(key.as_bytes(), payload).unwrap();
    assert!(90 <= m.delay_time && m.delay_time <= 100);
    assert_eq!(m.message.topic, "hello");
    assert_eq!(
        trans_to_delay_message(key.as_bytes(), b"{}").unwrap_err(),
        StoreError::CorruptEntry { key: key.into_bytes() }
    );
}

#[test]
fn payload_that_is_not_ascii_is_stored_and_read_back() {
    let mut store = StorageInstance::new(Namespace::new());
    let odd = message("\u{4e2d}\u{6587}", "\u{1f600} \"q\" \\ \n");
    store.put_message(&TopicMessage::new(1, odd)).unwrap();
    let fetched = store.fetch_messages(1).unwrap();
    assert_eq!(fetched[0].message.topic, "\u{4e2d}\u{6587}");
    assert_eq!(fetched[0].message.body, "\u{1f600} \"q\" \\ \n");
}

#[test]
fn remaining_delay_is_the_difference_held_in_range() {
    assert_eq!(remaining_delay(10, 3), 7);
    assert_eq!(remaining_delay(3, 10), -7);
    assert_eq!(remaining_delay(5, 5), 0);
    assert_eq!(remaining_delay(-5, -7), 2);
    assert_eq!(remaining_delay(i64::MAX, 0), i64::MAX);
    assert_eq!(remaining_delay(i64::MIN, 0), i64::MIN);
    assert_eq!(remaining_delay(i64::MIN, 1), i64::MIN);
    assert_eq!(remaining_delay(i64::MAX, -1), i64::MAX);
    assert_eq!(remaining_delay(i64::MIN, i64::MAX), i64::MIN);
    assert_eq!(remaining_delay(i64::MAX, i64::MIN), i64::MAX);
    assert_eq!(remaining_delay(0, i64::MIN), i64::MAX);
    assert_eq!(remaining_delay(-1, i64::MIN), i64::MAX);
    assert_eq!(remaining_delay(-2, i64::MIN), i64::MAX - 1);
}

#[test]
fn namespace_keeps_keys_in_byte_order() {
    let mut db = Namespace::new();
    assert_eq!(db.len(), 0);
    for key in ["9", "10", "b", "", "a", "ab", "B"] {
        db.put(key.as_bytes().to_vec(), key.to_uppercase().into_bytes());
    }
    assert_eq!(db.len(), 7);
    let keys: Vec<&[u8]> = db.entries().iter().map(|e| e.0.as_slice()).collect();
    assert_eq!(keys, [&b""[..], b"10", b"9", b"B", b"a", b"ab", b"b"]);
    assert_eq!(db.entries()[5], (b"ab".to_vec(), b"AB".to_vec()));
}

#[test]
fn namespace_put_replaces_and_delete_removes() {
    let mut db = Namespace::new();
    db.put(b"k".to_vec(), b"1".to_vec());
    db.put(b"j".to_vec(), b"0".to_vec());
    db.put(b"k".to_vec(), b"2".to_vec());
    assert_eq!(db.entries(), &vec![(b"j".to_vec(), b"0".to_vec()), (b"k".to_vec(), b"2".to_vec())]);
    db.delete(b"absent");
    db.delete(b"");
    db.delete(b"kk");
    assert_eq!(db.len(), 2);
    db.delete(b"j");
    assert_eq!(db.entries(), &vec![(b"k".to_vec(), b"2".to_vec())]);
    db.delete(b"j");
    db.delete(b"k");
    assert_eq!(db.len(), 0);
    db.delete(b"k");
    assert_eq!(db.len(), 0);
}

#[test]
fn put_is_never_turned_away() {
    let mut store = StorageInstance::new(Namespace::new());
    let now = Local::now().timestamp();
    let times = [i64::MIN, -1683165053, -1, 0, 1, now - 1, now, now + 1, i64::MAX];
    for (i, t) in times.iter().enumerate() {
        let handle = store.put_message(&TopicMessage::new(*t, message("", "\u{0}\"\\")));
        assert_eq!(Key::from_str(&handle.unwrap()).unwrap().delay_timestamp, *t);
        assert_eq!(store.fetch_messages(usize::MAX).unwrap().len(), i + 1);
    }
}
