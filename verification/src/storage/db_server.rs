//! The delay store: the key of a message, the reading of stored entries,
//! and the store with its put, fetch and delete.

use crate::delay_queue::delay_message::{DelayMessage, DelayMessageView};
use crate::error::StoreError;
use crate::storage::hex::{
    bytes_as_chars, hex_text, is_hex_digit, lemma_pow16_sixteen, parse_hex, push_hex,
};
use crate::storage::key_text::{
    biased, key_text, lemma_key_round_trip, lemma_key_text_shape, lemma_key_texts_have_shape,
    uuid_text,
};
use crate::storage::lifecycle::lemma_fetch_in_due_order;
use crate::storage::namespace::{ascending, entries_map, key_at, plain_entries, Namespace};
use crate::topic_queue::topic_message::{Message, MessageView, TopicMessage};
use vstd::prelude::*;
use vstd::slice::slice_to_vec;
use vstd::string::{StrSliceExecFns, StringExecFns};
use vstd::utf8::{
    decode_utf8, encode_utf8, encode_utf8_decode_utf8, is_ascii_chars_encode_utf8, valid_utf8,
};

verus! {

/// What separates the due time from the identifier in a key's text.
pub const KEY_SPLIT: char = ':';

/// How many characters the due time takes in a key's text.
pub const TIMESTAMP_WIDTH: usize = 16;

/// How many characters a key's text has.
pub const KEY_WIDTH: usize = 53;

/// The identity under which one message is stored: its due time, and an
/// identifier that keeps two messages with one due time apart.
#[derive(Debug, Clone, Copy, PartialEq, Eq, Structural)]
pub struct Key {
    /// The due time, in seconds since the Unix epoch.
    pub delay_timestamp: i64,
    /// What keeps two messages with one due time apart.
    pub uuid: u128,
}

/// The error of `uuid::Uuid::parse_str`. Nothing is read out of it.
#[verifier::external_type_specification]
#[verifier::external_body]
pub struct ExUuidError(uuid::Error);

/// The marks of a random identifier: the version field holds 4 and the
/// variant field holds binary 10. The other 122 bits are free.
pub open spec fn is_random_uuid(id: u128) -> bool {
    (id >> 76) & 0xf == 4 && (id >> 62) & 0x3 == 2
}

/// A fresh random identifier: `uuid::Uuid::new_v4`, as a number. Of the
/// value only the version and the variant are claimed, which the crate sets
/// in every identifier it draws. The call panics where the system has no
/// random bytes to give.
#[verifier::external_body]
fn random_uuid() -> (id: u128)
    ensures
        is_random_uuid(id),
{
    uuid::Uuid::new_v4().as_u128()
}

/// The text that the `uuid` crate prints for the identifier with the number
/// `id` (`Uuid::from_u128`, then `Display`): the hyphenated lower-case form.
#[verifier::external_body]
fn print_uuid(id: u128) -> (text: String)
    ensures
        text@ == uuid_text(id),
{
    uuid::Uuid::from_u128(id).to_string()
}

/// `uuid::Uuid::parse_str`, the identifier taken as a number. It reads more
/// forms than one; claimed here is only that it reads the hyphenated
/// lower-case form of every identifier back as that identifier.
#[verifier::external_body]
fn read_uuid(text: &str) -> (r: Result<u128, uuid::Error>)
    ensures
        forall|id: u128| text@ == #[trigger] uuid_text(id) ==> r is Ok && r->Ok_0 == id,
{
    uuid::Uuid::parse_str(text).map(|id| id.as_u128())
}

impl Key {
    /// The key's text, as it is stored.
    pub open spec fn text(self) -> Seq<char> {
        key_text(self.delay_timestamp, self.uuid)
    }

    /// The bytes of the key's text, which the engine orders the entries by.
    pub open spec fn bytes(self) -> Seq<u8> {
        encode_utf8(self.text())
    }

    /// The key that `text` is the text of, if there is one.
    pub open spec fn of_text(text: Seq<char>) -> Option<Key> {
        if exists|key: Key| key.text() == text {
            Some(choose|key: Key| key.text() == text)
        } else {
            None
        }
    }

    /// The key's text: what the store files the message under, and what
    /// `from_str` reads back.
    pub fn to_string(&self) -> (text: String)
        ensures
            text@ == self.text(),
    {
        let shifted: u64 = (self.delay_timestamp as i128 + 0x8000_0000_0000_0000) as u64;
        let mut text = String::new();
        push_hex(&mut text, shifted, TIMESTAMP_WIDTH);
        text.push(KEY_SPLIT);
        let id = print_uuid(self.uuid);
        text.append(id.as_str());
        assert(text@ =~= self.text());
        text
    }

    /// Reads a key from its text. Only the text that `to_string` writes for
    /// a key is the text of a key: 16 lower-case hex digits, the separator,
    /// and an identifier in hyphenated lower-case form. Anything else is
    /// `MalformedKey`.
    pub fn from_str(key: &str) -> (r: Result<Self, StoreError>)
        ensures
            match r {
                Ok(found) => Key::of_text(key@) == Some(found),
                Err(e) => e == StoreError::MalformedKey && Key::of_text(key@) is None,
            },
    {
        proof {
            lemma_key_texts_have_shape(key@);
        }
        if !key.is_ascii() {
            return Err(StoreError::MalformedKey);
        }
        let bytes = key.as_bytes();
        proof {
            is_ascii_chars_encode_utf8(key@);
        }
        if bytes.len() != KEY_WIDTH {
            return Err(StoreError::MalformedKey);
        }
        let shifted: u64 = match parse_hex(bytes, TIMESTAMP_WIDTH) {
            Some(value) => value,
            None => {
                proof {
                    let i = choose|i: int|
                        0 <= i < 16 && !is_hex_digit(#[trigger] bytes@[i] as char);
                    assert(bytes@[i] == key@[i] as u8);
                }
                return Err(StoreError::MalformedKey);
            },
        };
        if bytes[TIMESTAMP_WIDTH] != KEY_SPLIT as u8 {
            proof {
                assert(bytes@[16] == key@[16] as u8);
            }
            return Err(StoreError::MalformedKey);
        }
        let id_text = key.substring_ascii(TIMESTAMP_WIDTH + 1, KEY_WIDTH);
        let id: u128 = match read_uuid(id_text) {
            Ok(id) => id,
            Err(_) => {
                return Err(StoreError::MalformedKey);
            },
        };
        let canonical = print_uuid(id);
        let given = id_text.to_owned();
        if !(canonical == given) {
            return Err(StoreError::MalformedKey);
        }
        proof {
            lemma_pow16_sixteen();
        }
        let delay_timestamp: i64 = (shifted as i128 - 0x8000_0000_0000_0000) as i64;
        let found = Key { delay_timestamp, uuid: id };
        proof {
            lemma_key_text_shape(found.delay_timestamp, found.uuid);
            assert(biased(found.delay_timestamp) == shifted as nat);
            assert(key@ =~= found.text()) by {
                let digits = hex_text(shifted as nat, 16);
                assert(digits == bytes_as_chars(bytes@.subrange(0, 16)));
                assert forall|i: int| 0 <= i < 53 implies key@[i] == found.text()[i] by {
                    assert(bytes@[i] == key@[i] as u8);
                    if i < 16 {
                        assert(digits[i] == bytes@.subrange(0, 16)[i] as char);
                        assert(found.text().subrange(0, 16)[i] == found.text()[i]);
                    } else if i == 16 {
                    } else {
                        assert(found.text().subrange(17, 53)[i - 17] == found.text()[i]);
                        assert(key@.subrange(17, 53)[i - 17] == key@[i]);
                    }
                }
            }
            lemma_key_round_trip(found);
        }
        Ok(found)
    }

    /// A key for a message due at `delay_timestamp`, with a fresh random
    /// identifier.
    pub fn new(delay_timestamp: i64) -> (key: Self)
        ensures
            key.delay_timestamp == delay_timestamp,
            is_random_uuid(key.uuid),
    {
        Key::with_id(delay_timestamp, random_uuid())
    }

    /// The key with the given due time and identifier.
    pub fn with_id(delay_timestamp: i64, id: u128) -> (key: Self)
        ensures
            key.delay_timestamp == delay_timestamp,
            key.uuid == id,
    {
        Key { delay_timestamp, uuid: id }
    }
}

/// The current time in seconds since the Unix epoch:
/// `chrono::Local::now().timestamp()`. Nothing is claimed of the value. The
/// call panics where the system clock stands before 1970.
#[verifier::external_body]
fn unix_now() -> i64 {
    chrono::Local::now().timestamp()
}

/// `core::str::from_utf8`: the text that the bytes encode, where they are
/// valid UTF-8, and nothing where they are not.
#[verifier::external_body]
fn utf8_text<'a>(bytes: &'a [u8]) -> (r: Option<&'a str>)
    ensures
        r is Some <==> valid_utf8(bytes@),
        r matches Some(text) ==> encode_utf8(text@) == bytes@,
{
    core::str::from_utf8(bytes).ok()
}

/// The time left from `now` until `due`, in seconds, held to the range of
/// `i64`: a difference that no `i64` holds counts as the nearest one that
/// does.
pub open spec fn delay_between(due: int, now: int) -> int {
    if due - now < i64::MIN {
        i64::MIN as int
    } else if due - now > i64::MAX {
        i64::MAX as int
    } else {
        due - now
    }
}

/// The time left from `now` until `due`.
pub fn remaining_delay(due: i64, now: i64) -> (delay: i64)
    ensures
        delay == delay_between(due as int, now as int),
{
    let exact: i128 = due as i128 - now as i128;
    if exact < i64::MIN as i128 {
        i64::MIN
    } else if exact > i64::MAX as i128 {
        i64::MAX
    } else {
        exact as i64
    }
}

/// A message whose due time has passed has a negative delay, however far
/// back the due time lies.
pub proof fn lemma_overdue_is_negative(due: int, now: int)
    requires
        due < now,
    ensures
        delay_between(due, now) < 0,
{
}

/// The later due time has the longer delay, seen from one moment.
pub proof fn lemma_delay_monotone(earlier: int, later: int, now: int)
    requires
        earlier <= later,
    ensures
        delay_between(earlier, now) <= delay_between(later, now),
{
}

/// What the entry stored as `key` and `value` holds, read at the time
/// `now`: the payload and the delay left, where `key` is the UTF-8 text of a
/// key and `value` the UTF-8 text of a payload; nothing otherwise.
pub open spec fn entry_message(key: Seq<u8>, value: Seq<u8>, now: int) -> Option<
    DelayMessageView,
> {
    if valid_utf8(key) && valid_utf8(value) {
        match (Key::of_text(decode_utf8(key)), MessageView::of_json_text(decode_utf8(value))) {
            (Some(k), Some(message)) => Some(
                DelayMessageView {
                    message,
                    delay_time: delay_between(k.delay_timestamp as int, now),
                },
            ),
            _ => None,
        }
    } else {
        None
    }
}

/// Whether an entry can be read does not depend on when it is read.
pub proof fn lemma_entry_readable_at_any_time(key: Seq<u8>, value: Seq<u8>, now: int, then: int)
    ensures
        entry_message(key, value, now) is Some <==> entry_message(key, value, then) is Some,
{
}

/// Reads one stored entry at the time `now`. An entry whose key or payload
/// cannot be read is reported as `CorruptEntry` with its key.
pub fn delay_message_at(k: &[u8], v: &[u8], now: i64) -> (r: Result<DelayMessage, StoreError>)
    ensures
        match r {
            Ok(message) => entry_message(k@, v@, now as int) == Some(message@),
            Err(e) => e.is_corrupt_entry(k@) && entry_message(k@, v@, now as int) is None,
        },
{
    let key_text = match utf8_text(k) {
        Some(text) => text,
        None => {
            return Err(StoreError::CorruptEntry { key: slice_to_vec(k) });
        },
    };
    proof {
        encode_utf8_decode_utf8(key_text@);
    }
    let key = match Key::from_str(key_text) {
        Ok(key) => key,
        Err(_) => {
            return Err(StoreError::CorruptEntry { key: slice_to_vec(k) });
        },
    };
    let delay_time = remaining_delay(key.delay_timestamp, now);
    let str_msg = match utf8_text(v) {
        Some(text) => text,
        None => {
            return Err(StoreError::CorruptEntry { key: slice_to_vec(k) });
        },
    };
    proof {
        encode_utf8_decode_utf8(str_msg@);
    }
    match Message::deserialize(str_msg) {
        Ok(message) => Ok(DelayMessage::new(message, delay_time)),
        Err(_) => Err(StoreError::CorruptEntry { key: slice_to_vec(k) }),
    }
}

/// Reads one stored entry at the present time.
pub fn trans_to_delay_message(k: &[u8], v: &[u8]) -> (r: Result<DelayMessage, StoreError>)
    ensures
        match r {
            Ok(message) => exists|now: i64| entry_message(k@, v@, now as int) == Some(message@),
            Err(e) => e.is_corrupt_entry(k@) && forall|now: int| entry_message(k@, v@, now) is None,
        },
{
    let now = unix_now();
    let r = delay_message_at(k, v, now);
    proof {
        if r is Err {
            assert forall|then: int| entry_message(k@, v@, then) is None by {
                lemma_entry_readable_at_any_time(k@, v@, now as int, then);
            }
        }
    }
    r
}

/// What the messages stand for, one for one.
pub open spec fn message_views(messages: Seq<DelayMessage>) -> Seq<DelayMessageView> {
    Seq::new(messages.len(), |i: int| messages[i]@)
}

/// How many entries a fetch of at most `count` reads: `count`, or all there
/// are if that is fewer.
pub open spec fn fetch_window(entries: Seq<(Seq<u8>, Seq<u8>)>, count: nat) -> nat {
    if count < entries.len() {
        count
    } else {
        entries.len()
    }
}

/// `messages` is what a fetch of at most `count` hands out at the time
/// `now`: the first entries of the walk, each read as a message, in order.
pub open spec fn fetched(
    entries: Seq<(Seq<u8>, Seq<u8>)>,
    count: nat,
    now: int,
    messages: Seq<DelayMessageView>,
) -> bool {
    &&& messages.len() == fetch_window(entries, count)
    &&& forall|i: int|
        0 <= i < messages.len() ==> entry_message(entries[i].0, entries[i].1, now) == Some(
            #[trigger] messages[i],
        )
}

/// The entry at `at` is the first one that a fetch of at most `count`
/// cannot read.
pub open spec fn first_unreadable(
    entries: Seq<(Seq<u8>, Seq<u8>)>,
    count: nat,
    now: int,
    at: int,
) -> bool {
    &&& 0 <= at < fetch_window(entries, count)
    &&& entry_message(entries[at].0, entries[at].1, now) is None
    &&& forall|j: int|
        0 <= j < at ==> entry_message(#[trigger] key_at(entries, j), entries[j].1, now) is Some
}

/// `r` is the outcome of a fetch of at most `count` at the time `now`: the
/// messages of the first entries, or, where one of those cannot be read,
/// `CorruptEntry` with the key of the first such entry.
pub open spec fn fetch_outcome(
    entries: Seq<(Seq<u8>, Seq<u8>)>,
    count: nat,
    now: int,
    r: Result<Vec<DelayMessage>, StoreError>,
) -> bool {
    match r {
        Ok(messages) => fetched(entries, count, now, message_views(messages@)),
        Err(e) => exists|at: int| #[trigger]
            first_unreadable(entries, count, now, at) && e.is_corrupt_entry(entries[at].0),
    }
}

/// Reads at most `count` messages off the start of `entries`, as of the time
/// `now`. The whole fetch fails on the first entry that cannot be read: no
/// entry is passed over.
pub fn fetch_entries(entries: &Vec<(Vec<u8>, Vec<u8>)>, count: usize, now: i64) -> (r: Result<
    Vec<DelayMessage>,
    StoreError,
>)
    ensures
        fetch_outcome(plain_entries(entries@), count as nat, now as int, r),
{
    let ghost listing = plain_entries(entries@);
    let mut messages: Vec<DelayMessage> = Vec::new();
    let mut i: usize = 0;
    while i < count && i < entries.len()
        invariant
            listing == plain_entries(entries@),
            i <= count,
            i <= entries@.len(),
            messages@.len() == i,
            forall|j: int|
                0 <= j < i ==> entry_message(listing[j].0, listing[j].1, now as int) == Some(
                    #[trigger] messages@[j]@,
                ),
        decreases entries@.len() - i,
    {
        match delay_message_at(entries[i].0.as_slice(), entries[i].1.as_slice(), now) {
            Ok(message) => {
                messages.push(message);
            },
            Err(e) => {
                proof {
                    assert forall|j: int| 0 <= j < i implies entry_message(
                        #[trigger] key_at(listing, j),
                        listing[j].1,
                        now as int,
                    ) is Some by {
                        assert(entry_message(listing[j].0, listing[j].1, now as int) == Some(
                            messages@[j]@,
                        ));
                    }
                    assert(first_unreadable(listing, count as nat, now as int, i as int));
                }
                return Err(e);
            },
        }
        i += 1;
    }
    proof {
        let views = message_views(messages@);
        assert forall|j: int| 0 <= j < views.len() implies entry_message(
            listing[j].0,
            listing[j].1,
            now as int,
        ) == Some(#[trigger] views[j]) by {
            assert(views[j] == messages@[j]@);
        }
    }
    Ok(messages)
}

/// From one message to the next the delay never goes down.
pub open spec fn delays_ascend(messages: Seq<DelayMessage>) -> bool {
    forall|i: int, j: int|
        0 <= i <= j < messages.len() ==> (#[trigger] messages[i]).delay_time <= (
        #[trigger] messages[j]).delay_time
}

/// The bytes stored for a payload: the UTF-8 text of its JSON form.
pub open spec fn payload_bytes(message: MessageView) -> Seq<u8> {
    encode_utf8(message.json_text())
}

/// The payload's stored text reads back as the payload.
pub open spec fn reads_back(message: MessageView) -> bool {
    MessageView::of_json_text(message.json_text()) == Some(message)
}

/// The change that storing `message` under `key` makes: the store gains the
/// entry, under the key's bytes, and the payload that was written reads back
/// as `message`.
pub open spec fn stored_as(
    before: Map<Seq<u8>, Seq<u8>>,
    after: Map<Seq<u8>, Seq<u8>>,
    key: Key,
    message: MessageView,
) -> bool {
    &&& after == before.insert(key.bytes(), payload_bytes(message))
    &&& reads_back(message)
}

/// What is to be stored for the message: a fresh key made for its due time,
/// and the text of its payload, which reads back as the payload. There is
/// an entry for every message, whatever its due time.
pub fn new_entry(topic_message: &TopicMessage) -> (r: Result<(Key, String), StoreError>)
    ensures
        r is Ok,
        r->Ok_0.0.delay_timestamp == topic_message.delay_timestamp,
        is_random_uuid(r->Ok_0.0.uuid),
        r->Ok_0.1@ == topic_message.message@.json_text(),
        reads_back(topic_message.message@),
{
    let key = Key::new(topic_message.delay_timestamp);
    match topic_message.message.serialize() {
        Ok(payload) => Ok((key, payload)),
        Err(e) => Err(e),
    }
}

/// The delay store over a namespace held in memory. A message that is put
/// gets a key of its own and stays until its key is deleted; a fetch reads
/// the messages with the earliest due times.
pub struct StorageInstance {
    db: Namespace,
}

impl View for StorageInstance {
    type V = Map<Seq<u8>, Seq<u8>>;

    /// What is stored: a map from key bytes to payload bytes.
    open spec fn view(&self) -> Map<Seq<u8>, Seq<u8>> {
        entries_map(self.listing())
    }
}

impl StorageInstance {
    /// The stored entries in the order of a walk from the start: ascending
    /// byte order of the keys.
    pub closed spec fn listing(&self) -> Seq<(Seq<u8>, Seq<u8>)> {
        self.db.listing()
    }

    /// A store over the namespace `db`, with whatever `db` holds.
    pub fn new(db: Namespace) -> (r: Self)
        ensures
            r.listing() == db.listing(),
    {
        StorageInstance { db }
    }

    /// Reads at most `count` messages, those with the earliest due times,
    /// in the order of their due times, with the delay of each as of now.
    /// The clock is read once, so all delays are taken from one moment.
    /// Messages are handed out whether they are due or not, and they stay
    /// stored.
    pub fn fetch_messages(&self, count: usize) -> (r: Result<Vec<DelayMessage>, StoreError>)
        ensures
            ascending(self.listing()),
            exists|now: i64| fetch_outcome(self.listing(), count as nat, now as int, r),
            r matches Ok(messages) ==> delays_ascend(messages@),
    {
        let now = unix_now();
        self.fetch_messages_at(count, now)
    }

    /// Reads at most `count` messages, those with the earliest due times,
    /// in the order of their due times, with the delay of each as of the
    /// time `now`.
    pub fn fetch_messages_at(&self, count: usize, now: i64) -> (r: Result<
        Vec<DelayMessage>,
        StoreError,
    >)
        ensures
            ascending(self.listing()),
            fetch_outcome(self.listing(), count as nat, now as int, r),
            r matches Ok(messages) ==> delays_ascend(messages@),
    {
        let r = fetch_entries(self.db.entries(), count, now);
        proof {
            if r is Ok {
                let messages = r->Ok_0;
                let views = message_views(messages@);
                lemma_fetch_in_due_order(self.listing(), count as nat, now as int, views);
                assert forall|i: int, j: int| 0 <= i <= j < messages@.len() implies (
                #[trigger] messages@[i]).delay_time <= (#[trigger] messages@[j]).delay_time by {
                    assert(views[i].delay_time <= views[j].delay_time);
                }
            }
        }
        r
    }

    /// Stores the message under a fresh key made for its due time, and
    /// returns the key's text: the handle by which the message is deleted.
    /// Every message is stored: a due time in the past, or before 1970, is
    /// stored like any other, and no put is turned away.
    pub fn put_message(&mut self, topic_message: &TopicMessage) -> (r: Result<String, StoreError>)
        ensures
            r is Ok,
            Key::of_text(r->Ok_0@) is Some,
            Key::of_text(r->Ok_0@)->Some_0.delay_timestamp == topic_message.delay_timestamp,
            is_random_uuid(Key::of_text(r->Ok_0@)->Some_0.uuid),
            stored_as(
                old(self)@,
                final(self)@,
                Key::of_text(r->Ok_0@)->Some_0,
                topic_message.message@,
            ),
    {
        match new_entry(topic_message) {
            Ok((key, payload)) => {
                proof {
                    lemma_key_round_trip(key);
                }
                Ok(self.put_payload(key, payload.as_str()))
            },
            Err(e) => Err(e),
        }
    }

    /// Stores the payload text `payload` under the key `key`, in place of
    /// what was stored under it, and returns the key's text.
    pub fn put_payload(&mut self, key: Key, payload: &str) -> (text: String)
        ensures
            text@ == key.text(),
            final(self)@ == old(self)@.insert(key.bytes(), encode_utf8(payload@)),
    {
        let text = key.to_string();
        self.db.put(text.as_str().as_bytes_vec(), payload.as_bytes_vec());
        text
    }

    /// Deletes what is stored under the key with the text `key`. Deleting a
    /// key under which nothing is stored changes nothing and is no error.
    pub fn delete_message(&mut self, key: &str) -> (r: Result<(), StoreError>)
        ensures
            r is Ok,
            final(self)@ == old(self)@.remove(encode_utf8(key@)),
    {
        self.db.delete(key.as_bytes());
        Ok(())
    }
}

} // verus!
