//! What holds of the store over the life of a message: the order and the
//! limit of a fetch, that a fetch takes nothing away, that keys do not
//! collide, and that a delete can be repeated.

use crate::delay_queue::delay_message::{DelayMessage, DelayMessageView};
use crate::error::StoreError;
use crate::storage::byte_order::{lemma_precedes_asymmetric, precedes};
use crate::storage::db_server::{
    delay_between, entry_message, fetch_outcome, fetch_window, fetched, first_unreadable,
    lemma_delay_monotone, lemma_overdue_is_negative, message_views, payload_bytes, reads_back,
    Key,
};
use crate::storage::key_text::{lemma_key_order, lemma_key_round_trip, lemma_key_text_injective};
use crate::storage::namespace::{
    ascending, entries_map, key_at, lemma_entry_in_map, lemma_map_key_has_entry,
};
use crate::topic_queue::topic_message::MessageView;
use vstd::prelude::*;
use vstd::utf8::{
    decode_utf8, decode_utf8_encode_utf8, encode_utf8_decode_utf8, encode_utf8_valid_utf8,
};

verus! {

/// An entry written for a message whose text reads back is read as that
/// message, with the delay that its key's due time gives.
pub proof fn lemma_stored_entry_reads_back(key: Key, message: MessageView)
    requires
        reads_back(message),
    ensures
        forall|now: int| #[trigger]
            entry_message(key.bytes(), payload_bytes(message), now) == Some(
                DelayMessageView {
                    message,
                    delay_time: delay_between(key.delay_timestamp as int, now),
                },
            ),
{
    encode_utf8_valid_utf8(key.text());
    encode_utf8_valid_utf8(message.json_text());
    encode_utf8_decode_utf8(key.text());
    encode_utf8_decode_utf8(message.json_text());
    lemma_key_round_trip(key);
}

/// An overdue message is stored and read like any other: its entry reads
/// back as the message, with a negative delay.
pub proof fn lemma_overdue_entry_reads_back(key: Key, message: MessageView, now: int)
    requires
        reads_back(message),
        key.delay_timestamp < now,
    ensures
        entry_message(key.bytes(), payload_bytes(message), now) is Some,
        entry_message(key.bytes(), payload_bytes(message), now)->Some_0.message == message,
        entry_message(key.bytes(), payload_bytes(message), now)->Some_0.delay_time < 0,
{
    lemma_stored_entry_reads_back(key, message);
    lemma_overdue_is_negative(key.delay_timestamp as int, now);
}

/// The key that a readable entry is stored under is the bytes of the key it
/// reads as.
pub proof fn lemma_readable_entry_key(key: Seq<u8>, value: Seq<u8>, now: int)
    requires
        entry_message(key, value, now) is Some,
    ensures
        Key::of_text(decode_utf8(key)) is Some,
        Key::of_text(decode_utf8(key))->Some_0.bytes() == key,
        entry_message(key, value, now)->Some_0.delay_time == delay_between(
            Key::of_text(decode_utf8(key))->Some_0.delay_timestamp as int,
            now,
        ),
{
    decode_utf8_encode_utf8(key);
}

/// The due time that the stored key `key` carries, where it is the UTF-8
/// text of a key.
pub open spec fn due_time_of(key: Seq<u8>) -> int {
    Key::of_text(decode_utf8(key))->Some_0.delay_timestamp as int
}

/// Order of a fetch: where the entries stand in ascending byte order of
/// their keys, as every walk of a namespace gives them, the messages come
/// out by due time: from one message to the next neither the due time nor
/// the delay goes down. This holds in whatever order the messages were put.
pub proof fn lemma_fetch_in_due_order(
    entries: Seq<(Seq<u8>, Seq<u8>)>,
    count: nat,
    now: int,
    messages: Seq<DelayMessageView>,
)
    requires
        ascending(entries),
        fetched(entries, count, now, messages),
    ensures
        forall|i: int, j: int|
            0 <= i <= j < messages.len() ==> due_time_of(#[trigger] key_at(entries, i))
                <= due_time_of(#[trigger] key_at(entries, j)),
        forall|i: int, j: int|
            0 <= i <= j < messages.len() ==> (#[trigger] messages[i]).delay_time <= (
            #[trigger] messages[j]).delay_time,
{
    assert forall|i: int, j: int| 0 <= i <= j < messages.len() implies due_time_of(
        #[trigger] key_at(entries, i),
    ) <= due_time_of(#[trigger] key_at(entries, j)) by {
        lemma_later_entry_is_due_later(entries, count, now, messages, i, j);
    }
    assert forall|i: int, j: int| 0 <= i <= j < messages.len() implies (
    #[trigger] messages[i]).delay_time <= (#[trigger] messages[j]).delay_time by {
        lemma_later_entry_is_due_later(entries, count, now, messages, i, j);
    }
}

/// Of two entries that a fetch reads off an ascending walk, the later one
/// has the later due time, or the same, and the longer delay, or the same.
proof fn lemma_later_entry_is_due_later(
    entries: Seq<(Seq<u8>, Seq<u8>)>,
    count: nat,
    now: int,
    messages: Seq<DelayMessageView>,
    i: int,
    j: int,
)
    requires
        ascending(entries),
        fetched(entries, count, now, messages),
        0 <= i <= j < messages.len(),
    ensures
        due_time_of(key_at(entries, i)) <= due_time_of(key_at(entries, j)),
        messages[i].delay_time <= messages[j].delay_time,
{
    if i < j {
        let (ki, vi) = entries[i];
        let (kj, vj) = entries[j];
        assert(entry_message(ki, vi, now) == Some(messages[i]));
        assert(entry_message(kj, vj, now) == Some(messages[j]));
        lemma_readable_entry_key(ki, vi, now);
        lemma_readable_entry_key(kj, vj, now);
        let a = Key::of_text(decode_utf8(ki))->Some_0;
        let b = Key::of_text(decode_utf8(kj))->Some_0;
        assert(precedes(key_at(entries, i), key_at(entries, j)));
        if b.delay_timestamp < a.delay_timestamp {
            lemma_key_order(b, a);
            lemma_precedes_asymmetric(kj, ki);
        }
        lemma_delay_monotone(a.delay_timestamp as int, b.delay_timestamp as int, now);
    }
}

/// The order of puts leaves no trace: two entries under different keys put
/// in either order leave the same store, and so the same walk.
pub proof fn lemma_put_order_is_irrelevant(
    store: Map<Seq<u8>, Seq<u8>>,
    first_key: Seq<u8>,
    first: Seq<u8>,
    second_key: Seq<u8>,
    second: Seq<u8>,
)
    requires
        first_key != second_key,
    ensures
        store.insert(first_key, first).insert(second_key, second) == store.insert(
            second_key,
            second,
        ).insert(first_key, first),
{
    assert(store.insert(first_key, first).insert(second_key, second) =~= store.insert(
        second_key,
        second,
    ).insert(first_key, first));
}

/// Limit of a fetch: it hands out no more than `count` messages; none at
/// all for a `count` of zero, whatever is stored; and one for each stored
/// entry where `count` is no less than their number.
pub proof fn lemma_fetch_limit(
    entries: Seq<(Seq<u8>, Seq<u8>)>,
    count: nat,
    now: int,
    messages: Seq<DelayMessageView>,
)
    requires
        fetched(entries, count, now, messages),
    ensures
        messages.len() <= count,
        count == 0 ==> messages.len() == 0,
        count >= entries.len() ==> messages.len() == entries.len(),
{
}

/// A fetch takes nothing away: of one walk, at one time, every fetch of at
/// most `count` has the same outcome, the same messages or the same corrupt
/// key. What was fetched and not deleted is fetched again.
pub proof fn lemma_fetch_is_repeatable(
    entries: Seq<(Seq<u8>, Seq<u8>)>,
    count: nat,
    now: int,
    first: Result<Vec<DelayMessage>, StoreError>,
    second: Result<Vec<DelayMessage>, StoreError>,
)
    requires
        fetch_outcome(entries, count, now, first),
        fetch_outcome(entries, count, now, second),
    ensures
        first is Ok <==> second is Ok,
        first is Ok ==> message_views(first->Ok_0@) == message_views(second->Ok_0@),
        first is Err ==> exists|key: Seq<u8>|
            first->Err_0.is_corrupt_entry(key) && second->Err_0.is_corrupt_entry(key),
{
    if first is Err {
        let at = choose|at: int| #[trigger]
            first_unreadable(entries, count, now, at) && first->Err_0.is_corrupt_entry(
                entries[at].0,
            );
        if second is Ok {
            let views = message_views(second->Ok_0@);
            assert(entry_message(entries[at].0, entries[at].1, now) == Some(views[at]));
        } else {
            let other = choose|other: int| #[trigger]
                first_unreadable(entries, count, now, other) && second->Err_0.is_corrupt_entry(
                    entries[other].0,
                );
            if at < other {
                assert(entry_message(key_at(entries, at), entries[at].1, now) is Some);
            } else if other < at {
                assert(entry_message(key_at(entries, other), entries[other].1, now) is Some);
            }
            assert(first->Err_0.is_corrupt_entry(entries[at].0)
                && second->Err_0.is_corrupt_entry(entries[at].0));
        }
    } else {
        let a = message_views(first->Ok_0@);
        if second is Err {
            let other = choose|other: int| #[trigger]
                first_unreadable(entries, count, now, other) && second->Err_0.is_corrupt_entry(
                    entries[other].0,
                );
            assert(entry_message(entries[other].0, entries[other].1, now) == Some(a[other]));
        } else {
            let b = message_views(second->Ok_0@);
            assert forall|i: int| 0 <= i < a.len() implies a[i] == b[i] by {
                assert(entry_message(entries[i].0, entries[i].1, now) == Some(a[i]));
                assert(entry_message(entries[i].0, entries[i].1, now) == Some(b[i]));
            }
            assert(a =~= b);
        }
    }
}

/// A fetch reads no entry past the first `count`: two walks that agree on
/// the entries it reads give it the same outcome, whatever comes after.
pub proof fn lemma_fetch_reads_window_only(
    entries: Seq<(Seq<u8>, Seq<u8>)>,
    others: Seq<(Seq<u8>, Seq<u8>)>,
    count: nat,
    now: int,
    r: Result<Vec<DelayMessage>, StoreError>,
)
    requires
        fetch_outcome(entries, count, now, r),
        fetch_window(others, count) == fetch_window(entries, count),
        forall|i: int| 0 <= i < fetch_window(entries, count) ==> others[i] == entries[i],
    ensures
        fetch_outcome(others, count, now, r),
{
    match r {
        Ok(messages) => {},
        Err(e) => {
            let at = choose|at: int| #[trigger]
                first_unreadable(entries, count, now, at) && e.is_corrupt_entry(entries[at].0);
            assert(first_unreadable(others, count, now, at)) by {
                assert forall|j: int| 0 <= j < at implies entry_message(
                    #[trigger] key_at(others, j),
                    others[j].1,
                    now,
                ) is Some by {
                    assert(entry_message(key_at(entries, j), entries[j].1, now) is Some);
                }
            }
        },
    }
}

/// A fetch fails only on an entry that cannot be read: where each of the
/// entries it reads can be read, it succeeds. With a `count` of zero it
/// reads none, and succeeds.
pub proof fn lemma_fetch_succeeds(
    entries: Seq<(Seq<u8>, Seq<u8>)>,
    count: nat,
    now: int,
    r: Result<Vec<DelayMessage>, StoreError>,
)
    requires
        fetch_outcome(entries, count, now, r),
        forall|i: int|
            0 <= i < fetch_window(entries, count) ==> entry_message(
                #[trigger] key_at(entries, i),
                entries[i].1,
                now,
            ) is Some,
    ensures
        r is Ok,
{
    if r is Err {
        let at = choose|at: int| #[trigger]
            first_unreadable(entries, count, now, at) && r->Err_0.is_corrupt_entry(entries[at].0);
        assert(entry_message(key_at(entries, at), entries[at].1, now) is Some);
    }
}

/// Uniqueness: two keys that differ, be it only in the identifier, have
/// different texts and different bytes. So of two messages put with the
/// same due time under different identifiers neither takes the other's
/// place: the store holds both.
pub proof fn lemma_distinct_keys_both_stored(
    before: Map<Seq<u8>, Seq<u8>>,
    a: Key,
    b: Key,
    first: Seq<u8>,
    second: Seq<u8>,
)
    requires
        a != b,
    ensures
        a.text() != b.text(),
        a.bytes() != b.bytes(),
        before.insert(a.bytes(), first).insert(b.bytes(), second).contains_pair(a.bytes(), first),
        before.insert(a.bytes(), first).insert(b.bytes(), second).contains_pair(
            b.bytes(),
            second,
        ),
{
    if a.text() == b.text() {
        lemma_key_text_injective(a, b);
    }
    encode_utf8_decode_utf8(a.text());
    encode_utf8_decode_utf8(b.text());
}

/// What is stored can be fetched: a fetch that reads all entries hands out
/// the message of every entry that was stored for a message and a key.
pub proof fn lemma_stored_message_is_fetched(
    entries: Seq<(Seq<u8>, Seq<u8>)>,
    count: nat,
    now: int,
    messages: Seq<DelayMessageView>,
    key: Key,
    message: MessageView,
)
    requires
        ascending(entries),
        fetched(entries, count, now, messages),
        count >= entries.len(),
        entries_map(entries).contains_pair(key.bytes(), payload_bytes(message)),
        reads_back(message),
    ensures
        exists|i: int|
            0 <= i < messages.len() && #[trigger] messages[i] == (DelayMessageView {
                message,
                delay_time: delay_between(key.delay_timestamp as int, now),
            }),
{
    lemma_map_key_has_entry(entries, key.bytes());
    let at = choose|i: int| 0 <= i < entries.len() && #[trigger] key_at(entries, i) == key.bytes();
    lemma_entry_in_map(entries, at);
    lemma_stored_entry_reads_back(key, message);
    assert(entry_message(entries[at].0, entries[at].1, now) == Some(messages[at]));
    assert(entry_message(key.bytes(), payload_bytes(message), now) == Some(
        DelayMessageView { message, delay_time: delay_between(key.delay_timestamp as int, now) },
    ));
}

/// Deleting is idempotent: a second delete of the same key leaves the store
/// as the first one left it.
pub proof fn lemma_delete_twice(store: Map<Seq<u8>, Seq<u8>>, key: Seq<u8>)
    ensures
        store.remove(key).remove(key) == store.remove(key),
        !store.remove(key).contains_key(key),
{
    assert(store.remove(key).remove(key) =~= store.remove(key));
}

/// What is put and then deleted is gone, and what else was stored stays.
pub proof fn lemma_put_then_delete(store: Map<Seq<u8>, Seq<u8>>, key: Seq<u8>, value: Seq<u8>)
    ensures
        store.insert(key, value).remove(key) == store.remove(key),
        !store.contains_key(key) ==> store.insert(key, value).remove(key) == store,
{
    assert(store.insert(key, value).remove(key) =~= store.remove(key));
    if !store.contains_key(key) {
        assert(store.remove(key) =~= store);
    }
}

} // verus!
