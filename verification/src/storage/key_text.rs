//! The text of a key, and what holds of it: its shape, that it tells keys
//! apart, and that its bytes sort as the keys do.

use crate::storage::byte_order::{precedes, splits_below};
use crate::storage::db_server::{Key, KEY_SPLIT};
use crate::storage::hex::{
    first_smaller_digit, hex_text, is_hex_digit, lemma_hex_text_injective,
    lemma_hex_text_ordered, lemma_hex_text_shape, lemma_pow16_sixteen, pow16,
};
use vstd::prelude::*;
use vstd::utf8::{is_ascii_chars, is_ascii_chars_encode_utf8};

verus! {

/// The due time moved into the unsigned range, so that the earlier time is
/// the smaller number: the earliest time of all becomes zero.
pub open spec fn biased(timestamp: i64) -> nat {
    (timestamp + 0x8000_0000_0000_0000) as nat
}

/// The hyphenated lower-case text of a 128-bit identifier: its 32 hex
/// digits, most significant first, in groups of 8, 4, 4, 4 and 12.
pub open spec fn uuid_text(id: u128) -> Seq<char> {
    let digits = hex_text(id as nat, 32);
    digits.subrange(0, 8) + seq!['-'] + digits.subrange(8, 12) + seq!['-'] + digits.subrange(
        12,
        16,
    ) + seq!['-'] + digits.subrange(16, 20) + seq!['-'] + digits.subrange(20, 32)
}

/// The text under which an entry is stored: the biased due time as 16 hex
/// digits, the separator, the identifier's text. The fixed width of the
/// first part makes the texts sort by due time.
pub open spec fn key_text(timestamp: i64, id: u128) -> Seq<char> {
    hex_text(biased(timestamp), 16) + seq![KEY_SPLIT] + uuid_text(id)
}

/// Where the digit number `i` of an identifier stands in its text.
pub open spec fn uuid_digit_place(i: int) -> int {
    if i < 8 {
        i
    } else if i < 12 {
        i + 1
    } else if i < 16 {
        i + 2
    } else if i < 20 {
        i + 3
    } else {
        i + 4
    }
}

/// An identifier's text has 36 characters, all of them ASCII: the 32 digits
/// at their places, and hyphens between the groups.
pub proof fn lemma_uuid_text_shape(id: u128)
    ensures
        uuid_text(id).len() == 36,
        is_ascii_chars(uuid_text(id)),
        forall|i: int|
            0 <= i < 32 ==> uuid_text(id)[uuid_digit_place(i)] == #[trigger] hex_text(
                id as nat,
                32,
            )[i],
{
    let digits = hex_text(id as nat, 32);
    lemma_hex_text_shape(id as nat, 32);
    let text = uuid_text(id);
    assert(text.len() == 36);
    assert forall|i: int| 0 <= i < 32 implies text[uuid_digit_place(i)]
        == #[trigger] digits[i] by {}
    assert forall|j: int| 0 <= j < 36 implies '\0' <= #[trigger] text[j] <= '\u{7f}' by {
        if j == 8 || j == 13 || j == 18 || j == 23 {
            assert(text[j] == '-');
        } else {
            let i = if j < 8 {
                j
            } else if j < 13 {
                j - 1
            } else if j < 18 {
                j - 2
            } else if j < 23 {
                j - 3
            } else {
                j - 4
            };
            assert(uuid_digit_place(i) == j);
            assert(is_hex_digit(digits[i]));
        }
    }
}

/// Two identifiers with one text are one identifier.
pub proof fn lemma_uuid_text_injective(a: u128, b: u128)
    requires
        uuid_text(a) == uuid_text(b),
    ensures
        a == b,
{
    lemma_uuid_text_shape(a);
    lemma_uuid_text_shape(b);
    lemma_hex_text_shape(a as nat, 32);
    lemma_hex_text_shape(b as nat, 32);
    let da = hex_text(a as nat, 32);
    let db = hex_text(b as nat, 32);
    assert forall|i: int| 0 <= i < 32 implies da[i] == db[i] by {
        assert(uuid_text(a)[uuid_digit_place(i)] == da[i]);
        assert(uuid_text(b)[uuid_digit_place(i)] == db[i]);
    }
    assert(da =~= db);
    assert(pow16(32) == 0x1_0000_0000_0000_0000_0000_0000_0000_0000) by {
        reveal_with_fuel(pow16, 33);
    }
    lemma_hex_text_injective(a as nat, b as nat, 32);
}

/// The parts of a key's text: 53 ASCII characters, of which the first 16 are
/// the digits of the biased due time, the next is the separator and the
/// last 36 are the identifier's text.
pub proof fn lemma_key_text_shape(timestamp: i64, id: u128)
    ensures
        key_text(timestamp, id).len() == 53,
        is_ascii_chars(key_text(timestamp, id)),
        key_text(timestamp, id).subrange(0, 16) == hex_text(biased(timestamp), 16),
        key_text(timestamp, id)[16] == KEY_SPLIT,
        key_text(timestamp, id).subrange(17, 53) == uuid_text(id),
        forall|i: int| 0 <= i < 16 ==> is_hex_digit(#[trigger] key_text(timestamp, id)[i]),
{
    let text = key_text(timestamp, id);
    lemma_hex_text_shape(biased(timestamp), 16);
    lemma_uuid_text_shape(id);
    assert(text.subrange(0, 16) =~= hex_text(biased(timestamp), 16));
    assert(text.subrange(17, 53) =~= uuid_text(id));
    assert forall|i: int| 0 <= i < 53 implies '\0' <= #[trigger] text[i] <= '\u{7f}' by {
        if i < 16 {
            assert(is_hex_digit(hex_text(biased(timestamp), 16)[i]));
        } else if i > 16 {
            assert(text[i] == uuid_text(id)[i - 17]);
        }
    }
    assert forall|i: int| 0 <= i < 16 implies is_hex_digit(#[trigger] text[i]) by {
        assert(is_hex_digit(hex_text(biased(timestamp), 16)[i]));
    }
}

/// What a text has where it is the text of `key`: the length, only ASCII
/// characters, the digits of the due time, the separator, and the
/// identifier's text.
pub open spec fn has_key_shape(text: Seq<char>, key: Key) -> bool {
    &&& text.len() == 53
    &&& is_ascii_chars(text)
    &&& forall|i: int| 0 <= i < 16 ==> is_hex_digit(#[trigger] text[i])
    &&& text.subrange(0, 16) == hex_text(biased(key.delay_timestamp), 16)
    &&& text[16] == KEY_SPLIT
    &&& text.subrange(17, 53) == uuid_text(key.uuid)
}

/// A text that is the text of a key has the shape of that key's text. So a
/// text that lacks any part of the shape is the text of no key.
pub proof fn lemma_key_texts_have_shape(text: Seq<char>)
    ensures
        forall|key: Key| #![trigger key.text()] key.text() == text ==> has_key_shape(text, key),
{
    assert forall|key: Key| #![trigger key.text()] key.text() == text implies has_key_shape(
        text,
        key,
    ) by {
        lemma_key_text_shape(key.delay_timestamp, key.uuid);
    }
}

/// Uniqueness: two keys with one text are one key. So two messages with the
/// same due time and different identifiers never share a stored key.
pub proof fn lemma_key_text_injective(a: Key, b: Key)
    requires
        a.text() == b.text(),
    ensures
        a == b,
{
    lemma_key_text_shape(a.delay_timestamp, a.uuid);
    lemma_key_text_shape(b.delay_timestamp, b.uuid);
    lemma_pow16_sixteen();
    lemma_hex_text_injective(biased(a.delay_timestamp), biased(b.delay_timestamp), 16);
    lemma_uuid_text_injective(a.uuid, b.uuid);
}

/// Round trip: the text of a key is the text of that key and of no other.
pub proof fn lemma_key_round_trip(key: Key)
    ensures
        Key::of_text(key.text()) == Some(key),
{
    let found = choose|k: Key| k.text() == key.text();
    lemma_key_text_injective(found, key);
}

/// Reading is the inverse of writing: `text` reads as `key` exactly where it
/// is the text of `key`.
pub proof fn lemma_of_text(text: Seq<char>, key: Key)
    ensures
        Key::of_text(text) == Some(key) <==> key.text() == text,
{
    if key.text() == text {
        lemma_key_round_trip(key);
    }
}

/// Order: the key of the earlier due time comes first in byte order,
/// whatever the two identifiers are.
pub proof fn lemma_key_order(a: Key, b: Key)
    requires
        a.delay_timestamp < b.delay_timestamp,
    ensures
        precedes(a.bytes(), b.bytes()),
{
    lemma_key_text_shape(a.delay_timestamp, a.uuid);
    lemma_key_text_shape(b.delay_timestamp, b.uuid);
    is_ascii_chars_encode_utf8(a.text());
    is_ascii_chars_encode_utf8(b.text());
    lemma_pow16_sixteen();
    let x = biased(a.delay_timestamp);
    let y = biased(b.delay_timestamp);
    lemma_hex_text_ordered(x, y, 16);
    let at = choose|at: int| first_smaller_digit(x, y, 16, at);
    lemma_hex_text_shape(x, 16);
    lemma_hex_text_shape(y, 16);
    assert(splits_below(a.bytes(), b.bytes(), at)) by {
        assert forall|j: int| 0 <= j <= at implies a.text()[j] == hex_text(x, 16)[j]
            && b.text()[j] == hex_text(y, 16)[j] by {
            assert(a.text().subrange(0, 16)[j] == a.text()[j]);
            assert(b.text().subrange(0, 16)[j] == b.text()[j]);
        }
        assert forall|j: int| 0 <= j < at implies a.bytes()[j] == b.bytes()[j] by {
            assert(a.text()[j] == b.text()[j]);
        }
        assert(is_hex_digit(a.text()[at]));
        assert(is_hex_digit(b.text()[at]));
        assert(a.text()[at] < b.text()[at]);
    }
}

/// Order among keys of one due time: the key with the smaller identifier
/// comes first in byte order. With `lemma_key_order` this makes the byte
/// order of the keys the order of the pairs of due time and identifier.
pub proof fn lemma_key_order_by_id(a: Key, b: Key)
    requires
        a.delay_timestamp == b.delay_timestamp,
        a.uuid < b.uuid,
    ensures
        precedes(a.bytes(), b.bytes()),
{
    lemma_key_text_shape(a.delay_timestamp, a.uuid);
    lemma_key_text_shape(b.delay_timestamp, b.uuid);
    is_ascii_chars_encode_utf8(a.text());
    is_ascii_chars_encode_utf8(b.text());
    lemma_uuid_text_shape(a.uuid);
    lemma_uuid_text_shape(b.uuid);
    let da = hex_text(a.uuid as nat, 32);
    let db = hex_text(b.uuid as nat, 32);
    lemma_hex_text_shape(a.uuid as nat, 32);
    lemma_hex_text_shape(b.uuid as nat, 32);
    assert(pow16(32) == 0x1_0000_0000_0000_0000_0000_0000_0000_0000) by {
        reveal_with_fuel(pow16, 33);
    }
    lemma_hex_text_ordered(a.uuid as nat, b.uuid as nat, 32);
    let d = choose|d: int| first_smaller_digit(a.uuid as nat, b.uuid as nat, 32, d);
    let at = 17 + uuid_digit_place(d);
    let ta = a.text();
    let tb = b.text();
    assert forall|j: int| 0 <= j < at implies ta[j] == tb[j] by {
        if j < 16 {
            assert(ta.subrange(0, 16)[j] == ta[j]);
            assert(tb.subrange(0, 16)[j] == tb[j]);
        } else if j > 16 {
            let u = j - 17;
            assert(ta.subrange(17, 53)[u] == ta[j]);
            assert(tb.subrange(17, 53)[u] == tb[j]);
            if u == 8 || u == 13 || u == 18 || u == 23 {
                assert(uuid_text(a.uuid)[u] == '-');
                assert(uuid_text(b.uuid)[u] == '-');
            } else {
                let i = if u < 8 {
                    u
                } else if u < 13 {
                    u - 1
                } else if u < 18 {
                    u - 2
                } else if u < 23 {
                    u - 3
                } else {
                    u - 4
                };
                assert(uuid_digit_place(i) == u);
                assert(uuid_text(a.uuid)[uuid_digit_place(i)] == da[i]);
                assert(uuid_text(b.uuid)[uuid_digit_place(i)] == db[i]);
                assert(da[i] == db[i]);
            }
        }
    }
    assert(splits_below(a.bytes(), b.bytes(), at)) by {
        let u = uuid_digit_place(d);
        assert(ta.subrange(17, 53)[u] == ta[at]);
        assert(tb.subrange(17, 53)[u] == tb[at]);
        assert(uuid_text(a.uuid)[uuid_digit_place(d)] == da[d]);
        assert(uuid_text(b.uuid)[uuid_digit_place(d)] == db[d]);
        assert(is_hex_digit(da[d]));
        assert(is_hex_digit(db[d]));
        assert(ta[at] < tb[at]);
        assert forall|j: int| 0 <= j < at implies a.bytes()[j] == b.bytes()[j] by {
            assert(ta[j] == tb[j]);
        }
    }
}

} // verus!
