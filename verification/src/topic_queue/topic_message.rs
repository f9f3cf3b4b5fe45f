//! A message as a producer hands it in: a payload, and the time at which it
//! becomes due.

use crate::error::StoreError;
use crate::storage::hex::hex_text;
use serde::ser::SerializeMap;
use serde::Serializer;
use vstd::prelude::*;

verus! {

/// A payload with the time at which it falls due, in seconds since the Unix
/// epoch. A time in the past means that the message is due at once.
#[derive(Debug)]
pub struct TopicMessage {
    pub delay_timestamp: i64,
    pub message: Message,
}

/// What a `TopicMessage` stands for.
pub struct TopicMessageView {
    pub delay_timestamp: int,
    pub message: MessageView,
}

impl View for TopicMessage {
    type V = TopicMessageView;

    open spec fn view(&self) -> TopicMessageView {
        TopicMessageView { delay_timestamp: self.delay_timestamp as int, message: self.message@ }
    }
}

impl TopicMessage {
    /// The payload `message`, due at `timestamp`.
    pub fn new(timestamp: i64, message: Message) -> (r: Self)
        ensures
            r.delay_timestamp == timestamp,
            r.message == message,
    {
        TopicMessage { delay_timestamp: timestamp, message }
    }
}

/// The payload: a topic name and a body, both text.
#[derive(Clone, Debug)]
pub struct Message {
    pub topic: String,
    pub body: String,
}

/// What a `Message` stands for: the characters of its two fields.
pub struct MessageView {
    pub topic: Seq<char>,
    pub body: Seq<char>,
}

impl View for Message {
    type V = MessageView;

    open spec fn view(&self) -> MessageView {
        MessageView { topic: self.topic@, body: self.body@ }
    }
}

/// The error of `serde_json`'s serializer and parser. Nothing is read out of
/// it.
#[verifier::external_type_specification]
#[verifier::external_body]
pub struct ExJsonError(serde_json::Error);

/// How one character stands inside a JSON string: the quote and the
/// backslash behind a backslash; backspace, tab, line feed, form feed and
/// carriage return by their letter; every other character below the space
/// as `\u00` and its two lower-case hex digits; all others as they are.
pub open spec fn json_escaped(c: char) -> Seq<char> {
    if c == '"' {
        seq!['\\', '"']
    } else if c == '\\' {
        seq!['\\', '\\']
    } else if c == '\u{8}' {
        seq!['\\', 'b']
    } else if c == '\t' {
        seq!['\\', 't']
    } else if c == '\n' {
        seq!['\\', 'n']
    } else if c == '\u{c}' {
        seq!['\\', 'f']
    } else if c == '\r' {
        seq!['\\', 'r']
    } else if ' ' > c {
        seq!['\\', 'u', '0', '0'] + hex_text(c as nat, 2)
    } else {
        seq![c]
    }
}

/// The characters of `text`, each as it stands inside a JSON string.
pub open spec fn json_escaped_text(text: Seq<char>) -> Seq<char>
    decreases text.len(),
{
    if text.len() == 0 {
        Seq::empty()
    } else {
        json_escaped_text(text.drop_last()) + json_escaped(text.last())
    }
}

/// `text` as a JSON string: between quotes, with its characters escaped.
pub open spec fn json_string_text(text: Seq<char>) -> Seq<char> {
    seq!['"'] + json_escaped_text(text) + seq!['"']
}

/// The compact JSON text of an object of two text fields, `first` before
/// `second`: no white space, each name and each value as a JSON string.
pub open spec fn json_object_text(
    first: Seq<char>,
    first_value: Seq<char>,
    second: Seq<char>,
    second_value: Seq<char>,
) -> Seq<char> {
    seq!['{'] + json_string_text(first) + seq![':'] + json_string_text(first_value) + seq![',']
        + json_string_text(second) + seq![':'] + json_string_text(second_value) + seq!['}']
}

/// What `serde_json` reads out of `text` for the fields `first` and `second`:
/// `None` where `text` is no JSON document; else, for each of the two, the
/// text it holds, if the document is an object that has the field with a
/// string in it.
pub uninterp spec fn json_text_fields(text: Seq<char>, first: Seq<char>, second: Seq<char>)
    -> Option<(Option<Seq<char>>, Option<Seq<char>>)>;

/// The characters of a string that may be missing.
pub open spec fn text_view(text: Option<String>) -> Option<Seq<char>> {
    match text {
        Some(t) => Some(t@),
        None => None,
    }
}

/// Writes a JSON object of two text fields with `serde_json::Serializer`
/// (`serialize_map`, `serialize_entry` twice, `end`), the calls that serde
/// makes for a struct of two fields. Three things are claimed of it. It
/// succeeds: the serializer fails only where its writer fails, and a `Vec`
/// takes every write. The text is the compact form with `serde_json`'s
/// escapes. And reading the text back with `read_json_fields` finds both
/// fields with the values that were written, where the two names differ.
#[verifier::external_body]
fn write_json_object(first: &str, first_value: &str, second: &str, second_value: &str) -> (r:
    Result<String, serde_json::Error>)
    ensures
        r is Ok,
        r->Ok_0@ == json_object_text(first@, first_value@, second@, second_value@),
        first@ != second@ ==> json_text_fields(r->Ok_0@, first@, second@) == Some(
            (Some(first_value@), Some(second_value@)),
        ),
{
    let mut out = Vec::new();
    let mut json = serde_json::Serializer::new(&mut out);
    let mut fields = json.serialize_map(Some(2))?;
    fields.serialize_entry(first, first_value)?;
    fields.serialize_entry(second, second_value)?;
    fields.end()?;
    String::from_utf8(out).map_err(serde::ser::Error::custom)
}

/// Parses `text` with `serde_json::from_str` into a `serde_json::Value` and
/// looks the two fields up with `Value::get` and `Value::as_str`. An error
/// where `text` is no JSON document; a field that is missing, or holds no
/// string, comes back as `None`.
#[verifier::external_body]
fn read_json_fields(text: &str, first: &str, second: &str) -> (r: Result<
    (Option<String>, Option<String>),
    serde_json::Error,
>)
    ensures
        match r {
            Ok(found) => json_text_fields(text@, first@, second@) == Some(
                (text_view(found.0), text_view(found.1)),
            ),
            Err(_) => json_text_fields(text@, first@, second@) is None,
        },
{
    let value: serde_json::Value = serde_json::from_str(text)?;
    let first_value = value.get(first).and_then(serde_json::Value::as_str).map(String::from);
    let second_value = value.get(second).and_then(serde_json::Value::as_str).map(String::from);
    Ok((first_value, second_value))
}

impl MessageView {
    /// The stored text of the payload: a JSON object with the fields `topic`
    /// and `body`, in that order.
    pub open spec fn json_text(self) -> Seq<char> {
        json_object_text("topic"@, self.topic, "body"@, self.body)
    }

    /// The payload that `text` holds: the object's `topic` and `body`, where
    /// `text` is a JSON document that has both as strings.
    pub open spec fn of_json_text(text: Seq<char>) -> Option<MessageView> {
        match json_text_fields(text, "topic"@, "body"@) {
            Some((Some(topic), Some(body))) => Some(MessageView { topic, body }),
            _ => None,
        }
    }
}

/// `r` is the outcome of `Message::serialize` for `message`: the stored
/// text, which reads back as `message`. There is no payload that it fails
/// on.
pub open spec fn serialize_outcome(message: MessageView, r: Result<String, StoreError>) -> bool {
    &&& r is Ok
    &&& r->Ok_0@ == message.json_text()
    &&& MessageView::of_json_text(r->Ok_0@) == Some(message)
}

/// `r` is the outcome of `Message::deserialize` for `json`: the payload
/// that `json` holds, or `Serialization` where it holds none.
pub open spec fn deserialize_outcome(json: Seq<char>, r: Result<Message, StoreError>) -> bool {
    match r {
        Ok(message) => MessageView::of_json_text(json) == Some(message@),
        Err(e) => e == StoreError::Serialization && MessageView::of_json_text(json) is None,
    }
}

/// Round trip: the text that `serialize` gives for a payload is read by
/// `deserialize` as that payload.
pub proof fn lemma_payload_round_trip(
    message: MessageView,
    written: Result<String, StoreError>,
    read: Result<Message, StoreError>,
)
    requires
        serialize_outcome(message, written),
        deserialize_outcome(written->Ok_0@, read),
    ensures
        read is Ok,
        read->Ok_0@ == message,
{
}

impl Message {
    /// Reads a payload from its stored text. Fields other than `topic` and
    /// `body` are passed over.
    pub fn deserialize(json: &str) -> (r: Result<Self, StoreError>)
        ensures
            deserialize_outcome(json@, r),
    {
        match read_json_fields(json, "topic", "body") {
            Ok((topic, body)) => Message::from_fields(topic, body),
            Err(_) => Err(StoreError::Serialization),
        }
    }

    /// The payload with the two fields as they were found in a stored text.
    /// A payload needs both.
    pub fn from_fields(topic: Option<String>, body: Option<String>) -> (r: Result<
        Self,
        StoreError,
    >)
        ensures
            match r {
                Ok(message) => topic == Some(message.topic) && body == Some(message.body),
                Err(e) => e == StoreError::Serialization && (topic is None || body is None),
            },
    {
        match (topic, body) {
            (Some(topic), Some(body)) => Ok(Message { topic, body }),
            _ => Err(StoreError::Serialization),
        }
    }

    /// Writes the payload as its stored text, which it does for every
    /// payload. Reading that text back gives the payload again.
    pub fn serialize(&self) -> (r: Result<String, StoreError>)
        ensures
            serialize_outcome(self@, r),
    {
        proof {
            reveal_strlit("topic");
            reveal_strlit("body");
            assert("topic"@.len() != "body"@.len());
        }
        match write_json_object("topic", self.topic.as_str(), "body", self.body.as_str()) {
            Ok(text) => Ok(text),
            Err(_) => Err(StoreError::Serialization),
        }
    }
}

} // verus!
