use delay_store::delay_queue::delay_message::DelayMessage;
use delay_store::error::StoreError;
use delay_store::topic_queue::topic_message::{Message, TopicMessage};

fn message(topic: &str, body: &str) -> Message {
    Message { topic: topic.to_string(), body: body.to_string() }
}

#[test]
fn serialize_writes_topic_then_body() {
    let text = message("hello", "world").serialize().unwrap();
    assert_eq!(text, "{\"topic\":\"hello\",\"body\":\"world\"}");
}

#[test]
fn serialize_escapes_quotes_and_control_characters() {
    let text = message("a\"b", "line\nbreak\\").serialize().unwrap();
    assert_eq!(text, "{\"topic\":\"a\\\"b\",\"body\":\"line\\nbreak\\\\\"}");
}

#[test]
fn deserialize_reads_both_fields() {
    let m = Message::deserialize("{\"topic\":\"hello\",\"body\":\"world\"}").unwrap();
    assert_eq!(m.topic, "hello");
    assert_eq!(m.body, "world");
}

#[test]
fn deserialize_takes_fields_in_any_order_and_passes_over_others() {
    let m = Message::deserialize("{ \"body\": \"b\", \"extra\": 7, \"topic\": \"t\" }").unwrap();
    assert_eq!(m.topic, "t");
    assert_eq!(m.body, "b");
}

#[test]
fn deserialize_rejects_what_is_no_payload() {
    assert_eq!(Message::deserialize("not json").unwrap_err(), StoreError::Serialization);
    assert_eq!(Message::deserialize("{\"topic\":\"t\"}").unwrap_err(), StoreError::Serialization);
    assert_eq!(
        Message::deserialize("{\"topic\":\"t\",\"body\":3}").unwrap_err(),
        StoreError::Serialization
    );
    assert_eq!(Message::deserialize("[\"t\",\"b\"]").unwrap_err(), StoreError::Serialization);
    assert_eq!(Message::deserialize("").unwrap_err(), StoreError::Serialization);
}

#[test]
fn payload_round_trip() {
    let cases = [
        ("hello", "world"),
        ("", ""),
        ("tab\there", "quote\" backslash\\ slash/"),
        ("\u{0}\u{1f}\u{7f}", "\u{e9}\u{4e2d}\u{6587}\u{1f600}"),
        ("{\"topic\":\"x\"}", "body:with:colons"),
    ];
    for (topic, body) in cases {
        let m = message(topic, body);
        let back = Message::deserialize(&m.serialize().unwrap()).unwrap();
        assert_eq!(back.topic, topic);
        assert_eq!(back.body, body);
    }
}

#[test]
fn topic_message_new_keeps_its_arguments() {
    let tm = TopicMessage::new(1681825478, message("hello", "world"));
    assert_eq!(tm.delay_timestamp, 1681825478);
    assert_eq!(tm.message.topic, "hello");
    assert_eq!(tm.message.body, "world");
}

#[test]
fn delay_message_new_keeps_its_arguments() {
    let dm = DelayMessage::new(message("hello", "world"), -10);
    assert_eq!(dm.delay_time, -10);
    assert_eq!(dm.message.topic, "hello");
    assert_eq!(dm.message.body, "world");
}

#[test]
fn from_fields_needs_both() {
    let m = Message::from_fields(Some("t".to_string()), Some("b".to_string())).unwrap();
    assert_eq!(m.topic, "t");
    assert_eq!(m.body, "b");
    let topic = Some("t".to_string());
    let body = Some("b".to_string());
    assert_eq!(Message::from_fields(None, body).unwrap_err(), StoreError::Serialization);
    assert_eq!(Message::from_fields(topic, None).unwrap_err(), StoreError::Serialization);
    assert_eq!(Message::from_fields(None, None).unwrap_err(), StoreError::Serialization);
}

#[test]
fn serialize_escapes_each_character_as_json_does() {
    let mut codes: Vec<u32> = (0u32..=0x80).collect();
    codes.extend([0xe9, 0x7ff, 0x800, 0x2028, 0xffff, 0x10000, 0x1f600, 0x10ffff]);
    for code in codes {
        let c = char::from_u32(code).unwrap();
        let escaped = match c {
            '"' => "\\\"".to_string(),
            '\\' => "\\\\".to_string(),
            '\u{8}' => "\\b".to_string(),
            '\t' => "\\t".to_string(),
            '\n' => "\\n".to_string(),
            '\u{c}' => "\\f".to_string(),
            '\r' => "\\r".to_string(),
            _ if code < 0x20 => format!("\\u00{:02x}", code),
            _ => c.to_string(),
        };
        let text = message(&format!("a{}", c), &format!("{}{}z", c, c)).serialize().unwrap();
        let expected =
            format!("{{\"topic\":\"a{}\",\"body\":\"{}{}z\"}}", escaped, escaped, escaped);
        assert_eq!(text, expected, "U+{:04X}", code);
    }
}

#[test]
fn serialize_succeeds_for_every_payload_tried() {
    let long = "x".repeat(100_000);
    let cases = [("", ""), ("\u{0}", "\u{10ffff}"), (long.as_str(), long.as_str())];
    for (topic, body) in cases {
        let m = message(topic, body);
        let back = Message::deserialize(&m.serialize().unwrap()).unwrap();
        assert_eq!(back.topic, topic);
        assert_eq!(back.body, body);
    }
}
