//! Frame encoding and decoding against literal expected documents.

use messenger_core::protocol::Message;
use messenger_core::protocol::MessageType;
use messenger_core::protocol::WebSocketCommand;
use messenger_core::protocol::WebSocketEvent;
use messenger_core::wire::encode_event;
use messenger_core::wire::encode_message_type;
use messenger_core::wire::parse_command;
use messenger_core::wire::parse_message_type;

#[test]
fn encode_user_online_event() {
    let s = encode_event(&WebSocketEvent::UserOnline(5));
    assert_eq!(s, "{\"UserOnline\":\"00000000000000000000000000000005\"}");
}

#[test]
fn encode_user_offline_event() {
    let s = encode_event(&WebSocketEvent::UserOffline(0xabcdef));
    assert_eq!(s, "{\"UserOffline\":\"00000000000000000000000000abcdef\"}");
}

#[test]
fn encode_user_typing_event() {
    let s = encode_event(&WebSocketEvent::UserTyping { user_id: 7 });
    assert_eq!(s, "{\"UserTyping\":{\"user_id\":\"00000000000000000000000000000007\"}}");
}

#[test]
fn encode_message_read_event() {
    let s = encode_event(&WebSocketEvent::MessageRead { message_ids: vec![1, 2], user_id: 3 });
    assert_eq!(
        s,
        "{\"MessageRead\":{\"message_ids\":[\"00000000000000000000000000000001\",\"00000000000000000000000000000002\"],\"user_id\":\"00000000000000000000000000000003\"}}"
    );
}

#[test]
fn encode_message_received_event() {
    let m = Message {
        id: 1,
        sender_id: 2,
        receiver_id: 3,
        content: String::from("hi"),
        content_type: MessageType::Text,
        created_at: 1700000000000,
        read_at: None,
    };
    let s = encode_event(&WebSocketEvent::MessageReceived(m));
    assert_eq!(
        s,
        "{\"MessageReceived\":{\"id\":\"00000000000000000000000000000001\",\"sender_id\":\"00000000000000000000000000000002\",\"receiver_id\":\"00000000000000000000000000000003\",\"content\":\"hi\",\"content_type\":\"Text\",\"created_at\":1700000000000,\"read_at\":null}}"
    );
}

#[test]
fn encode_message_with_escapes_read_at_and_negative_time() {
    let m = Message {
        id: 0,
        sender_id: 0,
        receiver_id: 0,
        content: String::from("a\"b\\c\nd"),
        content_type: MessageType::Voice { duration: 30 },
        created_at: -5,
        read_at: Some(1700000000001),
    };
    let s = encode_event(&WebSocketEvent::MessageReceived(m));
    assert_eq!(
        s,
        "{\"MessageReceived\":{\"id\":\"00000000000000000000000000000000\",\"sender_id\":\"00000000000000000000000000000000\",\"receiver_id\":\"00000000000000000000000000000000\",\"content\":\"a\\\"b\\\\c\\u000ad\",\"content_type\":{\"Voice\":{\"duration\":30}},\"created_at\":-5,\"read_at\":1700000000001}}"
    );
}

#[test]
fn encoded_events_are_valid_json() {
    let m = Message {
        id: 9,
        sender_id: 8,
        receiver_id: 7,
        content: String::from("tab\there \"quoted\""),
        content_type: MessageType::File { filename: String::from("a.txt"), size: 42 },
        created_at: 123,
        read_at: None,
    };
    let s = encode_event(&WebSocketEvent::MessageReceived(m));
    let v: serde_json::Value = serde_json::from_str(&s).expect("frame must be valid JSON");
    assert_eq!(v["MessageReceived"]["content"].as_str(), Some("tab\there \"quoted\""));
    assert_eq!(v["MessageReceived"]["content_type"]["File"]["size"].as_u64(), Some(42));
    assert_eq!(v["MessageReceived"]["read_at"], serde_json::Value::Null);
}

#[test]
fn message_type_round_trips() {
    let kinds = vec![
        MessageType::Text,
        MessageType::File { filename: String::from("report \"final\".pdf"), size: 10_000 },
        MessageType::Voice { duration: 0 },
        MessageType::Video { duration: 3600 },
    ];
    for mt in kinds {
        let s = encode_message_type(&mt);
        assert_eq!(parse_message_type(&s), Some(mt));
    }
}

#[test]
fn message_type_text_form() {
    assert_eq!(encode_message_type(&MessageType::Text), "\"Text\"");
    assert_eq!(
        encode_message_type(&MessageType::File { filename: String::from("a.txt"), size: 123 }),
        "{\"File\":{\"filename\":\"a.txt\",\"size\":123}}"
    );
}

#[test]
fn message_type_rejects_unknown_and_malformed() {
    assert_eq!(parse_message_type("\"Sticker\""), None);
    assert_eq!(parse_message_type("Text"), None);
    assert_eq!(parse_message_type("\"Text\" "), None);
    assert_eq!(parse_message_type("{\"File\":{\"filename\":\"x\"}}"), None);
    assert_eq!(parse_message_type("{\"Voice\":{\"duration\":007}}"), None);
    assert_eq!(parse_message_type("{\"Voice\":{\"duration\":-3}}"), None);
    assert_eq!(parse_message_type("{\"Voice\":{\"duration\":4294967296}}"), None);
    assert_eq!(parse_message_type(""), None);
}

#[test]
fn parse_send_message_command() {
    let frame = "{\"SendMessage\":{\"content\":\"hi\",\"receiver_id\":\"00000000000000000000000000000003\"}}";
    assert_eq!(
        parse_command(frame),
        Some(WebSocketCommand::SendMessage { content: String::from("hi"), receiver_id: 3 })
    );
}

#[test]
fn parse_send_message_with_escaped_content() {
    let frame = "{\"SendMessage\":{\"content\":\"say \\\"hi\\\"\\u0009now\",\"receiver_id\":\"000000000000000000000000deadbeef\"}}";
    assert_eq!(
        parse_command(frame),
        Some(WebSocketCommand::SendMessage {
            content: String::from("say \"hi\"\tnow"),
            receiver_id: 0xdeadbeef,
        })
    );
}

#[test]
fn parse_mark_as_read_command() {
    let frame = "{\"MarkAsRead\":{\"message_ids\":[\"00000000000000000000000000000001\",\"000000000000000000000000000000ff\"]}}";
    assert_eq!(
        parse_command(frame),
        Some(WebSocketCommand::MarkAsRead { message_ids: vec![1, 0xff] })
    );
}

#[test]
fn parse_mark_as_read_empty_list() {
    let frame = "{\"MarkAsRead\":{\"message_ids\":[]}}";
    assert_eq!(parse_command(frame), Some(WebSocketCommand::MarkAsRead { message_ids: vec![] }));
}

#[test]
fn parse_typing_command() {
    let frame = "{\"Typing\":{\"receiver_id\":\"000000000000000000000000000000ab\"}}";
    assert_eq!(parse_command(frame), Some(WebSocketCommand::Typing { receiver_id: 0xab }));
}

#[test]
fn parse_rejects_malformed_frames() {
    // unknown tag
    assert_eq!(parse_command("{\"Shout\":{\"receiver_id\":\"00000000000000000000000000000001\"}}"), None);
    // whitespace is not canonical
    assert_eq!(
        parse_command("{\"Typing\": {\"receiver_id\":\"000000000000000000000000000000ab\"}}"),
        None
    );
    // uppercase hex digits are not canonical
    assert_eq!(parse_command("{\"Typing\":{\"receiver_id\":\"000000000000000000000000000000AB\"}}"), None);
    // identifier too short
    assert_eq!(parse_command("{\"Typing\":{\"receiver_id\":\"ab\"}}"), None);
    // trailing bytes after the document
    assert_eq!(
        parse_command("{\"Typing\":{\"receiver_id\":\"000000000000000000000000000000ab\"}}x"),
        None
    );
    // truncated
    assert_eq!(parse_command("{\"SendMessage\":{\"content\":\"hi"), None);
    // bad escape
    assert_eq!(
        parse_command("{\"SendMessage\":{\"content\":\"\\q\",\"receiver_id\":\"00000000000000000000000000000003\"}}"),
        None
    );
    // non-control \u escape is not canonical
    assert_eq!(
        parse_command("{\"SendMessage\":{\"content\":\"\\u0041\",\"receiver_id\":\"00000000000000000000000000000003\"}}"),
        None
    );
    // raw control character in a string
    assert_eq!(
        parse_command("{\"SendMessage\":{\"content\":\"a\nb\",\"receiver_id\":\"00000000000000000000000000000003\"}}"),
        None
    );
    // not JSON at all
    assert_eq!(parse_command(""), None);
    assert_eq!(parse_command("hello"), None);
}
