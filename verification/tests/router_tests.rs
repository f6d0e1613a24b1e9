//! End-to-end scenarios through the command router: delivery, presence,
//! read receipts, and the silent-drop boundary.

use messenger_core::protocol::MessageType;
use messenger_core::protocol::WebSocketCommand;
use messenger_core::protocol::WebSocketEvent;
use messenger_core::router::WebSocketHandler;
use messenger_core::storage::Storage;

const A: u128 = 0xa;
const B: u128 = 0xb;
const C: u128 = 0xc;

fn handler() -> WebSocketHandler {
    WebSocketHandler::new(Storage::new())
}

fn send(h: &mut WebSocketHandler, from: u128, to: u128, text: &str, id: u128, at: i64) {
    h.handle_command_at(
        from,
        WebSocketCommand::SendMessage { content: String::from(text), receiver_id: to },
        id,
        at,
    );
}

#[test]
fn send_between_connected_users_delivers_once_and_persists() {
    let mut h = handler();
    h.connect(A);
    h.connect(B);
    h.drain_events(A); // clear presence noise
    send(&mut h, A, B, "hi", 1, 100);
    let got = h.drain_events(B);
    assert_eq!(got.len(), 1);
    match &got[0] {
        WebSocketEvent::MessageReceived(m) => {
            assert_eq!(m.content, "hi");
            assert_eq!(m.sender_id, A);
            assert_eq!(m.receiver_id, B);
            assert_eq!(m.content_type, MessageType::Text);
            assert_eq!(m.read_at, None);
        },
        other => panic!("expected MessageReceived, got {:?}", other),
    }
    // exactly one row (A, B, "hi") in the store
    let rows = h.storage.get_conversation_messages(A, B, 50, 0);
    assert_eq!(rows.len(), 1);
    assert_eq!(rows[0].content, "hi");
    assert_eq!(rows[0].sender_id, A);
    // nothing further queued anywhere
    assert_eq!(h.drain_events(A).len(), 0);
    assert_eq!(h.drain_events(B).len(), 0);
}

#[test]
fn send_to_unregistered_receiver_persists_without_any_event() {
    let mut h = handler();
    h.connect(A);
    send(&mut h, A, B, "hi", 1, 100);
    assert_eq!(h.drain_events(A).len(), 0);
    assert_eq!(h.drain_events(B).len(), 0); // B has no queue at all
    assert_eq!(h.storage.row_count(), 1);
    let rows = h.storage.get_user_messages(B, 50, 0);
    assert_eq!(rows.len(), 1);
    assert_eq!(rows[0].content, "hi");
}

#[test]
fn duplicate_identifier_drops_the_command_silently() {
    let mut h = handler();
    h.connect(B);
    send(&mut h, A, B, "first", 1, 100);
    h.drain_events(B);
    // the same identifier again: the persistence-fault path
    send(&mut h, A, B, "second", 1, 200);
    assert_eq!(h.drain_events(B).len(), 0);
    assert_eq!(h.storage.row_count(), 1);
    let rows = h.storage.get_user_messages(B, 50, 0);
    assert_eq!(rows[0].content, "first");
}

#[test]
fn connect_announces_to_others_only() {
    let mut h = handler();
    h.connect(A);
    assert_eq!(h.drain_events(A).len(), 0);
    h.connect(B);
    assert_eq!(h.drain_events(A), vec![WebSocketEvent::UserOnline(B)]);
    assert_eq!(h.drain_events(B).len(), 0);
}

#[test]
fn disconnect_announces_offline_to_each_other_user_once() {
    let mut h = handler();
    h.connect(A);
    h.connect(B);
    h.connect(C);
    h.drain_events(A);
    h.drain_events(B);
    h.drain_events(C);
    h.disconnect(A);
    assert!(!h.registry.is_registered(A));
    assert_eq!(h.drain_events(B), vec![WebSocketEvent::UserOffline(A)]);
    assert_eq!(h.drain_events(C), vec![WebSocketEvent::UserOffline(A)]);
    // A's queue is gone; draining it yields nothing
    assert_eq!(h.drain_events(A).len(), 0);
}

#[test]
fn disconnect_keeps_persisted_messages_retrievable() {
    let mut h = handler();
    h.connect(A);
    h.connect(B);
    send(&mut h, A, B, "kept", 1, 100);
    h.disconnect(B);
    assert!(!h.registry.is_registered(B));
    let rows = h.storage.get_user_messages(B, 50, 0);
    assert_eq!(rows.len(), 1);
    assert_eq!(rows[0].content, "kept");
}

#[test]
fn reconnect_replaces_the_mapping_and_discards_the_old_queue() {
    let mut h = handler();
    h.connect(A);
    h.connect(B);
    send(&mut h, A, B, "queued", 1, 100);
    // B reconnects before draining: the superseded queue is discarded
    h.connect(B);
    assert_eq!(h.drain_events(B).len(), 0);
    // the message is still durably stored
    assert_eq!(h.storage.get_user_messages(B, 50, 0).len(), 1);
}

#[test]
fn typing_reaches_only_the_receiver() {
    let mut h = handler();
    h.connect(A);
    h.connect(B);
    h.connect(C);
    h.drain_events(A);
    h.drain_events(B);
    h.drain_events(C);
    h.handle_command_at(A, WebSocketCommand::Typing { receiver_id: B }, 0, 0);
    assert_eq!(h.drain_events(B), vec![WebSocketEvent::UserTyping { user_id: A }]);
    assert_eq!(h.drain_events(A).len(), 0);
    assert_eq!(h.drain_events(C).len(), 0);
}

#[test]
fn mark_as_read_marks_rows_and_notifies_the_original_sender() {
    let mut h = handler();
    h.connect(A);
    h.connect(B);
    send(&mut h, A, B, "m1", 1, 100);
    send(&mut h, A, B, "m2", 2, 200);
    h.drain_events(A);
    h.drain_events(B);
    assert_eq!(h.storage.get_unread_messages_count(B), 2);
    h.handle_command_at(B, WebSocketCommand::MarkAsRead { message_ids: vec![1, 2] }, 0, 300);
    // both rows show a read timestamp; the unread count drops by 2
    let rows = h.storage.get_user_messages(B, 50, 0);
    assert_eq!(rows[0].read_at, Some(300));
    assert_eq!(rows[1].read_at, Some(300));
    assert_eq!(h.storage.get_unread_messages_count(B), 0);
    // the original sender learns the reader has read them
    assert_eq!(
        h.drain_events(A),
        vec![WebSocketEvent::MessageRead { message_ids: vec![1, 2], user_id: B }]
    );
    assert_eq!(h.drain_events(B).len(), 0);
}

#[test]
fn mark_as_read_twice_changes_nothing_the_second_time() {
    let mut h = handler();
    h.connect(B);
    send(&mut h, A, B, "m1", 1, 100);
    h.drain_events(B);
    h.handle_command_at(B, WebSocketCommand::MarkAsRead { message_ids: vec![1] }, 0, 300);
    let first = h.storage.get_user_messages(B, 50, 0);
    h.handle_command_at(B, WebSocketCommand::MarkAsRead { message_ids: vec![1] }, 0, 900);
    let second = h.storage.get_user_messages(B, 50, 0);
    assert_eq!(first, second);
    assert_eq!(second[0].read_at, Some(300));
}

#[test]
fn handle_frame_executes_wellformed_frames() {
    let mut h = handler();
    h.connect(A);
    h.connect(B);
    h.drain_events(A);
    let frame = "{\"SendMessage\":{\"content\":\"over the wire\",\"receiver_id\":\"0000000000000000000000000000000b\"}}";
    h.handle_frame(A, frame);
    let got = h.drain_events(B);
    assert_eq!(got.len(), 1);
    match &got[0] {
        WebSocketEvent::MessageReceived(m) => {
            assert_eq!(m.content, "over the wire");
            assert_eq!(m.sender_id, A);
        },
        other => panic!("expected MessageReceived, got {:?}", other),
    }
    assert_eq!(h.storage.row_count(), 1);
}

#[test]
fn handle_frame_drops_undecodable_frames_silently() {
    let mut h = handler();
    h.connect(A);
    h.connect(B);
    h.drain_events(A);
    h.drain_events(B);
    h.handle_frame(A, "not a frame");
    h.handle_frame(A, "{\"SendMessage\":{\"content\":\"hi\"}}");
    h.handle_frame(A, "{\"Shout\":{\"receiver_id\":\"0000000000000000000000000000000b\"}}");
    assert_eq!(h.storage.row_count(), 0);
    assert_eq!(h.drain_events(A).len(), 0);
    assert_eq!(h.drain_events(B).len(), 0);
    assert!(h.registry.is_registered(A)); // the connection stays open
}

#[test]
fn handle_command_draws_identifier_and_clock() {
    let mut h = handler();
    h.connect(B);
    h.handle_command(
        A,
        WebSocketCommand::SendMessage { content: String::from("drawn"), receiver_id: B },
    );
    let got = h.drain_events(B);
    assert_eq!(got.len(), 1);
    match &got[0] {
        WebSocketEvent::MessageReceived(m) => {
            assert_eq!(m.content, "drawn");
            let rows = h.storage.get_user_messages(B, 50, 0);
            assert_eq!(rows.len(), 1);
            assert_eq!(rows[0].id, m.id);
        },
        other => panic!("expected MessageReceived, got {:?}", other),
    }
}

#[test]
fn queued_events_come_out_in_arrival_order() {
    let mut h = handler();
    h.connect(B);
    send(&mut h, A, B, "first", 1, 100);
    send(&mut h, A, B, "second", 2, 200);
    let got = h.drain_events(B);
    assert_eq!(got.len(), 2);
    match (&got[0], &got[1]) {
        (WebSocketEvent::MessageReceived(m1), WebSocketEvent::MessageReceived(m2)) => {
            assert_eq!(m1.content, "first");
            assert_eq!(m2.content, "second");
        },
        other => panic!("expected two MessageReceived events, got {:?}", other),
    }
}

#[test]
fn mark_as_read_with_no_matching_message_notifies_nobody() {
    let mut h = handler();
    h.connect(A);
    h.connect(B);
    h.drain_events(A);
    h.handle_command_at(B, WebSocketCommand::MarkAsRead { message_ids: vec![] }, 0, 100);
    h.handle_command_at(B, WebSocketCommand::MarkAsRead { message_ids: vec![99] }, 0, 100);
    assert_eq!(h.drain_events(A).len(), 0);
    assert_eq!(h.drain_events(B).len(), 0);
}

#[test]
fn send_to_self_is_delivered_and_persisted_once() {
    let mut h = handler();
    h.connect(A);
    send(&mut h, A, A, "note to self", 1, 100);
    let got = h.drain_events(A);
    assert_eq!(got.len(), 1);
    assert_eq!(h.storage.row_count(), 1);
    assert_eq!(h.storage.get_unread_messages_count(A), 1);
}
