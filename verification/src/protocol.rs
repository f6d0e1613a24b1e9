//! The two tagged-union envelopes exchanged over a connection — inbound
//! commands and outbound events — together with the message record and its
//! closed set of content kinds.
//!
//! Identities are carried as 128-bit values; timestamps as milliseconds since
//! the Unix epoch. Each type has a spec-level view (`@`) over which every
//! contract in the crate is stated.

use vstd::prelude::*;

verus! {

/// Faults a connection task can die of.
#[derive(Debug, PartialEq, Eq)]
pub enum WebSocketError {
    ConnectionError,
    MessageSendError,
}

/// The closed set of content kinds a message can carry. Unknown kinds are
/// rejected at every decode boundary, never defaulted.
#[derive(Debug, PartialEq, Eq)]
pub enum MessageType {
    Text,
    File { filename: String, size: usize },
    Voice { duration: u32 },
    Video { duration: u32 },
}

/// Spec-level image of [`MessageType`].
pub enum MessageTypeView {
    Text,
    File { filename: Seq<char>, size: usize },
    Voice { duration: u32 },
    Video { duration: u32 },
}

impl View for MessageType {
    type V = MessageTypeView;

    open spec fn view(&self) -> MessageTypeView {
        match self {
            MessageType::Text => MessageTypeView::Text,
            MessageType::File { filename, size } => MessageTypeView::File {
                filename: filename@,
                size: *size,
            },
            MessageType::Voice { duration } => MessageTypeView::Voice { duration: *duration },
            MessageType::Video { duration } => MessageTypeView::Video { duration: *duration },
        }
    }
}

/// One message: sender, receiver, text content, content kind, the
/// server-assigned creation timestamp, and the optional read timestamp
/// (unset at creation, set at most once, never cleared).
#[derive(Debug, PartialEq, Eq)]
pub struct Message {
    pub id: u128,
    pub sender_id: u128,
    pub receiver_id: u128,
    pub content: String,
    pub content_type: MessageType,
    pub created_at: i64,
    pub read_at: Option<i64>,
}

/// Spec-level image of [`Message`].
pub struct MessageView {
    pub id: u128,
    pub sender_id: u128,
    pub receiver_id: u128,
    pub content: Seq<char>,
    pub content_type: MessageTypeView,
    pub created_at: i64,
    pub read_at: Option<i64>,
}

impl View for Message {
    type V = MessageView;

    open spec fn view(&self) -> MessageView {
        MessageView {
            id: self.id,
            sender_id: self.sender_id,
            receiver_id: self.receiver_id,
            content: self.content@,
            content_type: self.content_type@,
            created_at: self.created_at,
            read_at: self.read_at,
        }
    }
}

/// Client-to-core instruction, one per inbound text frame.
#[derive(Debug, PartialEq, Eq)]
pub enum WebSocketCommand {
    SendMessage { content: String, receiver_id: u128 },
    MarkAsRead { message_ids: Vec<u128> },
    Typing { receiver_id: u128 },
}

/// Spec-level image of [`WebSocketCommand`].
pub enum CommandView {
    SendMessage { content: Seq<char>, receiver_id: u128 },
    MarkAsRead { message_ids: Seq<u128> },
    Typing { receiver_id: u128 },
}

impl View for WebSocketCommand {
    type V = CommandView;

    open spec fn view(&self) -> CommandView {
        match self {
            WebSocketCommand::SendMessage { content, receiver_id } => CommandView::SendMessage {
                content: content@,
                receiver_id: *receiver_id,
            },
            WebSocketCommand::MarkAsRead { message_ids } => CommandView::MarkAsRead {
                message_ids: message_ids@,
            },
            WebSocketCommand::Typing { receiver_id } => CommandView::Typing {
                receiver_id: *receiver_id,
            },
        }
    }
}

/// Core-to-client notification, one per outbound text frame.
#[derive(Debug, PartialEq, Eq)]
pub enum WebSocketEvent {
    MessageReceived(Message),
    MessageRead { message_ids: Vec<u128>, user_id: u128 },
    UserTyping { user_id: u128 },
    UserOnline(u128),
    UserOffline(u128),
}

/// Spec-level image of [`WebSocketEvent`].
pub enum EventView {
    MessageReceived(MessageView),
    MessageRead { message_ids: Seq<u128>, user_id: u128 },
    UserTyping { user_id: u128 },
    UserOnline(u128),
    UserOffline(u128),
}

impl View for WebSocketEvent {
    type V = EventView;

    open spec fn view(&self) -> EventView {
        match self {
            WebSocketEvent::MessageReceived(m) => EventView::MessageReceived(m@),
            WebSocketEvent::MessageRead { message_ids, user_id } => EventView::MessageRead {
                message_ids: message_ids@,
                user_id: *user_id,
            },
            WebSocketEvent::UserTyping { user_id } => EventView::UserTyping { user_id: *user_id },
            WebSocketEvent::UserOnline(u) => EventView::UserOnline(*u),
            WebSocketEvent::UserOffline(u) => EventView::UserOffline(*u),
        }
    }
}

} // verus!
