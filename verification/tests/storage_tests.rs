//! Store behaviour: insertion, ordering, pagination, read-marking,
//! counting, and the lossy-skip decode policy.

use messenger_core::protocol::Message;
use messenger_core::protocol::MessageType;
use messenger_core::storage::DbMessage;
use messenger_core::storage::Storage;
use messenger_core::storage::StorageError;

fn msg(id: u128, sender: u128, receiver: u128, text: &str, at: i64) -> Message {
    Message {
        id,
        sender_id: sender,
        receiver_id: receiver,
        content: String::from(text),
        content_type: MessageType::Text,
        created_at: at,
        read_at: None,
    }
}

#[test]
fn save_and_read_back() {
    let mut st = Storage::new();
    assert_eq!(st.save_message(&msg(1, 10, 20, "hello", 100)), Ok(()));
    let out = st.get_user_messages(10, 50, 0);
    assert_eq!(out.len(), 1);
    assert_eq!(out[0].id, 1);
    assert_eq!(out[0].content, "hello");
    assert_eq!(out[0].content_type, MessageType::Text);
    assert_eq!(out[0].created_at, 100);
    assert_eq!(out[0].read_at, None);
}

#[test]
fn duplicate_id_is_refused_and_changes_nothing() {
    let mut st = Storage::new();
    assert_eq!(st.save_message(&msg(1, 10, 20, "first", 100)), Ok(()));
    assert_eq!(st.save_message(&msg(1, 11, 21, "second", 200)), Err(StorageError::DuplicateId));
    assert_eq!(st.row_count(), 1);
    let out = st.get_user_messages(10, 50, 0);
    assert_eq!(out.len(), 1);
    assert_eq!(out[0].content, "first");
}

#[test]
fn user_messages_cover_sent_and_received_newest_first() {
    let mut st = Storage::new();
    st.save_message(&msg(1, 10, 20, "oldest", 100)).unwrap();
    st.save_message(&msg(2, 20, 10, "middle", 200)).unwrap();
    st.save_message(&msg(3, 10, 30, "newest", 300)).unwrap();
    st.save_message(&msg(4, 40, 50, "unrelated", 400)).unwrap();
    let out = st.get_user_messages(10, 50, 0);
    assert_eq!(out.iter().map(|m| m.id).collect::<Vec<_>>(), vec![3, 2, 1]);
    assert_eq!(out[0].content, "newest");
}

#[test]
fn equal_timestamps_order_by_identifier() {
    let mut st = Storage::new();
    st.save_message(&msg(7, 1, 2, "b", 100)).unwrap();
    st.save_message(&msg(3, 1, 2, "a", 100)).unwrap();
    let out = st.get_user_messages(1, 50, 0);
    assert_eq!(out.iter().map(|m| m.id).collect::<Vec<_>>(), vec![3, 7]);
}

#[test]
fn limit_and_offset_slice_the_ordering() {
    let mut st = Storage::new();
    for i in 0..5u128 {
        st.save_message(&msg(i + 1, 1, 2, "m", 100 + i as i64)).unwrap();
    }
    // full ordering is 5,4,3,2,1
    let all = st.get_user_messages(1, 50, 0);
    assert_eq!(all.iter().map(|m| m.id).collect::<Vec<_>>(), vec![5, 4, 3, 2, 1]);
    let page = st.get_user_messages(1, 2, 1);
    assert_eq!(page.iter().map(|m| m.id).collect::<Vec<_>>(), vec![4, 3]);
    let past_end = st.get_user_messages(1, 10, 7);
    assert_eq!(past_end.len(), 0);
    let zero_limit = st.get_user_messages(1, 0, 0);
    assert_eq!(zero_limit.len(), 0);
}

#[test]
fn conversation_messages_are_restricted_to_the_pair() {
    let mut st = Storage::new();
    st.save_message(&msg(1, 10, 20, "a-to-b", 100)).unwrap();
    st.save_message(&msg(2, 20, 10, "b-to-a", 200)).unwrap();
    st.save_message(&msg(3, 10, 30, "a-to-c", 300)).unwrap();
    let out = st.get_conversation_messages(10, 20, 50, 0);
    assert_eq!(out.iter().map(|m| m.id).collect::<Vec<_>>(), vec![2, 1]);
}

#[test]
fn undecodable_content_kind_is_skipped_not_fatal() {
    let mut st = Storage::new();
    st.save_message(&msg(1, 10, 20, "fine", 100)).unwrap();
    // a row as some other writer could have left it: unknown kind tag
    let alien = DbMessage {
        id: 2,
        sender_id: 10,
        receiver_id: 20,
        content: String::from("mystery"),
        content_type: String::from("\"Hologram\""),
        created_at: 200,
        read_at: None,
    };
    assert_eq!(st.insert_row(alien), Ok(()));
    let out = st.get_user_messages(10, 50, 0);
    assert_eq!(out.iter().map(|m| m.id).collect::<Vec<_>>(), vec![1]);
    // the raw row still exists and still counts as unread
    assert_eq!(st.row_count(), 2);
    assert_eq!(st.get_unread_messages_count(20), 2);
}

#[test]
fn mark_messages_as_read_sets_only_listed_owned_unread_rows() {
    let mut st = Storage::new();
    st.save_message(&msg(1, 10, 20, "m1", 100)).unwrap();
    st.save_message(&msg(2, 10, 20, "m2", 200)).unwrap();
    st.save_message(&msg(3, 10, 30, "other receiver", 300)).unwrap();
    st.save_message(&msg(4, 10, 20, "not listed", 400)).unwrap();
    st.mark_messages_as_read_at(&vec![1, 2, 3], 20, 500);
    let out = st.get_user_messages(20, 50, 0);
    // ids newest first: 4, 2, 1
    assert_eq!(out.iter().map(|m| m.id).collect::<Vec<_>>(), vec![4, 2, 1]);
    assert_eq!(out[0].read_at, None); // not listed
    assert_eq!(out[1].read_at, Some(500));
    assert_eq!(out[2].read_at, Some(500));
    // id 3 belongs to user 30, not to the marking receiver
    let other = st.get_user_messages(30, 50, 0);
    assert_eq!(other[0].read_at, None);
}

#[test]
fn mark_is_idempotent_and_keeps_the_first_timestamp() {
    let mut st = Storage::new();
    st.save_message(&msg(1, 10, 20, "m1", 100)).unwrap();
    st.save_message(&msg(2, 10, 20, "m2", 200)).unwrap();
    st.mark_messages_as_read_at(&vec![1, 2], 20, 500);
    let first = st.get_user_messages(20, 50, 0);
    st.mark_messages_as_read_at(&vec![1, 2], 20, 999);
    let second = st.get_user_messages(20, 50, 0);
    assert_eq!(first, second);
    assert_eq!(second[0].read_at, Some(500));
    assert_eq!(second[1].read_at, Some(500));
}

#[test]
fn unread_count_drops_by_exactly_the_marked_unread_ids() {
    let mut st = Storage::new();
    st.save_message(&msg(1, 10, 20, "m1", 100)).unwrap();
    st.save_message(&msg(2, 10, 20, "m2", 200)).unwrap();
    st.save_message(&msg(3, 10, 20, "m3", 300)).unwrap();
    assert_eq!(st.get_unread_messages_count(20), 3);
    // 1 is marked; 9 does not exist; 1 again later is already read
    st.mark_messages_as_read_at(&vec![1, 9], 20, 500);
    assert_eq!(st.get_unread_messages_count(20), 2);
    st.mark_messages_as_read_at(&vec![1, 2], 20, 600);
    assert_eq!(st.get_unread_messages_count(20), 1);
    assert_eq!(st.get_unread_messages_count(10), 0);
}

#[test]
fn clock_based_mark_marks_the_same_rows() {
    let mut st = Storage::new();
    st.save_message(&msg(1, 10, 20, "m1", 100)).unwrap();
    st.mark_messages_as_read(&vec![1], 20);
    let out = st.get_user_messages(20, 50, 0);
    assert!(out[0].read_at.is_some());
    assert_eq!(st.get_unread_messages_count(20), 0);
}

#[test]
fn conversation_pagination_slices_the_same_ordering() {
    let mut st = Storage::new();
    for i in 0..4u128 {
        let (s, r) = if i % 2 == 0 { (1, 2) } else { (2, 1) };
        st.save_message(&msg(i + 1, s, r, "m", 100 + i as i64)).unwrap();
    }
    let all = st.get_conversation_messages(1, 2, 50, 0);
    assert_eq!(all.iter().map(|m| m.id).collect::<Vec<_>>(), vec![4, 3, 2, 1]);
    let page = st.get_conversation_messages(1, 2, 2, 1);
    assert_eq!(page.iter().map(|m| m.id).collect::<Vec<_>>(), vec![3, 2]);
}
