//! The per-connection command router and presence broadcaster.
//!
//! One handler owns the registry and the store; the surrounding process
//! serializes all calls into it, one per inbound frame or connection event,
//! so each method here is one atomic step of the core. Every step is
//! described exactly by a spec-level transition over the handler's state
//! view, and the handler maintains the core's central invariant: a receiver
//! never observes a `MessageReceived` event for a message that is not
//! durably stored (persist-then-notify).

use vstd::prelude::*;

use crate::protocol::CommandView;
use crate::protocol::EventView;
use crate::protocol::Message;
use crate::protocol::MessageType;
use crate::protocol::MessageTypeView;
use crate::protocol::MessageView;
use crate::protocol::WebSocketCommand;
use crate::protocol::WebSocketEvent;
use crate::registry::Registry;
use crate::registry::status_event;
use crate::storage::RowView;
use crate::storage::Storage;
use crate::storage::has_id;
use crate::storage::mark_rows;
use crate::storage::row_of;
use crate::sys::fresh_uuid;
use crate::sys::now_millis;
use crate::wire::mt_frame;
use crate::wire::parse_command;
use crate::wire::sp_command;

verus! {

/// The whole shared state of the core, as one spec value: the stored rows
/// and the per-identity queues of undelivered events.
pub struct StateView {
    pub rows: Seq<RowView>,
    pub reg: Map<u128, Seq<EventView>>,
}

/// A message the store durably holds: a row carrying exactly these fields,
/// whatever its read timestamp has since become.
pub open spec fn recorded(rows: Seq<RowView>, m: MessageView) -> bool {
    exists|i: int|
        0 <= i < rows.len() && {
            let r = #[trigger] rows[i];
            r.id == m.id && r.sender_id == m.sender_id && r.receiver_id == m.receiver_id
                && r.content == m.content && r.content_type == mt_frame(m.content_type)
                && r.created_at == m.created_at
        }
}

/// Whether one queued event is justified by the store: a `MessageReceived`
/// must carry a recorded message; every other event stands on its own.
pub open spec fn event_ok(rows: Seq<RowView>, e: EventView) -> bool {
    match e {
        EventView::MessageReceived(m) => recorded(rows, m),
        _ => true,
    }
}

/// The persist-then-notify invariant over all queues.
pub open spec fn queues_ok(rows: Seq<RowView>, reg: Map<u128, Seq<EventView>>) -> bool {
    forall|u: u128, k: int|
        #![trigger reg[u][k]]
        reg.contains_key(u) && 0 <= k < reg[u].len() ==> event_ok(rows, reg[u][k])
}

/// Growing the store keeps every recorded message recorded.
proof fn lemma_recorded_push(rows: Seq<RowView>, r: RowView, m: MessageView)
    requires
        recorded(rows, m),
    ensures
        recorded(rows.push(r), m),
{
    let i = choose|i: int|
        0 <= i < rows.len() && {
            let rr = #[trigger] rows[i];
            rr.id == m.id && rr.sender_id == m.sender_id && rr.receiver_id == m.receiver_id
                && rr.content == m.content && rr.content_type == mt_frame(m.content_type)
                && rr.created_at == m.created_at
        };
    assert(rows.push(r)[i] == rows[i]);
}

/// Marking reads keeps every recorded message recorded: only the read
/// timestamp moves, and `recorded` does not speak of it.
proof fn lemma_recorded_mark(
    rows: Seq<RowView>,
    ids: Seq<u128>,
    receiver_id: u128,
    now: i64,
    m: MessageView,
)
    requires
        recorded(rows, m),
    ensures
        recorded(mark_rows(rows, ids, receiver_id, now), m),
{
    let i = choose|i: int|
        0 <= i < rows.len() && {
            let rr = #[trigger] rows[i];
            rr.id == m.id && rr.sender_id == m.sender_id && rr.receiver_id == m.receiver_id
                && rr.content == m.content && rr.content_type == mt_frame(m.content_type)
                && rr.created_at == m.created_at
        };
    assert(mark_rows(rows, ids, receiver_id, now)[i] == crate::storage::mark_row(
        rows[i],
        ids,
        receiver_id,
        now,
    ));
}

/// The message a send constructs: fresh identifier, plain text content,
/// server-assigned creation time, read timestamp unset.
pub open spec fn sent_message(
    sender_id: u128,
    content: Seq<char>,
    receiver_id: u128,
    id: u128,
    now: i64,
) -> MessageView {
    MessageView {
        id,
        sender_id,
        receiver_id,
        content,
        content_type: MessageTypeView::Text,
        created_at: now,
        read_at: Option::None,
    }
}

/// One send step: persist first; only on successful persistence queue the
/// event for the receiver, and only if the receiver is registered. A clash
/// on the fresh identifier is the model's persistence fault: the command is
/// dropped whole, with no event and no error to the sender.
pub open spec fn step_send(
    st: StateView,
    sender_id: u128,
    content: Seq<char>,
    receiver_id: u128,
    id: u128,
    now: i64,
) -> StateView {
    if has_id(st.rows, id) {
        st
    } else {
        let m = sent_message(sender_id, content, receiver_id, id, now);
        StateView {
            rows: st.rows.push(row_of(m)),
            reg: if st.reg.contains_key(receiver_id) {
                st.reg.insert(
                    receiver_id,
                    st.reg[receiver_id].push(EventView::MessageReceived(m)),
                )
            } else {
                st.reg
            },
        }
    }
}

/// The sender of the row carrying `id` and owned by `reader`, if any.
pub open spec fn lookup_sender(rows: Seq<RowView>, id: u128, reader: u128) -> Option<u128>
    decreases rows.len(),
{
    if rows.len() == 0 {
        Option::None
    } else if rows[0].id == id && rows[0].receiver_id == reader {
        Option::Some(rows[0].sender_id)
    } else {
        lookup_sender(rows.drop_first(), id, reader)
    }
}

/// The original sender to notify for a mark-as-read request: resolved
/// through the store from the first listed message that exists and is owned
/// by the reader.
pub open spec fn first_sender(rows: Seq<RowView>, ids: Seq<u128>, reader: u128) -> Option<u128>
    decreases ids.len(),
{
    if ids.len() == 0 {
        Option::None
    } else {
        match lookup_sender(rows, ids[0], reader) {
            Option::Some(s) => Option::Some(s),
            Option::None => first_sender(rows, ids.drop_first(), reader),
        }
    }
}

/// One mark-as-read step: set the read timestamps, then notify the resolved
/// original sender — if it is registered — that the reader has read the
/// listed messages.
pub open spec fn step_mark(st: StateView, reader: u128, ids: Seq<u128>, now: i64) -> StateView {
    let rows2 = mark_rows(st.rows, ids, reader, now);
    let ev = EventView::MessageRead { message_ids: ids, user_id: reader };
    StateView {
        rows: rows2,
        reg: match first_sender(st.rows, ids, reader) {
            Option::Some(s) => if st.reg.contains_key(s) {
                st.reg.insert(s, st.reg[s].push(ev))
            } else {
                st.reg
            },
            Option::None => st.reg,
        },
    }
}

/// One typing step: best-effort notification to the receiver, nothing
/// persisted.
pub open spec fn step_typing(st: StateView, sender_id: u128, receiver_id: u128) -> StateView {
    StateView {
        rows: st.rows,
        reg: if st.reg.contains_key(receiver_id) {
            st.reg.insert(
                receiver_id,
                st.reg[receiver_id].push(EventView::UserTyping { user_id: sender_id }),
            )
        } else {
            st.reg
        },
    }
}

/// What one decoded command does to the core's state, given the fresh
/// identifier and the clock reading the step draws.
pub open spec fn step_command(
    st: StateView,
    sender_id: u128,
    c: CommandView,
    id: u128,
    now: i64,
) -> StateView {
    match c {
        CommandView::SendMessage { content, receiver_id } => step_send(
            st,
            sender_id,
            content,
            receiver_id,
            id,
            now,
        ),
        CommandView::MarkAsRead { message_ids } => step_mark(st, sender_id, message_ids, now),
        CommandView::Typing { receiver_id } => step_typing(st, sender_id, receiver_id),
    }
}

/// For any two identities, a send with a fresh identifier yields exactly
/// one new persisted message and, if and only if the receiver is registered
/// at the moment of sending, exactly one `MessageReceived` event queued for
/// the receiver — carrying that very message — while every other queue is
/// left alone.
pub proof fn lemma_send_message_effect(
    st: StateView,
    sender_id: u128,
    content: Seq<char>,
    receiver_id: u128,
    id: u128,
    now: i64,
)
    requires
        !has_id(st.rows, id),
    ensures
        ({
            let st2 = step_send(st, sender_id, content, receiver_id, id, now);
            let m = sent_message(sender_id, content, receiver_id, id, now);
            &&& st2.rows == st.rows.push(row_of(m))
            &&& st2.rows.len() == st.rows.len() + 1
            &&& st2.reg.dom() == st.reg.dom()
            &&& st.reg.contains_key(receiver_id) ==> st2.reg[receiver_id] == st.reg[
                receiver_id
            ].push(EventView::MessageReceived(m))
            &&& !st.reg.contains_key(receiver_id) ==> st2.reg == st.reg
            &&& forall|u: u128|
                u != receiver_id && st.reg.contains_key(u) ==> #[trigger] st2.reg[u] == st.reg[u]
        }),
{
    let st2 = step_send(st, sender_id, content, receiver_id, id, now);
    assert(st2.reg.dom() =~= st.reg.dom());
}

/// Unregistering an identity removes only that identity's live mapping:
/// every other mapping is untouched, and the store — and with it every
/// history query and unread count — is not part of the registry at all, so
/// messages persisted for the unregistered identity remain retrievable.
/// `disconnect` establishes exactly the premises.
pub proof fn lemma_unregister_preserves_messages(
    st: StateView,
    st2: StateView,
    user_id: u128,
    queried: u128,
    limit: int,
    offset: int,
)
    requires
        st2.rows == st.rows,
        st2.reg == st.reg.remove(user_id),
    ensures
        !st2.reg.contains_key(user_id),
        forall|u: u128|
            u != user_id ==> #[trigger] st2.reg.contains_key(u) == st.reg.contains_key(u),
        forall|u: u128|
            u != user_id && st.reg.contains_key(u) ==> #[trigger] st2.reg[u] == st.reg[u],
        crate::storage::user_messages(st2.rows, queried, limit, offset)
            == crate::storage::user_messages(st.rows, queried, limit, offset),
        crate::storage::unread_count(st2.rows, queried) == crate::storage::unread_count(
            st.rows,
            queried,
        ),
{
}

/// The per-connection command handler: the registry of live connections and
/// the message store, stepped one command or connection event at a time.
pub struct WebSocketHandler {
    pub registry: Registry,
    pub storage: Storage,
}

impl WebSocketHandler {
    /// The spec-level state this handler is in.
    pub open spec fn state(&self) -> StateView {
        StateView { rows: self.storage@, reg: self.registry@ }
    }

    /// Well-formed: both components well-formed, and no queue holds a
    /// `MessageReceived` for a message the store does not hold.
    pub open spec fn wf(&self) -> bool {
        &&& self.storage.wf()
        &&& self.registry.wf()
        &&& queues_ok(self.storage@, self.registry@)
    }

    /// A handler over the given store, with no live connections yet.
    pub fn new(storage: Storage) -> (s: Self)
        requires
            storage.wf(),
        ensures
            s.wf(),
            s.state().rows == storage@,
            s.state().reg == Map::<u128, Seq<EventView>>::empty(),
    {
        WebSocketHandler { registry: Registry::new(), storage }
    }

    /// A connection for `user_id` became live: register its queue (replacing
    /// any previous one), then announce it to every other live identity.
    pub fn connect(&mut self, user_id: u128)
        requires
            old(self).wf(),
        ensures
            final(self).wf(),
            final(self).state().rows == old(self).state().rows,
            final(self).state().reg.dom() == old(self).state().reg.dom().insert(user_id),
            final(self).state().reg[user_id] == Seq::<EventView>::empty(),
            forall|u: u128|
                old(self).state().reg.contains_key(u) && u != user_id ==> final(self).state().reg[u] == old(self).state().reg[u].push(status_event(user_id, true)),
    {
        self.registry.register(user_id);
        proof {
            assert(self.registry@.dom() =~= old(self).registry@.dom().insert(user_id));
        }
        self.registry.broadcast_status(user_id, true);
        proof {
            assert(final(self).state().reg.dom() =~= old(self).state().reg.dom().insert(user_id));
            assert(queues_ok(final(self).storage@, final(self).registry@)) by {
                let rows = final(self).storage@;
                let reg = final(self).registry@;
                assert forall|u: u128, k: int|
                    reg.contains_key(u) && 0 <= k < reg[u].len() implies event_ok(
                    rows,
                    #[trigger] reg[u][k],
                ) by {
                    if u != user_id {
                        assert(reg[u] == old(self).registry@[u].push(status_event(user_id, true)));
                        if k < reg[u].len() - 1 {
                            assert(reg[u][k] == old(self).registry@[u][k]);
                        }
                    }
                }
            }
        }
    }

    /// The connection for `user_id` went away: drop its queue, then announce
    /// the departure to every remaining identity. The user itself receives
    /// nothing. Everything persisted for the user stays in the store.
    pub fn disconnect(&mut self, user_id: u128)
        requires
            old(self).wf(),
        ensures
            final(self).wf(),
            final(self).state().rows == old(self).state().rows,
            final(self).state().reg.dom() == old(self).state().reg.dom().remove(user_id),
            forall|u: u128|
                old(self).state().reg.contains_key(u) && u != user_id ==> final(self).state().reg[u] == old(self).state().reg[u].push(status_event(user_id, false)),
    {
        self.registry.unregister(user_id);
        proof {
            assert(self.registry@.dom() =~= old(self).registry@.dom().remove(user_id));
        }
        self.registry.broadcast_status(user_id, false);
        proof {
            assert(final(self).state().reg.dom() =~= old(self).state().reg.dom().remove(user_id));
            assert(queues_ok(final(self).storage@, final(self).registry@)) by {
                let rows = final(self).storage@;
                let reg = final(self).registry@;
                assert forall|u: u128, k: int|
                    reg.contains_key(u) && 0 <= k < reg[u].len() implies event_ok(
                    rows,
                    #[trigger] reg[u][k],
                ) by {
                    assert(reg[u] == old(self).registry@[u].push(status_event(user_id, false)));
                    if k < reg[u].len() - 1 {
                        assert(reg[u][k] == old(self).registry@[u][k]);
                    }
                }
            }
        }
    }

    /// Executes one decoded command with the given fresh identifier and
    /// clock reading: verified for every value the draws could take.
    pub fn handle_command_at(
        &mut self,
        sender_id: u128,
        command: WebSocketCommand,
        msg_id: u128,
        now: i64,
    )
        requires
            old(self).wf(),
        ensures
            final(self).wf(),
            final(self).state() == step_command(old(self).state(), sender_id, command@, msg_id, now),
    {
        let ghost cv = command@;
        match command {
            WebSocketCommand::SendMessage { content, receiver_id } => {
                let message = Message {
                    id: msg_id,
                    sender_id,
                    receiver_id,
                    content,
                    content_type: MessageType::Text,
                    created_at: now,
                    read_at: Option::None,
                };
                let ghost m = message@;
                match self.storage.save_message(&message) {
                    Result::Err(_) => {
                        // identifier clash: the persistence fault path — the
                        // command is dropped, no event, no error to the sender
                        proof {
                            assert(final(self).state() =~= old(self).state());
                        }
                    },
                    Result::Ok(()) => {
                        proof {
                            assert(self.storage@ == old(self).storage@.push(row_of(m)));
                        }
                        self.registry.send_to(
                            receiver_id,
                            WebSocketEvent::MessageReceived(message),
                        );
                        proof {
                            assert(recorded(final(self).storage@, m)) by {
                                let rows = final(self).storage@;
                                assert(rows[rows.len() - 1] == row_of(m));
                            }
                            assert(queues_ok(final(self).storage@, final(self).registry@)) by {
                                let rows = final(self).storage@;
                                let reg = final(self).registry@;
                                assert forall|u: u128, k: int|
                                    reg.contains_key(u) && 0 <= k < reg[u].len() implies event_ok(
                                    rows,
                                    #[trigger] reg[u][k],
                                ) by {
                                    if old(self).registry@.contains_key(u) && 0 <= k < old(self).registry@[u].len() && reg[u][k] == old(self).registry@[u][k] {
                                        if reg[u][k] is MessageReceived {
                                            lemma_recorded_push(
                                                old(self).storage@,
                                                row_of(m),
                                                reg[u][k]->MessageReceived_0,
                                            );
                                        }
                                    } else {
                                        assert(u == receiver_id && k == reg[u].len() - 1);
                                        assert(reg[u][k] == EventView::MessageReceived(m));
                                    }
                                }
                            }
                            assert(final(self).state() =~= step_command(
                                old(self).state(),
                                sender_id,
                                cv,
                                msg_id,
                                now,
                            ));
                        }
                    },
                }
            },
            WebSocketCommand::MarkAsRead { message_ids } => {
                let target = self.find_first_sender(&message_ids, sender_id);
                self.storage.mark_messages_as_read_at(&message_ids, sender_id, now);
                let ghost mid_rows = self.storage@;
                match target {
                    Option::Some(s) => {
                        self.registry.send_to(
                            s,
                            WebSocketEvent::MessageRead { message_ids, user_id: sender_id },
                        );
                    },
                    Option::None => {},
                }
                proof {
                    assert(queues_ok(final(self).storage@, final(self).registry@)) by {
                        let rows = final(self).storage@;
                        let reg = final(self).registry@;
                        assert forall|u: u128, k: int|
                            reg.contains_key(u) && 0 <= k < reg[u].len() implies event_ok(
                            rows,
                            #[trigger] reg[u][k],
                        ) by {
                            if old(self).registry@.contains_key(u) && 0 <= k < old(self).registry@[u].len() && reg[u][k] == old(self).registry@[u][k] {
                                if reg[u][k] is MessageReceived {
                                    lemma_recorded_mark(
                                        old(self).storage@,
                                        cv->MarkAsRead_message_ids,
                                        sender_id,
                                        now,
                                        reg[u][k]->MessageReceived_0,
                                    );
                                }
                            }
                        }
                    }
                    assert(final(self).state() =~= step_command(
                        old(self).state(),
                        sender_id,
                        cv,
                        msg_id,
                        now,
                    ));
                }
            },
            WebSocketCommand::Typing { receiver_id } => {
                self.registry.send_to(
                    receiver_id,
                    WebSocketEvent::UserTyping { user_id: sender_id },
                );
                proof {
                    assert(queues_ok(final(self).storage@, final(self).registry@)) by {
                        let rows = final(self).storage@;
                        let reg = final(self).registry@;
                        assert forall|u: u128, k: int|
                            reg.contains_key(u) && 0 <= k < reg[u].len() implies event_ok(
                            rows,
                            #[trigger] reg[u][k],
                        ) by {
                            if !(old(self).registry@.contains_key(u) && 0 <= k < old(self).registry@[u].len() && reg[u][k] == old(self).registry@[u][k]) {
                                assert(u == receiver_id && k == reg[u].len() - 1);
                            }
                        }
                    }
                    assert(final(self).state() =~= step_command(
                        old(self).state(),
                        sender_id,
                        cv,
                        msg_id,
                        now,
                    ));
                }
            },
        }
    }

    /// Executes one decoded command, drawing the fresh identifier and the
    /// clock reading. Whatever the draws came back as, the step taken is
    /// `step_command` for those values.
    pub fn handle_command(&mut self, sender_id: u128, command: WebSocketCommand)
        requires
            old(self).wf(),
        ensures
            final(self).wf(),
            exists|id: u128, now: i64|
                final(self).state() == step_command(
                    old(self).state(),
                    sender_id,
                    command@,
                    id,
                    now,
                ),
    {
        let ghost c = command@;
        let msg_id = fresh_uuid();
        let now = now_millis();
        self.handle_command_at(sender_id, command, msg_id, now);
        proof {
            assert(final(self).state() == step_command(old(self).state(), sender_id, c, msg_id, now));
        }
    }

    /// Handles one inbound text frame: a frame that reads as a command is
    /// executed; anything else is discarded silently — the connection stays
    /// open, no event is produced, and the peer learns nothing.
    pub fn handle_frame(&mut self, sender_id: u128, text: &str)
        requires
            old(self).wf(),
        ensures
            final(self).wf(),
            match sp_command(text@) {
                Option::Some(cv) => exists|id: u128, now: i64|
                    final(self).state() == step_command(old(self).state(), sender_id, cv, id, now),
                Option::None => final(self).state() == old(self).state(),
            },
    {
        match parse_command(text) {
            Option::Some(command) => {
                self.handle_command(sender_id, command);
            },
            Option::None => {
                proof {
                    assert(final(self).state() =~= old(self).state());
                }
            },
        }
    }

    /// Best-effort delivery through the registry. A `MessageReceived` event
    /// may only be handed in for a message the store already holds — the
    /// persist-then-notify discipline.
    pub fn send_to_user(&mut self, user_id: u128, event: WebSocketEvent)
        requires
            old(self).wf(),
            event@ is MessageReceived ==> recorded(old(self).storage@, event@->MessageReceived_0),
        ensures
            final(self).wf(),
            final(self).state().rows == old(self).state().rows,
            old(self).state().reg.contains_key(user_id) ==> final(self).state().reg == old(self).state().reg.insert(user_id, old(self).state().reg[user_id].push(event@)),
            !old(self).state().reg.contains_key(user_id) ==> final(self).state().reg == old(self).state().reg,
    {
        self.registry.send_to(user_id, event);
        proof {
            assert(queues_ok(final(self).storage@, final(self).registry@)) by {
                let rows = final(self).storage@;
                let reg = final(self).registry@;
                assert forall|u: u128, k: int|
                    reg.contains_key(u) && 0 <= k < reg[u].len() implies event_ok(
                    rows,
                    #[trigger] reg[u][k],
                ) by {
                    if !(old(self).registry@.contains_key(u) && 0 <= k < old(self).registry@[u].len() && reg[u][k] == old(self).registry@[u][k]) {
                        assert(u == user_id && k == reg[u].len() - 1);
                    }
                }
            }
        }
    }

    /// Announces presence for `user_id` to every other live identity.
    pub fn broadcast_user_status(&mut self, user_id: u128, online: bool)
        requires
            old(self).wf(),
        ensures
            final(self).wf(),
            final(self).state().rows == old(self).state().rows,
            final(self).state().reg.dom() == old(self).state().reg.dom(),
            forall|u: u128|
                old(self).state().reg.contains_key(u) && u != user_id ==> final(self).state().reg[u] == old(self).state().reg[u].push(status_event(user_id, online)),
            old(self).state().reg.contains_key(user_id) ==> final(self).state().reg[user_id]
                == old(self).state().reg[user_id],
    {
        self.registry.broadcast_status(user_id, online);
        proof {
            assert(queues_ok(final(self).storage@, final(self).registry@)) by {
                let rows = final(self).storage@;
                let reg = final(self).registry@;
                assert forall|u: u128, k: int|
                    reg.contains_key(u) && 0 <= k < reg[u].len() implies event_ok(
                    rows,
                    #[trigger] reg[u][k],
                ) by {
                    if u != user_id {
                        assert(reg[u] == old(self).registry@[u].push(status_event(user_id, online)));
                        if k < reg[u].len() - 1 {
                            assert(reg[u][k] == old(self).registry@[u][k]);
                        }
                    }
                }
            }
        }
    }

    /// Hands the connection task everything queued for its identity,
    /// leaving the queue empty.
    pub fn drain_events(&mut self, user_id: u128) -> (r: Vec<WebSocketEvent>)
        requires
            old(self).wf(),
        ensures
            final(self).wf(),
            final(self).state().rows == old(self).state().rows,
            old(self).state().reg.contains_key(user_id) ==> r@.map_values(|x: WebSocketEvent| x@)
                == old(self).state().reg[user_id] && final(self).state().reg == old(self).state().reg.insert(user_id, Seq::<EventView>::empty()),
            !old(self).state().reg.contains_key(user_id) ==> r@.len() == 0 && final(self).state().reg == old(self).state().reg,
    {
        let r = self.registry.drain_events(user_id);
        proof {
            assert(queues_ok(final(self).storage@, final(self).registry@)) by {
                let rows = final(self).storage@;
                let reg = final(self).registry@;
                assert forall|u: u128, k: int|
                    reg.contains_key(u) && 0 <= k < reg[u].len() implies event_ok(
                    rows,
                    #[trigger] reg[u][k],
                ) by {
                    if !(old(self).registry@.contains_key(u) && 0 <= k < old(self).registry@[u].len() && reg[u][k] == old(self).registry@[u][k]) {
                        assert(u == user_id);
                        assert(reg[u].len() == 0);
                    }
                }
            }
        }
        r
    }

    /// Resolves the original sender a mark-as-read notification goes to:
    /// the sender of the first listed message that exists and is owned by
    /// the reader.
    fn find_first_sender(&self, message_ids: &Vec<u128>, reader: u128) -> (r: Option<u128>)
        ensures
            r == first_sender(self.storage@, message_ids@, reader),
    {
        let n = message_ids.len();
        let mut i: usize = 0;
        proof {
            assert(message_ids@.skip(0) =~= message_ids@);
        }
        while i < n
            invariant
                i <= n,
                n == message_ids@.len(),
                first_sender(self.storage@, message_ids@, reader) == first_sender(
                    self.storage@,
                    message_ids@.skip(i as int),
                    reader,
                ),
            decreases n - i,
        {
            proof {
                assert(message_ids@.skip(i as int)[0] == message_ids@[i as int]);
                assert(message_ids@.skip(i as int).drop_first() =~= message_ids@.skip(
                    i as int + 1,
                ));
            }
            match self.lookup_sender_exec(message_ids[i], reader) {
                Option::Some(s) => {
                    return Option::Some(s);
                },
                Option::None => {},
            }
            i = i + 1;
        }
        proof {
            assert(message_ids@.skip(n as int) =~= Seq::<u128>::empty());
        }
        Option::None
    }

    /// Finds the sender of the row carrying `id` and owned by `reader`.
    fn lookup_sender_exec(&self, id: u128, reader: u128) -> (r: Option<u128>)
        ensures
            r == lookup_sender(self.storage@, id, reader),
    {
        let rows = &self.storage.rows;
        let n = rows.len();
        let mut i: usize = 0;
        proof {
            assert(self.storage@.skip(0) =~= self.storage@);
        }
        while i < n
            invariant
                i <= n,
                n == self.storage@.len(),
                rows == &self.storage.rows,
                lookup_sender(self.storage@, id, reader) == lookup_sender(
                    self.storage@.skip(i as int),
                    id,
                    reader,
                ),
            decreases n - i,
        {
            proof {
                assert(self.storage@.skip(i as int)[0] == self.storage@[i as int]);
                assert(self.storage@.skip(i as int).drop_first() =~= self.storage@.skip(
                    i as int + 1,
                ));
            }
            if rows[i].id == id && rows[i].receiver_id == reader {
                return Option::Some(rows[i].sender_id);
            }
            i = i + 1;
        }
        proof {
            assert(self.storage@.skip(n as int) =~= Seq::<RowView>::empty());
        }
        Option::None
    }
}

} // verus!
