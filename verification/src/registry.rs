//! The connection registry: the in-memory mapping from a live user identity
//! to its outbound delivery queue.
//!
//! Each registered identity owns one unbounded queue of events awaiting
//! delivery; the connection task drains the queue and writes each event to
//! its socket. The registry is viewed as a map from identity to the queued
//! events, and every operation says exactly what it does to that map.
//! Registering an identity again replaces its mapping — the superseded
//! queue is discarded and nothing signals the previous connection, which
//! keeps running until its own socket faults.

use vstd::prelude::*;

use crate::protocol::EventView;
use crate::protocol::WebSocketEvent;

verus! {

/// One live connection: an identity and its pending outbound events.
#[derive(Debug)]
pub struct ConnectionEntry {
    pub user_id: u128,
    pub outbox: Vec<WebSocketEvent>,
}

/// The events an entry has queued, as spec values.
pub open spec fn ev_seq(e: ConnectionEntry) -> Seq<EventView> {
    e.outbox@.map_values(|x: WebSocketEvent| x@)
}

/// The map a list of entries stands for.
pub open spec fn reg_map(conns: Seq<ConnectionEntry>) -> Map<u128, Seq<EventView>>
    decreases conns.len(),
{
    if conns.len() == 0 {
        Map::empty()
    } else {
        reg_map(conns.drop_last()).insert(conns.last().user_id, ev_seq(conns.last()))
    }
}

/// The presence event a status change broadcasts.
pub open spec fn status_event(user_id: u128, online: bool) -> EventView {
    if online {
        EventView::UserOnline(user_id)
    } else {
        EventView::UserOffline(user_id)
    }
}

/// A key is in the map exactly when some entry carries it.
proof fn lemma_reg_map_dom(conns: Seq<ConnectionEntry>, u: u128)
    ensures
        reg_map(conns).contains_key(u) <==> exists|i: int|
            0 <= i < conns.len() && #[trigger] conns[i].user_id == u,
    decreases conns.len(),
{
    if conns.len() > 0 {
        lemma_reg_map_dom(conns.drop_last(), u);
        if reg_map(conns).contains_key(u) {
            if u == conns.last().user_id {
                assert(conns[conns.len() - 1].user_id == u);
            } else {
                assert(reg_map(conns.drop_last()).contains_key(u));
                let i = choose|i: int|
                    0 <= i < conns.drop_last().len() && #[trigger] conns.drop_last()[i].user_id
                        == u;
                assert(conns.drop_last()[i] == conns[i]);
                assert(conns[i].user_id == u);
            }
        }
        if exists|i: int| 0 <= i < conns.len() && #[trigger] conns[i].user_id == u {
            let i = choose|i: int| 0 <= i < conns.len() && #[trigger] conns[i].user_id == u;
            if i < conns.len() - 1 {
                assert(conns.drop_last()[i].user_id == u);
                assert(reg_map(conns.drop_last()).contains_key(u));
            }
        }
    }
}

/// With distinct identities, each entry's queue is its identity's value.
proof fn lemma_reg_map_index(conns: Seq<ConnectionEntry>, i: int)
    requires
        forall|a: int, b: int|
            0 <= a < b < conns.len() ==> #[trigger] conns[a].user_id != #[trigger] conns[b].user_id,
        0 <= i < conns.len(),
    ensures
        reg_map(conns).contains_key(conns[i].user_id),
        reg_map(conns)[conns[i].user_id] == ev_seq(conns[i]),
    decreases conns.len(),
{
    lemma_reg_map_dom(conns, conns[i].user_id);
    if i == conns.len() - 1 {
    } else {
        assert(conns.drop_last()[i] == conns[i]);
        lemma_reg_map_index(conns.drop_last(), i);
        assert(conns[i].user_id != conns.last().user_id);
    }
}

/// Updating one entry in place updates its key alone.
proof fn lemma_reg_map_update(conns: Seq<ConnectionEntry>, i: int, e: ConnectionEntry)
    requires
        forall|a: int, b: int|
            0 <= a < b < conns.len() ==> #[trigger] conns[a].user_id != #[trigger] conns[b].user_id,
        0 <= i < conns.len(),
        e.user_id == conns[i].user_id,
    ensures
        reg_map(conns.update(i, e)) == reg_map(conns).insert(e.user_id, ev_seq(e)),
    decreases conns.len(),
{
    let upd = conns.update(i, e);
    if i == conns.len() - 1 {
        assert(upd.drop_last() =~= conns.drop_last());
        assert(upd.last() == e);
        assert(reg_map(upd) =~= reg_map(conns).insert(e.user_id, ev_seq(e)));
    } else {
        assert(upd.drop_last() =~= conns.drop_last().update(i, e));
        assert(conns.drop_last()[i] == conns[i]);
        lemma_reg_map_update(conns.drop_last(), i, e);
        assert(upd.last() == conns.last());
        assert(e.user_id != conns.last().user_id);
        assert(reg_map(upd) =~= reg_map(conns).insert(e.user_id, ev_seq(e)));
    }
}

/// Removing one entry removes its key alone.
proof fn lemma_reg_map_remove(conns: Seq<ConnectionEntry>, i: int)
    requires
        forall|a: int, b: int|
            0 <= a < b < conns.len() ==> #[trigger] conns[a].user_id != #[trigger] conns[b].user_id,
        0 <= i < conns.len(),
    ensures
        reg_map(conns.remove(i)) == reg_map(conns).remove(conns[i].user_id),
    decreases conns.len(),
{
    let rem = conns.remove(i);
    if i == conns.len() - 1 {
        assert(rem =~= conns.drop_last());
        lemma_reg_map_dom(conns.drop_last(), conns.last().user_id);
        assert forall|a: int| 0 <= a < conns.drop_last().len() implies #[trigger] conns.drop_last()[a].user_id
            != conns.last().user_id by {
            assert(conns.drop_last()[a] == conns[a]);
        }
        assert(!reg_map(conns.drop_last()).contains_key(conns.last().user_id));
        assert(reg_map(rem) =~= reg_map(conns).remove(conns[i].user_id));
    } else {
        assert(rem.drop_last() =~= conns.drop_last().remove(i));
        assert(conns.drop_last()[i] == conns[i]);
        lemma_reg_map_remove(conns.drop_last(), i);
        assert(rem.last() == conns.last());
        assert(conns[i].user_id != conns.last().user_id);
        assert(reg_map(rem) =~= reg_map(conns).remove(conns[i].user_id));
    }
}

/// Appending a new entry inserts its key.
proof fn lemma_reg_map_push(conns: Seq<ConnectionEntry>, e: ConnectionEntry)
    ensures
        reg_map(conns.push(e)) == reg_map(conns).insert(e.user_id, ev_seq(e)),
{
    assert(conns.push(e).drop_last() =~= conns);
    assert(conns.push(e).last() == e);
}

/// The in-memory identity-to-queue mapping shared by all connection tasks.
/// The surrounding process serializes access to it; each operation here is
/// one critical section.
#[derive(Debug)]
pub struct Registry {
    pub conns: Vec<ConnectionEntry>,
}

impl View for Registry {
    type V = Map<u128, Seq<EventView>>;

    open spec fn view(&self) -> Map<u128, Seq<EventView>> {
        reg_map(self.conns@)
    }
}

impl Registry {
    /// At most one entry per identity.
    pub open spec fn wf(&self) -> bool {
        forall|a: int, b: int|
            0 <= a < b < self.conns@.len() ==> #[trigger] self.conns@[a].user_id
                != #[trigger] self.conns@[b].user_id
    }

    /// An empty registry.
    pub fn new() -> (s: Self)
        ensures
            s.wf(),
            s@ == Map::<u128, Seq<EventView>>::empty(),
    {
        Registry { conns: Vec::new() }
    }

    /// The position of an identity's entry, if it has one.
    fn find(&self, user_id: u128) -> (r: Option<usize>)
        ensures
            match r {
                Option::Some(i) => i < self.conns@.len() && self.conns@[i as int].user_id
                    == user_id,
                Option::None => forall|i: int|
                    0 <= i < self.conns@.len() ==> #[trigger] self.conns@[i].user_id != user_id,
            },
    {
        let n = self.conns.len();
        let mut i: usize = 0;
        while i < n
            invariant
                i <= n,
                n == self.conns@.len(),
                forall|k: int| 0 <= k < i ==> #[trigger] self.conns@[k].user_id != user_id,
            decreases n - i,
        {
            if self.conns[i].user_id == user_id {
                return Option::Some(i);
            }
            i = i + 1;
        }
        Option::None
    }

    /// Whether the identity currently has a live mapping.
    pub fn is_registered(&self, user_id: u128) -> (r: bool)
        ensures
            r == self@.contains_key(user_id),
    {
        proof {
            lemma_reg_map_dom(self.conns@, user_id);
        }
        match self.find(user_id) {
            Option::Some(_) => true,
            Option::None => false,
        }
    }

    /// Inserts or overwrites the mapping for `user_id` with an empty queue.
    /// A previously registered queue for the same identity is discarded
    /// without any signal to it.
    pub fn register(&mut self, user_id: u128)
        requires
            old(self).wf(),
        ensures
            final(self).wf(),
            final(self)@ == old(self)@.insert(user_id, Seq::<EventView>::empty()),
    {
        self.unregister(user_id);
        let ghost pre = self.conns@;
        let ghost mid = self@;
        let fresh = ConnectionEntry { user_id, outbox: Vec::new() };
        proof {
            assert(ev_seq(fresh) =~= Seq::<EventView>::empty());
            lemma_reg_map_push(pre, fresh);
            lemma_reg_map_dom(pre, user_id);
            assert(!mid.contains_key(user_id));
            assert(forall|a: int| 0 <= a < pre.len() ==> #[trigger] pre[a].user_id != user_id);
        }
        self.conns.push(fresh);
        let ghost pushed = self.conns@;
        proof {
            assert(pushed == pre.push(fresh));
            assert(self@ == mid.insert(user_id, ev_seq(fresh)));
            assert(ev_seq(fresh) == Seq::<EventView>::empty());
            assert(self@ =~~= old(self)@.insert(user_id, Seq::<EventView>::empty()));
            assert forall|a: int, b: int| 0 <= a < b < pushed.len() implies #[trigger] pushed[a].user_id
                != #[trigger] pushed[b].user_id by {
                if b == pushed.len() - 1 {
                    assert(pushed[a] == pre[a]);
                }
            }
        }
    }

    /// Removes the mapping for `user_id` unconditionally; no check relates
    /// the removal to the connection that is actually closing.
    pub fn unregister(&mut self, user_id: u128)
        requires
            old(self).wf(),
        ensures
            final(self).wf(),
            final(self)@ == old(self)@.remove(user_id),
    {
        proof {
            lemma_reg_map_dom(self.conns@, user_id);
        }
        match self.find(user_id) {
            Option::Some(i) => {
                proof {
                    lemma_reg_map_remove(self.conns@, i as int);
                    let rem = self.conns@.remove(i as int);
                    assert forall|a: int, b: int| 0 <= a < b < rem.len() implies #[trigger] rem[a].user_id
                        != #[trigger] rem[b].user_id by {
                        assert(rem[a] == if a < i {
                            self.conns@[a]
                        } else {
                            self.conns@[a + 1]
                        });
                        assert(rem[b] == if b < i {
                            self.conns@[b]
                        } else {
                            self.conns@[b + 1]
                        });
                    }
                }
                self.conns.remove(i);
            },
            Option::None => {
                proof {
                    assert(!old(self)@.contains_key(user_id));
                    assert(self@ =~= old(self)@.remove(user_id));
                }
            },
        }
    }

    /// Best-effort delivery: if the identity has a live mapping the event
    /// is queued on it, else the event is silently dropped. This operation
    /// never fails observably.
    pub fn send_to(&mut self, user_id: u128, event: WebSocketEvent)
        requires
            old(self).wf(),
        ensures
            final(self).wf(),
            old(self)@.contains_key(user_id) ==> final(self)@ == old(self)@.insert(
                user_id,
                old(self)@[user_id].push(event@),
            ),
            !old(self)@.contains_key(user_id) ==> final(self)@ == old(self)@,
    {
        proof {
            lemma_reg_map_dom(self.conns@, user_id);
        }
        match self.find(user_id) {
            Option::Some(i) => {
                proof {
                    lemma_reg_map_index(self.conns@, i as int);
                }
                let ghost before = self.conns@;
                let slot = &mut self.conns[i];
                slot.outbox.push(event);
                proof {
                    let e2 = self.conns@[i as int];
                    assert(self.conns@ == before.update(i as int, e2));
                    assert(e2.user_id == before[i as int].user_id);
                    assert(e2.outbox@ == before[i as int].outbox@.push(event));
                    assert(ev_seq(e2) =~= ev_seq(before[i as int]).push(event@));
                    lemma_reg_map_update(before, i as int, e2);
                    assert forall|a: int, b: int|
                        0 <= a < b < self.conns@.len() implies #[trigger] self.conns@[a].user_id
                        != #[trigger] self.conns@[b].user_id by {
                        assert(self.conns@[a].user_id == before[a].user_id);
                        assert(self.conns@[b].user_id == before[b].user_id);
                    }
                }
            },
            Option::None => {},
        }
    }

    /// Queues the presence event for `subject` on every registered identity
    /// other than `subject` itself; `subject`'s own queue, if any, is left
    /// alone.
    pub fn broadcast_status(&mut self, subject: u128, online: bool)
        requires
            old(self).wf(),
        ensures
            final(self).wf(),
            final(self)@.dom() == old(self)@.dom(),
            forall|u: u128|
                old(self)@.contains_key(u) && u != subject ==> final(self)@[u] == old(
                    self,
                )@[u].push(status_event(subject, online)),
            old(self)@.contains_key(subject) ==> final(self)@[subject] == old(self)@[subject],
    {
        let n = self.conns.len();
        let mut i: usize = 0;
        while i < n
            invariant
                i <= n,
                n == self.conns@.len(),
                self.wf(),
                self.conns@.len() == old(self).conns@.len(),
                forall|k: int|
                    0 <= k < n ==> #[trigger] self.conns@[k].user_id == old(
                        self,
                    ).conns@[k].user_id,
                forall|k: int|
                    0 <= k < i && old(self).conns@[k].user_id != subject
                        ==> ev_seq(#[trigger] self.conns@[k]) == ev_seq(old(self).conns@[k]).push(
                        status_event(subject, online),
                    ),
                forall|k: int|
                    (i <= k < n || old(self).conns@[k].user_id == subject) && 0 <= k < n
                        ==> #[trigger] self.conns@[k] == old(self).conns@[k],
            decreases n - i,
        {
            let uid = self.conns[i].user_id;
            if uid != subject {
                let ev = if online {
                    WebSocketEvent::UserOnline(subject)
                } else {
                    WebSocketEvent::UserOffline(subject)
                };
                proof {
                    assert(ev@ == status_event(subject, online));
                }
                let ghost before = self.conns@;
                let slot = &mut self.conns[i];
                slot.outbox.push(ev);
                proof {
                    let e2 = self.conns@[i as int];
                    assert(self.conns@ == before.update(i as int, e2));
                    assert(e2.user_id == before[i as int].user_id);
                    assert(e2.outbox@ == before[i as int].outbox@.push(ev));
                    assert(ev_seq(e2) =~= ev_seq(before[i as int]).push(
                        status_event(subject, online),
                    ));
                }
            }
            i = i + 1;
        }
        proof {
            assert forall|u: u128| self@.contains_key(u) implies old(self)@.contains_key(u) by {
                lemma_reg_map_dom(self.conns@, u);
                lemma_reg_map_dom(old(self).conns@, u);
                let k = choose|k: int|
                    0 <= k < self.conns@.len() && #[trigger] self.conns@[k].user_id == u;
                assert(old(self).conns@[k].user_id == u);
            }
            assert forall|u: u128| old(self)@.contains_key(u) implies self@.contains_key(u) by {
                lemma_reg_map_dom(self.conns@, u);
                lemma_reg_map_dom(old(self).conns@, u);
                let k = choose|k: int|
                    0 <= k < old(self).conns@.len() && #[trigger] old(self).conns@[k].user_id == u;
                assert(self.conns@[k].user_id == u);
            }
            assert(self@.dom() =~= old(self)@.dom());
            assert forall|u: u128| old(self)@.contains_key(u) && u != subject implies self@[u]
                == old(self)@[u].push(status_event(subject, online)) by {
                lemma_reg_map_dom(old(self).conns@, u);
                let k = choose|k: int|
                    0 <= k < old(self).conns@.len() && #[trigger] old(self).conns@[k].user_id == u;
                lemma_reg_map_index(old(self).conns@, k);
                lemma_reg_map_index(self.conns@, k);
            }
            if old(self)@.contains_key(subject) {
                lemma_reg_map_dom(old(self).conns@, subject);
                let k = choose|k: int|
                    0 <= k < old(self).conns@.len() && #[trigger] old(self).conns@[k].user_id
                        == subject;
                lemma_reg_map_index(old(self).conns@, k);
                lemma_reg_map_index(self.conns@, k);
            }
        }
    }

    /// Hands back everything queued for `user_id`, leaving its queue empty;
    /// an unregistered identity yields nothing. The connection task calls
    /// this and writes each event to its socket.
    pub fn drain_events(&mut self, user_id: u128) -> (r: Vec<WebSocketEvent>)
        requires
            old(self).wf(),
        ensures
            final(self).wf(),
            old(self)@.contains_key(user_id) ==> r@.map_values(|x: WebSocketEvent| x@) == old(
                self,
            )@[user_id] && final(self)@ == old(self)@.insert(user_id, Seq::<EventView>::empty()),
            !old(self)@.contains_key(user_id) ==> r@.len() == 0 && final(self)@ == old(self)@,
    {
        proof {
            lemma_reg_map_dom(self.conns@, user_id);
        }
        match self.find(user_id) {
            Option::Some(i) => {
                proof {
                    lemma_reg_map_index(self.conns@, i as int);
                    lemma_reg_map_remove(self.conns@, i as int);
                    let rem = self.conns@.remove(i as int);
                    assert forall|a: int, b: int| 0 <= a < b < rem.len() implies #[trigger] rem[a].user_id
                        != #[trigger] rem[b].user_id by {
                        assert(rem[a] == if a < i {
                            self.conns@[a]
                        } else {
                            self.conns@[a + 1]
                        });
                        assert(rem[b] == if b < i {
                            self.conns@[b]
                        } else {
                            self.conns@[b + 1]
                        });
                    }
                }
                let entry = self.conns.remove(i);
                let ghost pre = self.conns@;
                let ghost mid = self@;
                let fresh = ConnectionEntry { user_id, outbox: Vec::new() };
                proof {
                    assert(ev_seq(fresh) =~= Seq::<EventView>::empty());
                    lemma_reg_map_push(pre, fresh);
                    lemma_reg_map_dom(pre, user_id);
                    assert(mid == old(self)@.remove(user_id));
                    assert(!mid.contains_key(user_id));
                    assert(forall|a: int| 0 <= a < pre.len() ==> #[trigger] pre[a].user_id != user_id);
                }
                self.conns.push(fresh);
                let ghost pushed = self.conns@;
                proof {
                    assert(pushed == pre.push(fresh));
                    assert(self@ == mid.insert(user_id, ev_seq(fresh)));
                    assert(ev_seq(fresh) == Seq::<EventView>::empty());
                    assert(self@ =~~= old(self)@.insert(user_id, Seq::<EventView>::empty()));
                    assert forall|a: int, b: int| 0 <= a < b < pushed.len() implies #[trigger] pushed[a].user_id
                        != #[trigger] pushed[b].user_id by {
                        if b == pushed.len() - 1 {
                            assert(pushed[a] == pre[a]);
                        }
                    }
                }
                entry.outbox
            },
            Option::None => {
                let empty: Vec<WebSocketEvent> = Vec::new();
                empty
            },
        }
    }
}

} // verus!
