//! The message store: a sequential model of the `messages` table.
//!
//! Rows are held exactly as a relational store would hold them — the
//! content-kind column as its persisted text form — and the queries decode
//! that column on the way out, skipping rows whose value no longer reads as
//! a known kind (the lossy-skip policy: callers must not assume result count
//! equals stored count). The surrounding process is responsible for carrying
//! these rows to and from the durable database; everything the store
//! promises about ordering, pagination, read-marking and counting is proved
//! here against this model.

use vstd::prelude::*;

use crate::protocol::Message;
use crate::protocol::MessageTypeView;
use crate::protocol::MessageView;
use crate::sys::now_millis;
use crate::wire::encode_message_type;
use crate::wire::mt_frame;
use crate::wire::parse_message_type;
use crate::wire::sp_mt;

verus! {

/// One stored row, with the content kind in its persisted text form.
#[derive(Debug, PartialEq, Eq)]
pub struct DbMessage {
    pub id: u128,
    pub sender_id: u128,
    pub receiver_id: u128,
    pub content: String,
    pub content_type: String,
    pub created_at: i64,
    pub read_at: Option<i64>,
}

/// Spec-level image of a stored row.
pub struct RowView {
    pub id: u128,
    pub sender_id: u128,
    pub receiver_id: u128,
    pub content: Seq<char>,
    pub content_type: Seq<char>,
    pub created_at: i64,
    pub read_at: Option<i64>,
}

impl View for DbMessage {
    type V = RowView;

    open spec fn view(&self) -> RowView {
        RowView {
            id: self.id,
            sender_id: self.sender_id,
            receiver_id: self.receiver_id,
            content: self.content@,
            content_type: self.content_type@,
            created_at: self.created_at,
            read_at: self.read_at,
        }
    }
}

/// A store operation that could not be applied.
#[derive(Debug, PartialEq, Eq)]
pub enum StorageError {
    /// The row's identifier is already present: identifiers are a primary
    /// key and are never overwritten.
    DuplicateId,
}

/// The row a message is persisted as: the content kind takes its text form,
/// and the read timestamp starts unset regardless of the message value.
pub open spec fn row_of(m: MessageView) -> RowView {
    RowView {
        id: m.id,
        sender_id: m.sender_id,
        receiver_id: m.receiver_id,
        content: m.content,
        content_type: mt_frame(m.content_type),
        created_at: m.created_at,
        read_at: Option::None,
    }
}

/// Whether some row already carries this identifier.
pub open spec fn has_id(rows: Seq<RowView>, id: u128) -> bool {
    exists|i: int| 0 <= i < rows.len() && #[trigger] rows[i].id == id
}

/// How one row reacts to a mark-as-read request: the read timestamp is set
/// to `now` exactly on listed, still-unread rows owned by the receiver, and
/// is never changed once set.
pub open spec fn mark_row(r: RowView, ids: Seq<u128>, receiver_id: u128, now: i64) -> RowView {
    if ids.contains(r.id) && r.receiver_id == receiver_id && r.read_at is None {
        RowView {
            id: r.id,
            sender_id: r.sender_id,
            receiver_id: r.receiver_id,
            content: r.content,
            content_type: r.content_type,
            created_at: r.created_at,
            read_at: Option::Some(now),
        }
    } else {
        r
    }
}

/// The whole store after a mark-as-read request.
pub open spec fn mark_rows(rows: Seq<RowView>, ids: Seq<u128>, receiver_id: u128, now: i64) -> Seq<
    RowView,
> {
    rows.map_values(|r: RowView| mark_row(r, ids, receiver_id, now))
}

/// How many messages addressed to `user_id` carry no read timestamp.
pub open spec fn unread_count(rows: Seq<RowView>, user_id: u128) -> nat
    decreases rows.len(),
{
    if rows.len() == 0 {
        0nat
    } else {
        unread_count(rows.drop_last(), user_id) + (if rows.last().receiver_id == user_id
            && rows.last().read_at is None {
            1nat
        } else {
            0nat
        })
    }
}

/// How many rows a mark-as-read request actually marks: listed, owned by
/// the receiver, and still unread.
pub open spec fn marked_count(rows: Seq<RowView>, ids: Seq<u128>, receiver_id: u128) -> nat
    decreases rows.len(),
{
    if rows.len() == 0 {
        0nat
    } else {
        marked_count(rows.drop_last(), ids, receiver_id) + (if ids.contains(rows.last().id)
            && rows.last().receiver_id == receiver_id && rows.last().read_at is None {
            1nat
        } else {
            0nat
        })
    }
}

/// The durable message store.
pub struct Storage {
    pub rows: Vec<DbMessage>,
}

impl View for Storage {
    type V = Seq<RowView>;

    open spec fn view(&self) -> Seq<RowView> {
        self.rows@.map_values(|m: DbMessage| m@)
    }
}

impl Storage {
    /// Row identifiers are a primary key: pairwise distinct.
    pub open spec fn wf(&self) -> bool {
        forall|i: int, j: int|
            0 <= i < j < self@.len() ==> #[trigger] self@[i].id != #[trigger] self@[j].id
    }

    /// An empty store.
    pub fn new() -> (s: Self)
        ensures
            s@ == Seq::<RowView>::empty(),
            s.wf(),
    {
        let s = Storage { rows: Vec::new() };
        proof {
            assert(s@ =~= Seq::<RowView>::empty());
        }
        s
    }

    /// Number of stored rows.
    pub fn row_count(&self) -> (n: usize)
        ensures
            n == self@.len(),
    {
        self.rows.len()
    }

    /// Inserts one row as the database would: refused if and only if the
    /// identifier is already present, in which case nothing changes.
    pub fn insert_row(&mut self, row: DbMessage) -> (r: Result<(), StorageError>)
        requires
            old(self).wf(),
        ensures
            final(self).wf(),
            match r {
                Result::Ok(()) => !has_id(old(self)@, row@.id) && final(self)@ == old(self)@.push(
                    row@,
                ),
                Result::Err(e) => e == StorageError::DuplicateId && has_id(old(self)@, row@.id)
                    && final(self)@ == old(self)@,
            },
    {
        let n = self.rows.len();
        let mut i: usize = 0;
        while i < n
            invariant
                n == self@.len(),
                i <= n,
                forall|k: int| 0 <= k < i ==> #[trigger] self@[k].id != row@.id,
                self.wf(),
                self == old(self),
            decreases n - i,
        {
            if self.rows[i].id == row.id {
                proof {
                    assert(self@[i as int].id == row@.id);
                }
                return Result::Err(StorageError::DuplicateId);
            }
            i = i + 1;
        }
        proof {
            assert(!has_id(self@, row@.id));
        }
        self.rows.push(row);
        proof {
            assert(final(self)@ =~= old(self)@.push(row@));
        }
        Result::Ok(())
    }

    /// Persists a message: a fresh row with the content kind in its text
    /// form and the read timestamp unset. Refused exactly when the
    /// identifier is already taken.
    pub fn save_message(&mut self, message: &Message) -> (r: Result<(), StorageError>)
        requires
            old(self).wf(),
        ensures
            final(self).wf(),
            match r {
                Result::Ok(()) => !has_id(old(self)@, message@.id) && final(self)@ == old(
                    self,
                )@.push(row_of(message@)),
                Result::Err(e) => e == StorageError::DuplicateId && has_id(
                    old(self)@,
                    message@.id,
                ) && final(self)@ == old(self)@,
            },
    {
        let row = DbMessage {
            id: message.id,
            sender_id: message.sender_id,
            receiver_id: message.receiver_id,
            content: message.content.clone(),
            content_type: encode_message_type(&message.content_type),
            created_at: message.created_at,
            read_at: Option::None,
        };
        proof {
            assert(row@ == row_of(message@));
        }
        self.insert_row(row)
    }

    /// Sets the read timestamp to `now` for the listed identifiers owned by
    /// `receiver_id` and still unread; a no-op for every other row. Already
    /// set timestamps are never changed — a read time is assigned once.
    pub fn mark_messages_as_read_at(
        &mut self,
        message_ids: &Vec<u128>,
        receiver_id: u128,
        now: i64,
    )
        requires
            old(self).wf(),
        ensures
            final(self).wf(),
            final(self)@ == mark_rows(old(self)@, message_ids@, receiver_id, now),
    {
        let n = self.rows.len();
        let mut i: usize = 0;
        while i < n
            invariant
                n == self@.len(),
                i <= n,
                self@.len() == old(self)@.len(),
                forall|k: int|
                    0 <= k < i ==> self@[k] == mark_row(
                        #[trigger] old(self)@[k],
                        message_ids@,
                        receiver_id,
                        now,
                    ),
                forall|k: int| i <= k < n ==> #[trigger] self@[k] == old(self)@[k],
            decreases n - i,
        {
            let owned = self.rows[i].receiver_id == receiver_id;
            let unread = match self.rows[i].read_at {
                Option::None => true,
                Option::Some(_) => false,
            };
            if owned && unread && contains_id(message_ids, self.rows[i].id) {
                let row = &mut self.rows[i];
                row.read_at = Option::Some(now);
            }
            i = i + 1;
        }
        proof {
            assert(final(self)@ =~= mark_rows(old(self)@, message_ids@, receiver_id, now));
        }
    }

    /// As `mark_messages_as_read_at`, with the read time taken from the
    /// clock. Whatever time the clock gave, the same rows are marked.
    pub fn mark_messages_as_read(&mut self, message_ids: &Vec<u128>, receiver_id: u128)
        requires
            old(self).wf(),
        ensures
            final(self).wf(),
            exists|now: i64|
                final(self)@ == mark_rows(old(self)@, message_ids@, receiver_id, now),
    {
        let now = now_millis();
        self.mark_messages_as_read_at(message_ids, receiver_id, now);
    }

    /// Count of messages addressed to `user_id` with no read timestamp.
    /// Counted over the raw rows: an undecodable content kind does not hide
    /// a row from this count.
    pub fn get_unread_messages_count(&self, user_id: u128) -> (n: u64)
        ensures
            n as nat == unread_count(self@, user_id),
    {
        let len = self.rows.len();
        let mut i: usize = 0;
        let mut n: u64 = 0;
        while i < len
            invariant
                len == self@.len(),
                i <= len,
                n as nat == unread_count(self@.take(i as int), user_id),
                n <= i,
            decreases len - i,
        {
            let unread = match self.rows[i].read_at {
                Option::None => true,
                Option::Some(_) => false,
            };
            proof {
                assert(self@.take(i as int + 1).drop_last() =~= self@.take(i as int));
                assert(self@.take(i as int + 1).last() == self@[i as int]);
            }
            if self.rows[i].receiver_id == user_id && unread {
                n = n + 1;
            }
            i = i + 1;
        }
        proof {
            assert(self@.take(len as int) =~= self@);
        }
        n
    }
}

/// Whether the identifier stands in the list.
fn contains_id(ids: &Vec<u128>, id: u128) -> (r: bool)
    ensures
        r == ids@.contains(id),
{
    let n = ids.len();
    let mut i: usize = 0;
    while i < n
        invariant
            n == ids@.len(),
            i <= n,
            forall|k: int| 0 <= k < i ==> ids@[k] != id,
        decreases n - i,
    {
        if ids[i] == id {
            return true;
        }
        i = i + 1;
    }
    false
}

// ---------------------------------------------------------------------------
// Queries: filter, order newest-first, paginate, decode with lossy skip.
// ---------------------------------------------------------------------------
/// Strict "comes first" between rows: newer creation timestamp first,
/// ties broken by identifier.
pub open spec fn row_before(a: RowView, b: RowView) -> bool {
    a.created_at > b.created_at || (a.created_at == b.created_at && a.id < b.id)
}

/// Total order on row positions: by the rows they name, then by position.
pub open spec fn idx_order(rows: Seq<RowView>) -> spec_fn(usize, usize) -> bool {
    |i: usize, j: usize|
        row_before(rows[i as int], rows[j as int]) || (!row_before(
            rows[j as int],
            rows[i as int],
        ) && i <= j)
}

/// Rows where the user is sender or receiver.
pub open spec fn user_pred(user_id: u128) -> spec_fn(RowView) -> bool {
    |r: RowView| r.sender_id == user_id || r.receiver_id == user_id
}

/// Rows exchanged between the two users, in either direction.
pub open spec fn pair_pred(user_id: u128, other_user_id: u128) -> spec_fn(RowView) -> bool {
    |r: RowView|
        (r.sender_id == user_id && r.receiver_id == other_user_id) || (r.sender_id
            == other_user_id && r.receiver_id == user_id)
}

/// The positions of the rows the predicate keeps, in store order.
pub open spec fn matching_indices(rows: Seq<RowView>, pred: spec_fn(RowView) -> bool) -> Seq<
    usize,
> {
    Seq::new(rows.len(), |i: int| i as usize).filter(|i: usize| pred(rows[i as int]))
}

/// The matching rows, newest creation first.
pub open spec fn sorted_matches(rows: Seq<RowView>, pred: spec_fn(RowView) -> bool) -> Seq<
    RowView,
> {
    matching_indices(rows, pred).sort_by(idx_order(rows)).map_values(
        |i: usize| rows[i as int],
    )
}

/// The `limit`/`offset` window of a result sequence.
pub open spec fn page(s: Seq<RowView>, offset: int, limit: int) -> Seq<RowView> {
    let lo = if offset <= s.len() {
        offset
    } else {
        s.len() as int
    };
    let hi = if offset + limit <= s.len() {
        offset + limit
    } else {
        s.len() as int
    };
    if lo <= hi {
        s.subrange(lo, hi)
    } else {
        Seq::empty()
    }
}

/// The message a row decodes to, once its content kind has been read back.
pub open spec fn msg_of(r: RowView, mt: MessageTypeView) -> MessageView {
    MessageView {
        id: r.id,
        sender_id: r.sender_id,
        receiver_id: r.receiver_id,
        content: r.content,
        content_type: mt,
        created_at: r.created_at,
        read_at: r.read_at,
    }
}

/// Decodes rows into messages, skipping any row whose content-kind column
/// no longer reads as a known kind.
pub open spec fn decode_rows(rows: Seq<RowView>) -> Seq<MessageView>
    decreases rows.len(),
{
    if rows.len() == 0 {
        Seq::empty()
    } else {
        match sp_mt(rows[0].content_type) {
            Option::Some(mt) => seq![msg_of(rows[0], mt)] + decode_rows(rows.drop_first()),
            Option::None => decode_rows(rows.drop_first()),
        }
    }
}

/// What `get_user_messages` returns, as a function of the store alone.
pub open spec fn user_messages(rows: Seq<RowView>, user_id: u128, limit: int, offset: int) -> Seq<
    MessageView,
> {
    decode_rows(page(sorted_matches(rows, user_pred(user_id)), offset, limit))
}

/// What `get_conversation_messages` returns, as a function of the store
/// alone.
pub open spec fn conversation_messages(
    rows: Seq<RowView>,
    user_id: u128,
    other_user_id: u128,
    limit: int,
    offset: int,
) -> Seq<MessageView> {
    decode_rows(page(sorted_matches(rows, pair_pred(user_id, other_user_id)), offset, limit))
}

/// The position order really is a total order.
proof fn lemma_idx_order_total(rows: Seq<RowView>)
    ensures
        vstd::relations::total_ordering(idx_order(rows)),
{
    let leq = idx_order(rows);
    assert forall|i: usize, j: usize, k: usize| #[trigger] leq(i, j) && #[trigger] leq(j, k)
        implies leq(i, k) by {}
    assert(vstd::relations::reflexive(leq)) by {
        assert forall|i: usize| #[trigger] leq(i, i) by {}
    }
    assert(vstd::relations::antisymmetric(leq)) by {
        assert forall|i: usize, j: usize| #[trigger] leq(i, j) && #[trigger] leq(j, i)
            implies i == j by {}
    }
    assert(vstd::relations::transitive(leq));
    assert(vstd::relations::strongly_connected(leq)) by {
        assert forall|i: usize, j: usize| true implies #[trigger] leq(i, j) || #[trigger] leq(
            j,
            i,
        ) by {}
    }
}

/// Decoding distributes over concatenation.
proof fn lemma_decode_concat(a: Seq<RowView>, b: Seq<RowView>)
    ensures
        decode_rows(a + b) == decode_rows(a) + decode_rows(b),
    decreases a.len(),
{
    if a.len() == 0 {
        assert(a + b =~= b);
        assert(decode_rows(a) + decode_rows(b) =~= decode_rows(b));
    } else {
        assert((a + b)[0] == a[0]);
        assert((a + b).drop_first() =~= a.drop_first() + b);
        lemma_decode_concat(a.drop_first(), b);
        match sp_mt(a[0].content_type) {
            Option::Some(mt) => {
                assert(decode_rows(a + b) == seq![msg_of(a[0], mt)] + (decode_rows(a.drop_first())
                    + decode_rows(b)));
                assert(seq![msg_of(a[0], mt)] + (decode_rows(a.drop_first()) + decode_rows(b)) =~= (
                seq![msg_of(a[0], mt)] + decode_rows(a.drop_first())) + decode_rows(b));
            },
            Option::None => {},
        }
    }
}

/// Decoding a single row.
proof fn lemma_decode_single(r: RowView)
    ensures
        decode_rows(seq![r]) == match sp_mt(r.content_type) {
            Option::Some(mt) => seq![msg_of(r, mt)],
            Option::None => Seq::<MessageView>::empty(),
        },
{
    assert(seq![r].drop_first() =~= Seq::<RowView>::empty());
    assert(decode_rows(Seq::<RowView>::empty()) == Seq::<MessageView>::empty());
    match sp_mt(r.content_type) {
        Option::Some(mt) => {
            assert(seq![msg_of(r, mt)] + Seq::<MessageView>::empty() =~= seq![msg_of(r, mt)]);
            assert(seq![r][0] == r);
        },
        Option::None => {},
    }
}

/// Inserting into a sequence inserts into its multiset.
proof fn lemma_insert_multiset(s: Seq<usize>, p: int, v: usize)
    requires
        0 <= p <= s.len(),
    ensures
        s.insert(p, v).to_multiset() == s.to_multiset().insert(v),
{
    broadcast use vstd::seq_lib::group_to_multiset_ensures;

    let a = s.subrange(0, p);
    let b = s.subrange(p, s.len() as int);
    assert(s.insert(p, v) == a.push(v) + b);
    vstd::seq_lib::lemma_multiset_commutative(a.push(v), b);
    assert(s =~= a + b);
    vstd::seq_lib::lemma_multiset_commutative(a, b);
    assert(s.insert(p, v).to_multiset() =~= s.to_multiset().insert(v));
}

/// Which rows a query keeps.
enum QueryFilter {
    User(u128),
    Pair(u128, u128),
}

/// The predicate a filter stands for.
spec fn filter_pred(q: QueryFilter) -> spec_fn(RowView) -> bool {
    match q {
        QueryFilter::User(u) => user_pred(u),
        QueryFilter::Pair(a, b) => pair_pred(a, b),
    }
}

/// Whether the filter keeps this row.
fn row_matches(q: &QueryFilter, row: &DbMessage) -> (r: bool)
    ensures
        r == filter_pred(*q)(row@),
{
    match q {
        QueryFilter::User(u) => row.sender_id == *u || row.receiver_id == *u,
        QueryFilter::Pair(a, b) => (row.sender_id == *a && row.receiver_id == *b) || (
        row.sender_id == *b && row.receiver_id == *a),
    }
}

impl Storage {
    /// The position order, decided on the rows themselves.
    fn idx_le(&self, a: usize, b: usize) -> (r: bool)
        requires
            a < self@.len(),
            b < self@.len(),
        ensures
            r == idx_order(self@)(a, b),
    {
        let ra = &self.rows[a];
        let rb = &self.rows[b];
        let before_ab = ra.created_at > rb.created_at || (ra.created_at == rb.created_at && ra.id
            < rb.id);
        let before_ba = rb.created_at > ra.created_at || (rb.created_at == ra.created_at && rb.id
            < ra.id);
        before_ab || (!before_ba && a <= b)
    }

    /// Filter, order newest-first, paginate, decode — the one query engine
    /// behind both history reads.
    #[verifier::rlimit(100)]
    fn query(&self, q: QueryFilter, limit: usize, offset: usize) -> (r: Vec<Message>)
        ensures
            r@.map_values(|m: Message| m@) == decode_rows(
                page(sorted_matches(self@, filter_pred(q)), offset as int, limit as int),
            ),
    {
        broadcast use vstd::seq_lib::group_filter_ensures;
        broadcast use vstd::seq_lib::group_to_multiset_ensures;

        let ghost rows = self@;
        let ghost p = filter_pred(q);
        let ghost leq = idx_order(rows);
        proof {
            lemma_idx_order_total(rows);
        }
        let n = self.rows.len();
        // keep the matching positions, in store order
        let mut idx: Vec<usize> = Vec::new();
        let mut i: usize = 0;
        proof {
            assert(idx@ =~= Seq::new(0, |k: int| k as usize).filter(
                |k: usize| p(rows[k as int]),
            )) by {
                reveal(Seq::filter);
                assert(Seq::new(0, |k: int| k as usize).len() == 0);
            }
        }
        while i < n
            invariant
                i <= n,
                n == rows.len(),
                rows == self@,
                p == filter_pred(q),
                idx@ == Seq::new(i as nat, |k: int| k as usize).filter(
                    |k: usize| p(rows[k as int]),
                ),
                forall|t: int| 0 <= t < idx@.len() ==> #[trigger] idx@[t] < i,
            decreases n - i,
        {
            proof {
                let prev = Seq::new(i as nat, |k: int| k as usize);
                let next = Seq::new((i + 1) as nat, |k: int| k as usize);
                assert(next =~= prev.push(i as usize));
                prev.lemma_filter_push(i as usize, |k: usize| p(rows[k as int]));
            }
            if row_matches(&q, &self.rows[i]) {
                idx.push(i);
            }
            i = i + 1;
        }
        proof {
            assert(idx@ == matching_indices(rows, p));
        }
        // order them, newest creation first
        let m = idx.len();
        let mut sorted_idx: Vec<usize> = Vec::new();
        let mut k: usize = 0;
        while k < m
            invariant
                k <= m,
                m == idx@.len(),
                rows == self@,
                leq == idx_order(rows),
                vstd::relations::total_ordering(leq),
                forall|t: int| 0 <= t < idx@.len() ==> #[trigger] idx@[t] < rows.len(),
                forall|t: int| 0 <= t < sorted_idx@.len() ==> #[trigger] sorted_idx@[t]
                    < rows.len(),
                vstd::relations::sorted_by(sorted_idx@, leq),
                sorted_idx@.to_multiset() == idx@.take(k as int).to_multiset(),
                sorted_idx@.len() == k,
            decreases m - k,
        {
            let v = idx[k];
            let sl = sorted_idx.len();
            let mut pos: usize = 0;
            while pos < sl && self.idx_le(sorted_idx[pos], v)
                invariant
                    pos <= sl,
                    sl == sorted_idx@.len(),
                    rows == self@,
                    leq == idx_order(rows),
                    v == idx@[k as int],
                    v < rows.len(),
                    forall|t: int| 0 <= t < sorted_idx@.len() ==> #[trigger] sorted_idx@[t]
                        < rows.len(),
                    forall|t: int| 0 <= t < pos ==> leq(#[trigger] sorted_idx@[t], v),
                decreases sl - pos,
            {
                pos = pos + 1;
            }
            proof {
                if pos < sl {
                    assert(!leq(sorted_idx@[pos as int], v));
                    assert(leq(v, sorted_idx@[pos as int]));
                }
                assert forall|t: int| pos <= t < sl implies leq(v, #[trigger] sorted_idx@[t]) by {
                    assert(leq(v, sorted_idx@[pos as int]));
                    if t > pos {
                        assert(leq(sorted_idx@[pos as int], sorted_idx@[t]));
                    }
                }
                lemma_insert_multiset(sorted_idx@, pos as int, v);
                sorted_idx@.insert_ensures(pos as int, v);
                assert(idx@.take(k as int + 1) =~= idx@.take(k as int).push(v));
            }
            sorted_idx.insert(pos, v);
            proof {
                vstd::seq_lib::to_multiset_build(idx@.take(k as int), v);
                assert(idx@.take(k as int).push(v).to_multiset() == idx@.take(
                    k as int,
                ).to_multiset().insert(v));
                assert(vstd::relations::sorted_by(sorted_idx@, leq)) by {
                    assert forall|a: int, b: int| 0 <= a < b < sorted_idx@.len() implies leq(
                        sorted_idx@[a],
                        sorted_idx@[b],
                    ) by {}
                }
            }
            k = k + 1;
        }
        proof {
            assert(idx@.take(m as int) =~= idx@);
            matching_indices(rows, p).lemma_sort_by_ensures(leq);
            vstd::seq_lib::lemma_sorted_unique(
                sorted_idx@,
                matching_indices(rows, p).sort_by(leq),
                leq,
            );
            assert(sorted_idx@ == matching_indices(rows, p).sort_by(leq));
        }
        let ghost srows = sorted_matches(rows, p);
        proof {
            assert(srows == sorted_idx@.map_values(|t: usize| rows[t as int]));
        }
        // the window
        let total = sorted_idx.len();
        let start = if offset < total {
            offset
        } else {
            total
        };
        let rem = total - start;
        let take_n = if limit < rem {
            limit
        } else {
            rem
        };
        let end = start + take_n;
        proof {
            assert(page(srows, offset as int, limit as int) =~= srows.subrange(
                start as int,
                end as int,
            ));
        }
        // decode, skipping rows whose content kind no longer reads back
        let mut result: Vec<Message> = Vec::new();
        let mut j: usize = start;
        proof {
            assert(result@.map_values(|mm: Message| mm@) =~= decode_rows(
                srows.subrange(start as int, start as int),
            )) by {
                assert(srows.subrange(start as int, start as int) =~= Seq::<RowView>::empty());
            }
        }
        while j < end
            invariant
                start <= j <= end,
                end <= total,
                total == sorted_idx@.len(),
                rows == self@,
                srows == sorted_idx@.map_values(|t: usize| rows[t as int]),
                forall|t: int| 0 <= t < sorted_idx@.len() ==> #[trigger] sorted_idx@[t]
                    < rows.len(),
                result@.map_values(|mm: Message| mm@) == decode_rows(
                    srows.subrange(start as int, j as int),
                ),
            decreases end - j,
        {
            let ri = sorted_idx[j];
            let row = &self.rows[ri];
            proof {
                assert(srows[j as int] == rows[sorted_idx@[j as int] as int]);
                assert(srows.subrange(start as int, j as int + 1) =~= srows.subrange(
                    start as int,
                    j as int,
                ) + seq![srows[j as int]]);
                lemma_decode_concat(
                    srows.subrange(start as int, j as int),
                    seq![srows[j as int]],
                );
            }
            match parse_message_type(row.content_type.as_str()) {
                Option::Some(mt) => {
                    let msg = Message {
                        id: row.id,
                        sender_id: row.sender_id,
                        receiver_id: row.receiver_id,
                        content: row.content.clone(),
                        content_type: mt,
                        created_at: row.created_at,
                        read_at: row.read_at,
                    };
                    proof {
                        let single = seq![srows[j as int]];
                        lemma_decode_single(srows[j as int]);
                        assert(sp_mt(srows[j as int].content_type) == Option::Some(mt@));
                        assert(msg@ == msg_of(srows[j as int], mt@));
                        assert(result@.push(msg).map_values(|mm: Message| mm@) =~= result@.map_values(
                            |mm: Message| mm@,
                        ).push(msg@));
                    }
                    result.push(msg);
                },
                Option::None => {
                    proof {
                        let single = seq![srows[j as int]];
                        lemma_decode_single(srows[j as int]);
                        assert(sp_mt(srows[j as int].content_type) is None);
                        assert(decode_rows(srows.subrange(start as int, j as int)) + decode_rows(
                            single,
                        ) =~= decode_rows(srows.subrange(start as int, j as int)));
                    }
                },
            }
            j = j + 1;
        }
        result
    }

    /// Messages where the user is sender or receiver, ordered by creation
    /// timestamp descending (ties by identifier), windowed by
    /// `limit`/`offset`, with undecodable content kinds skipped.
    pub fn get_user_messages(&self, user_id: u128, limit: usize, offset: usize) -> (r: Vec<
        Message,
    >)
        ensures
            r@.map_values(|m: Message| m@) == user_messages(
                self@,
                user_id,
                limit as int,
                offset as int,
            ),
    {
        self.query(QueryFilter::User(user_id), limit, offset)
    }

    /// Messages exchanged between the two users, same ordering, windowing
    /// and skip policy as `get_user_messages`.
    pub fn get_conversation_messages(
        &self,
        user_id: u128,
        other_user_id: u128,
        limit: usize,
        offset: usize,
    ) -> (r: Vec<Message>)
        ensures
            r@.map_values(|m: Message| m@) == conversation_messages(
                self@,
                user_id,
                other_user_id,
                limit as int,
                offset as int,
            ),
    {
        self.query(QueryFilter::Pair(user_id, other_user_id), limit, offset)
    }
}

// ---------------------------------------------------------------------------
// Laws of ordering and pagination.
// ---------------------------------------------------------------------------
/// Creation timestamps never increase along the sequence.
pub open spec fn rows_nonincreasing(s: Seq<RowView>) -> bool {
    forall|i: int, j: int|
        0 <= i < j < s.len() ==> #[trigger] s[j].created_at <= #[trigger] s[i].created_at
}

/// Creation timestamps never increase along the result.
pub open spec fn msgs_nonincreasing(s: Seq<MessageView>) -> bool {
    forall|i: int, j: int|
        0 <= i < j < s.len() ==> #[trigger] s[j].created_at <= #[trigger] s[i].created_at
}

/// Decoded messages stay under any bound their rows were under.
proof fn lemma_decode_created_bound(s: Seq<RowView>, c: i64)
    requires
        forall|i: int| 0 <= i < s.len() ==> #[trigger] s[i].created_at <= c,
    ensures
        forall|k: int|
            0 <= k < decode_rows(s).len() ==> #[trigger] decode_rows(s)[k].created_at <= c,
    decreases s.len(),
{
    if s.len() == 0 {
    } else {
        assert(forall|i: int|
            0 <= i < s.drop_first().len() ==> #[trigger] s.drop_first()[i].created_at <= c);
        lemma_decode_created_bound(s.drop_first(), c);
        assert(s[0].created_at <= c);
    }
}

/// Decoding keeps the newest-first order: the result is a subsequence in
/// the same order.
proof fn lemma_decode_order(s: Seq<RowView>)
    requires
        rows_nonincreasing(s),
    ensures
        msgs_nonincreasing(decode_rows(s)),
    decreases s.len(),
{
    if s.len() == 0 {
    } else {
        let tail = s.drop_first();
        assert(rows_nonincreasing(tail)) by {
            assert forall|i: int, j: int| 0 <= i < j < tail.len() implies #[trigger] tail[j].created_at
                <= #[trigger] tail[i].created_at by {
                assert(tail[i] == s[i + 1]);
                assert(tail[j] == s[j + 1]);
            }
        }
        lemma_decode_order(tail);
        assert(forall|i: int| 0 <= i < tail.len() ==> #[trigger] tail[i].created_at <= s[0].created_at);
        lemma_decode_created_bound(tail, s[0].created_at);
        match sp_mt(s[0].content_type) {
            Option::Some(mt) => {
                let d = decode_rows(s);
                assert(d == seq![msg_of(s[0], mt)] + decode_rows(tail));
                assert forall|i: int, j: int| 0 <= i < j < d.len() implies #[trigger] d[j].created_at
                    <= #[trigger] d[i].created_at by {
                    if i == 0 {
                        assert(d[j] == decode_rows(tail)[j - 1]);
                    } else {
                        assert(d[i] == decode_rows(tail)[i - 1]);
                        assert(d[j] == decode_rows(tail)[j - 1]);
                    }
                }
            },
            Option::None => {},
        }
    }
}

/// The matching rows come out newest creation first.
proof fn lemma_sorted_matches_order(rows: Seq<RowView>, pred: spec_fn(RowView) -> bool)
    ensures
        rows_nonincreasing(sorted_matches(rows, pred)),
{
    let leq = idx_order(rows);
    lemma_idx_order_total(rows);
    matching_indices(rows, pred).lemma_sort_by_ensures(leq);
    let sidx = matching_indices(rows, pred).sort_by(leq);
    let sm = sorted_matches(rows, pred);
    assert forall|i: int, j: int| 0 <= i < j < sm.len() implies #[trigger] sm[j].created_at
        <= #[trigger] sm[i].created_at by {
        assert(leq(sidx[i], sidx[j]));
        assert(sm[i] == rows[sidx[i] as int]);
        assert(sm[j] == rows[sidx[j] as int]);
    }
}

/// Both history queries return results whose creation timestamps never
/// increase, whatever window is asked for: the ordering law behind
/// `get_user_messages` (`user_pred`) and `get_conversation_messages`
/// (`pair_pred`).
pub proof fn lemma_query_ordering(
    rows: Seq<RowView>,
    pred: spec_fn(RowView) -> bool,
    limit: int,
    offset: int,
)
    requires
        0 <= offset,
        0 <= limit,
    ensures
        msgs_nonincreasing(decode_rows(page(sorted_matches(rows, pred), offset, limit))),
{
    lemma_sorted_matches_order(rows, pred);
    let sm = sorted_matches(rows, pred);
    let pg = page(sm, offset, limit);
    let lo = if offset <= sm.len() {
        offset
    } else {
        sm.len() as int
    };
    assert(rows_nonincreasing(pg)) by {
        assert forall|i: int, j: int| 0 <= i < j < pg.len() implies #[trigger] pg[j].created_at
            <= #[trigger] pg[i].created_at by {
            assert(pg[i] == sm[lo + i]);
            assert(pg[j] == sm[lo + j]);
            assert(sm[lo + j].created_at <= sm[lo + i].created_at);
        }
    }
    lemma_decode_order(pg);
}

/// The window slices the one full ordering without altering it: the full
/// decoded history is what comes before the window, then exactly the
/// windowed result, then what comes after. The pagination law behind
/// `get_user_messages` and `get_conversation_messages`.
pub proof fn lemma_query_pagination(
    rows: Seq<RowView>,
    pred: spec_fn(RowView) -> bool,
    limit: int,
    offset: int,
)
    requires
        0 <= offset,
        0 <= limit,
    ensures
        ({
            let sm = sorted_matches(rows, pred);
            let lo = if offset <= sm.len() {
                offset
            } else {
                sm.len() as int
            };
            let hi = if offset + limit <= sm.len() {
                offset + limit
            } else {
                sm.len() as int
            };
            decode_rows(sm) == decode_rows(sm.subrange(0, lo)) + decode_rows(
                page(sm, offset, limit),
            ) + decode_rows(sm.subrange(hi, sm.len() as int))
        }),
{
    let sm = sorted_matches(rows, pred);
    let lo = if offset <= sm.len() {
        offset
    } else {
        sm.len() as int
    };
    let hi = if offset + limit <= sm.len() {
        offset + limit
    } else {
        sm.len() as int
    };
    assert(page(sm, offset, limit) == sm.subrange(lo, hi));
    assert(sm =~= (sm.subrange(0, lo) + sm.subrange(lo, hi)) + sm.subrange(hi, sm.len() as int));
    lemma_decode_concat(sm.subrange(0, lo) + sm.subrange(lo, hi), sm.subrange(hi, sm.len() as int));
    lemma_decode_concat(sm.subrange(0, lo), sm.subrange(lo, hi));
}

// ---------------------------------------------------------------------------
// Laws of read-marking.
// ---------------------------------------------------------------------------
/// Marking the same identifiers twice changes nothing the second time: the
/// second application finds no unread listed row left, whatever times the
/// two applications used.
pub proof fn lemma_mark_idempotent(
    rows: Seq<RowView>,
    ids: Seq<u128>,
    receiver_id: u128,
    t1: i64,
    t2: i64,
)
    ensures
        mark_rows(mark_rows(rows, ids, receiver_id, t1), ids, receiver_id, t2) == mark_rows(
            rows,
            ids,
            receiver_id,
            t1,
        ),
{
    let once = mark_rows(rows, ids, receiver_id, t1);
    assert forall|i: int| 0 <= i < once.len() implies #[trigger] mark_rows(
        once,
        ids,
        receiver_id,
        t2,
    )[i] == once[i] by {
        assert(once[i] == mark_row(rows[i], ids, receiver_id, t1));
    }
    assert(mark_rows(once, ids, receiver_id, t2) =~= once);
}

/// Marking lowers the unread count by exactly the number of listed,
/// previously-unread rows owned by the receiver.
pub proof fn lemma_unread_count_after_mark(
    rows: Seq<RowView>,
    ids: Seq<u128>,
    receiver_id: u128,
    now: i64,
)
    ensures
        marked_count(rows, ids, receiver_id) <= unread_count(rows, receiver_id),
        unread_count(mark_rows(rows, ids, receiver_id, now), receiver_id) == unread_count(
            rows,
            receiver_id,
        ) - marked_count(rows, ids, receiver_id),
    decreases rows.len(),
{
    if rows.len() == 0 {
        assert(mark_rows(rows, ids, receiver_id, now) =~= rows);
    } else {
        let head = rows.drop_last();
        lemma_unread_count_after_mark(head, ids, receiver_id, now);
        assert(mark_rows(rows, ids, receiver_id, now).drop_last() =~= mark_rows(
            head,
            ids,
            receiver_id,
            now,
        ));
        assert(mark_rows(rows, ids, receiver_id, now).last() == mark_row(
            rows.last(),
            ids,
            receiver_id,
            now,
        ));
    }
}

} // verus!
