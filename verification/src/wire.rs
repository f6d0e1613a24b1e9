//! The text-frame grammar for commands and events.
//!
//! Every envelope travels as one JSON text document in a fixed, canonical
//! form: object keys in declaration order, no inter-token whitespace,
//! identifiers as 32 lowercase hex digits, timestamps as decimal
//! milliseconds, and inside string literals exactly `\"`, `\\` and `\u00XX`
//! (for control characters) as escapes. The spec functions below define that
//! grammar; the encoders produce it and the parsers accept it and nothing
//! else. A frame that deviates from the grammar is not a frame of any value,
//! and the parsers return `None` for it — the silent-drop contract at the
//! protocol boundary.

use vstd::prelude::*;

use crate::protocol::CommandView;
use crate::protocol::EventView;
use crate::protocol::Message;
use crate::protocol::MessageType;
use crate::protocol::MessageTypeView;
use crate::protocol::MessageView;
use crate::protocol::WebSocketCommand;
use crate::protocol::WebSocketEvent;
use crate::sys::push_char;

verus! {

// ---------------------------------------------------------------------------
// The grammar, as spec functions.
// ---------------------------------------------------------------------------
/// The sixteen digit characters, lowercase; an out-of-range index is mapped
/// to a non-digit so the function stays total.
pub open spec fn hex_digit(d: int) -> char {
    if d == 0 {
        '0'
    } else if d == 1 {
        '1'
    } else if d == 2 {
        '2'
    } else if d == 3 {
        '3'
    } else if d == 4 {
        '4'
    } else if d == 5 {
        '5'
    } else if d == 6 {
        '6'
    } else if d == 7 {
        '7'
    } else if d == 8 {
        '8'
    } else if d == 9 {
        '9'
    } else if d == 10 {
        'a'
    } else if d == 11 {
        'b'
    } else if d == 12 {
        'c'
    } else if d == 13 {
        'd'
    } else if d == 14 {
        'e'
    } else if d == 15 {
        'f'
    } else {
        'x'
    }
}

/// The low `n` hex digits of `v`, most significant first.
pub open spec fn hex_str(v: nat, n: nat) -> Seq<char>
    decreases n,
{
    if n == 0 {
        Seq::empty()
    } else {
        hex_str(v / 16, (n - 1) as nat).push(hex_digit((v % 16) as int))
    }
}

/// An identifier on the wire: exactly 32 lowercase hex digits.
pub open spec fn id_str(v: u128) -> Seq<char> {
    hex_str(v as nat, 32)
}

/// Canonical decimal: no sign, no leading zero except for zero itself.
pub open spec fn dec_str(v: nat) -> Seq<char>
    decreases v,
{
    if v < 10 {
        seq![hex_digit(v as int)]
    } else {
        dec_str(v / 10).push(hex_digit((v % 10) as int))
    }
}

/// A possibly negative decimal.
pub open spec fn int_str(v: int) -> Seq<char> {
    if v >= 0 {
        dec_str(v as nat)
    } else {
        seq!['-'] + dec_str((-v) as nat)
    }
}

/// How one character of a string literal appears on the wire.
pub open spec fn esc_char(c: char) -> Seq<char> {
    if c == '"' {
        seq!['\\', '"']
    } else if c == '\\' {
        seq!['\\', '\\']
    } else if (c as u32) < 32 {
        seq!['\\', 'u', '0', '0', hex_digit((c as u32) as int / 16), hex_digit(
            (c as u32) as int % 16,
        )]
    } else {
        seq![c]
    }
}

/// A whole string literal body (without the surrounding quotes).
pub open spec fn esc(s: Seq<char>) -> Seq<char>
    decreases s.len(),
{
    if s.len() == 0 {
        Seq::empty()
    } else {
        esc_char(s[0]) + esc(s.drop_first())
    }
}

/// An identifier in quotes.
pub open spec fn quoted_id(v: u128) -> Seq<char> {
    seq!['"'] + id_str(v) + seq!['"']
}

/// Comma-separated quoted identifiers.
pub open spec fn id_list(ids: Seq<u128>) -> Seq<char>
    decreases ids.len(),
{
    if ids.len() == 0 {
        Seq::empty()
    } else if ids.len() == 1 {
        quoted_id(ids[0])
    } else {
        quoted_id(ids[0]) + seq![','] + id_list(ids.drop_first())
    }
}

/// A JSON array of identifiers.
pub open spec fn ids_array(ids: Seq<u128>) -> Seq<char> {
    seq!['['] + id_list(ids) + seq![']']
}

/// An optional timestamp: `null` when unset.
pub open spec fn opt_int_str(o: Option<i64>) -> Seq<char> {
    match o {
        Option::None => "null"@,
        Option::Some(t) => int_str(t as int),
    }
}

/// The content-kind tag as a structured JSON value — also the form it is
/// persisted in, in the store's content-kind column.
pub open spec fn mt_frame(mt: MessageTypeView) -> Seq<char> {
    match mt {
        MessageTypeView::Text => "\"Text\""@,
        MessageTypeView::File { filename, size } => "{\"File\":{\"filename\":\""@ + esc(filename)
            + "\",\"size\":"@ + dec_str(size as nat) + "}}"@,
        MessageTypeView::Voice { duration } => "{\"Voice\":{\"duration\":"@ + dec_str(
            duration as nat,
        ) + "}}"@,
        MessageTypeView::Video { duration } => "{\"Video\":{\"duration\":"@ + dec_str(
            duration as nat,
        ) + "}}"@,
    }
}

/// A message as a JSON object.
pub open spec fn message_json(m: MessageView) -> Seq<char> {
    "{\"id\":\""@ + id_str(m.id) + "\",\"sender_id\":\""@ + id_str(m.sender_id)
        + "\",\"receiver_id\":\""@ + id_str(m.receiver_id) + "\",\"content\":\""@ + esc(m.content)
        + "\",\"content_type\":"@ + mt_frame(m.content_type) + ",\"created_at\":"@ + int_str(
        m.created_at as int,
    ) + ",\"read_at\":"@ + opt_int_str(m.read_at) + "}"@
}

/// The one text frame that carries a given command.
pub open spec fn command_frame(c: CommandView) -> Seq<char> {
    match c {
        CommandView::SendMessage { content, receiver_id } => "{\"SendMessage\":{\"content\":\""@
            + esc(content) + "\",\"receiver_id\":\""@ + id_str(receiver_id) + "\"}}"@,
        CommandView::MarkAsRead { message_ids } => "{\"MarkAsRead\":{\"message_ids\":"@
            + ids_array(message_ids) + "}}"@,
        CommandView::Typing { receiver_id } => "{\"Typing\":{\"receiver_id\":\""@ + id_str(
            receiver_id,
        ) + "\"}}"@,
    }
}

/// The one text frame that carries a given event.
pub open spec fn event_frame(e: EventView) -> Seq<char> {
    match e {
        EventView::MessageReceived(m) => "{\"MessageReceived\":"@ + message_json(m) + "}"@,
        EventView::MessageRead { message_ids, user_id } => "{\"MessageRead\":{\"message_ids\":"@
            + ids_array(message_ids) + ",\"user_id\":\""@ + id_str(user_id) + "\"}}"@,
        EventView::UserTyping { user_id } => "{\"UserTyping\":{\"user_id\":\""@ + id_str(user_id)
            + "\"}}"@,
        EventView::UserOnline(u) => "{\"UserOnline\":\""@ + id_str(u) + "\"}"@,
        EventView::UserOffline(u) => "{\"UserOffline\":\""@ + id_str(u) + "\"}"@,
    }
}

// ---------------------------------------------------------------------------
// Encoders.
// ---------------------------------------------------------------------------
/// One digit as a character.
fn hex_char(d: u8) -> (c: char)
    requires
        d < 16,
    ensures
        c == hex_digit(d as int),
{
    if d == 0 {
        '0'
    } else if d == 1 {
        '1'
    } else if d == 2 {
        '2'
    } else if d == 3 {
        '3'
    } else if d == 4 {
        '4'
    } else if d == 5 {
        '5'
    } else if d == 6 {
        '6'
    } else if d == 7 {
        '7'
    } else if d == 8 {
        '8'
    } else if d == 9 {
        '9'
    } else if d == 10 {
        'a'
    } else if d == 11 {
        'b'
    } else if d == 12 {
        'c'
    } else if d == 13 {
        'd'
    } else if d == 14 {
        'e'
    } else {
        'f'
    }
}

/// Appends the low `n` hex digits of `v`.
fn push_hex(out: &mut String, v: u128, n: u32)
    ensures
        final(out)@ == old(out)@ + hex_str(v as nat, n as nat),
    decreases n,
{
    if n == 0 {
        proof {
            assert(final(out)@ =~= old(out)@ + hex_str(v as nat, 0));
        }
    } else {
        push_hex(out, v / 16, n - 1);
        let d: u8 = (v % 16) as u8;
        push_char(out, hex_char(d));
        proof {
            assert((v % 16) as nat == (v as nat) % 16);
            assert((v / 16) as nat == (v as nat) / 16);
            assert(final(out)@ =~= old(out)@ + hex_str(v as nat, n as nat));
        }
    }
}

/// Appends the canonical decimal form of `v`.
fn push_dec(out: &mut String, v: u64)
    ensures
        final(out)@ == old(out)@ + dec_str(v as nat),
    decreases v,
{
    if v < 10 {
        push_char(out, hex_char(v as u8));
        proof {
            assert(final(out)@ =~= old(out)@ + dec_str(v as nat));
        }
    } else {
        push_dec(out, v / 10);
        push_char(out, hex_char((v % 10) as u8));
        proof {
            assert((v % 10) as nat == (v as nat) % 10);
            assert((v / 10) as nat == (v as nat) / 10);
            assert(final(out)@ =~= old(out)@ + dec_str(v as nat));
        }
    }
}

/// Appends a possibly negative decimal.
fn push_int(out: &mut String, v: i64)
    ensures
        final(out)@ == old(out)@ + int_str(v as int),
{
    if v >= 0 {
        push_dec(out, v as u64);
    } else {
        push_char(out, '-');
        let m: u64 = (-(v as i128)) as u64;
        proof {
            assert(m as nat == (-(v as int)) as nat);
        }
        push_dec(out, m);
        proof {
            assert(final(out)@ =~= old(out)@ + int_str(v as int));
        }
    }
}

/// `esc` distributes over extending the input by one character.
proof fn lemma_esc_push(t: Seq<char>, c: char)
    ensures
        esc(t.push(c)) == esc(t) + esc_char(c),
    decreases t.len(),
{
    if t.len() == 0 {
        assert(t.push(c)[0] == c);
        assert(t.push(c).drop_first() =~= Seq::<char>::empty());
        assert(esc(t.push(c)) == esc_char(c) + esc(Seq::<char>::empty()));
        assert(esc_char(c) + Seq::<char>::empty() =~= esc_char(c));
        assert(esc(t) + esc_char(c) =~= esc_char(c));
    } else {
        assert(t.push(c).drop_first() =~= t.drop_first().push(c));
        lemma_esc_push(t.drop_first(), c);
        assert(esc(t.push(c)) =~= esc(t) + esc_char(c));
    }
}

/// Appends the escaped body of `s`.
fn push_escaped(out: &mut String, s: &str)
    ensures
        final(out)@ == old(out)@ + esc(s@),
{
    let n = s.unicode_len();
    let mut i: usize = 0;
    while i < n
        invariant
            n == s@.len(),
            i <= n,
            out@ == old(out)@ + esc(s@.take(i as int)),
        decreases n - i,
    {
        let c = s.get_char(i);
        proof {
            assert(s@.take(i as int + 1) =~= s@.take(i as int).push(s@[i as int]));
            lemma_esc_push(s@.take(i as int), s@[i as int]);
        }
        if c == '"' {
            push_char(out, '\\');
            push_char(out, '"');
            proof {
                assert(out@ =~= old(out)@ + esc(s@.take(i as int + 1)));
            }
        } else if c == '\\' {
            push_char(out, '\\');
            push_char(out, '\\');
            proof {
                assert(out@ =~= old(out)@ + esc(s@.take(i as int + 1)));
            }
        } else {
            let u = c as u32;
            if u < 32 {
                push_char(out, '\\');
                push_char(out, 'u');
                push_char(out, '0');
                push_char(out, '0');
                push_char(out, hex_char((u / 16) as u8));
                push_char(out, hex_char((u % 16) as u8));
                proof {
                    assert(out@ =~= old(out)@ + esc(s@.take(i as int + 1)));
                }
            } else {
                push_char(out, c);
                proof {
                    assert(out@ =~= old(out)@ + esc(s@.take(i as int + 1)));
                }
            }
        }
        i = i + 1;
    }
    proof {
        assert(s@.take(n as int) =~= s@);
    }
}

/// Appends `"…"` around an identifier.
fn push_quoted_id(out: &mut String, v: u128)
    ensures
        final(out)@ == old(out)@ + quoted_id(v),
{
    push_char(out, '"');
    push_hex(out, v, 32);
    push_char(out, '"');
    proof {
        assert(final(out)@ =~= old(out)@ + quoted_id(v));
    }
}

/// Appends the comma-separated identifiers from index `from` on.
fn push_id_list(out: &mut String, ids: &Vec<u128>, from: usize)
    requires
        from <= ids@.len(),
    ensures
        final(out)@ == old(out)@ + id_list(ids@.skip(from as int)),
    decreases ids@.len() - from,
{
    let n = ids.len();
    if from == n {
        proof {
            assert(ids@.skip(from as int) =~= Seq::<u128>::empty());
            assert(final(out)@ =~= old(out)@ + id_list(ids@.skip(from as int)));
        }
    } else if from + 1 == n {
        push_quoted_id(out, ids[from]);
        proof {
            let rest = ids@.skip(from as int);
            assert(rest.len() == 1);
            assert(rest[0] == ids@[from as int]);
            assert(final(out)@ =~= old(out)@ + id_list(rest));
        }
    } else {
        push_quoted_id(out, ids[from]);
        push_char(out, ',');
        push_id_list(out, ids, from + 1);
        proof {
            let rest = ids@.skip(from as int);
            assert(rest.len() >= 2);
            assert(rest[0] == ids@[from as int]);
            assert(rest.drop_first() =~= ids@.skip(from as int + 1));
            assert(final(out)@ =~= old(out)@ + id_list(rest));
        }
    }
}

/// Appends `[…]` of identifiers.
fn push_ids_array(out: &mut String, ids: &Vec<u128>)
    ensures
        final(out)@ == old(out)@ + ids_array(ids@),
{
    push_char(out, '[');
    push_id_list(out, ids, 0);
    push_char(out, ']');
    proof {
        assert(ids@.skip(0) =~= ids@);
        assert(final(out)@ =~= old(out)@ + ids_array(ids@));
    }
}

/// Appends the content-kind tag.
fn push_mt(out: &mut String, mt: &MessageType)
    ensures
        final(out)@ == old(out)@ + mt_frame(mt@),
{
    match mt {
        MessageType::Text => {
            out.append("\"Text\"");
        },
        MessageType::File { filename, size } => {
            out.append("{\"File\":{\"filename\":\"");
            push_escaped(out, filename.as_str());
            out.append("\",\"size\":");
            push_dec(out, *size as u64);
            out.append("}}");
            proof {
                assert(final(out)@ =~= old(out)@ + mt_frame(mt@));
            }
        },
        MessageType::Voice { duration } => {
            out.append("{\"Voice\":{\"duration\":");
            push_dec(out, *duration as u64);
            out.append("}}");
            proof {
                assert(final(out)@ =~= old(out)@ + mt_frame(mt@));
            }
        },
        MessageType::Video { duration } => {
            out.append("{\"Video\":{\"duration\":");
            push_dec(out, *duration as u64);
            out.append("}}");
            proof {
                assert(final(out)@ =~= old(out)@ + mt_frame(mt@));
            }
        },
    }
}

/// The persisted form of a content-kind tag.
pub fn encode_message_type(mt: &MessageType) -> (r: String)
    ensures
        r@ == mt_frame(mt@),
{
    let mut out = String::new();
    push_mt(&mut out, mt);
    proof {
        assert(out@ =~= mt_frame(mt@));
    }
    out
}

/// Appends a message as a JSON object.
fn push_message(out: &mut String, m: &Message)
    ensures
        final(out)@ == old(out)@ + message_json(m@),
{
    out.append("{\"id\":\"");
    push_hex(out, m.id, 32);
    out.append("\",\"sender_id\":\"");
    push_hex(out, m.sender_id, 32);
    out.append("\",\"receiver_id\":\"");
    push_hex(out, m.receiver_id, 32);
    out.append("\",\"content\":\"");
    push_escaped(out, m.content.as_str());
    out.append("\",\"content_type\":");
    push_mt(out, &m.content_type);
    out.append(",\"created_at\":");
    push_int(out, m.created_at);
    out.append(",\"read_at\":");
    match &m.read_at {
        Option::None => {
            out.append("null");
        },
        Option::Some(t) => {
            push_int(out, *t);
        },
    }
    out.append("}");
    proof {
        assert(final(out)@ =~= old(out)@ + message_json(m@));
    }
}

/// The one text frame that carries `e`. What a connection task writes to its
/// socket is exactly this string.
pub fn encode_event(e: &WebSocketEvent) -> (r: String)
    ensures
        r@ == event_frame(e@),
{
    let mut out = String::new();
    match e {
        WebSocketEvent::MessageReceived(m) => {
            out.append("{\"MessageReceived\":");
            push_message(&mut out, m);
            out.append("}");
        },
        WebSocketEvent::MessageRead { message_ids, user_id } => {
            out.append("{\"MessageRead\":{\"message_ids\":");
            push_ids_array(&mut out, message_ids);
            out.append(",\"user_id\":\"");
            push_hex(&mut out, *user_id, 32);
            out.append("\"}}");
        },
        WebSocketEvent::UserTyping { user_id } => {
            out.append("{\"UserTyping\":{\"user_id\":\"");
            push_hex(&mut out, *user_id, 32);
            out.append("\"}}");
        },
        WebSocketEvent::UserOnline(u) => {
            out.append("{\"UserOnline\":\"");
            push_hex(&mut out, *u, 32);
            out.append("\"}");
        },
        WebSocketEvent::UserOffline(u) => {
            out.append("{\"UserOffline\":\"");
            push_hex(&mut out, *u, 32);
            out.append("\"}");
        },
    }
    proof {
        assert(out@ =~= event_frame(e@));
    }
    out
}

// ---------------------------------------------------------------------------
// Spec-level parsers: the unique reading of a canonical frame.
// ---------------------------------------------------------------------------
/// A lowercase hex digit character.
pub open spec fn is_hex_char(c: char) -> bool {
    (48 <= c as u32 && c as u32 <= 57) || (97 <= c as u32 && c as u32 <= 102)
}

/// A decimal digit character.
pub open spec fn is_dec_char(c: char) -> bool {
    48 <= c as u32 && c as u32 <= 57
}

/// The numeric value of a digit character.
pub open spec fn char_val(c: char) -> nat {
    if c as u32 >= 97 {
        (c as u32 - 87) as nat
    } else {
        (c as u32 - 48) as nat
    }
}

/// Sixteen to the `n`.
pub open spec fn pow16(n: nat) -> nat
    decreases n,
{
    if n == 0 {
        1nat
    } else {
        16 * pow16((n - 1) as nat)
    }
}

/// `n` hex digit characters starting at `pos`.
pub open spec fn hex_seq_ok(s: Seq<char>, pos: int, n: nat) -> bool {
    &&& 0 <= pos
    &&& pos + n <= s.len()
    &&& forall|k: int| 0 <= k < n ==> is_hex_char(#[trigger] s[pos + k])
}

/// The value of the `n` hex digits starting at `pos`, most significant first.
pub open spec fn hex_seq_val(s: Seq<char>, pos: int, n: nat) -> nat
    decreases n,
{
    if n == 0 {
        0nat
    } else {
        hex_seq_val(s, pos, (n - 1) as nat) * 16 + char_val(s[pos + n - 1])
    }
}

/// Digit characters round-trip through their values.
proof fn lemma_digit_chars(d: int, c: char)
    ensures
        0 <= d < 16 ==> is_hex_char(hex_digit(d)) && char_val(hex_digit(d)) == d,
        is_hex_char(c) ==> char_val(c) < 16 && hex_digit(char_val(c) as int) == c,
        is_dec_char(c) ==> char_val(c) < 10 && hex_digit(char_val(c) as int) == c,
{
}

/// `hex_str` has length `n`.
proof fn lemma_hex_str_len(v: nat, n: nat)
    ensures
        hex_str(v, n).len() == n,
    decreases n,
{
    if n > 0 {
        lemma_hex_str_len(v / 16, (n - 1) as nat);
    }
}

/// `dec_str` is nonempty and starts with a nonzero digit unless the value is
/// zero.
proof fn lemma_dec_str_shape(v: nat)
    ensures
        dec_str(v).len() >= 1,
        forall|k: int| 0 <= k < dec_str(v).len() ==> is_dec_char(#[trigger] dec_str(v)[k]),
        v >= 1 ==> dec_str(v)[0] != '0',
        v < 10 ==> dec_str(v).len() == 1,
        v >= 10 ==> dec_str(v).len() >= 2,
    decreases v,
{
    if v < 10 {
        lemma_digit_chars(v as int, '0');
    } else {
        lemma_dec_str_shape(v / 10);
        lemma_digit_chars((v % 10) as int, '0');
        assert(dec_str(v)[0] == dec_str(v / 10)[0]);
    }
}

/// Reading hex digits back gives the value they were printed from.
proof fn lemma_hex_str_val(s: Seq<char>, pos: int, n: nat, v: nat)
    requires
        0 <= pos,
        pos + n <= s.len(),
        v < pow16(n),
        s.subrange(pos, pos + n) == hex_str(v, n),
    ensures
        hex_seq_ok(s, pos, n),
        hex_seq_val(s, pos, n) == v,
    decreases n,
{
    if n == 0 {
    } else {
        lemma_hex_str_len(v / 16, (n - 1) as nat);
        assert(s.subrange(pos, pos + n)[n - 1] == s[pos + n - 1]);
        assert(s[pos + n - 1] == hex_digit((v % 16) as int));
        assert(s.subrange(pos, pos + n - 1) =~= hex_str(v / 16, (n - 1) as nat)) by {
            assert forall|k: int| 0 <= k < n - 1 implies #[trigger] s.subrange(pos, pos + n - 1)[k]
                == hex_str(v / 16, (n - 1) as nat)[k] by {
                assert(s.subrange(pos, pos + n)[k] == s[pos + k]);
            }
        }
        assert(v / 16 < pow16((n - 1) as nat)) by {
            assert(pow16(n) == 16 * pow16((n - 1) as nat));
        }
        lemma_hex_str_val(s, pos, (n - 1) as nat, v / 16);
        lemma_digit_chars((v % 16) as int, '0');
        assert(hex_seq_val(s, pos, n) == hex_seq_val(s, pos, (n - 1) as nat) * 16 + char_val(
            s[pos + n - 1],
        ));
        assert(char_val(s[pos + n - 1]) == v % 16);
        assert(forall|k: int| 0 <= k < n - 1 ==> is_hex_char(#[trigger] s[pos + k]));
        assert(is_hex_char(s[pos + n - 1]));
    }
}

/// Hex digits read at a position print back to the text they were read from.
proof fn lemma_hex_val_str(s: Seq<char>, pos: int, n: nat)
    requires
        hex_seq_ok(s, pos, n),
    ensures
        hex_seq_val(s, pos, n) < pow16(n),
        hex_str(hex_seq_val(s, pos, n), n) == s.subrange(pos, pos + n),
    decreases n,
{
    if n == 0 {
        assert(hex_str(0, 0) =~= s.subrange(pos, pos));
    } else {
        assert(forall|k: int| 0 <= k < n - 1 ==> is_hex_char(#[trigger] s[pos + k]));
        lemma_hex_val_str(s, pos, (n - 1) as nat);
        let a = hex_seq_val(s, pos, (n - 1) as nat);
        let d = char_val(s[pos + n - 1]);
        lemma_digit_chars(0, s[pos + n - 1]);
        let v = hex_seq_val(s, pos, n);
        assert(v == a * 16 + d);
        assert(v < pow16(n)) by {
            assert(a <= pow16((n - 1) as nat) - 1);
            assert(a * 16 <= (pow16((n - 1) as nat) - 1) * 16) by (nonlinear_arith)
                requires
                    a <= pow16((n - 1) as nat) - 1,
            ;
            assert(pow16(n) == 16 * pow16((n - 1) as nat));
        }
        assert(v % 16 == d && v / 16 == a) by {
            assert(d < 16);
        }
        assert(hex_str(v, n) == hex_str(a, (n - 1) as nat).push(hex_digit(d as int)));
        assert(hex_digit(d as int) == s[pos + n - 1]);
        lemma_hex_str_len(a, (n - 1) as nat);
        assert(hex_str(v, n) =~= s.subrange(pos, pos + n)) by {
            assert(forall|k: int| 0 <= k < n - 1 ==> s.subrange(pos, pos + n - 1)[k] == #[trigger] s.subrange(
                pos,
                pos + n,
            )[k]);
        }
    }
}

/// `pow16` is monotone.
proof fn lemma_pow16_le(a: nat, b: nat)
    requires
        a <= b,
    ensures
        pow16(a) <= pow16(b),
        pow16(a) >= 1,
    decreases b,
{
    if a == b {
        if a > 0 {
            lemma_pow16_le((a - 1) as nat, (a - 1) as nat);
        }
    } else {
        lemma_pow16_le(a, (b - 1) as nat);
    }
}

/// The identifier width fills `u128` exactly.
proof fn lemma_pow16_32()
    ensures
        pow16(32) == 0x100000000000000000000000000000000nat,
{
    reveal_with_fuel(pow16, 33);
}

// ---------------------------------------------------------------------------
// Exec helpers shared by the parsers.
// ---------------------------------------------------------------------------
/// The value of a digit character, if it is one (lowercase hex).
fn char_val_exec(c: char) -> (r: Option<u8>)
    ensures
        match r {
            Option::Some(d) => is_hex_char(c) && d as nat == char_val(c) && d < 16,
            Option::None => !is_hex_char(c),
        },
{
    let u = c as u32;
    if 48 <= u && u <= 57 {
        Option::Some((u - 48) as u8)
    } else if 97 <= u && u <= 102 {
        Option::Some((u - 87) as u8)
    } else {
        Option::None
    }
}

/// Reads exactly 32 hex digits at `pos` as an identifier value.
fn parse_id(s: &str, pos: usize) -> (r: Option<u128>)
    requires
        pos <= s@.len(),
    ensures
        match r {
            Option::Some(v) => hex_seq_ok(s@, pos as int, 32) && v as nat == hex_seq_val(
                s@,
                pos as int,
                32,
            ),
            Option::None => !hex_seq_ok(s@, pos as int, 32),
        },
{
    let n = s.unicode_len();
    if n - pos < 32 {
        return Option::None;
    }
    let mut acc: u128 = 0;
    let mut k: usize = 0;
    while k < 32
        invariant
            pos + 32 <= s@.len(),
            s@.len() <= usize::MAX,
            k <= 32,
            acc as nat == hex_seq_val(s@, pos as int, k as nat),
            (acc as nat) < pow16(k as nat),
            forall|j: int| 0 <= j < k ==> is_hex_char(#[trigger] s@[pos + j]),
        decreases 32 - k,
    {
        let c = s.get_char(pos + k);
        match char_val_exec(c) {
            Option::None => {
                proof {
                    assert(!is_hex_char(s@[pos + k as int]));
                }
                return Option::None;
            },
            Option::Some(d) => {
                proof {
                    lemma_pow16_le(k as nat + 1, 32);
                    lemma_pow16_32();
                    assert((acc as nat) * 16 + d < pow16(k as nat + 1)) by {
                        assert((acc as nat) <= pow16(k as nat) - 1);
                        assert(acc as nat * 16 <= (pow16(k as nat) - 1) * 16) by (nonlinear_arith)
                            requires
                                (acc as nat) <= pow16(k as nat) - 1,
                        ;
                        assert(pow16(k as nat + 1) == 16 * pow16(k as nat));
                    }
                }
                acc = acc * 16 + (d as u128);
                k = k + 1;
            },
        }
    }
    Option::Some(acc)
}

/// Checks that the literal stands at `pos`.
fn expect_lit(s: &str, pos: usize, lit: &str) -> (r: Option<usize>)
    requires
        pos <= s@.len(),
    ensures
        match r {
            Option::Some(q) => q == pos + lit@.len() && q <= s@.len() && s@.subrange(
                pos as int,
                q as int,
            ) == lit@,
            Option::None => !(pos + lit@.len() <= s@.len() && s@.subrange(
                pos as int,
                pos + lit@.len(),
            ) == lit@),
        },
{
    let n = s.unicode_len();
    let m = lit.unicode_len();
    if n - pos < m {
        return Option::None;
    }
    let mut k: usize = 0;
    while k < m
        invariant
            pos + m <= s@.len(),
            s@.len() <= usize::MAX,
            m == lit@.len(),
            k <= m,
            forall|j: int| 0 <= j < k ==> s@[pos + j] == lit@[j],
        decreases m - k,
    {
        if s.get_char(pos + k) != lit.get_char(k) {
            proof {
                assert(s@.subrange(pos as int, pos + m) != lit@) by {
                    assert(s@.subrange(pos as int, pos + m)[k as int] == s@[pos + k as int]);
                }
            }
            return Option::None;
        }
        k = k + 1;
    }
    proof {
        assert(s@.subrange(pos as int, pos + m) =~= lit@);
    }
    Option::Some(pos + m)
}

/// Reads a string-literal body from `pos` up to and including the closing
/// quote: the unique `w` with `esc(w) + "\"" ` standing at `pos`, and the
/// position after the quote.
pub open spec fn sp_str(s: Seq<char>, pos: int) -> Option<(Seq<char>, int)>
    decreases s.len() - pos,
{
    if pos < 0 || pos >= s.len() {
        Option::None
    } else if s[pos] == '"' {
        Option::Some((Seq::empty(), pos + 1))
    } else if s[pos] == '\\' {
        if pos + 1 >= s.len() {
            Option::None
        } else {
            let e = s[pos + 1];
            if e == '"' || e == '\\' {
                match sp_str(s, pos + 2) {
                    Option::None => Option::None,
                    Option::Some((w, q)) => Option::Some((seq![e] + w, q)),
                }
            } else if e == 'u' {
                if pos + 5 >= s.len() {
                    Option::None
                } else if s[pos + 2] == '0' && s[pos + 3] == '0' && is_hex_char(s[pos + 4])
                    && is_hex_char(s[pos + 5]) {
                    let v = char_val(s[pos + 4]) * 16 + char_val(s[pos + 5]);
                    if v < 32 {
                        match sp_str(s, pos + 6) {
                            Option::None => Option::None,
                            Option::Some((w, q)) => Option::Some(
                                (seq![((v as u32) as char)] + w, q),
                            ),
                        }
                    } else {
                        Option::None
                    }
                } else {
                    Option::None
                }
            } else {
                Option::None
            }
        }
    } else if (s[pos] as u32) >= 32 {
        match sp_str(s, pos + 1) {
            Option::None => Option::None,
            Option::Some((w, q)) => Option::Some((seq![s[pos]] + w, q)),
        }
    } else {
        Option::None
    }
}

/// What a successful string-literal read says about the text.
proof fn lemma_sp_str_sound(s: Seq<char>, pos: int, w: Seq<char>, q: int)
    requires
        sp_str(s, pos) == Option::Some((w, q)),
    ensures
        0 <= pos < q <= s.len(),
        s.subrange(pos, q) == esc(w) + seq!['"'],
    decreases s.len() - pos,
{
    if s[pos] == '"' {
        assert(s.subrange(pos, q) =~= esc(w) + seq!['"']);
    } else if s[pos] == '\\' {
        let e = s[pos + 1];
        if e == '"' || e == '\\' {
            let inner = sp_str(s, pos + 2);
            let (w2, q2) = inner->0;
            lemma_sp_str_sound(s, pos + 2, w2, q2);
            assert(w == seq![e] + w2);
            assert(w[0] == e);
            assert(w.drop_first() =~= w2);
            assert(esc(w) == esc_char(e) + esc(w2));
            assert(esc_char(e) =~= seq!['\\', e]);
            let mid = s.subrange(pos + 2, q2);
            assert(mid == esc(w2) + seq!['"']);
            assert(s.subrange(pos, q) =~= seq!['\\', e] + mid);
            assert(seq!['\\', e] + (esc(w2) + seq!['"']) =~= (esc_char(e) + esc(w2))
                + seq!['"']);
        } else {
            // the `\u00XX` form
            let v = char_val(s[pos + 4]) * 16 + char_val(s[pos + 5]);
            let c0 = (v as u32) as char;
            let inner = sp_str(s, pos + 6);
            let (w2, q2) = inner->0;
            lemma_sp_str_sound(s, pos + 6, w2, q2);
            assert(w == seq![c0] + w2);
            assert(w[0] == c0);
            assert(w.drop_first() =~= w2);
            lemma_digit_chars(0, s[pos + 4]);
            lemma_digit_chars(0, s[pos + 5]);
            assert(c0 as u32 == v);
            assert(esc_char(c0) =~= seq!['\\', 'u', '0', '0', s[pos + 4], s[pos + 5]]) by {
                assert(char_val(s[pos + 5]) < 16);
                assert(v as int / 16 == char_val(s[pos + 4]));
                assert(v as int % 16 == char_val(s[pos + 5]));
                assert(hex_digit(char_val(s[pos + 4]) as int) == s[pos + 4]);
                assert(hex_digit(char_val(s[pos + 5]) as int) == s[pos + 5]);
            }
            assert(esc(w) == esc_char(c0) + esc(w2));
            let mid = s.subrange(pos + 6, q2);
            assert(mid == esc(w2) + seq!['"']);
            assert(s.subrange(pos, q) =~= seq!['\\', 'u', '0', '0', s[pos + 4], s[pos + 5]]
                + mid);
            assert(seq!['\\', 'u', '0', '0', s[pos + 4], s[pos + 5]] + (esc(w2) + seq!['"']) =~= (
            esc_char(c0) + esc(w2)) + seq!['"']);
        }
    } else {
        let c0 = s[pos];
        let inner = sp_str(s, pos + 1);
        let (w2, q2) = inner->0;
        lemma_sp_str_sound(s, pos + 1, w2, q2);
        assert(w == seq![c0] + w2);
        assert(w[0] == c0);
        assert(w.drop_first() =~= w2);
        assert(esc_char(c0) =~= seq![c0]);
        assert(esc(w) == esc_char(c0) + esc(w2));
        let mid = s.subrange(pos + 1, q2);
        assert(mid == esc(w2) + seq!['"']);
        assert(s.subrange(pos, q) =~= seq![c0] + mid);
        assert(seq![c0] + (esc(w2) + seq!['"']) =~= (esc_char(c0) + esc(w2)) + seq!['"']);
    }
}

/// An escaped body followed by a quote is read back as exactly that body.
proof fn lemma_sp_str_complete(s: Seq<char>, pos: int, w: Seq<char>)
    requires
        0 <= pos,
        pos + esc(w).len() + 1 <= s.len(),
        s.subrange(pos, pos + esc(w).len() + 1) == esc(w) + seq!['"'],
    ensures
        sp_str(s, pos) == Option::Some((w, pos + esc(w).len() + 1)),
    decreases w.len(),
{
    let t = s.subrange(pos, pos + esc(w).len() + 1);
    if w.len() == 0 {
        assert(s[pos] == t[0]);
    } else {
        let c0 = w[0];
        let w2 = w.drop_first();
        assert(esc(w) == esc_char(c0) + esc(w2));
        let el = esc_char(c0).len();
        assert forall|k: int| 0 <= k < esc_char(c0).len() implies s[pos + k] == #[trigger] esc_char(
            c0,
        )[k] by {
            assert(s[pos + k] == s.subrange(pos, pos + esc(w).len() + 1)[k]);
            assert(t[k] == (esc(w) + seq!['"'])[k]);
            assert((esc(w) + seq!['"'])[k] == esc(w)[k]);
            assert(esc(w)[k] == (esc_char(c0) + esc(w2))[k]);
        }
        assert forall|k: int| 0 <= k < esc(w2).len() + 1 implies s[pos + el + k] == (esc(w2)
            + seq!['"'])[k] by {
            assert(s[pos + el + k] == s.subrange(pos, pos + esc(w).len() + 1)[el + k]);
            assert(t[el + k] == (esc(w) + seq!['"'])[el + k]);
        }
        assert(s.subrange(pos + el, pos + el + esc(w2).len() + 1) =~= esc(w2) + seq!['"']);
        lemma_sp_str_complete(s, pos + el, w2);
        if c0 == '"' {
            assert(s[pos] == '\\' && s[pos + 1] == '"');
            assert(sp_str(s, pos) == Option::Some((seq![c0] + w2, pos + esc(w).len() + 1)));
            assert(seq![c0] + w2 =~= w);
        } else if c0 == '\\' {
            assert(s[pos] == '\\' && s[pos + 1] == '\\');
            assert(seq![c0] + w2 =~= w);
        } else if (c0 as u32) < 32 {
            let u = c0 as u32;
            lemma_digit_chars(u as int / 16, '0');
            lemma_digit_chars(u as int % 16, '0');
            assert(s[pos] == '\\' && s[pos + 1] == 'u' && s[pos + 2] == '0' && s[pos + 3] == '0');
            assert(s[pos + 4] == hex_digit(u as int / 16));
            assert(s[pos + 5] == hex_digit(u as int % 16));
            assert(is_hex_char(s[pos + 4]) && is_hex_char(s[pos + 5]));
            let v = char_val(s[pos + 4]) * 16 + char_val(s[pos + 5]);
            assert(v == u);
            vstd::utf8::char_u32_cast(c0, v as u32);
            assert(((v as u32) as char) == c0);
            assert(seq![c0] + w2 =~= w);
        } else {
            assert(esc_char(c0) =~= seq![c0]);
            assert(s[pos + 0] == esc_char(c0)[0]);
            assert(s[pos] == c0);
            assert(seq![c0] + w2 =~= w);
        }
    }
}

/// Prepends onto the body of a successful read.
pub open spec fn opt_prepend(p: Seq<char>, o: Option<(Seq<char>, int)>) -> Option<
    (Seq<char>, int),
> {
    match o {
        Option::None => Option::None,
        Option::Some((w, q)) => Option::Some((p + w, q)),
    }
}

/// Reads a string-literal body ending in `"` starting at `pos`.
fn parse_string_lit(s: &str, pos: usize) -> (r: Option<(String, usize)>)
    requires
        pos <= s@.len(),
    ensures
        match r {
            Option::Some((w, q)) => sp_str(s@, pos as int) == Option::Some((w@, q as int)) && pos
                < q <= s@.len(),
            Option::None => sp_str(s@, pos as int) is None,
        },
{
    let n = s.unicode_len();
    let mut acc = String::new();
    let mut i = pos;
    loop
        invariant
            pos <= i <= n,
            n == s@.len(),
            n <= usize::MAX,
            sp_str(s@, pos as int) == opt_prepend(acc@, sp_str(s@, i as int)),
        decreases n - i,
    {
        if i >= n {
            return Option::None;
        }
        let c = s.get_char(i);
        if c == '"' {
            proof {
                assert(acc@ + Seq::<char>::empty() =~= acc@);
            }
            return Option::Some((acc, i + 1));
        }
        if c == '\\' {
            if i + 1 >= n {
                return Option::None;
            }
            let e = s.get_char(i + 1);
            if e == '"' || e == '\\' {
                proof {
                    let o = sp_str(s@, i as int + 2);
                    match o {
                        Option::None => {},
                        Option::Some((w, q)) => {
                            assert(acc@ + (seq![e] + w) =~= acc@.push(e) + w);
                        },
                    }
                }
                push_char(&mut acc, e);
                i = i + 2;
            } else if e == 'u' {
                if n - i < 6 {
                    return Option::None;
                }
                if s.get_char(i + 2) != '0' || s.get_char(i + 3) != '0' {
                    return Option::None;
                }
                let h1 = char_val_exec(s.get_char(i + 4));
                let h2 = char_val_exec(s.get_char(i + 5));
                match (h1, h2) {
                    (Option::Some(d1), Option::Some(d2)) => {
                        let v: u8 = d1 * 16 + d2;
                        if v >= 32 {
                            return Option::None;
                        }
                        let c0 = v as char;
                        proof {
                            assert(c0 as u32 == v as u32);
                            let o = sp_str(s@, i as int + 6);
                            match o {
                                Option::None => {},
                                Option::Some((w, q)) => {
                                    assert(acc@ + (seq![c0] + w) =~= acc@.push(c0) + w);
                                },
                            }
                        }
                        push_char(&mut acc, c0);
                        i = i + 6;
                    },
                    _ => {
                        return Option::None;
                    },
                }
            } else {
                return Option::None;
            }
        } else {
            let u = c as u32;
            if u < 32 {
                return Option::None;
            }
            proof {
                let o = sp_str(s@, i as int + 1);
                match o {
                    Option::None => {},
                    Option::Some((w, q)) => {
                        assert(acc@ + (seq![c] + w) =~= acc@.push(c) + w);
                    },
                }
            }
            push_char(&mut acc, c);
            i = i + 1;
        }
    }
}

/// Greedily reads decimal digits onto an already-read prefix value,
/// rejecting values above `max`.
pub open spec fn sp_dec_run(s: Seq<char>, pos: int, acc: nat, max: nat) -> Option<(nat, int)>
    decreases s.len() - pos,
{
    if 0 <= pos && pos < s.len() && is_dec_char(s[pos]) {
        if acc * 10 + char_val(s[pos]) > max {
            Option::None
        } else {
            sp_dec_run(s, pos + 1, acc * 10 + char_val(s[pos]), max)
        }
    } else {
        Option::Some((acc, pos))
    }
}

/// Reads a canonical decimal number at `pos`: one `0`, or a nonzero digit
/// followed greedily by digits, up to `max`.
pub open spec fn sp_dec(s: Seq<char>, pos: int, max: nat) -> Option<(nat, int)> {
    if 0 <= pos && pos < s.len() && is_dec_char(s[pos]) {
        if s[pos] == '0' {
            Option::Some((0, pos + 1))
        } else {
            sp_dec_run(s, pos, 0, max)
        }
    } else {
        Option::None
    }
}

/// Equal decimal prints come from equal values.
proof fn lemma_dec_str_inj(a: nat, b: nat)
    requires
        dec_str(a) == dec_str(b),
    ensures
        a == b,
    decreases a,
{
    lemma_dec_str_shape(a);
    lemma_dec_str_shape(b);
    if a < 10 && b < 10 {
        assert(dec_str(a)[0] == dec_str(b)[0]);
    } else if a >= 10 && b >= 10 {
        assert(dec_str(a).last() == dec_str(b).last());
        assert(dec_str(a).last() == hex_digit((a % 10) as int)) by {
            assert(dec_str(a) == dec_str(a / 10).push(hex_digit((a % 10) as int)));
        }
        assert(dec_str(b).last() == hex_digit((b % 10) as int)) by {
            assert(dec_str(b) == dec_str(b / 10).push(hex_digit((b % 10) as int)));
        }
        lemma_digit_chars((a % 10) as int, '0');
        lemma_digit_chars((b % 10) as int, '0');
        assert(char_val(hex_digit((a % 10) as int)) == a % 10);
        assert(char_val(hex_digit((b % 10) as int)) == b % 10);
        assert(a % 10 == b % 10);
        assert(dec_str(a).drop_last() =~= dec_str(a / 10));
        assert(dec_str(b).drop_last() =~= dec_str(b / 10));
        lemma_dec_str_inj(a / 10, b / 10);
    }
}

/// A value whose print is a prefix of another's is no larger.
proof fn lemma_dec_prefix_le(v: nat, a: nat, t: Seq<char>)
    requires
        dec_str(v) == dec_str(a) + t,
    ensures
        a <= v,
    decreases t.len(),
{
    lemma_dec_str_shape(v);
    lemma_dec_str_shape(a);
    if t.len() == 0 {
        assert(dec_str(a) + t =~= dec_str(a));
        lemma_dec_str_inj(v, a);
    } else {
        assert(dec_str(v).len() >= 2);
        assert(v >= 10);
        assert(dec_str(v) == dec_str(v / 10).push(hex_digit((v % 10) as int)));
        assert(dec_str(v / 10) =~= dec_str(a) + t.drop_last()) by {
            assert(dec_str(v).drop_last() =~= dec_str(v / 10));
            assert((dec_str(a) + t).drop_last() =~= dec_str(a) + t.drop_last());
        }
        lemma_dec_prefix_le(v / 10, a, t.drop_last());
        assert(v / 10 <= v);
    }
}

/// What a successful greedy digit run says about the text.
proof fn lemma_sp_dec_run_sound(s: Seq<char>, pos: int, acc: nat, max: nat, v: nat, q: int)
    requires
        0 <= pos <= s.len(),
        1 <= acc,
        sp_dec_run(s, pos, acc, max) == Option::Some((v, q)),
    ensures
        pos <= q <= s.len(),
        v <= max || v == acc,
        1 <= v,
        dec_str(v) == dec_str(acc) + s.subrange(pos, q),
    decreases s.len() - pos,
{
    if pos < s.len() && is_dec_char(s[pos]) {
        let d = char_val(s[pos]);
        let a2 = acc * 10 + d;
        lemma_digit_chars(0, s[pos]);
        assert(a2 >= 10);
        assert(a2 / 10 == acc && a2 % 10 == d);
        assert(dec_str(a2) == dec_str(acc).push(s[pos]));
        lemma_sp_dec_run_sound(s, pos + 1, a2, max, v, q);
        assert(dec_str(acc).push(s[pos]) + s.subrange(pos + 1, q) =~= dec_str(acc) + s.subrange(
            pos,
            q,
        ));
    } else {
        assert(v == acc && q == pos);
        assert(dec_str(acc) + s.subrange(pos, pos) =~= dec_str(acc));
    }
}

/// What a successful canonical decimal read says about the text.
proof fn lemma_sp_dec_sound(s: Seq<char>, pos: int, max: nat, v: nat, q: int)
    requires
        sp_dec(s, pos, max) == Option::Some((v, q)),
    ensures
        0 <= pos < q <= s.len(),
        v <= max,
        s.subrange(pos, q) == dec_str(v),
{
    lemma_digit_chars(0, s[pos]);
    if s[pos] == '0' {
        assert(s.subrange(pos, q) =~= dec_str(0));
    } else {
        let d = char_val(s[pos]);
        assert(d >= 1) by {
            assert(hex_digit(char_val(s[pos]) as int) == s[pos]);
        }
        assert(sp_dec_run(s, pos, 0, max) == Option::Some((v, q)));
        assert(0 * 10 + char_val(s[pos]) == d);
        assert(d <= max);
        lemma_sp_dec_run_sound(s, pos + 1, d, max, v, q);
        assert(dec_str(d) =~= seq![s[pos]]);
        assert(s.subrange(pos, q) =~= dec_str(d) + s.subrange(pos + 1, q));
        if v == d {
            assert(v <= max);
        } else {
            assert(v <= max);
        }
    }
}

/// A printed value followed by a non-digit is read back as that value.
proof fn lemma_sp_dec_run_complete(s: Seq<char>, pos: int, acc: nat, max: nat, v: nat, k: int)
    requires
        0 <= pos,
        0 <= k,
        pos + k <= s.len(),
        1 <= acc,
        v <= max,
        dec_str(v) == dec_str(acc) + s.subrange(pos, pos + k),
        pos + k == s.len() || !is_dec_char(s[pos + k]),
    ensures
        sp_dec_run(s, pos, acc, max) == Option::Some((v, pos + k)),
    decreases k,
{
    lemma_dec_str_shape(v);
    lemma_dec_str_shape(acc);
    if k == 0 {
        assert(dec_str(acc) + s.subrange(pos, pos) =~= dec_str(acc));
        lemma_dec_str_inj(v, acc);
    } else {
        assert(s[pos] == dec_str(v)[dec_str(acc).len() as int]) by {
            assert(s.subrange(pos, pos + k)[0] == s[pos]);
        }
        assert(is_dec_char(s[pos]));
        let d = char_val(s[pos]);
        let a2 = acc * 10 + d;
        lemma_digit_chars(0, s[pos]);
        assert(a2 >= 10);
        assert(a2 / 10 == acc && a2 % 10 == d);
        assert(dec_str(a2) == dec_str(acc).push(s[pos]));
        assert(dec_str(v) =~= dec_str(a2) + s.subrange(pos + 1, pos + k)) by {
            assert(dec_str(acc).push(s[pos]) + s.subrange(pos + 1, pos + k) =~= dec_str(acc)
                + s.subrange(pos, pos + k));
        }
        lemma_dec_prefix_le(v, a2, s.subrange(pos + 1, pos + k));
        lemma_sp_dec_run_complete(s, pos + 1, a2, max, v, k - 1);
    }
}

/// Completeness of the canonical decimal read.
proof fn lemma_sp_dec_complete(s: Seq<char>, pos: int, max: nat, v: nat)
    requires
        0 <= pos,
        pos + dec_str(v).len() <= s.len(),
        v <= max,
        s.subrange(pos, pos + dec_str(v).len()) == dec_str(v),
        pos + dec_str(v).len() == s.len() || !is_dec_char(s[pos + dec_str(v).len()]),
    ensures
        sp_dec(s, pos, max) == Option::Some((v, pos + dec_str(v).len())),
{
    lemma_dec_str_shape(v);
    let ln = dec_str(v).len() as int;
    assert(s[pos] == dec_str(v)[0]) by {
        assert(s.subrange(pos, pos + ln)[0] == s[pos]);
    }
    assert(is_dec_char(s[pos]));
    if v == 0 {
        assert(dec_str(0) =~= seq![hex_digit(0)]);
        assert(s[pos] == '0');
    } else {
        assert(s[pos] != '0');
        let d = char_val(s[pos]);
        lemma_digit_chars(0, s[pos]);
        assert(dec_str(d) =~= seq![s[pos]]) by {
            assert(hex_digit(char_val(s[pos]) as int) == s[pos]);
        }
        assert(dec_str(v) =~= dec_str(d) + s.subrange(pos + 1, pos + ln)) by {
            assert(forall|j: int| 0 <= j < ln ==> #[trigger] dec_str(v)[j] == s[pos + j]);
        }
        lemma_dec_prefix_le(v, d, s.subrange(pos + 1, pos + ln));
        assert(0 * 10 + char_val(s[pos]) == d);
        lemma_sp_dec_run_complete(s, pos + 1, d, max, v, ln - 1);
        assert(sp_dec_run(s, pos, 0, max) == Option::Some((v, pos + ln)));
    }
}

/// Reads a canonical decimal number at `pos`, up to `max`.
fn parse_dec(s: &str, pos: usize, max: u64) -> (r: Option<(u64, usize)>)
    requires
        pos <= s@.len(),
    ensures
        match r {
            Option::Some((v, q)) => sp_dec(s@, pos as int, max as nat) == Option::Some(
                (v as nat, q as int),
            ) && pos < q <= s@.len() && v <= max,
            Option::None => sp_dec(s@, pos as int, max as nat) is None,
        },
{
    let n = s.unicode_len();
    if pos >= n {
        return Option::None;
    }
    let c = s.get_char(pos);
    let head_digit = match char_val_exec(c) {
        Option::Some(d) => d < 10,
        Option::None => false,
    };
    if !head_digit {
        proof {
            if is_dec_char(s@[pos as int]) {
                lemma_digit_chars(0, s@[pos as int]);
            }
        }
        return Option::None;
    }
    if c == '0' {
        return Option::Some((0, pos + 1));
    }
    let mut acc: u64 = 0;
    let mut i: usize = pos;
    loop
        invariant
            pos <= i <= n,
            n == s@.len(),
            n <= usize::MAX,
            acc <= max,
            pos < s@.len() && is_dec_char(s@[pos as int]) && s@[pos as int] != '0',
            sp_dec_run(s@, pos as int, 0, max as nat) == sp_dec_run(
                s@,
                i as int,
                acc as nat,
                max as nat,
            ),
        decreases n - i,
    {
        if i >= n {
            return Option::Some((acc, i));
        }
        let c2 = s.get_char(i);
        let dv = char_val_exec(c2);
        let step_digit = match dv {
            Option::Some(d) => d < 10,
            Option::None => false,
        };
        if step_digit {
            let d = match dv {
                Option::Some(d) => d,
                Option::None => 0,
            };
            let a2: u128 = (acc as u128) * 10 + (d as u128);
            if a2 > max as u128 {
                return Option::None;
            }
            acc = a2 as u64;
            i = i + 1;
        } else {
            proof {
                if is_dec_char(s@[i as int]) {
                    lemma_digit_chars(0, s@[i as int]);
                }
            }
            return Option::Some((acc, i));
        }
    }
}

/// Reads one quoted identifier: `"`, 32 hex digits, `"` — 34 characters.
pub open spec fn sp_qid(s: Seq<char>, pos: int) -> Option<u128> {
    if 0 <= pos && pos + 34 <= s.len() && s[pos] == '"' && hex_seq_ok(s, pos + 1, 32) && s[pos
        + 33] == '"' {
        Option::Some(hex_seq_val(s, pos + 1, 32) as u128)
    } else {
        Option::None
    }
}

/// What a successful quoted-identifier read says about the text.
proof fn lemma_sp_qid_sound(s: Seq<char>, pos: int, v: u128)
    requires
        sp_qid(s, pos) == Option::Some(v),
    ensures
        0 <= pos,
        pos + 34 <= s.len(),
        s.subrange(pos, pos + 34) == quoted_id(v),
{
    lemma_hex_val_str(s, pos + 1, 32);
    lemma_pow16_32();
    assert(v as nat == hex_seq_val(s, pos + 1, 32));
    assert(id_str(v) == s.subrange(pos + 1, pos + 33));
    lemma_hex_str_len(v as nat, 32);
    assert(s.subrange(pos, pos + 34) =~= seq!['"'] + id_str(v) + seq!['"']) by {
        assert(forall|k: int| 0 <= k < 32 ==> #[trigger] s.subrange(pos + 1, pos + 33)[k] == s[pos
            + 1 + k]);
    }
}

/// Completeness of the quoted-identifier read.
proof fn lemma_sp_qid_complete(s: Seq<char>, pos: int, v: u128)
    requires
        0 <= pos,
        pos + 34 <= s.len(),
        s.subrange(pos, pos + 34) == quoted_id(v),
    ensures
        sp_qid(s, pos) == Option::Some(v),
{
    let t = s.subrange(pos, pos + 34);
    lemma_hex_str_len(v as nat, 32);
    assert(forall|k: int| 0 <= k < 34 ==> s[pos + k] == #[trigger] t[k]);
    assert(s[pos + 0] == t[0] && t[0] == '"');
    assert(s[pos + 33] == t[33] && t[33] == '"');
    assert(s[pos] == '"' && s[pos + 33] == '"');
    assert(s.subrange(pos + 1, pos + 33) =~= id_str(v)) by {
        assert(forall|k: int| 0 <= k < 32 ==> #[trigger] s.subrange(pos + 1, pos + 33)[k] == s[pos
            + 1 + k]);
        assert(forall|k: int| 0 <= k < 32 ==> #[trigger] s[pos + 1 + k] == t[1 + k]);
    }
    lemma_pow16_32();
    lemma_hex_str_val(s, pos + 1, 32, v as nat);
}

/// Reads `"id"(,"id")*]` — the identifiers of a nonempty array, with the
/// closing bracket.
pub open spec fn sp_ids_rest(s: Seq<char>, pos: int) -> Option<(Seq<u128>, int)>
    decreases s.len() - pos,
{
    match sp_qid(s, pos) {
        Option::None => Option::None,
        Option::Some(v) => {
            if pos + 34 < s.len() && s[pos + 34] == ',' {
                match sp_ids_rest(s, pos + 35) {
                    Option::None => Option::None,
                    Option::Some((vs, q)) => Option::Some((seq![v] + vs, q)),
                }
            } else if pos + 34 < s.len() && s[pos + 34] == ']' {
                Option::Some((seq![v], pos + 35))
            } else {
                Option::None
            }
        },
    }
}

/// Reads a JSON array of identifiers at `pos`.
pub open spec fn sp_ids(s: Seq<char>, pos: int) -> Option<(Seq<u128>, int)> {
    if 0 <= pos && pos < s.len() && s[pos] == '[' {
        if pos + 1 < s.len() && s[pos + 1] == ']' {
            Option::Some((Seq::empty(), pos + 2))
        } else {
            sp_ids_rest(s, pos + 1)
        }
    } else {
        Option::None
    }
}

/// What a successful array-tail read says about the text.
proof fn lemma_sp_ids_rest_sound(s: Seq<char>, pos: int, vs: Seq<u128>, q: int)
    requires
        sp_ids_rest(s, pos) == Option::Some((vs, q)),
    ensures
        vs.len() >= 1,
        0 <= pos < q <= s.len(),
        s.subrange(pos, q) == id_list(vs) + seq![']'],
    decreases s.len() - pos,
{
    let v = sp_qid(s, pos)->0;
    lemma_sp_qid_sound(s, pos, v);
    if pos + 34 < s.len() && s[pos + 34] == ',' {
        let inner = sp_ids_rest(s, pos + 35);
        let (vs2, q2) = inner->0;
        lemma_sp_ids_rest_sound(s, pos + 35, vs2, q2);
        assert(vs == seq![v] + vs2);
        assert(vs[0] == v);
        assert(vs.drop_first() =~= vs2);
        assert(vs.len() >= 2);
        assert(id_list(vs) == quoted_id(v) + seq![','] + id_list(vs2));
        assert(s.subrange(pos, q) =~= quoted_id(v) + seq![','] + (id_list(vs2) + seq![']'])) by {
            assert(s.subrange(pos + 35, q2) == id_list(vs2) + seq![']']);
            assert(forall|k: int| 0 <= k < 34 ==> s[pos + k] == #[trigger] s.subrange(
                pos,
                pos + 34,
            )[k]);
            assert(forall|k: int| 0 <= k < q2 - pos - 35 ==> #[trigger] s.subrange(
                pos + 35,
                q2,
            )[k] == s[pos + 35 + k]);
        }
        assert(quoted_id(v) + seq![','] + (id_list(vs2) + seq![']']) =~= (quoted_id(v) + seq![',']
            + id_list(vs2)) + seq![']']);
    } else {
        assert(vs == seq![v] && q == pos + 35);
        assert(id_list(vs) == quoted_id(vs[0]));
        assert(vs[0] == v);
        assert(s.subrange(pos, q) =~= quoted_id(v) + seq![']']) by {
            assert(forall|k: int| 0 <= k < 34 ==> s[pos + k] == #[trigger] s.subrange(
                pos,
                pos + 34,
            )[k]);
        }
    }
}

/// Completeness of the array-tail read.
proof fn lemma_sp_ids_rest_complete(s: Seq<char>, pos: int, vs: Seq<u128>)
    requires
        vs.len() >= 1,
        0 <= pos,
        pos + id_list(vs).len() + 1 <= s.len(),
        s.subrange(pos, pos + id_list(vs).len() + 1) == id_list(vs) + seq![']'],
    ensures
        sp_ids_rest(s, pos) == Option::Some((vs, pos + id_list(vs).len() + 1)),
    decreases vs.len(),
{
    let t = s.subrange(pos, pos + id_list(vs).len() + 1);
    let v = vs[0];
    lemma_hex_str_len(v as nat, 32);
    assert(forall|k: int| 0 <= k < id_list(vs).len() + 1 ==> s[pos + k] == #[trigger] t[k]);
    if vs.len() == 1 {
        assert(id_list(vs) == quoted_id(v));
        assert(s.subrange(pos, pos + 34) =~= quoted_id(v)) by {
            assert(forall|k: int| 0 <= k < 34 ==> #[trigger] s.subrange(pos, pos + 34)[k] == s[pos
                + k]);
        }
        lemma_sp_qid_complete(s, pos, v);
        assert(s[pos + 34] == t[34] && t[34] == ']');
    } else {
        assert(id_list(vs) == quoted_id(v) + seq![','] + id_list(vs.drop_first()));
        assert(quoted_id(v).len() == 34);
        assert(s.subrange(pos, pos + 34) =~= quoted_id(v)) by {
            assert(forall|k: int| 0 <= k < 34 ==> #[trigger] s.subrange(pos, pos + 34)[k] == s[pos
                + k]);
        }
        lemma_sp_qid_complete(s, pos, v);
        assert(s[pos + 34] == t[34] && t[34] == ',');
        let vs2 = vs.drop_first();
        assert(id_list(vs2).len() >= 1) by {
            assert(vs2.len() >= 1);
            assert(id_list(vs2) == if vs2.len() == 1 {
                quoted_id(vs2[0])
            } else {
                quoted_id(vs2[0]) + seq![','] + id_list(vs2.drop_first())
            });
            lemma_hex_str_len(vs2[0] as nat, 32);
        }
        let l2 = id_list(vs2).len() as int;
        assert forall|k: int| 0 <= k < l2 + 1 implies #[trigger] s.subrange(
            pos + 35,
            pos + 35 + l2 + 1,
        )[k] == (id_list(vs2) + seq![']'])[k] by {
            assert(s.subrange(pos + 35, pos + 35 + l2 + 1)[k] == s[pos + 35 + k]);
            assert(s[pos + 35 + k] == t[35 + k]);
            assert(t[35 + k] == (id_list(vs) + seq![']'])[35 + k]);
        }
        assert(s.subrange(pos + 35, pos + 35 + l2 + 1) =~= id_list(vs2) + seq![']']);
        lemma_sp_ids_rest_complete(s, pos + 35, vs2);
        assert(seq![v] + vs2 =~= vs);
    }
}

/// Prepends already-read identifiers onto the rest of an array read.
pub open spec fn opt_prepend_ids(p: Seq<u128>, o: Option<(Seq<u128>, int)>) -> Option<
    (Seq<u128>, int),
> {
    match o {
        Option::None => Option::None,
        Option::Some((vs, q)) => Option::Some((p + vs, q)),
    }
}

/// Reads one quoted identifier at `pos`.
fn parse_qid(s: &str, pos: usize) -> (r: Option<u128>)
    requires
        pos <= s@.len(),
    ensures
        match r {
            Option::Some(v) => sp_qid(s@, pos as int) == Option::Some(v),
            Option::None => sp_qid(s@, pos as int) is None,
        },
{
    let n = s.unicode_len();
    if n - pos < 34 {
        return Option::None;
    }
    if s.get_char(pos) != '"' {
        return Option::None;
    }
    if s.get_char(pos + 33) != '"' {
        return Option::None;
    }
    match parse_id(s, pos + 1) {
        Option::Some(v) => {
            proof {
                lemma_hex_val_str(s@, pos + 1, 32);
                lemma_pow16_32();
            }
            Option::Some(v)
        },
        Option::None => Option::None,
    }
}

/// Reads a JSON array of identifiers at `pos`.
fn parse_ids(s: &str, pos: usize) -> (r: Option<(Vec<u128>, usize)>)
    requires
        pos <= s@.len(),
    ensures
        match r {
            Option::Some((vs, q)) => sp_ids(s@, pos as int) == Option::Some((vs@, q as int)) && pos
                < q <= s@.len(),
            Option::None => sp_ids(s@, pos as int) is None,
        },
{
    let n = s.unicode_len();
    if pos >= n || s.get_char(pos) != '[' {
        return Option::None;
    }
    if pos + 1 < n && s.get_char(pos + 1) == ']' {
        let empty: Vec<u128> = Vec::new();
        proof {
            assert(empty@ =~= Seq::<u128>::empty());
        }
        return Option::Some((empty, pos + 2));
    }
    let mut acc: Vec<u128> = Vec::new();
    let mut i: usize = pos + 1;
    loop
        invariant
            pos + 1 <= i <= n,
            n == s@.len(),
            n <= usize::MAX,
            sp_ids(s@, pos as int) == opt_prepend_ids(acc@, sp_ids_rest(s@, i as int)),
        decreases n - i,
    {
        match parse_qid(s, i) {
            Option::None => {
                return Option::None;
            },
            Option::Some(v) => {
                if n - i < 35 {
                    return Option::None;
                }
                let c = s.get_char(i + 34);
                if c == ',' {
                    proof {
                        let o = sp_ids_rest(s@, i as int + 35);
                        match o {
                            Option::None => {},
                            Option::Some((vs, q)) => {
                                assert(acc@ + (seq![v] + vs) =~= acc@.push(v) + vs);
                            },
                        }
                    }
                    acc.push(v);
                    i = i + 35;
                } else if c == ']' {
                    proof {
                        assert(sp_ids_rest(s@, i as int) == Option::Some(
                            (seq![v], i as int + 35),
                        ));
                        assert(acc@ + seq![v] =~= acc@.push(v));
                    }
                    acc.push(v);
                    return Option::Some((acc, i + 35));
                } else {
                    return Option::None;
                }
            },
        }
    }
}

/// Reads a fixed literal at `pos`.
pub open spec fn sp_lit(s: Seq<char>, pos: int, lit: Seq<char>) -> Option<int> {
    if 0 <= pos && pos + lit.len() <= s.len() && s.subrange(pos, pos + lit.len()) == lit {
        Option::Some(pos + lit.len())
    } else {
        Option::None
    }
}

/// Reads a whole content-kind document: the unique `mt` whose persisted form
/// is exactly `s`.
pub open spec fn sp_mt(s: Seq<char>) -> Option<MessageTypeView> {
    if s == "\"Text\""@ {
        Option::Some(MessageTypeView::Text)
    } else if sp_lit(s, 0, "{\"File\":{\"filename\":\""@) is Some {
        let p1 = sp_lit(s, 0, "{\"File\":{\"filename\":\""@)->0;
        match sp_str(s, p1) {
            Option::None => Option::None,
            Option::Some((f, p2)) => match sp_lit(s, p2, ",\"size\":"@) {
                Option::None => Option::None,
                Option::Some(p3) => match sp_dec(s, p3, usize::MAX as nat) {
                    Option::None => Option::None,
                    Option::Some((sz, p4)) => match sp_lit(s, p4, "}}"@) {
                        Option::None => Option::None,
                        Option::Some(p5) => if p5 == s.len() {
                            Option::Some(
                                MessageTypeView::File { filename: f, size: sz as usize },
                            )
                        } else {
                            Option::None
                        },
                    },
                },
            },
        }
    } else if sp_lit(s, 0, "{\"Voice\":{\"duration\":"@) is Some {
        let p1 = sp_lit(s, 0, "{\"Voice\":{\"duration\":"@)->0;
        match sp_dec(s, p1, u32::MAX as nat) {
            Option::None => Option::None,
            Option::Some((d, p2)) => match sp_lit(s, p2, "}}"@) {
                Option::None => Option::None,
                Option::Some(p3) => if p3 == s.len() {
                    Option::Some(MessageTypeView::Voice { duration: d as u32 })
                } else {
                    Option::None
                },
            },
        }
    } else if sp_lit(s, 0, "{\"Video\":{\"duration\":"@) is Some {
        let p1 = sp_lit(s, 0, "{\"Video\":{\"duration\":"@)->0;
        match sp_dec(s, p1, u32::MAX as nat) {
            Option::None => Option::None,
            Option::Some((d, p2)) => match sp_lit(s, p2, "}}"@) {
                Option::None => Option::None,
                Option::Some(p3) => if p3 == s.len() {
                    Option::Some(MessageTypeView::Video { duration: d as u32 })
                } else {
                    Option::None
                },
            },
        }
    } else {
        Option::None
    }
}

/// Reads a whole command frame: the unique command whose frame is exactly
/// `s`.
pub open spec fn sp_command(s: Seq<char>) -> Option<CommandView> {
    if sp_lit(s, 0, "{\"SendMessage\":{\"content\":\""@) is Some {
        let p1 = sp_lit(s, 0, "{\"SendMessage\":{\"content\":\""@)->0;
        match sp_str(s, p1) {
            Option::None => Option::None,
            Option::Some((w, p2)) => match sp_lit(s, p2, ",\"receiver_id\":\""@) {
                Option::None => Option::None,
                Option::Some(p3) => if hex_seq_ok(s, p3, 32) {
                    let r = hex_seq_val(s, p3, 32) as u128;
                    match sp_lit(s, p3 + 32, "\"}}"@) {
                        Option::None => Option::None,
                        Option::Some(p4) => if p4 == s.len() {
                            Option::Some(CommandView::SendMessage { content: w, receiver_id: r })
                        } else {
                            Option::None
                        },
                    }
                } else {
                    Option::None
                },
            },
        }
    } else if sp_lit(s, 0, "{\"MarkAsRead\":{\"message_ids\":"@) is Some {
        let p1 = sp_lit(s, 0, "{\"MarkAsRead\":{\"message_ids\":"@)->0;
        match sp_ids(s, p1) {
            Option::None => Option::None,
            Option::Some((ids, p2)) => match sp_lit(s, p2, "}}"@) {
                Option::None => Option::None,
                Option::Some(p3) => if p3 == s.len() {
                    Option::Some(CommandView::MarkAsRead { message_ids: ids })
                } else {
                    Option::None
                },
            },
        }
    } else if sp_lit(s, 0, "{\"Typing\":{\"receiver_id\":\""@) is Some {
        let p1 = sp_lit(s, 0, "{\"Typing\":{\"receiver_id\":\""@)->0;
        if hex_seq_ok(s, p1, 32) {
            let r = hex_seq_val(s, p1, 32) as u128;
            match sp_lit(s, p1 + 32, "\"}}"@) {
                Option::None => Option::None,
                Option::Some(p2) => if p2 == s.len() {
                    Option::Some(CommandView::Typing { receiver_id: r })
                } else {
                    Option::None
                },
            }
        } else {
            Option::None
        }
    } else {
        Option::None
    }
}

/// A piece equal at every offset is the subrange there.
proof fn lemma_subrange_eq(s: Seq<char>, i: int, p: Seq<char>)
    requires
        0 <= i,
        i + p.len() <= s.len(),
        forall|k: int| 0 <= k < p.len() ==> s[i + k] == #[trigger] p[k],
    ensures
        s.subrange(i, i + p.len()) == p,
{
    assert(s.subrange(i, i + p.len()) =~= p);
}

/// A successful content-kind read means the text is that kind's one
/// persisted form.
#[verifier::rlimit(100)]
proof fn lemma_sp_mt_sound(s: Seq<char>, mt: MessageTypeView)
    requires
        sp_mt(s) == Option::Some(mt),
    ensures
        s == mt_frame(mt),
{
    reveal_strlit("}}");
    if s == "\"Text\""@ {
    } else if sp_lit(s, 0, "{\"File\":{\"filename\":\""@) is Some {
        let prefix = "{\"File\":{\"filename\":\""@;
        let p1 = prefix.len() as int;
        let (f, p2) = sp_str(s, p1)->0;
        lemma_sp_str_sound(s, p1, f, p2);
        let lsz = ",\"size\":"@;
        let p3 = p2 + lsz.len();
        let (sz, p4) = sp_dec(s, p3, usize::MAX as nat)->0;
        lemma_sp_dec_sound(s, p3, usize::MAX as nat, sz, p4);
        let p5 = p4 + 2;
        assert(s.subrange(0, p1) == prefix);
        assert(s.subrange(p2, p3) == lsz);
        assert(s.subrange(p4, p5) == "}}"@);
        assert(p5 == s.len());
        assert(s =~= s.subrange(0, p1) + s.subrange(p1, p2) + s.subrange(p2, p3) + s.subrange(
            p3,
            p4,
        ) + s.subrange(p4, p5));
        assert("\",\"size\":"@ =~= seq!['"'] + lsz) by {
            reveal_strlit("\",\"size\":");
            reveal_strlit(",\"size\":");
        }
        assert((sz as usize) as nat == sz);
        assert(s =~= prefix + esc(f) + "\",\"size\":"@ + dec_str(sz) + "}}"@);
    } else if sp_lit(s, 0, "{\"Voice\":{\"duration\":"@) is Some {
        let prefix = "{\"Voice\":{\"duration\":"@;
        let p1 = prefix.len() as int;
        let (d, p2) = sp_dec(s, p1, u32::MAX as nat)->0;
        lemma_sp_dec_sound(s, p1, u32::MAX as nat, d, p2);
        let p3 = p2 + 2;
        assert(s.subrange(0, p1) == prefix);
        assert(s.subrange(p2, p3) == "}}"@);
        assert(p3 == s.len());
        assert(s =~= s.subrange(0, p1) + s.subrange(p1, p2) + s.subrange(p2, p3));
        assert((d as u32) as nat == d);
        assert(s =~= prefix + dec_str(d) + "}}"@);
    } else {
        let prefix = "{\"Video\":{\"duration\":"@;
        let p1 = prefix.len() as int;
        let (d, p2) = sp_dec(s, p1, u32::MAX as nat)->0;
        lemma_sp_dec_sound(s, p1, u32::MAX as nat, d, p2);
        let p3 = p2 + 2;
        assert(s.subrange(0, p1) == prefix);
        assert(s.subrange(p2, p3) == "}}"@);
        assert(p3 == s.len());
        assert(s =~= s.subrange(0, p1) + s.subrange(p1, p2) + s.subrange(p2, p3));
        assert((d as u32) as nat == d);
        assert(s =~= prefix + dec_str(d) + "}}"@);
    }
}

/// Every persisted content-kind form is read back as that kind.
#[verifier::rlimit(100)]
proof fn lemma_sp_mt_complete(mt: MessageTypeView)
    ensures
        sp_mt(mt_frame(mt)) == Option::Some(mt),
{
    reveal_strlit("\"Text\"");
    reveal_strlit("{\"File\":{\"filename\":\"");
    reveal_strlit("{\"Voice\":{\"duration\":");
    reveal_strlit("{\"Video\":{\"duration\":");
    reveal_strlit("\",\"size\":");
    reveal_strlit(",\"size\":");
    reveal_strlit("}}");
    let s = mt_frame(mt);
    match mt {
        MessageTypeView::Text => {
        },
        MessageTypeView::File { filename, size } => {
            let prefix = "{\"File\":{\"filename\":\""@;
            let e = esc(filename);
            let ql = "\",\"size\":"@;
            let lsz = ",\"size\":"@;
            let d = dec_str((size as usize) as nat);
            let bb = "}}"@;
            assert(ql =~= seq!['"'] + lsz);
            assert(s == prefix + e + ql + d + bb);
            lemma_dec_str_shape(size as nat);
            assert(s.len() == prefix.len() + e.len() + ql.len() + d.len() + bb.len());
            assert(s != "\"Text\""@) by {
                assert(s[0] == '{');
            }
            let p1 = prefix.len() as int;
            assert(s.subrange(0, p1) =~= prefix);
            assert(sp_lit(s, 0, prefix) == Option::Some(p1));
            // the string body with its closing quote
            assert(s.subrange(p1, p1 + e.len() + 1) =~= e + seq!['"']) by {
                assert(forall|k: int|
                    0 <= k < e.len() + 1 ==> #[trigger] s.subrange(p1, p1 + e.len() + 1)[k] == s[p1
                        + k]);
            }
            lemma_sp_str_complete(s, p1, filename);
            let p2 = p1 + e.len() + 1;
            assert(s.subrange(p2, p2 + lsz.len()) =~= lsz) by {
                assert(forall|k: int|
                    0 <= k < lsz.len() ==> #[trigger] s.subrange(p2, p2 + lsz.len())[k] == s[p2
                        + k]);
            }
            let p3 = p2 + lsz.len();
            assert(s.subrange(p3, p3 + d.len()) =~= d) by {
                assert(forall|k: int|
                    0 <= k < d.len() ==> #[trigger] s.subrange(p3, p3 + d.len())[k] == s[p3 + k]);
            }
            assert(!is_dec_char(s[p3 + d.len()])) by {
                assert(s[p3 + d.len()] == '}');
            }
            lemma_sp_dec_complete(s, p3, usize::MAX as nat, size as nat);
            let p4 = p3 + d.len();
            assert(s.subrange(p4, p4 + 2) =~= bb) by {
                assert(forall|k: int| 0 <= k < 2 ==> #[trigger] s.subrange(p4, p4 + 2)[k] == s[p4
                    + k]);
            }
            assert(sp_lit(s, p4, "}}"@) == Option::Some(p4 + 2));
            assert(p4 + 2 == s.len());
            assert((size as nat) as usize == size);
        },
        MessageTypeView::Voice { duration } => {
            let prefix = "{\"Voice\":{\"duration\":"@;
            let d = dec_str(duration as nat);
            let bb = "}}"@;
            assert(s == prefix + d + bb);
            lemma_dec_str_shape(duration as nat);
            assert(s.len() == prefix.len() + d.len() + bb.len());
            assert(s != "\"Text\""@) by {
                assert(s[0] == '{');
            }
            assert(sp_lit(s, 0, "{\"File\":{\"filename\":\""@) is None) by {
                reveal_strlit("{\"File\":{\"filename\":\"");
                if sp_lit(s, 0, "{\"File\":{\"filename\":\""@) is Some {
                    assert(s.subrange(0, 22)[2] == s[2]);
                    assert(s[2] == 'V');
                }
            }
            let p1 = prefix.len() as int;
            assert(s.subrange(0, p1) =~= prefix);
            assert(sp_lit(s, 0, prefix) == Option::Some(p1));
            assert(s.subrange(p1, p1 + d.len()) =~= d) by {
                assert(forall|k: int|
                    0 <= k < d.len() ==> #[trigger] s.subrange(p1, p1 + d.len())[k] == s[p1 + k]);
            }
            assert(!is_dec_char(s[p1 + d.len()])) by {
                assert(s[p1 + d.len()] == '}');
            }
            lemma_sp_dec_complete(s, p1, u32::MAX as nat, duration as nat);
            let p2 = p1 + d.len();
            assert(s.subrange(p2, p2 + 2) =~= bb) by {
                assert(forall|k: int| 0 <= k < 2 ==> #[trigger] s.subrange(p2, p2 + 2)[k] == s[p2
                    + k]);
            }
            assert(sp_lit(s, p2, "}}"@) == Option::Some(p2 + 2));
            assert(p2 + 2 == s.len());
            assert((duration as nat) as u32 == duration);
        },
        MessageTypeView::Video { duration } => {
            let prefix = "{\"Video\":{\"duration\":"@;
            let d = dec_str(duration as nat);
            let bb = "}}"@;
            assert(s == prefix + d + bb);
            lemma_dec_str_shape(duration as nat);
            assert(s.len() == prefix.len() + d.len() + bb.len());
            assert(s != "\"Text\""@) by {
                assert(s[0] == '{');
            }
            assert(sp_lit(s, 0, "{\"File\":{\"filename\":\""@) is None) by {
                if sp_lit(s, 0, "{\"File\":{\"filename\":\""@) is Some {
                    assert(s.subrange(0, 22)[2] == s[2]);
                    assert(s[2] == 'V');
                }
            }
            assert(sp_lit(s, 0, "{\"Voice\":{\"duration\":"@) is None) by {
                if sp_lit(s, 0, "{\"Voice\":{\"duration\":"@) is Some {
                    assert(s.subrange(0, 22)[3] == s[3]);
                    assert(s[3] == 'i');
                }
            }
            let p1 = prefix.len() as int;
            assert(s.subrange(0, p1) =~= prefix);
            assert(sp_lit(s, 0, prefix) == Option::Some(p1));
            assert(s.subrange(p1, p1 + d.len()) =~= d) by {
                assert(forall|k: int|
                    0 <= k < d.len() ==> #[trigger] s.subrange(p1, p1 + d.len())[k] == s[p1 + k]);
            }
            assert(!is_dec_char(s[p1 + d.len()])) by {
                assert(s[p1 + d.len()] == '}');
            }
            lemma_sp_dec_complete(s, p1, u32::MAX as nat, duration as nat);
            let p2 = p1 + d.len();
            assert(s.subrange(p2, p2 + 2) =~= bb) by {
                assert(forall|k: int| 0 <= k < 2 ==> #[trigger] s.subrange(p2, p2 + 2)[k] == s[p2
                    + k]);
            }
            assert(sp_lit(s, p2, "}}"@) == Option::Some(p2 + 2));
            assert(p2 + 2 == s.len());
            assert((duration as nat) as u32 == duration);
        },
    }
}

/// Reads a whole content-kind document, mirroring `sp_mt` branch by branch.
fn parse_mt_inner(s: &str) -> (r: Option<MessageType>)
    ensures
        match r {
            Option::Some(mt) => sp_mt(s@) == Option::Some(mt@),
            Option::None => sp_mt(s@) is None,
        },
{
    let n = s.unicode_len();
    match expect_lit(s, 0, "\"Text\"") {
        Option::Some(q) => {
            if q == n {
                proof {
                    assert(s@.subrange(0, q as int) =~= s@);
                }
                return Option::Some(MessageType::Text);
            }
        },
        Option::None => {},
    }
    proof {
        if s@ == "\"Text\""@ {
            assert(s@.subrange(0, s@.len() as int) =~= s@);
        }
    }
    match expect_lit(s, 0, "{\"File\":{\"filename\":\"") {
        Option::None => {},
        Option::Some(p1) => {
            match parse_string_lit(s, p1) {
                Option::None => {
                    return Option::None;
                },
                Option::Some((f, p2)) => {
                    match expect_lit(s, p2, ",\"size\":") {
                        Option::None => {
                            return Option::None;
                        },
                        Option::Some(p3) => {
                            match parse_dec(s, p3, usize::MAX as u64) {
                                Option::None => {
                                    return Option::None;
                                },
                                Option::Some((sz, p4)) => {
                                    match expect_lit(s, p4, "}}") {
                                        Option::None => {
                                            return Option::None;
                                        },
                                        Option::Some(p5) => {
                                            if p5 == n {
                                                return Option::Some(
                                                    MessageType::File {
                                                        filename: f,
                                                        size: sz as usize,
                                                    },
                                                );
                                            }
                                            return Option::None;
                                        },
                                    }
                                },
                            }
                        },
                    }
                },
            }
        },
    }
    match expect_lit(s, 0, "{\"Voice\":{\"duration\":") {
        Option::None => {},
        Option::Some(p1) => {
            match parse_dec(s, p1, u32::MAX as u64) {
                Option::None => {
                    return Option::None;
                },
                Option::Some((d, p2)) => {
                    match expect_lit(s, p2, "}}") {
                        Option::None => {
                            return Option::None;
                        },
                        Option::Some(p3) => {
                            if p3 == n {
                                return Option::Some(MessageType::Voice { duration: d as u32 });
                            }
                            return Option::None;
                        },
                    }
                },
            }
        },
    }
    match expect_lit(s, 0, "{\"Video\":{\"duration\":") {
        Option::None => {},
        Option::Some(p1) => {
            match parse_dec(s, p1, u32::MAX as u64) {
                Option::None => {
                    return Option::None;
                },
                Option::Some((d, p2)) => {
                    match expect_lit(s, p2, "}}") {
                        Option::None => {
                            return Option::None;
                        },
                        Option::Some(p3) => {
                            if p3 == n {
                                return Option::Some(MessageType::Video { duration: d as u32 });
                            }
                            return Option::None;
                        },
                    }
                },
            }
        },
    }
    Option::None
}

/// Decodes the persisted form of a content-kind tag: `Some` exactly on the
/// one document `mt_frame` gives for some kind, which it returns. Anything
/// else — unknown tags included — is rejected, never defaulted.
pub fn parse_message_type(s: &str) -> (r: Option<MessageType>)
    ensures
        match r {
            Option::Some(mt) => sp_mt(s@) == Option::Some(mt@) && s@ == mt_frame(mt@),
            Option::None => sp_mt(s@) is None && (forall|mtv: MessageTypeView| s@ != mt_frame(
                mtv,
            )),
        },
{
    let r = parse_mt_inner(s);
    proof {
        if r is Some {
            lemma_sp_mt_sound(s@, r->0@);
        } else {
            assert forall|mtv: MessageTypeView| s@ != mt_frame(mtv) by {
                if s@ == mt_frame(mtv) {
                    lemma_sp_mt_complete(mtv);
                }
            }
        }
    }
    r
}

/// What a successful array read says about the text.
proof fn lemma_sp_ids_sound(s: Seq<char>, pos: int, vs: Seq<u128>, q: int)
    requires
        sp_ids(s, pos) == Option::Some((vs, q)),
    ensures
        0 <= pos < q <= s.len(),
        s.subrange(pos, q) == ids_array(vs),
{
    if pos + 1 < s.len() && s[pos + 1] == ']' {
        assert(s.subrange(pos, q) =~= seq!['['] + id_list(vs) + seq![']']);
    } else {
        let (vs2, q2) = sp_ids_rest(s, pos + 1)->0;
        lemma_sp_ids_rest_sound(s, pos + 1, vs2, q2);
        assert(s.subrange(pos, q) =~= seq!['['] + (id_list(vs) + seq![']'])) by {
            assert(forall|k: int| 0 <= k < q2 - pos - 1 ==> #[trigger] s.subrange(pos + 1, q2)[k]
                == s[pos + 1 + k]);
        }
        assert(seq!['['] + (id_list(vs) + seq![']']) =~= seq!['['] + id_list(vs) + seq![']']);
    }
}

/// Completeness of the array read.
proof fn lemma_sp_ids_complete(s: Seq<char>, pos: int, vs: Seq<u128>)
    requires
        0 <= pos,
        pos + ids_array(vs).len() <= s.len(),
        s.subrange(pos, pos + ids_array(vs).len()) == ids_array(vs),
    ensures
        sp_ids(s, pos) == Option::Some((vs, pos + ids_array(vs).len())),
{
    let t = s.subrange(pos, pos + ids_array(vs).len());
    assert(forall|k: int| 0 <= k < ids_array(vs).len() ==> s[pos + k] == #[trigger] t[k]);
    assert(s[pos + 0] == t[0] && t[0] == '[');
    if vs.len() == 0 {
        assert(id_list(vs) =~= Seq::<char>::empty());
        assert(ids_array(vs).len() == 2);
        assert(s[pos + 1] == t[1] && t[1] == ']');
        assert(sp_ids(s, pos) == Option::Some((Seq::<u128>::empty(), pos + 2)));
        assert(vs =~= Seq::<u128>::empty());
    } else {
        lemma_hex_str_len(vs[0] as nat, 32);
        assert(id_list(vs)[0] == quoted_id(vs[0])[0]) by {
            if vs.len() == 1 {
            } else {
            }
        }
        assert(quoted_id(vs[0])[0] == '"');
        assert(s[pos + 1] == t[1] && t[1] == '"');
        let l1 = id_list(vs).len() as int;
        assert forall|k: int| 0 <= k < l1 + 1 implies #[trigger] s.subrange(
            pos + 1,
            pos + 1 + l1 + 1,
        )[k] == (id_list(vs) + seq![']'])[k] by {
            assert(s.subrange(pos + 1, pos + 1 + l1 + 1)[k] == s[pos + 1 + k]);
            assert(s[pos + 1 + k] == t[1 + k]);
        }
        assert(s.subrange(pos + 1, pos + 1 + l1 + 1) =~= id_list(vs) + seq![']']);
        lemma_sp_ids_rest_complete(s, pos + 1, vs);
    }
}

/// A successful command read means the text is that command's one frame.
#[verifier::rlimit(100)]
proof fn lemma_sp_command_sound(s: Seq<char>, cv: CommandView)
    requires
        sp_command(s) == Option::Some(cv),
    ensures
        s == command_frame(cv),
{
    reveal_strlit("\"}}");
    reveal_strlit("}}");
    if sp_lit(s, 0, "{\"SendMessage\":{\"content\":\""@) is Some {
        let prefix = "{\"SendMessage\":{\"content\":\""@;
        let p1 = prefix.len() as int;
        let (w, p2) = sp_str(s, p1)->0;
        lemma_sp_str_sound(s, p1, w, p2);
        let lr = ",\"receiver_id\":\""@;
        let p3 = p2 + lr.len();
        let r = hex_seq_val(s, p3, 32) as u128;
        lemma_hex_val_str(s, p3, 32);
        lemma_pow16_32();
        assert(r as nat == hex_seq_val(s, p3, 32));
        assert(s.subrange(p3, p3 + 32) == id_str(r));
        let p4 = p3 + 32 + 3;
        assert(s.subrange(0, p1) == prefix);
        assert(s.subrange(p2, p3) == lr);
        assert(s.subrange(p3 + 32, p4) == "\"}}"@);
        assert(p4 == s.len());
        assert(s =~= s.subrange(0, p1) + s.subrange(p1, p2) + s.subrange(p2, p3) + s.subrange(
            p3,
            p3 + 32,
        ) + s.subrange(p3 + 32, p4));
        assert("\",\"receiver_id\":\""@ =~= seq!['"'] + lr) by {
            reveal_strlit("\",\"receiver_id\":\"");
            reveal_strlit(",\"receiver_id\":\"");
        }
        assert(s =~= prefix + esc(w) + "\",\"receiver_id\":\""@ + id_str(r) + "\"}}"@);
    } else if sp_lit(s, 0, "{\"MarkAsRead\":{\"message_ids\":"@) is Some {
        let prefix = "{\"MarkAsRead\":{\"message_ids\":"@;
        let p1 = prefix.len() as int;
        let (ids, p2) = sp_ids(s, p1)->0;
        lemma_sp_ids_sound(s, p1, ids, p2);
        let p3 = p2 + 2;
        assert(s.subrange(0, p1) == prefix);
        assert(s.subrange(p2, p3) == "}}"@);
        assert(p3 == s.len());
        assert(s =~= s.subrange(0, p1) + s.subrange(p1, p2) + s.subrange(p2, p3));
        assert(s =~= prefix + ids_array(ids) + "}}"@);
    } else {
        let prefix = "{\"Typing\":{\"receiver_id\":\""@;
        let p1 = prefix.len() as int;
        let r = hex_seq_val(s, p1, 32) as u128;
        lemma_hex_val_str(s, p1, 32);
        lemma_pow16_32();
        assert(r as nat == hex_seq_val(s, p1, 32));
        assert(s.subrange(p1, p1 + 32) == id_str(r));
        let p2 = p1 + 32 + 3;
        assert(s.subrange(0, p1) == prefix);
        assert(s.subrange(p1 + 32, p2) == "\"}}"@);
        assert(p2 == s.len());
        assert(s =~= s.subrange(0, p1) + s.subrange(p1, p1 + 32) + s.subrange(p1 + 32, p2));
        assert(s =~= prefix + id_str(r) + "\"}}"@);
    }
}

/// Every command frame is read back as that command.
#[verifier::rlimit(100)]
proof fn lemma_sp_command_complete(cv: CommandView)
    ensures
        sp_command(command_frame(cv)) == Option::Some(cv),
{
    reveal_strlit("{\"SendMessage\":{\"content\":\"");
    reveal_strlit("{\"MarkAsRead\":{\"message_ids\":");
    reveal_strlit("{\"Typing\":{\"receiver_id\":\"");
    reveal_strlit("\",\"receiver_id\":\"");
    reveal_strlit(",\"receiver_id\":\"");
    reveal_strlit("\"}}");
    reveal_strlit("}}");
    let s = command_frame(cv);
    match cv {
        CommandView::SendMessage { content, receiver_id } => {
            let prefix = "{\"SendMessage\":{\"content\":\""@;
            let e = esc(content);
            let ql = "\",\"receiver_id\":\""@;
            let lr = ",\"receiver_id\":\""@;
            let idp = id_str(receiver_id);
            let tail = "\"}}"@;
            assert(ql =~= seq!['"'] + lr);
            assert(s == prefix + e + ql + idp + tail);
            lemma_hex_str_len(receiver_id as nat, 32);
            assert(s.len() == prefix.len() + e.len() + ql.len() + idp.len() + tail.len());
            let p1 = prefix.len() as int;
            assert(s.subrange(0, p1) =~= prefix);
            assert(sp_lit(s, 0, prefix) == Option::Some(p1));
            assert(s.subrange(p1, p1 + e.len() + 1) =~= e + seq!['"']) by {
                assert(forall|k: int|
                    0 <= k < e.len() + 1 ==> #[trigger] s.subrange(p1, p1 + e.len() + 1)[k] == s[p1
                        + k]);
            }
            lemma_sp_str_complete(s, p1, content);
            let p2 = p1 + e.len() + 1;
            assert(s.subrange(p2, p2 + lr.len()) =~= lr) by {
                assert(forall|k: int|
                    0 <= k < lr.len() ==> #[trigger] s.subrange(p2, p2 + lr.len())[k] == s[p2 + k]);
            }
            let p3 = p2 + lr.len();
            assert(s.subrange(p3, p3 + 32) =~= idp) by {
                assert(forall|k: int| 0 <= k < 32 ==> #[trigger] s.subrange(p3, p3 + 32)[k] == s[p3
                    + k]);
            }
            lemma_pow16_32();
            lemma_hex_str_val(s, p3, 32, receiver_id as nat);
            assert((hex_seq_val(s, p3, 32) as u128) == receiver_id);
            assert(s.subrange(p3 + 32, p3 + 32 + 3) =~= tail) by {
                assert(forall|k: int|
                    0 <= k < 3 ==> #[trigger] s.subrange(p3 + 32, p3 + 32 + 3)[k] == s[p3 + 32
                        + k]);
            }
            assert(sp_lit(s, p3 + 32, tail) == Option::Some(p3 + 32 + 3));
            assert(p3 + 32 + 3 == s.len());
        },
        CommandView::MarkAsRead { message_ids } => {
            let prefix = "{\"MarkAsRead\":{\"message_ids\":"@;
            let arr = ids_array(message_ids);
            let bb = "}}"@;
            assert(s == prefix + arr + bb);
            assert(s.len() == prefix.len() + arr.len() + bb.len());
            assert(arr.len() >= 2);
            assert(sp_lit(s, 0, "{\"SendMessage\":{\"content\":\""@) is None) by {
                if sp_lit(s, 0, "{\"SendMessage\":{\"content\":\""@) is Some {
                    assert(s.subrange(0, 28)[2] == s[2]);
                    assert(s[2] == 'M');
                }
            }
            let p1 = prefix.len() as int;
            assert(s.subrange(0, p1) =~= prefix);
            assert(sp_lit(s, 0, prefix) == Option::Some(p1));
            assert(s.subrange(p1, p1 + arr.len()) =~= arr) by {
                assert(forall|k: int|
                    0 <= k < arr.len() ==> #[trigger] s.subrange(p1, p1 + arr.len())[k] == s[p1
                        + k]);
            }
            lemma_sp_ids_complete(s, p1, message_ids);
            let p2 = p1 + arr.len();
            assert(s.subrange(p2, p2 + 2) =~= bb) by {
                assert(forall|k: int| 0 <= k < 2 ==> #[trigger] s.subrange(p2, p2 + 2)[k] == s[p2
                    + k]);
            }
            assert(sp_lit(s, p2, bb) == Option::Some(p2 + 2));
            assert(p2 + 2 == s.len());
        },
        CommandView::Typing { receiver_id } => {
            let prefix = "{\"Typing\":{\"receiver_id\":\""@;
            let idp = id_str(receiver_id);
            let tail = "\"}}"@;
            assert(s == prefix + idp + tail);
            lemma_hex_str_len(receiver_id as nat, 32);
            assert(s.len() == prefix.len() + idp.len() + tail.len());
            assert(sp_lit(s, 0, "{\"SendMessage\":{\"content\":\""@) is None) by {
                if sp_lit(s, 0, "{\"SendMessage\":{\"content\":\""@) is Some {
                    assert(s.subrange(0, 28)[2] == s[2]);
                    assert(s[2] == 'T');
                }
            }
            assert(sp_lit(s, 0, "{\"MarkAsRead\":{\"message_ids\":"@) is None) by {
                if sp_lit(s, 0, "{\"MarkAsRead\":{\"message_ids\":"@) is Some {
                    assert(s.subrange(0, 30)[2] == s[2]);
                    assert(s[2] == 'T');
                }
            }
            let p1 = prefix.len() as int;
            assert(s.subrange(0, p1) =~= prefix);
            assert(sp_lit(s, 0, prefix) == Option::Some(p1));
            assert(s.subrange(p1, p1 + 32) =~= idp) by {
                assert(forall|k: int| 0 <= k < 32 ==> #[trigger] s.subrange(p1, p1 + 32)[k] == s[p1
                    + k]);
            }
            lemma_pow16_32();
            lemma_hex_str_val(s, p1, 32, receiver_id as nat);
            assert((hex_seq_val(s, p1, 32) as u128) == receiver_id);
            assert(s.subrange(p1 + 32, p1 + 32 + 3) =~= tail) by {
                assert(forall|k: int|
                    0 <= k < 3 ==> #[trigger] s.subrange(p1 + 32, p1 + 32 + 3)[k] == s[p1 + 32
                        + k]);
            }
            assert(sp_lit(s, p1 + 32, tail) == Option::Some(p1 + 32 + 3));
            assert(p1 + 32 + 3 == s.len());
        },
    }
}

/// Reads a whole command frame, mirroring `sp_command` branch by branch.
fn parse_command_inner(s: &str) -> (r: Option<WebSocketCommand>)
    ensures
        match r {
            Option::Some(c) => sp_command(s@) == Option::Some(c@),
            Option::None => sp_command(s@) is None,
        },
{
    let n = s.unicode_len();
    match expect_lit(s, 0, "{\"SendMessage\":{\"content\":\"") {
        Option::None => {},
        Option::Some(p1) => {
            match parse_string_lit(s, p1) {
                Option::None => {
                    return Option::None;
                },
                Option::Some((w, p2)) => {
                    match expect_lit(s, p2, ",\"receiver_id\":\"") {
                        Option::None => {
                            return Option::None;
                        },
                        Option::Some(p3) => {
                            match parse_id(s, p3) {
                                Option::None => {
                                    return Option::None;
                                },
                                Option::Some(r) => {
                                    proof {
                                        lemma_hex_val_str(s@, p3 as int, 32);
                                        lemma_pow16_32();
                                    }
                                    match expect_lit(s, p3 + 32, "\"}}") {
                                        Option::None => {
                                            return Option::None;
                                        },
                                        Option::Some(p4) => {
                                            if p4 == n {
                                                return Option::Some(
                                                    WebSocketCommand::SendMessage {
                                                        content: w,
                                                        receiver_id: r,
                                                    },
                                                );
                                            }
                                            return Option::None;
                                        },
                                    }
                                },
                            }
                        },
                    }
                },
            }
        },
    }
    match expect_lit(s, 0, "{\"MarkAsRead\":{\"message_ids\":") {
        Option::None => {},
        Option::Some(p1) => {
            match parse_ids(s, p1) {
                Option::None => {
                    return Option::None;
                },
                Option::Some((ids, p2)) => {
                    match expect_lit(s, p2, "}}") {
                        Option::None => {
                            return Option::None;
                        },
                        Option::Some(p3) => {
                            if p3 == n {
                                return Option::Some(
                                    WebSocketCommand::MarkAsRead { message_ids: ids },
                                );
                            }
                            return Option::None;
                        },
                    }
                },
            }
        },
    }
    match expect_lit(s, 0, "{\"Typing\":{\"receiver_id\":\"") {
        Option::None => {},
        Option::Some(p1) => {
            match parse_id(s, p1) {
                Option::None => {
                    return Option::None;
                },
                Option::Some(r) => {
                    proof {
                        lemma_hex_val_str(s@, p1 as int, 32);
                        lemma_pow16_32();
                    }
                    match expect_lit(s, p1 + 32, "\"}}") {
                        Option::None => {
                            return Option::None;
                        },
                        Option::Some(p2) => {
                            if p2 == n {
                                return Option::Some(
                                    WebSocketCommand::Typing { receiver_id: r },
                                );
                            }
                            return Option::None;
                        },
                    }
                },
            }
        },
    }
    Option::None
}

/// Decodes one inbound text frame. Returns `Some(c)` exactly when the text
/// is the frame of some command `c`; every other text — unknown tags,
/// malformed documents, stray bytes — gives `None`, and the caller drops the
/// frame silently.
pub fn parse_command(s: &str) -> (r: Option<WebSocketCommand>)
    ensures
        match r {
            Option::Some(c) => sp_command(s@) == Option::Some(c@) && s@ == command_frame(c@),
            Option::None => sp_command(s@) is None && (forall|cv: CommandView| s@ != command_frame(
                cv,
            )),
        },
{
    let r = parse_command_inner(s);
    proof {
        if r is Some {
            lemma_sp_command_sound(s@, r->0@);
        } else {
            assert forall|cv: CommandView| s@ != command_frame(cv) by {
                if s@ == command_frame(cv) {
                    lemma_sp_command_complete(cv);
                }
            }
        }
    }
    r
}

} // verus!
