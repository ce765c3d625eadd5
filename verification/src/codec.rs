//! The frame codec: one chat message per newline-terminated line.
//!
//! The fixed wire contract of this library is the record
//! `{"data":[b0,b1,...]}` or `{"data":[b0,b1,...],"user_name":"name"}`
//! followed by a single line feed. Payload bytes travel as canonical
//! decimal numbers (no leading zeros), so any byte value survives the
//! text transport. In the sender name the characters `\`, `"`, line
//! feed and carriage return travel escaped as `\\`, `\"`, `\n` and
//! `\r`; every other character travels as itself. A bare line (empty,
//! or a lone line feed) is a heartbeat, not a message.

use vstd::prelude::*;

use crate::text::push_char;

verus! {

/// One chat message: raw payload bytes and an optional sender name.
pub struct ChatMessage {
    pub payload: Vec<u8>,
    pub sender: Option<String>,
}

/// The mathematical value of a `ChatMessage`.
pub struct MsgView {
    pub payload: Seq<u8>,
    pub sender: Option<Seq<char>>,
}

impl View for ChatMessage {
    type V = MsgView;

    open spec fn view(&self) -> MsgView {
        MsgView {
            payload: self.payload@,
            sender: match self.sender {
                Some(s) => Some(s@),
                None => None,
            },
        }
    }
}

/// The decode error: the line is not a well-formed frame.
#[derive(Clone, Copy, PartialEq, Eq, Structural, Debug)]
pub struct MalformedFrame;

/// What a line means: nothing (heartbeat), one message, or a protocol
/// violation.
pub enum DecodedView {
    Heartbeat,
    Message(MsgView),
    Malformed,
}

pub open spec fn spec_digit_char(d: int) -> char {
    if d == 0 {
        '0'
    } else if d == 1 {
        '1'
    } else if d == 2 {
        '2'
    } else if d == 3 {
        '3'
    } else if d == 4 {
        '4'
    } else if d == 5 {
        '5'
    } else if d == 6 {
        '6'
    } else if d == 7 {
        '7'
    } else if d == 8 {
        '8'
    } else {
        '9'
    }
}

/// Canonical decimal digits of a byte: no leading zeros.
pub open spec fn spec_enc_byte(b: u8) -> Seq<char> {
    if b < 10 {
        seq![spec_digit_char(b as int)]
    } else if b < 100 {
        seq![spec_digit_char(b as int / 10), spec_digit_char(b as int % 10)]
    } else {
        seq![
            spec_digit_char(b as int / 100),
            spec_digit_char((b as int / 10) % 10),
            spec_digit_char(b as int % 10),
        ]
    }
}

/// Comma-separated canonical decimals of the payload bytes.
pub open spec fn spec_enc_bytes(bs: Seq<u8>) -> Seq<char>
    decreases bs.len(),
{
    if bs.len() == 0 {
        Seq::empty()
    } else if bs.len() == 1 {
        spec_enc_byte(bs[0])
    } else {
        spec_enc_byte(bs[0]) + seq![','] + spec_enc_bytes(bs.drop_first())
    }
}

/// How one sender-name character travels on the wire.
pub open spec fn spec_escape_char(c: char) -> Seq<char> {
    if c == '\\' {
        seq!['\\', '\\']
    } else if c == '"' {
        seq!['\\', '"']
    } else if c == '\n' {
        seq!['\\', 'n']
    } else if c == '\r' {
        seq!['\\', 'r']
    } else {
        seq![c]
    }
}

pub open spec fn spec_escape(s: Seq<char>) -> Seq<char>
    decreases s.len(),
{
    if s.len() == 0 {
        Seq::empty()
    } else {
        spec_escape_char(s[0]) + spec_escape(s.drop_first())
    }
}

/// The nine characters every frame opens with.
pub open spec fn data_prefix() -> Seq<char> {
    seq!['{', '"', 'd', 'a', 't', 'a', '"', ':', '[']
}

/// The fourteen characters that introduce the sender name.
pub open spec fn sender_prefix() -> Seq<char> {
    seq![',', '"', 'u', 's', 'e', 'r', '_', 'n', 'a', 'm', 'e', '"', ':', '"']
}

/// The whole frame body, line feed not included.
pub open spec fn spec_encode_msg(m: MsgView) -> Seq<char> {
    data_prefix() + spec_enc_bytes(m.payload) + seq![']'] + match m.sender {
        None => seq!['}'],
        Some(n) => sender_prefix() + spec_escape(n) + seq!['"', '}'],
    }
}

/// The full wire line: the frame body and its terminating line feed.
pub open spec fn spec_encode_line(m: MsgView) -> Seq<char> {
    spec_encode_msg(m).push('\n')
}

pub open spec fn spec_digit_val(c: char) -> int {
    if c == '0' {
        0
    } else if c == '1' {
        1
    } else if c == '2' {
        2
    } else if c == '3' {
        3
    } else if c == '4' {
        4
    } else if c == '5' {
        5
    } else if c == '6' {
        6
    } else if c == '7' {
        7
    } else if c == '8' {
        8
    } else if c == '9' {
        9
    } else {
        -1
    }
}

/// One canonical decimal number at position `i`: its byte value and the
/// position just past its digits. `None` when no canonical number of a
/// byte starts there.
pub open spec fn spec_parse_num(s: Seq<char>, i: int) -> Option<(u8, int)> {
    if !(0 <= i < s.len()) || spec_digit_val(s[i]) < 0 {
        None
    } else if s[i] == '0' {
        Some((0u8, i + 1))
    } else {
        let d0 = spec_digit_val(s[i]);
        if i + 1 < s.len() && spec_digit_val(s[i + 1]) >= 0 {
            let d1 = spec_digit_val(s[i + 1]);
            if i + 2 < s.len() && spec_digit_val(s[i + 2]) >= 0 {
                let v = d0 * 100 + d1 * 10 + spec_digit_val(s[i + 2]);
                if v <= 255 {
                    Some((v as u8, i + 3))
                } else {
                    None
                }
            } else {
                Some(((d0 * 10 + d1) as u8, i + 2))
            }
        } else {
            Some((d0 as u8, i + 1))
        }
    }
}

proof fn lemma_parse_num_advances(s: Seq<char>, i: int)
    ensures
        spec_parse_num(s, i) matches Some(p) ==> i < p.1 <= s.len(),
{
}

/// One or more numbers separated by commas, closed by `]`: the bytes and
/// the position just past the `]`.
pub open spec fn spec_parse_items(s: Seq<char>, i: int) -> Option<(Seq<u8>, int)>
    decreases s.len() - i,
    via spec_parse_items_dec
{
    match spec_parse_num(s, i) {
        None => None,
        Some((b, j)) => if j < s.len() && s[j] == ',' {
            match spec_parse_items(s, j + 1) {
                None => None,
                Some((rest, k)) => Some((seq![b] + rest, k)),
            }
        } else if j < s.len() && s[j] == ']' {
            Some((seq![b], j + 1))
        } else {
            None
        },
    }
}

#[via_fn]
proof fn spec_parse_items_dec(s: Seq<char>, i: int) {
    lemma_parse_num_advances(s, i);
}

/// The character a wire escape code stands for.
pub open spec fn spec_unescape_char(c: char) -> Option<char> {
    if c == '\\' {
        Some('\\')
    } else if c == '"' {
        Some('"')
    } else if c == 'n' {
        Some('\n')
    } else if c == 'r' {
        Some('\r')
    } else {
        None
    }
}

/// A sender name at position `i`, up to and including its closing quote:
/// the unescaped characters and the position just past the quote.
pub open spec fn spec_parse_str(s: Seq<char>, i: int) -> Option<(Seq<char>, int)>
    decreases s.len() - i,
{
    if !(0 <= i < s.len()) {
        None
    } else if s[i] == '"' {
        Some((Seq::empty(), i + 1))
    } else if s[i] == '\\' {
        if i + 1 < s.len() {
            match spec_unescape_char(s[i + 1]) {
                None => None,
                Some(c) => match spec_parse_str(s, i + 2) {
                    None => None,
                    Some((rest, j)) => Some((seq![c] + rest, j)),
                },
            }
        } else {
            None
        }
    } else if s[i] == '\n' || s[i] == '\r' {
        None
    } else {
        match spec_parse_str(s, i + 1) {
            None => None,
            Some((rest, j)) => Some((seq![s[i]] + rest, j)),
        }
    }
}

/// The payload list: either the empty `]` right after the opening
/// bracket, or one or more numbers.
pub open spec fn spec_parse_payload(s: Seq<char>) -> Option<(Seq<u8>, int)> {
    if s.len() > 9 && s[9] == ']' {
        Some((Seq::empty(), 10))
    } else {
        spec_parse_items(s, 9)
    }
}

/// What may follow the payload: the closing brace, or the sender field
/// and then the closing brace, either one ending the line.
pub open spec fn spec_parse_tail(s: Seq<char>, i: int, payload: Seq<u8>) -> Option<MsgView> {
    if i < s.len() && s[i] == '}' && i + 1 == s.len() {
        Some(MsgView { payload, sender: None })
    } else if i + 14 <= s.len() && s.subrange(i, i + 14) == sender_prefix() {
        match spec_parse_str(s, i + 14) {
            None => None,
            Some((name, j)) => if j < s.len() && s[j] == '}' && j + 1 == s.len() {
                Some(MsgView { payload, sender: Some(name) })
            } else {
                None
            },
        }
    } else {
        None
    }
}

/// A whole frame body (no line feed): the message it carries, if any.
pub open spec fn spec_parse_msg(s: Seq<char>) -> Option<MsgView> {
    if s.len() < 9 || s.subrange(0, 9) != data_prefix() {
        None
    } else {
        match spec_parse_payload(s) {
            None => None,
            Some((payload, i)) => spec_parse_tail(s, i, payload),
        }
    }
}

/// At most one trailing line feed is dropped before parsing.
pub open spec fn strip_line_feed(line: Seq<char>) -> Seq<char> {
    if line.len() > 0 && line.last() == '\n' {
        line.drop_last()
    } else {
        line
    }
}

/// What a received line means. This is the whole decode contract.
pub open spec fn spec_decode(line: Seq<char>) -> DecodedView {
    let s = strip_line_feed(line);
    if s.len() == 0 {
        DecodedView::Heartbeat
    } else {
        match spec_parse_msg(s) {
            None => DecodedView::Malformed,
            Some(m) => DecodedView::Message(m),
        }
    }
}

fn digit_char(d: u8) -> (r: char)
    requires
        d < 10,
    ensures
        r == spec_digit_char(d as int),
{
    if d == 0 {
        '0'
    } else if d == 1 {
        '1'
    } else if d == 2 {
        '2'
    } else if d == 3 {
        '3'
    } else if d == 4 {
        '4'
    } else if d == 5 {
        '5'
    } else if d == 6 {
        '6'
    } else if d == 7 {
        '7'
    } else if d == 8 {
        '8'
    } else {
        '9'
    }
}

fn push_byte_dec(out: &mut String, b: u8)
    ensures
        final(out)@ == old(out)@ + spec_enc_byte(b),
{
    if b < 10 {
        push_char(out, digit_char(b));
    } else if b < 100 {
        push_char(out, digit_char(b / 10));
        push_char(out, digit_char(b % 10));
    } else {
        push_char(out, digit_char(b / 100));
        push_char(out, digit_char((b / 10) % 10));
        push_char(out, digit_char(b % 10));
    }
    proof {
        assert(final(out)@ =~= old(out)@ + spec_enc_byte(b));
    }
}

fn push_bytes_dec(out: &mut String, bs: &Vec<u8>, i: usize)
    requires
        i <= bs@.len(),
    ensures
        final(out)@ == old(out)@ + spec_enc_bytes(bs@.skip(i as int)),
    decreases bs@.len() - i,
{
    if i < bs.len() {
        push_byte_dec(out, bs[i]);
        if i + 1 < bs.len() {
            push_char(out, ',');
        }
        push_bytes_dec(out, bs, i + 1);
        proof {
            assert(bs@.skip(i as int)[0] == bs@[i as int]);
            assert(bs@.skip(i as int).drop_first() =~= bs@.skip(i + 1));
            assert(final(out)@ =~= old(out)@ + spec_enc_bytes(bs@.skip(i as int)));
        }
    } else {
        proof {
            assert(bs@.skip(i as int) =~= Seq::<u8>::empty());
            assert(final(out)@ =~= old(out)@ + spec_enc_bytes(bs@.skip(i as int)));
        }
    }
}

fn push_escaped_char(out: &mut String, c: char)
    ensures
        final(out)@ == old(out)@ + spec_escape_char(c),
{
    if c == '\\' {
        push_char(out, '\\');
        push_char(out, '\\');
    } else if c == '"' {
        push_char(out, '\\');
        push_char(out, '"');
    } else if c == '\n' {
        push_char(out, '\\');
        push_char(out, 'n');
    } else if c == '\r' {
        push_char(out, '\\');
        push_char(out, 'r');
    } else {
        push_char(out, c);
    }
    proof {
        assert(final(out)@ =~= old(out)@ + spec_escape_char(c));
    }
}

fn push_escaped(out: &mut String, s: &str, i: usize)
    requires
        i <= s@.len(),
    ensures
        final(out)@ == old(out)@ + spec_escape(s@.skip(i as int)),
    decreases s@.len() - i,
{
    let n = s.unicode_len();
    if i < n {
        let c = s.get_char(i);
        push_escaped_char(out, c);
        push_escaped(out, s, i + 1);
        proof {
            assert(s@.skip(i as int)[0] == s@[i as int]);
            assert(s@.skip(i as int).drop_first() =~= s@.skip(i + 1));
            assert(final(out)@ =~= old(out)@ + spec_escape(s@.skip(i as int)));
        }
    } else {
        proof {
            assert(s@.skip(i as int) =~= Seq::<char>::empty());
            assert(final(out)@ =~= old(out)@ + spec_escape(s@.skip(i as int)));
        }
    }
}

/// Encode one message as its wire line, line feed included.
#[verifier::rlimit(30)]
pub fn encode(m: &ChatMessage) -> (r: String)
    ensures
        r@ == spec_encode_line(m@),
{
    let mut out = String::new();
    push_char(&mut out, '{');
    push_char(&mut out, '"');
    push_char(&mut out, 'd');
    push_char(&mut out, 'a');
    push_char(&mut out, 't');
    push_char(&mut out, 'a');
    push_char(&mut out, '"');
    push_char(&mut out, ':');
    push_char(&mut out, '[');
    proof {
        assert(out@ =~= data_prefix());
    }
    push_bytes_dec(&mut out, &m.payload, 0);
    proof {
        assert(m.payload@.skip(0) =~= m.payload@);
    }
    push_char(&mut out, ']');
    match &m.sender {
        None => {
            push_char(&mut out, '}');
            proof {
                assert(out@ =~= spec_encode_msg(m@));
            }
        },
        Some(n) => {
            push_char(&mut out, ',');
            push_char(&mut out, '"');
            push_char(&mut out, 'u');
            push_char(&mut out, 's');
            push_char(&mut out, 'e');
            push_char(&mut out, 'r');
            push_char(&mut out, '_');
            push_char(&mut out, 'n');
            push_char(&mut out, 'a');
            push_char(&mut out, 'm');
            push_char(&mut out, 'e');
            push_char(&mut out, '"');
            push_char(&mut out, ':');
            push_char(&mut out, '"');
            push_escaped(&mut out, n.as_str(), 0);
            proof {
                assert(n@.skip(0) =~= n@);
            }
            push_char(&mut out, '"');
            push_char(&mut out, '}');
            proof {
                assert(out@ =~= spec_encode_msg(m@));
            }
        },
    }
    push_char(&mut out, '\n');
    out
}

proof fn lemma_digit_char_val(d: int)
    requires
        0 <= d < 10,
    ensures
        spec_digit_val(spec_digit_char(d)) == d,
        spec_digit_char(d) == '0' <==> d == 0,
        spec_digit_val(spec_digit_char(d)) >= 0,
{
}

/// One fact of a known subrange: the character at offset `k`.
proof fn lemma_sub_at(s: Seq<char>, i: int, e: Seq<char>, k: int)
    requires
        0 <= i,
        i + e.len() <= s.len(),
        s.subrange(i, i + e.len() as int) == e,
        0 <= k < e.len(),
    ensures
        s[i + k] == e[k],
{
    assert(s.subrange(i, i + e.len() as int)[k] == s[i + k]);
}

/// A canonical decimal in a line, followed by a non-digit, parses back to
/// exactly the byte it encodes.
proof fn lemma_parse_num_enc(s: Seq<char>, i: int, b: u8)
    requires
        0 <= i,
        i + spec_enc_byte(b).len() < s.len(),
        s.subrange(i, i + spec_enc_byte(b).len()) == spec_enc_byte(b),
        spec_digit_val(s[i + spec_enc_byte(b).len()]) < 0,
    ensures
        spec_parse_num(s, i) == Some((b, i + spec_enc_byte(b).len())),
{
    let e = spec_enc_byte(b);
    let l = e.len() as int;
    if l >= 1 {
        lemma_sub_at(s, i, e, 0);
        assert(s[i] == e[0]);
    }
    if l >= 2 {
        lemma_sub_at(s, i, e, 1);
        assert(s[i + 1] == e[1]);
    }
    if l >= 3 {
        lemma_sub_at(s, i, e, 2);
        assert(s[i + 2] == e[2]);
    }
    if b < 10 {
        lemma_digit_char_val(b as int);
        assert(s[i] == spec_digit_char(b as int));
        if b == 0 {
        } else {
            assert(spec_digit_val(s[i + 1]) < 0);
        }
    } else if b < 100 {
        let d0 = b as int / 10;
        let d1 = b as int % 10;
        assert(1 <= d0 < 10);
        assert(0 <= d1 < 10);
        lemma_digit_char_val(d0);
        lemma_digit_char_val(d1);
        assert(s[i] == spec_digit_char(d0));
        assert(s[i + 1] == spec_digit_char(d1));
        assert(s[i] != '0');
        assert(spec_digit_val(s[i + 2]) < 0);
        assert(d0 * 10 + d1 == b as int);
    } else {
        let d0 = b as int / 100;
        let d1 = (b as int / 10) % 10;
        let d2 = b as int % 10;
        assert(1 <= d0 < 10);
        assert(0 <= d1 < 10);
        assert(0 <= d2 < 10);
        lemma_digit_char_val(d0);
        lemma_digit_char_val(d1);
        lemma_digit_char_val(d2);
        assert(s[i] == spec_digit_char(d0));
        assert(s[i + 1] == spec_digit_char(d1));
        assert(s[i + 2] == spec_digit_char(d2));
        assert(s[i] != '0');
        assert(b as int == 10 * (b as int / 10) + d2);
        assert(b as int / 10 == 10 * (b as int / 10 / 10) + d1);
        assert(b as int / 10 / 10 == d0) by {
            assert(b as int == 100 * (b as int / 10 / 10) + (10 * d1 + d2));
            assert(0 <= 10 * d1 + d2 < 100);
            vstd::arithmetic::div_mod::lemma_fundamental_div_mod_converse(
                b as int,
                100,
                b as int / 10 / 10,
                10 * d1 + d2,
            );
        }
        assert(d0 * 100 + d1 * 10 + d2 == b as int);
    }
}

/// An encoded payload list followed by `]` parses back to exactly the
/// bytes it encodes.
proof fn lemma_parse_items_enc(s: Seq<char>, i: int, bs: Seq<u8>)
    requires
        0 <= i,
        bs.len() > 0,
        i + spec_enc_bytes(bs).len() + 1 <= s.len(),
        s.subrange(i, i + spec_enc_bytes(bs).len()) == spec_enc_bytes(bs),
        s[i + spec_enc_bytes(bs).len()] == ']',
    ensures
        spec_parse_items(s, i) == Some((bs, i + spec_enc_bytes(bs).len() + 1)),
    decreases bs.len(),
{
    let eb = spec_enc_bytes(bs);
    let b0 = bs[0];
    let e0 = spec_enc_byte(b0);
    let l0 = e0.len() as int;
    if bs.len() == 1 {
        assert(eb == e0);
        assert(s.subrange(i, i + l0) =~= e0);
        assert(spec_digit_val(']') < 0);
        lemma_parse_num_enc(s, i, b0);
        assert(s[i + l0] == ']');
        assert(seq![b0] =~= bs);
    } else {
        let rest = bs.drop_first();
        let er = spec_enc_bytes(rest);
        assert(eb == e0 + seq![','] + er);
        assert(s.subrange(i, i + l0) =~= e0) by {
            assert forall|k: int| 0 <= k < l0 implies s.subrange(i, i + l0)[k] == e0[k] by {
                lemma_sub_at(s, i, eb, k);
                assert((e0 + seq![','] + er)[k] == e0[k]);
            }
        }
        assert(s[i + l0] == ',') by {
            lemma_sub_at(s, i, eb, l0);
            assert((e0 + seq![','] + er)[l0] == ',');
        }
        assert(spec_digit_val(',') < 0);
        lemma_parse_num_enc(s, i, b0);
        let j = i + l0;
        assert(s.subrange(j + 1, j + 1 + er.len() as int) =~= er) by {
            assert forall|k: int| 0 <= k < er.len() implies s.subrange(
                j + 1,
                j + 1 + er.len() as int,
            )[k] == er[k] by {
                lemma_sub_at(s, i, eb, l0 + 1 + k);
                assert((e0 + seq![','] + er)[l0 + 1 + k] == er[k]);
                assert(s.subrange(j + 1, j + 1 + er.len() as int)[k] == s[j + 1 + k]);
            }
        }
        assert(j + 1 + er.len() == i + eb.len());
        lemma_parse_items_enc(s, j + 1, rest);
        assert(seq![b0] + rest =~= bs);
    }
}

/// An escaped sender name followed by `"` parses back to exactly the
/// name it encodes.
proof fn lemma_parse_str_enc(s: Seq<char>, i: int, name: Seq<char>)
    requires
        0 <= i,
        i + spec_escape(name).len() < s.len(),
        s.subrange(i, i + spec_escape(name).len()) == spec_escape(name),
        s[i + spec_escape(name).len()] == '"',
    ensures
        spec_parse_str(s, i) == Some((name, i + spec_escape(name).len() + 1)),
    decreases name.len(),
{
    let es = spec_escape(name);
    if name.len() == 0 {
        assert(s[i] == '"') by {
            assert(i + es.len() == i);
        }
    } else {
        let c = name[0];
        let ec = spec_escape_char(c);
        let rest = name.drop_first();
        let er = spec_escape(rest);
        assert(es == ec + er);
        let j = i + ec.len() as int;
        assert(s[i] == ec[0]) by {
            lemma_sub_at(s, i, es, 0);
            assert((ec + er)[0] == ec[0]);
        }
        if ec.len() == 2 {
            assert(s[i + 1] == ec[1]) by {
                lemma_sub_at(s, i, es, 1);
                assert((ec + er)[1] == ec[1]);
            }
        }
        assert(s.subrange(j, j + er.len() as int) =~= er) by {
            assert forall|k: int| 0 <= k < er.len() implies s.subrange(j, j + er.len() as int)[k]
                == er[k] by {
                lemma_sub_at(s, i, es, ec.len() + k);
                assert((ec + er)[ec.len() + k] == er[k]);
                assert(s.subrange(j, j + er.len() as int)[k] == s[j + k]);
            }
        }
        assert(j + er.len() == i + es.len());
        lemma_parse_str_enc(s, j, rest);
        if c == '\\' || c == '"' || c == '\n' || c == '\r' {
            assert(s[i] == '\\');
            assert(spec_unescape_char(s[i + 1]) == Some(c));
            assert(seq![c] + rest =~= name);
        } else {
            assert(s[i] == c);
            assert(seq![c] + rest =~= name);
        }
    }
}

/// Round trip: a message surviving encode and decode is the same message.
/// This holds for every payload (empty included, line feeds included)
/// and every sender name.
#[verifier::rlimit(60)]
pub proof fn lemma_decode_encode(m: MsgView)
    ensures
        spec_decode(spec_encode_line(m)) == DecodedView::Message(m),
{
    let body = spec_encode_msg(m);
    let line = spec_encode_line(m);
    let eb = spec_enc_bytes(m.payload);
    let tail = match m.sender {
        None => seq!['}'],
        Some(n) => sender_prefix() + spec_escape(n) + seq!['"', '}'],
    };
    assert(body == data_prefix() + eb + seq![']'] + tail);
    assert(line.last() == '\n');
    assert(strip_line_feed(line) =~= body);
    let s = body;
    assert(s.len() >= 11);
    assert(s.subrange(0, 9) =~= data_prefix());
    let i0 = 9 + eb.len() as int;
    assert(s[i0] == ']');
    if m.payload.len() == 0 {
        assert(eb.len() == 0);
        assert(s[9] == ']');
        assert(spec_parse_payload(s) == Some((Seq::<u8>::empty(), 10int)));
        assert(Seq::<u8>::empty() =~= m.payload);
    } else {
        assert(s[9] == eb[0]);
        assert(eb[0] == spec_enc_byte(m.payload[0])[0]);
        assert(forall|d: int| spec_digit_char(d) != ']');
        assert(s[9] != ']');
        assert(s.subrange(9, 9 + eb.len() as int) =~= eb);
        lemma_parse_items_enc(s, 9, m.payload);
        assert(spec_parse_payload(s) == Some((m.payload, i0 + 1)));
    }
    let i1 = i0 + 1;
    match m.sender {
        None => {
            assert(s[i1] == '}');
            assert(i1 + 1 == s.len());
            assert(spec_parse_tail(s, i1, m.payload) == Some(m));
        },
        Some(name) => {
            let es = spec_escape(name);
            assert(s[i1] == ',');
            assert(s[i1] != '}');
            assert(s.subrange(i1, i1 + 14) =~= sender_prefix());
            let i2 = i1 + 14;
            assert(s.subrange(i2, i2 + es.len()) =~= es);
            assert(s[i2 + es.len()] == '"');
            lemma_parse_str_enc(s, i2, name);
            let j = i2 + es.len() + 1;
            assert(s[j] == '}');
            assert(j + 1 == s.len());
            assert(spec_parse_tail(s, i1, m.payload) == Some(m));
        },
    }
    assert(spec_parse_msg(s) == Some(m));
}

fn digit_of(c: char) -> (r: Option<u8>)
    ensures
        r is Some <==> spec_digit_val(c) >= 0,
        r matches Some(d) ==> d == spec_digit_val(c),
{
    if c == '0' {
        Some(0)
    } else if c == '1' {
        Some(1)
    } else if c == '2' {
        Some(2)
    } else if c == '3' {
        Some(3)
    } else if c == '4' {
        Some(4)
    } else if c == '5' {
        Some(5)
    } else if c == '6' {
        Some(6)
    } else if c == '7' {
        Some(7)
    } else if c == '8' {
        Some(8)
    } else if c == '9' {
        Some(9)
    } else {
        None
    }
}

fn parse_num(v: &Vec<char>, i: usize) -> (r: Option<(u8, usize)>)
    ensures
        r is None <==> spec_parse_num(v@, i as int) is None,
        r matches Some(p) ==> spec_parse_num(v@, i as int) == Some((p.0, p.1 as int)) && i < p.1
            <= v@.len(),
{
    let n = v.len();
    if i >= n {
        return None;
    }
    let d0 = match digit_of(v[i]) {
        None => {
            return None;
        },
        Some(d) => d,
    };
    if v[i] == '0' {
        return Some((0, i + 1));
    }
    if i + 1 < n {
        match digit_of(v[i + 1]) {
            None => Some((d0, i + 1)),
            Some(d1) => {
                if i + 2 < n {
                    match digit_of(v[i + 2]) {
                        None => Some((d0 * 10 + d1, i + 2)),
                        Some(d2) => {
                            let val: u32 = (d0 as u32) * 100 + (d1 as u32) * 10 + (d2 as u32);
                            if val <= 255 {
                                Some((val as u8, i + 3))
                            } else {
                                None
                            }
                        },
                    }
                } else {
                    Some((d0 * 10 + d1, i + 2))
                }
            },
        }
    } else {
        Some((d0, i + 1))
    }
}

fn parse_items(v: &Vec<char>, i: usize) -> (r: Option<(Vec<u8>, usize)>)
    ensures
        r is None <==> spec_parse_items(v@, i as int) is None,
        r matches Some(p) ==> spec_parse_items(v@, i as int) == Some((p.0@, p.1 as int)) && i < p.1
            <= v@.len(),
    decreases v@.len() - i,
{
    match parse_num(v, i) {
        None => None,
        Some((b, j)) => {
            if j < v.len() && v[j] == ',' {
                match parse_items(v, j + 1) {
                    None => None,
                    Some((rest, k)) => {
                        let mut out = rest;
                        out.insert(0, b);
                        proof {
                            assert(out@ =~= seq![b] + rest@);
                        }
                        Some((out, k))
                    },
                }
            } else if j < v.len() && v[j] == ']' {
                let mut out: Vec<u8> = Vec::new();
                out.push(b);
                proof {
                    assert(out@ =~= seq![b]);
                }
                Some((out, j + 1))
            } else {
                None
            }
        },
    }
}

fn parse_strcontent(v: &Vec<char>, i: usize) -> (r: Option<(Vec<char>, usize)>)
    ensures
        r is None <==> spec_parse_str(v@, i as int) is None,
        r matches Some(p) ==> spec_parse_str(v@, i as int) == Some((p.0@, p.1 as int)) && i < p.1
            <= v@.len(),
    decreases v@.len() - i,
{
    if i >= v.len() {
        return None;
    }
    let c = v[i];
    if c == '"' {
        Some((Vec::new(), i + 1))
    } else if c == '\\' {
        if i + 1 < v.len() {
            let e = v[i + 1];
            let u: char = if e == '\\' {
                '\\'
            } else if e == '"' {
                '"'
            } else if e == 'n' {
                '\n'
            } else if e == 'r' {
                '\r'
            } else {
                return None;
            };
            match parse_strcontent(v, i + 2) {
                None => None,
                Some((rest, j)) => {
                    let mut out = rest;
                    out.insert(0, u);
                    proof {
                        assert(out@ =~= seq![u] + rest@);
                    }
                    Some((out, j))
                },
            }
        } else {
            None
        }
    } else if c == '\n' || c == '\r' {
        None
    } else {
        match parse_strcontent(v, i + 1) {
            None => None,
            Some((rest, j)) => {
                let mut out = rest;
                out.insert(0, c);
                proof {
                    assert(out@ =~= seq![c] + rest@);
                }
                Some((out, j))
            },
        }
    }
}

/// Whether the characters of `pat` stand in `v` starting at `i`.
fn match_at(v: &Vec<char>, i: usize, pat: &[char]) -> (r: bool)
    requires
        i <= v@.len(),
    ensures
        r <==> (i + pat@.len() <= v@.len() && v@.subrange(i as int, i + pat@.len()) == pat@),
{
    let n = v.len();
    let m = pat.len();
    if n - i < m {
        return false;
    }
    let mut j: usize = 0;
    while j < m
        invariant
            i + m <= n,
            n == v@.len(),
            m == pat@.len(),
            j <= m,
            forall|k: int| 0 <= k < j ==> v@[i + k] == pat@[k],
        decreases m - j,
    {
        if v[i + j] != pat[j] {
            proof {
                assert(v@.subrange(i as int, i + pat@.len())[j as int] != pat@[j as int]);
            }
            return false;
        }
        j = j + 1;
    }
    proof {
        assert(v@.subrange(i as int, i + pat@.len()) =~= pat@);
    }
    true
}

/// Decode one received line. `Ok(None)` is a heartbeat (an empty line),
/// `Ok(Some(m))` the message the line carries, and `Err(MalformedFrame)`
/// says the line is not a well-formed frame. The line is accepted with
/// or without its trailing line feed.
pub fn decode(line: &str) -> (r: Result<Option<ChatMessage>, MalformedFrame>)
    ensures
        spec_decode(line@) is Heartbeat <==> r == Ok::<Option<ChatMessage>, MalformedFrame>(
            None::<ChatMessage>,
        ),
        spec_decode(line@) matches DecodedView::Message(m) ==> (r matches Ok(o) && o matches Some(
            cm,
        ) && cm@ == m),
        r matches Ok(Some(cm)) ==> spec_decode(line@) == DecodedView::Message(cm@),
        spec_decode(line@) is Malformed <==> r == Err::<Option<ChatMessage>, MalformedFrame>(
            MalformedFrame,
        ),
{
    let mut v = crate::text::str_chars(line);
    if v.len() > 0 && v[v.len() - 1] == '\n' {
        v.pop();
    }
    proof {
        assert(v@ =~= strip_line_feed(line@));
    }
    if v.len() == 0 {
        return Ok(None);
    }
    let opening: [char; 9] = ['{', '"', 'd', 'a', 't', 'a', '"', ':', '['];
    proof {
        assert(opening@ =~= data_prefix());
    }
    if !match_at(&v, 0, opening.as_slice()) {
        proof {
            if v@.len() >= 9 {
                assert(v@.subrange(0, 9) != data_prefix());
            }
        }
        return Err(MalformedFrame);
    }
    let parsed = if v.len() > 9 && v[9] == ']' {
        Some((Vec::new(), 10usize))
    } else {
        parse_items(&v, 9)
    };
    let (payload, i) = match parsed {
        None => {
            return Err(MalformedFrame);
        },
        Some(p) => p,
    };
    if i < v.len() && v[i] == '}' && i + 1 == v.len() {
        return Ok(Some(ChatMessage { payload, sender: None }));
    }
    let named: [char; 14] = [',', '"', 'u', 's', 'e', 'r', '_', 'n', 'a', 'm', 'e', '"', ':', '"'];
    proof {
        assert(named@ =~= sender_prefix());
    }
    if i <= v.len() && match_at(&v, i, named.as_slice()) {
        match parse_strcontent(&v, i + 14) {
            None => Err(MalformedFrame),
            Some((name, j)) => {
                if j < v.len() && v[j] == '}' && j + 1 == v.len() {
                    let sender = crate::text::chars_to_string(&name);
                    Ok(Some(ChatMessage { payload, sender: Some(sender) }))
                } else {
                    Err(MalformedFrame)
                }
            },
        }
    } else {
        Err(MalformedFrame)
    }
}

} // verus!
