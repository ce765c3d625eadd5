//! The client's side of the protocol: the message it frames for the
//! server, the message it shows on its own console, the line-editing
//! buffer behind the input window, and the handling of lines arriving
//! from the server. The terminal and the socket stay with the caller.

use vstd::prelude::*;

use crate::codec::ChatMessage;
use crate::codec::DecodedView;
use crate::codec::MalformedFrame;
use crate::codec::MsgView;
use crate::codec::decode;
use crate::codec::encode;
use crate::codec::spec_decode;
use crate::codec::spec_encode_line;
use crate::text::chars_to_string;
use crate::text::display_text;
use crate::text::payload_text;
use crate::text::push_char;

verus! {

/// A message bound for the server: the typed bytes and the sender's
/// user name.
pub struct SocketMessage {
    pub data: Vec<u8>,
    pub username: String,
}

impl SocketMessage {
    pub fn new(data: Vec<u8>, username: String) -> (r: SocketMessage)
        ensures
            r.data@ == data@,
            r.username@ == username@,
    {
        SocketMessage { data, username }
    }

    /// The wire line carrying this message, line feed included.
    pub fn wire_line(self) -> (r: String)
        ensures
            r@ == spec_encode_line(
                MsgView { payload: self.data@, sender: Some(self.username@) },
            ),
    {
        let msg = ChatMessage { payload: self.data, sender: Some(self.username) };
        encode(&msg)
    }
}

/// A message shown on this client's console: its text and the name it
/// is shown under — `None` for a message of one's own.
pub struct LocalMessage {
    pub content: String,
    pub username: Option<String>,
}

impl LocalMessage {
    pub fn new(content: String, username: Option<String>) -> (r: LocalMessage)
        ensures
            r.content@ == content@,
            r.username == username,
    {
        LocalMessage { content, username }
    }
}

/// The console line of a local message: `name: text`, with `You` for
/// one's own messages.
pub open spec fn spec_console_line(m: &LocalMessage) -> Seq<char> {
    match m.username {
        Some(n) => n@ + seq![':', ' '] + m.content@,
        None => seq!['Y', 'o', 'u'] + seq![':', ' '] + m.content@,
    }
}

/// Format a local message for the console window.
pub fn console_line(m: &LocalMessage) -> (r: String)
    ensures
        r@ == spec_console_line(m),
{
    let mut out: String = match &m.username {
        Some(n) => n.clone(),
        None => {
            let mut you = String::new();
            push_char(&mut you, 'Y');
            push_char(&mut you, 'o');
            push_char(&mut you, 'u');
            proof {
                assert(you@ =~= seq!['Y', 'o', 'u']);
            }
            you
        },
    };
    push_char(&mut out, ':');
    push_char(&mut out, ' ');
    out.append(m.content.as_str());
    proof {
        assert(out@ =~= spec_console_line(m));
    }
    out
}

/// The line being typed: characters arrive one keystroke at a time,
/// backspace drops the last one, and submitting takes the whole line
/// and clears the buffer.
pub struct InputBuffer {
    pub chars: Vec<char>,
}

impl InputBuffer {
    pub fn new() -> (r: InputBuffer)
        ensures
            r.chars@ == Seq::<char>::empty(),
    {
        InputBuffer { chars: Vec::new() }
    }

    /// One typed character.
    pub fn push(&mut self, c: char)
        ensures
            final (self).chars@ == old(self).chars@.push(c),
    {
        self.chars.push(c);
    }

    /// One backspace: drops the last character; nothing happens on an
    /// empty line.
    pub fn backspace(&mut self)
        ensures
            old(self).chars@.len() > 0 ==> final (self).chars@ == old(self).chars@.drop_last(),
            old(self).chars@.len() == 0 ==> final (self).chars@ == old(self).chars@,
    {
        let _ = self.chars.pop();
    }

    /// Submit the typed line: the text as a string and as its bytes for
    /// the payload, with the buffer left empty for the next line.
    pub fn submit(&mut self) -> (r: (String, Vec<u8>))
        ensures
            r.0@ == old(self).chars@,
            r.1@ == vstd::utf8::encode_utf8(old(self).chars@),
            final (self).chars@ == Seq::<char>::empty(),
    {
        let text = chars_to_string(&self.chars);
        let bytes = text.as_str().as_bytes_vec();
        self.chars.clear();
        (text, bytes)
    }
}

/// Handle one line arriving from the server: `Ok(None)` for a
/// heartbeat, `Ok(Some(m))` the message to show, under its sender's
/// name and with the display text of its payload, and
/// `Err(MalformedFrame)` for a line that is no well-formed frame.
pub fn inbound_message(line: &str) -> (r: Result<Option<LocalMessage>, MalformedFrame>)
    ensures
        spec_decode(line@) is Heartbeat <==> (r matches Ok(o) && o is None),
        spec_decode(line@) matches DecodedView::Message(m) ==> (r matches Ok(o) && o matches Some(
            lm,
        ) && lm.content@ == display_text(m.payload) && (match (lm.username, m.sender) {
            (Some(ln), Some(mn)) => ln@ == mn,
            (None, None) => true,
            _ => false,
        })),
        spec_decode(line@) is Malformed <==> r is Err,
{
    match decode(line) {
        Err(e) => Err(e),
        Ok(None) => Ok(None),
        Ok(Some(msg)) => {
            let content = payload_text(&msg.payload);
            Ok(Some(LocalMessage { content, username: msg.sender }))
        },
    }
}

} // verus!
