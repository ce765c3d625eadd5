//! The per-connection reader: a two-state machine. In `Reading` it
//! takes one read event after another; a clean close or a read failure
//! moves it to `Terminated`, the one step that removes the connection
//! from the registry. `Terminated` is absorbing: nothing is read and
//! nothing is removed ever again. The surrounding loop performs the
//! blocking reads and carries out the returned action.

use vstd::prelude::*;

use crate::codec::ChatMessage;
use crate::codec::DecodedView;
use crate::codec::MsgView;
use crate::codec::decode;
use crate::codec::spec_decode;
use crate::text::display_text;
use crate::text::payload_text;
use crate::text::push_char;

verus! {

/// The reader's state: still reading, or done for good.
#[derive(Clone, Copy, PartialEq, Eq, Structural, Debug)]
pub enum ReaderState {
    Reading,
    Terminated,
}

/// One blocking read's outcome, as the loop hands it in: the peer
/// closed cleanly, a line arrived, or the read failed.
pub enum ReadEvent {
    Closed,
    Line(String),
    Failed,
}

/// What the loop must do after a step: nothing, relay a formatted
/// line exactly once, report a protocol violation and keep reading, or
/// remove this connection from the registry and stop.
pub enum ReaderAction {
    DoNothing,
    Relay(String),
    ReportMalformed,
    RemoveAndStop,
}

/// Whether an event ends the connection.
pub open spec fn spec_closing(ev: &ReadEvent) -> bool {
    ev is Closed || ev is Failed
}

/// The state after one event: `Terminated` is absorbing, and only a
/// closing event leaves `Reading`.
pub open spec fn spec_next_state(state: ReaderState, closing: bool) -> ReaderState {
    if state is Terminated {
        ReaderState::Terminated
    } else if closing {
        ReaderState::Terminated
    } else {
        ReaderState::Reading
    }
}

/// The line a relayed message shows: `sender: text`, or the bare text
/// when the oldest protocol variant sent no sender.
pub open spec fn spec_relay_line(m: MsgView) -> Seq<char> {
    match m.sender {
        Some(n) => n + seq![':', ' '] + display_text(m.payload),
        None => display_text(m.payload),
    }
}

/// Format one decoded message for relay.
pub fn relay_line(m: &ChatMessage) -> (r: String)
    ensures
        r@ == spec_relay_line(m@),
{
    let text = payload_text(&m.payload);
    match &m.sender {
        None => text,
        Some(n) => {
            let mut out = n.clone();
            push_char(&mut out, ':');
            push_char(&mut out, ' ');
            out.append(text.as_str());
            proof {
                assert(out@ =~= n@ + seq![':', ' '] + text@);
            }
            out
        },
    }
}

/// One step of the reader: the next state and the action owed for the
/// event. A closing event from `Reading` is the only step that removes
/// the connection, and every message is relayed exactly once, by the
/// step that decodes it.
pub fn reader_step(state: ReaderState, event: &ReadEvent) -> (r: (ReaderState, ReaderAction))
    ensures
        r.0 == spec_next_state(state, spec_closing(event)),
        r.1 is RemoveAndStop <==> state is Reading && spec_closing(event),
        state is Terminated ==> r.1 is DoNothing,
        event matches ReadEvent::Line(l) ==> (state is Reading ==> match spec_decode(l@) {
            DecodedView::Heartbeat => r.1 is DoNothing,
            DecodedView::Malformed => r.1 is ReportMalformed,
            DecodedView::Message(m) => r.1 matches ReaderAction::Relay(out) && out@
                == spec_relay_line(m),
        }),
{
    match state {
        ReaderState::Terminated => (ReaderState::Terminated, ReaderAction::DoNothing),
        ReaderState::Reading => match event {
            ReadEvent::Closed => (ReaderState::Terminated, ReaderAction::RemoveAndStop),
            ReadEvent::Failed => (ReaderState::Terminated, ReaderAction::RemoveAndStop),
            ReadEvent::Line(l) => match decode(l.as_str()) {
                Ok(None) => (ReaderState::Reading, ReaderAction::DoNothing),
                Ok(Some(m)) => (ReaderState::Reading, ReaderAction::Relay(relay_line(&m))),
                Err(_) => (ReaderState::Reading, ReaderAction::ReportMalformed),
            },
        },
    }
}

/// How many removals a run of events causes, starting in `state`: each
/// event is abstracted to whether it closes the connection.
pub open spec fn spec_removals(state: ReaderState, closings: Seq<bool>) -> nat
    decreases closings.len(),
{
    if closings.len() == 0 {
        0
    } else {
        (if state is Reading && closings[0] {
            1nat
        } else {
            0nat
        }) + spec_removals(spec_next_state(state, closings[0]), closings.drop_first())
    }
}

/// A terminated reader never removes anything again.
pub proof fn lemma_terminated_removes_nothing(closings: Seq<bool>)
    ensures
        spec_removals(ReaderState::Terminated, closings) == 0,
    decreases closings.len(),
{
    if closings.len() > 0 {
        lemma_terminated_removes_nothing(closings.drop_first());
    }
}

/// A reader removes its connection exactly once: over any run of read
/// events, the registry removal happens on the first close or failure
/// and never again — in particular, a clean peer close causes exactly
/// one removal, within the read cycle that saw it.
pub proof fn lemma_remove_exactly_once(closings: Seq<bool>)
    ensures
        spec_removals(ReaderState::Reading, closings) == if closings.contains(true) {
            1nat
        } else {
            0nat
        },
    decreases closings.len(),
{
    if closings.len() > 0 {
        if closings[0] {
            lemma_terminated_removes_nothing(closings.drop_first());
            assert(closings.contains(true));
        } else {
            lemma_remove_exactly_once(closings.drop_first());
            assert(closings.contains(true) <==> closings.drop_first().contains(true)) by {
                if closings.contains(true) {
                    let k = choose|k: int| 0 <= k < closings.len() && closings[k];
                    assert(closings.drop_first()[k - 1]);
                }
                if closings.drop_first().contains(true) {
                    let k = choose|k: int|
                        0 <= k < closings.drop_first().len() && closings.drop_first()[k];
                    assert(closings[k + 1]);
                }
            }
        }
    }
}

} // verus!
