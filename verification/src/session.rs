//! The decisions of the two ends of a session.
//!
//! The sending end tags the chunks of the child's two outputs, encodes
//! them in the order in which they became ready, and closes with the exit
//! status. The receiving end hands each decoded frame to `route` and does
//! what comes back, at once and in order.

use tokio_util::bytes::{Bytes, BytesMut};
use vstd::prelude::*;

use crate::buffer::{buffered, buffered_len, contents};
use crate::codec::{
    decode, encoding_all, failure_of, frames_of, lemma_stream_round_trip, parse, CodecError,
    Parsed,
};
use crate::frame::{Frame, FrameModel};

verus! {

/// One of the two local outputs of the receiving end.
#[derive(Clone, Copy, Debug, PartialEq, Eq, Structural)]
pub enum Sink {
    Stderr,
    Stdout,
}

/// What the receiving end does with one frame.
#[derive(Debug, PartialEq, Eq)]
pub enum Action {
    /// Write these bytes to this sink.
    Write(Sink, Bytes),
    /// Finish both sinks and end the process with this status, at once:
    /// whatever input is still unread is abandoned.
    Exit(i32),
}

/// An action as a mathematical value.
pub enum ActionModel {
    Write(Sink, Seq<u8>),
    Exit(i32),
}

impl View for Action {
    type V = ActionModel;

    open spec fn view(&self) -> ActionModel {
        match *self {
            Action::Write(sink, bytes) => ActionModel::Write(sink, contents(bytes)),
            Action::Exit(code) => ActionModel::Exit(code),
        }
    }
}

/// The action that a frame calls for.
pub open spec fn routed(frame: FrameModel) -> ActionModel {
    match frame {
        FrameModel::Stderr(payload) => ActionModel::Write(Sink::Stderr, payload),
        FrameModel::Out(payload) => ActionModel::Write(Sink::Stdout, payload),
        FrameModel::ExitStatusCode(code) => ActionModel::Exit(code),
    }
}

/// What the sending end closes the stream with, given how the child ended.
pub open spec fn closing(code: Option<i32>) -> Option<FrameModel> {
    match code {
        Some(code) => Some(FrameModel::ExitStatusCode(code)),
        None => None,
    }
}

/// The bytes that reach `sink` when the actions of `frames` are done in
/// order: the payloads for that sink, joined, up to the first exit status.
pub open spec fn written(frames: Seq<FrameModel>, sink: Sink) -> Seq<u8>
    decreases frames.len(),
{
    if frames.len() == 0 {
        Seq::empty()
    } else {
        match routed(frames[0]) {
            ActionModel::Exit(_) => Seq::empty(),
            ActionModel::Write(to, payload) => if to == sink {
                payload + written(frames.drop_first(), sink)
            } else {
                written(frames.drop_first(), sink)
            },
        }
    }
}

/// The status that the receiving end exits with: that of the first exit
/// status frame, if there is one.
pub open spec fn exit_of(frames: Seq<FrameModel>) -> Option<i32>
    decreases frames.len(),
{
    if frames.len() == 0 {
        None
    } else {
        match routed(frames[0]) {
            ActionModel::Exit(code) => Some(code),
            ActionModel::Write(_, _) => exit_of(frames.drop_first()),
        }
    }
}

/// Decides what the receiving end does with a decoded frame.
pub fn route(frame: Frame) -> (action: Action)
    ensures
        action@ == routed(frame@),
{
    match frame {
        Frame::Stderr(payload) => Action::Write(Sink::Stderr, payload),
        Frame::Out(payload) => Action::Write(Sink::Stdout, payload),
        Frame::ExitStatusCode(code) => Action::Exit(code),
    }
}

/// The frame that the sending end appends once both outputs of the child
/// are exhausted: its exit status, or none where the child ended without
/// an exit code.
pub fn closing_frame(code: Option<i32>) -> (frame: Option<Frame>)
    ensures
        frame is Some <==> code is Some,
        frame matches Some(f) ==> Some(f@) == closing(code),
{
    match code {
        Some(code) => Some(Frame::ExitStatusCode(code)),
        None => None,
    }
}

/// What the receiving end makes of the bytes it holds.
pub struct Received {
    /// The frames acted on, in order: every whole frame up to the first
    /// exit status, and that one too.
    pub frames: Seq<FrameModel>,
    /// The bytes not looked at: what follows the exit status, or what
    /// holds no whole frame.
    pub left: Seq<u8>,
    /// The status to exit with, once an exit status frame was met.
    pub exit: Option<i32>,
}

/// Reads `buf` frame by frame as the receiving end does.
pub open spec fn received(buf: Seq<u8>) -> Received
    decreases buf.len(),
{
    match parse(buf) {
        Parsed::Complete(FrameModel::ExitStatusCode(code), used) => Received {
            frames: seq![FrameModel::ExitStatusCode(code)],
            left: buf.skip(used as int),
            exit: Some(code),
        },
        Parsed::Complete(frame, used) => {
            let later = received(buf.skip(used as int));
            Received { frames: seq![frame] + later.frames, left: later.left, exit: later.exit }
        },
        _ => Received { frames: Seq::empty(), left: buf, exit: None },
    }
}

/// Why the receiving end cannot go on with what is left, if it cannot:
/// the bytes are corrupt, or the input ended inside a frame.
pub open spec fn stalled(left: Seq<u8>, at_end: bool) -> Option<CodecError> {
    if parse(left) is Incomplete {
        if at_end && left.len() > 0 {
            Some(CodecError::Truncated(left.len() as usize))
        } else {
            None
        }
    } else {
        failure_of(parse(left))
    }
}

/// The actions of a vector as mathematical values.
pub open spec fn action_models(actions: Seq<Action>) -> Seq<ActionModel> {
    actions.map_values(|a: Action| a@)
}

/// The action of each frame, in order.
pub open spec fn routed_all(frames: Seq<FrameModel>) -> Seq<ActionModel> {
    frames.map_values(|f: FrameModel| routed(f))
}

/// One turn of the receiving end, on the bytes that have arrived so far.
///
/// Takes whole frames from the front of `src` and returns the action of
/// each, in order, until an exit status is met, the bytes run out, or they
/// are corrupt. After an exit status nothing more is read. `at_end` says
/// that no more bytes will come: bytes that are then left inside a frame
/// are a truncation, while an input that ends between frames, with or
/// without an exit status, is no failure. The actions that precede a
/// failure are returned with it.
pub fn receive(src: &mut BytesMut, at_end: bool) -> (r: (Vec<Action>, Option<CodecError>))
    ensures
        action_models(r.0@) == routed_all(received(buffered(*old(src))).frames),
        buffered(*final(src)) == received(buffered(*old(src))).left,
        r.1 == if received(buffered(*old(src))).exit is Some {
            None
        } else {
            stalled(received(buffered(*old(src))).left, at_end)
        },
{
    let mut actions: Vec<Action> = Vec::new();
    let ghost whole = received(buffered(*old(src)));
    let ghost mut done: Seq<FrameModel> = Seq::empty();
    assert(action_models(actions@) =~= routed_all(done));
    assert(done + whole.frames =~= whole.frames);
    loop
        invariant
            whole == received(buffered(*old(src))),
            whole.frames == done + received(buffered(*src)).frames,
            whole.left == received(buffered(*src)).left,
            whole.exit == received(buffered(*src)).exit,
            action_models(actions@) == routed_all(done),
        decreases buffered(*src).len(),
    {
        let ghost before = buffered(*src);
        let ghost acted = actions@;
        match decode(src) {
            Ok(Some(frame)) => {
                let ghost model = frame@;
                let action = route(frame);
                let stop: bool = match &action {
                    Action::Exit(_) => true,
                    Action::Write(_, _) => false,
                };
                actions.push(action);
                proof {
                    assert(action_models(actions@) =~= action_models(acted).push(action@));
                    assert(routed_all(done.push(model)) =~= routed_all(done).push(routed(model)));
                    if stop {
                        assert(done + seq![model] =~= done.push(model));
                    } else {
                        assert(done + (seq![model] + received(buffered(*src)).frames)
                            =~= done.push(model) + received(buffered(*src)).frames);
                    }
                    done = done.push(model);
                }
                if stop {
                    return (actions, None);
                }
            },
            Ok(None) => {
                assert(done + Seq::<FrameModel>::empty() =~= done);
                let left: usize = buffered_len(src);
                if at_end && left > 0 {
                    return (actions, Some(CodecError::Truncated(left)));
                }
                return (actions, None);
            },
            Err(e) => {
                assert(done + Seq::<FrameModel>::empty() =~= done);
                return (actions, Some(e));
            },
        }
    }
}

/// The receiving end acts on the frames that the buffer holds in front, in
/// their order, and on none after the first exit status: each sink gets
/// what the whole frames would give it, and the exit status is the first.
pub proof fn lemma_received_in_order(buf: Seq<u8>, sink: Sink)
    ensures
        written(received(buf).frames, sink) == written(frames_of(buf), sink),
        exit_of(received(buf).frames) == exit_of(frames_of(buf)),
        received(buf).exit == exit_of(frames_of(buf)),
    decreases buf.len(),
{
    match parse(buf) {
        Parsed::Complete(frame, used) => {
            let tail = buf.skip(used as int);
            assert((seq![frame] + frames_of(tail)).drop_first() =~= frames_of(tail));
            if !(frame is ExitStatusCode) {
                lemma_received_in_order(tail, sink);
                assert((seq![frame] + received(tail).frames).drop_first() =~= received(
                    tail,
                ).frames);
            }
        },
        _ => {},
    }
}

/// What the sending end encodes, frame after frame, the receiving end
/// acts on faithfully: each sink gets the payloads meant for it, in the
/// order in which they were sent, and the exit status is the one sent.
pub proof fn lemma_session_faithful(frames: Seq<FrameModel>, sink: Sink)
    requires
        forall|i: int| 0 <= i < frames.len() ==> (#[trigger] frames[i]).well_formed(),
    ensures
        written(received(encoding_all(frames)).frames, sink) == written(frames, sink),
        received(encoding_all(frames)).exit == exit_of(frames),
{
    lemma_stream_round_trip(frames);
    lemma_received_in_order(encoding_all(frames), sink);
}

/// What reaches one sink does not depend on what is sent to the other, nor
/// on where it is sent: a frame for the other sink, put anywhere among the
/// frames, changes nothing of what this sink gets.
pub proof fn lemma_other_sink_is_silent(
    front: Seq<FrameModel>,
    other: FrameModel,
    back: Seq<FrameModel>,
    sink: Sink,
)
    requires
        routed(other) matches ActionModel::Write(to, _) && to != sink,
    ensures
        written(front + seq![other] + back, sink) == written(front + back, sink),
    decreases front.len(),
{
    if front.len() == 0 {
        assert(front + seq![other] + back =~= seq![other] + back);
        assert((seq![other] + back).drop_first() =~= back);
        assert(front + back =~= back);
    } else {
        let rest = front.drop_first();
        lemma_other_sink_is_silent(rest, other, back, sink);
        assert((front + seq![other] + back).drop_first() =~= rest + seq![other] + back);
        assert((front + back).drop_first() =~= rest + back);
    }
}

} // verus!
