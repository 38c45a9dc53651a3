use muxeo::codec::{encode, CodecError};
use muxeo::session::{closing_frame, receive, route, Action, Sink};
use muxeo::Frame;
use tokio_util::bytes::{Bytes, BytesMut};

struct Sinks {
    stdout: Vec<u8>,
    stderr: Vec<u8>,
    exit: Option<i32>,
}

fn perform(actions: Vec<Action>, sinks: &mut Sinks) {
    for action in actions {
        assert_eq!(sinks.exit, None);
        match action {
            Action::Write(Sink::Stdout, bytes) => sinks.stdout.extend_from_slice(&bytes),
            Action::Write(Sink::Stderr, bytes) => sinks.stderr.extend_from_slice(&bytes),
            Action::Exit(code) => sinks.exit = Some(code),
        }
    }
}

fn send(frames: Vec<Frame>, child_exit: Option<i32>) -> BytesMut {
    let mut wire = BytesMut::new();
    for frame in frames {
        assert_eq!(encode(frame, &mut wire), Ok(()));
    }
    if let Some(frame) = closing_frame(child_exit) {
        assert_eq!(encode(frame, &mut wire), Ok(()));
    }
    wire
}

fn run(wire: &[u8], chunk: usize) -> (Sinks, Option<CodecError>) {
    let mut sinks = Sinks { stdout: Vec::new(), stderr: Vec::new(), exit: None };
    let mut buf = BytesMut::new();
    for part in wire.chunks(chunk) {
        buf.extend_from_slice(part);
        let (actions, failure) = receive(&mut buf, false);
        perform(actions, &mut sinks);
        if failure.is_some() || sinks.exit.is_some() {
            return (sinks, failure);
        }
    }
    let (actions, failure) = receive(&mut buf, true);
    perform(actions, &mut sinks);
    (sinks, failure)
}

fn out(bytes: &'static [u8]) -> Frame {
    Frame::Out(Bytes::from_static(bytes))
}

fn err(bytes: &'static [u8]) -> Frame {
    Frame::Stderr(Bytes::from_static(bytes))
}

#[test]
fn route_sends_each_kind_to_its_place() {
    assert_eq!(route(out(b"o")), Action::Write(Sink::Stdout, Bytes::from_static(b"o")));
    assert_eq!(route(err(b"e")), Action::Write(Sink::Stderr, Bytes::from_static(b"e")));
    assert_eq!(route(Frame::ExitStatusCode(9)), Action::Exit(9));
}

#[test]
fn closing_frame_carries_the_exit_code() {
    assert_eq!(closing_frame(Some(0)), Some(Frame::ExitStatusCode(0)));
    assert_eq!(closing_frame(Some(-11)), Some(Frame::ExitStatusCode(-11)));
    assert_eq!(closing_frame(None), None);
}

#[test]
fn stdout_order_is_kept_whatever_stderr_does() {
    let interleavings = [
        vec![out(b"A"), out(b"B"), out(b"C")],
        vec![err(b"x"), out(b"A"), out(b"B"), out(b"C")],
        vec![out(b"A"), err(b"x"), out(b"B"), err(b"y"), out(b"C")],
        vec![out(b"A"), out(b"B"), err(b"x"), err(b"y"), out(b"C"), err(b"z")],
    ];
    let stderrs: [&[u8]; 4] = [b"", b"x", b"xy", b"xyz"];
    for (frames, stderr) in interleavings.into_iter().zip(stderrs) {
        let wire = send(frames, Some(0));
        for chunk in [1, 2, 3, 7, wire.len()] {
            let (sinks, failure) = run(&wire, chunk);
            assert_eq!(failure, None);
            assert_eq!(sinks.stdout, b"ABC");
            assert_eq!(sinks.stderr, stderr);
            assert_eq!(sinks.exit, Some(0));
        }
    }
}

#[test]
fn simple_success() {
    let wire = send(vec![out(b"hello\n")], Some(0));
    assert_eq!(&wire[..], &[2, 0, 0, 0, 6, b'h', b'e', b'l', b'l', b'o', b'\n', 1, 0, 0, 0, 0][..]);
    let (sinks, failure) = run(&wire, wire.len());
    assert_eq!(failure, None);
    assert_eq!(sinks.stdout, b"hello\n");
    assert_eq!(sinks.stderr, b"");
    assert_eq!(sinks.exit, Some(0));
}

#[test]
fn error_then_exit() {
    let mut wire = send(vec![err(b"oops")], Some(7));
    wire.extend_from_slice(&[2, 0, 0, 0, 4, b'l', b'a', b't', b'e', 9, 9]);
    let mut buf = BytesMut::from(&wire[..]);
    let (actions, failure) = receive(&mut buf, false);
    assert_eq!(
        actions,
        vec![Action::Write(Sink::Stderr, Bytes::from_static(b"oops")), Action::Exit(7)]
    );
    assert_eq!(failure, None);
    assert_eq!(&buf[..], &[2, 0, 0, 0, 4, b'l', b'a', b't', b'e', 9, 9][..]);

    let (sinks, failure) = run(&wire, 1);
    assert_eq!(failure, None);
    assert_eq!(sinks.stdout, b"");
    assert_eq!(sinks.stderr, b"oops");
    assert_eq!(sinks.exit, Some(7));
}

#[test]
fn exit_hides_corruption_behind_it() {
    let mut buf = BytesMut::from(&[1u8, 0, 0, 0, 1, 200, 0, 0, 0, 0][..]);
    let (actions, failure) = receive(&mut buf, true);
    assert_eq!(actions, vec![Action::Exit(1)]);
    assert_eq!(failure, None);
    assert_eq!(&buf[..], &[200, 0, 0, 0, 0][..]);
}

#[test]
fn truncated_stream() {
    let mut buf = BytesMut::from(&[2u8, 0, 0][..]);
    let (actions, failure) = receive(&mut buf, false);
    assert_eq!(actions, vec![]);
    assert_eq!(failure, None);
    assert_eq!(&buf[..], &[2, 0, 0][..]);
    let (actions, failure) = receive(&mut buf, true);
    assert_eq!(actions, vec![]);
    assert_eq!(failure, Some(CodecError::Truncated(3)));
    assert_eq!(&buf[..], &[2, 0, 0][..]);
}

#[test]
fn truncated_after_whole_frames() {
    let mut wire = send(vec![out(b"ok")], None);
    wire.extend_from_slice(&[0, 0, 0, 0, 5, b'c', b'u', b't']);
    let (sinks, failure) = run(&wire, 4);
    assert_eq!(sinks.stdout, b"ok");
    assert_eq!(sinks.stderr, b"");
    assert_eq!(sinks.exit, None);
    assert_eq!(failure, Some(CodecError::Truncated(8)));
}

#[test]
fn end_without_exit_status_is_no_failure() {
    let wire = send(vec![out(b"a"), err(b"b"), out(b"c")], None);
    let (sinks, failure) = run(&wire, 5);
    assert_eq!(failure, None);
    assert_eq!(sinks.stdout, b"ac");
    assert_eq!(sinks.stderr, b"b");
    assert_eq!(sinks.exit, None);
}

#[test]
fn empty_input_is_a_clean_end() {
    let mut buf = BytesMut::new();
    let (actions, failure) = receive(&mut buf, true);
    assert_eq!(actions, vec![]);
    assert_eq!(failure, None);
}

#[test]
fn corruption_stops_the_session_after_what_came_before() {
    let mut wire = send(vec![out(b"good")], None);
    wire.extend_from_slice(&[3, 0, 0, 0, 0]);
    wire.extend_from_slice(&send(vec![out(b"never")], Some(0)));
    let mut buf = BytesMut::from(&wire[..]);
    let (actions, failure) = receive(&mut buf, false);
    assert_eq!(actions, vec![Action::Write(Sink::Stdout, Bytes::from_static(b"good"))]);
    assert_eq!(failure, Some(CodecError::InvalidKind(3)));
    assert_eq!(buf[0], 3);
}

#[test]
fn oversized_header_stops_the_session() {
    let mut buf = BytesMut::from(&[2u8, 0x00, 0x80, 0x00, 0x01, 1, 2, 3][..]);
    let (actions, failure) = receive(&mut buf, false);
    assert_eq!(actions, vec![]);
    assert_eq!(failure, Some(CodecError::FrameTooLarge(8 * 1024 * 1024 + 1)));
    assert_eq!(buf.len(), 8);
}
