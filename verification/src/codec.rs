//! The encoder and the resumable decoder of the wire format.
//!
//! `encoding` says what the bytes of a frame are, `parse` says what the
//! front of a buffer holds. `encode` and `decode` are held to the two, and
//! the laws at the end of the file relate the two to each other.

use tokio_util::bytes::{Bytes, BytesMut};
use vstd::prelude::*;

use crate::buffer::{
    advance, buffered, buffered_len, byte_at, contents, contents_len, freeze, put, put_u32,
    put_u8, reserve, split_to,
};
use crate::frame::{Frame, FrameKind, FrameModel, MAX};
use crate::wire::{
    be_bytes, be_word, code_to_word, code_word, lemma_code_round_trip, lemma_word_round_trip,
    word_code, word_from_be, word_to_code,
};

verus! {

/// The length of what precedes the payload: the kind byte and four bytes
/// of length or exit code.
pub const HEADER: usize = 5;

/// Why encoding or decoding failed. None of these can be recovered from.
#[derive(Clone, Copy, Debug, PartialEq, Eq, Structural)]
pub enum CodecError {
    /// The kind byte stands for no kind.
    InvalidKind(u8),
    /// The payload, or the length that a header declares, is above `MAX`.
    FrameTooLarge(usize),
    /// The input ended with this many bytes that form no whole frame.
    Truncated(usize),
}

/// The bytes of a frame on the wire.
pub open spec fn encoding(f: FrameModel) -> Seq<u8> {
    match f {
        FrameModel::ExitStatusCode(code) => seq![f.kind().marker_of()] + be_bytes(code_word(code)),
        _ => seq![f.kind().marker_of()] + be_bytes(f.payload().len() as u32) + f.payload(),
    }
}

/// What the front of a buffer holds.
pub enum Parsed {
    /// Not yet a whole frame: more bytes are needed.
    Incomplete,
    /// The first byte stands for no kind.
    InvalidKind(u8),
    /// The header declares this length, which is above `MAX`.
    TooLarge(nat),
    /// A whole frame, and the number of bytes that it takes up.
    Complete(FrameModel, nat),
}

/// Reads the front of `buf` as one frame.
pub open spec fn parse(buf: Seq<u8>) -> Parsed {
    if buf.len() < HEADER {
        Parsed::Incomplete
    } else {
        let word = be_word(buf[1], buf[2], buf[3], buf[4]);
        match FrameKind::of_marker(buf[0]) {
            None => Parsed::InvalidKind(buf[0]),
            Some(FrameKind::ExitStatusCode) => Parsed::Complete(
                FrameModel::ExitStatusCode(word_code(word)),
                HEADER as nat,
            ),
            Some(kind) => if word > MAX {
                Parsed::TooLarge(word as nat)
            } else if buf.len() < HEADER + word {
                Parsed::Incomplete
            } else {
                let payload = buf.subrange(HEADER as int, HEADER + word);
                let frame = if kind == FrameKind::Stderr {
                    FrameModel::Stderr(payload)
                } else {
                    FrameModel::Out(payload)
                };
                Parsed::Complete(frame, (HEADER + word) as nat)
            },
        }
    }
}

/// What `encode` owes: a well-formed frame is appended to the buffer as
/// its encoding; any other is refused with its length and nothing is
/// written.
pub open spec fn encoded(
    item: FrameModel,
    before: Seq<u8>,
    r: Result<(), CodecError>,
    after: Seq<u8>,
) -> bool {
    if item.well_formed() {
        r == Ok::<(), CodecError>(()) && after == before + encoding(item)
    } else {
        r == Err::<(), CodecError>(CodecError::FrameTooLarge(item.payload().len() as usize))
            && after == before
    }
}

/// What `decode` owes on a buffer that held `before`: at most one frame
/// leaves, together with exactly its bytes; otherwise the buffer stays as
/// it was.
pub open spec fn decoded(
    before: Seq<u8>,
    r: Result<Option<Frame>, CodecError>,
    after: Seq<u8>,
) -> bool {
    match parse(before) {
        Parsed::Incomplete => r == Ok::<Option<Frame>, CodecError>(None) && after == before,
        Parsed::InvalidKind(marker) => r == Err::<Option<Frame>, CodecError>(
            CodecError::InvalidKind(marker),
        ) && after == before,
        Parsed::TooLarge(len) => r == Err::<Option<Frame>, CodecError>(
            CodecError::FrameTooLarge(len as usize),
        ) && after == before,
        Parsed::Complete(frame, used) => {
            &&& r matches Ok(Some(got))
            &&& got@ == frame
            &&& after == before.skip(used as int)
        },
    }
}

/// What `decode_eof` owes: as `decode`, but for bytes that form no whole
/// frame. With the input at its end these are a truncation, unless there
/// are none.
pub open spec fn decoded_at_end(
    before: Seq<u8>,
    r: Result<Option<Frame>, CodecError>,
    after: Seq<u8>,
) -> bool {
    if parse(before) is Incomplete && before.len() > 0 {
        r == Err::<Option<Frame>, CodecError>(CodecError::Truncated(before.len() as usize))
            && after == before
    } else {
        decoded(before, r, after)
    }
}

/// Appends the encoding of a payload-bearing frame of the given kind.
fn encode_chunk(kind: FrameKind, payload: Bytes, dst: &mut BytesMut) -> (r: Result<(), CodecError>)
    requires
        kind != FrameKind::ExitStatusCode,
        contents(payload).len() <= MAX ==> buffered(*old(dst)).len() + HEADER
            + contents(payload).len() <= isize::MAX,
    ensures
        encoded(
            if kind == FrameKind::Stderr {
                FrameModel::Stderr(contents(payload))
            } else {
                FrameModel::Out(contents(payload))
            },
            buffered(*old(dst)),
            r,
            buffered(*final(dst)),
        ),
{
    let bytes_len: usize = contents_len(&payload);
    if bytes_len > MAX {
        return Err(CodecError::FrameTooLarge(bytes_len));
    }
    reserve(dst, HEADER + bytes_len);
    put_u8(dst, kind.marker());
    put_u32(dst, bytes_len as u32);
    put(dst, payload);
    proof {
        let before = buffered(*old(dst));
        let tail = seq![kind.marker_of()] + be_bytes(bytes_len as u32) + contents(payload);
        assert(buffered(*dst) =~= before + tail);
    }
    Ok(())
}

/// Appends the wire encoding of `item` to `dst`.
///
/// A frame whose payload is longer than `MAX` is refused, and `dst` is
/// left as it was. The buffer must have room for the frame within the
/// largest allocation.
pub fn encode(item: Frame, dst: &mut BytesMut) -> (r: Result<(), CodecError>)
    requires
        item@.well_formed() ==> buffered(*old(dst)).len() + HEADER + item@.payload().len()
            <= isize::MAX,
    ensures
        encoded(item@, buffered(*old(dst)), r, buffered(*final(dst))),
{
    match item {
        Frame::Stderr(payload) => encode_chunk(FrameKind::Stderr, payload, dst),
        Frame::Out(payload) => encode_chunk(FrameKind::Out, payload, dst),
        Frame::ExitStatusCode(code) => {
            reserve(dst, HEADER);
            put_u8(dst, FrameKind::ExitStatusCode.marker());
            put_u32(dst, code_to_word(code));
            proof {
                let before = buffered(*old(dst));
                assert(buffered(*dst) =~= before + encoding(item@));
            }
            Ok(())
        },
    }
}

/// Takes at most one whole frame from the front of `src`.
///
/// `Ok(None)` asks for more bytes: nothing was taken, and the same header
/// is read again on the next call.
pub fn decode(src: &mut BytesMut) -> (r: Result<Option<Frame>, CodecError>)
    ensures
        decoded(buffered(*old(src)), r, buffered(*final(src))),
{
    let len: usize = buffered_len(src);
    if len < HEADER {
        return Ok(None);
    }
    let marker: u8 = byte_at(src, 0);
    let kind = match FrameKind::from_marker(marker) {
        Some(kind) => kind,
        None => {
            return Err(CodecError::InvalidKind(marker));
        },
    };
    let word: u32 = word_from_be(byte_at(src, 1), byte_at(src, 2), byte_at(src, 3), byte_at(src, 4));
    match kind {
        FrameKind::ExitStatusCode => {
            advance(src, HEADER);
            Ok(Some(Frame::ExitStatusCode(word_to_code(word))))
        },
        _ => {
            let bytes_len: usize = word as usize;
            if bytes_len > MAX {
                return Err(CodecError::FrameTooLarge(bytes_len));
            }
            if len < HEADER + bytes_len {
                reserve(src, HEADER + bytes_len - len);
                return Ok(None);
            }
            advance(src, HEADER);
            let payload = freeze(split_to(src, bytes_len));
            proof {
                let before = buffered(*old(src));
                let total = HEADER + bytes_len;
                assert(contents(payload) =~= before.subrange(HEADER as int, total));
                assert(buffered(*src) =~= before.skip(total));
            }
            Ok(
                Some(
                    match kind {
                        FrameKind::Stderr => Frame::Stderr(payload),
                        _ => Frame::Out(payload),
                    },
                ),
            )
        },
    }
}

/// As `decode`, for the last call, when no more bytes will come: an empty
/// buffer is a clean end, and bytes that form no whole frame are a
/// truncation.
pub fn decode_eof(src: &mut BytesMut) -> (r: Result<Option<Frame>, CodecError>)
    ensures
        decoded_at_end(buffered(*old(src)), r, buffered(*final(src))),
{
    match decode(src) {
        Ok(None) => {
            let left: usize = buffered_len(src);
            if left == 0 {
                Ok(None)
            } else {
                Err(CodecError::Truncated(left))
            }
        },
        other => other,
    }
}

/// The whole frames at the front of a buffer, in order, up to the first
/// place where `parse` finds no whole frame.
pub open spec fn frames_of(buf: Seq<u8>) -> Seq<FrameModel>
    decreases buf.len(),
{
    match parse(buf) {
        Parsed::Complete(frame, used) => seq![frame] + frames_of(buf.skip(used as int)),
        _ => Seq::empty(),
    }
}

/// What is left of a buffer once the frames of `frames_of` have left it.
pub open spec fn rest_of(buf: Seq<u8>) -> Seq<u8>
    decreases buf.len(),
{
    match parse(buf) {
        Parsed::Complete(_, used) => rest_of(buf.skip(used as int)),
        _ => buf,
    }
}

/// The failure that `parse` reports, if it reports one.
pub open spec fn failure_of(parsed: Parsed) -> Option<CodecError> {
    match parsed {
        Parsed::InvalidKind(marker) => Some(CodecError::InvalidKind(marker)),
        Parsed::TooLarge(len) => Some(CodecError::FrameTooLarge(len as usize)),
        _ => None,
    }
}

/// The encodings of a sequence of frames, one after the other.
pub open spec fn encoding_all(frames: Seq<FrameModel>) -> Seq<u8>
    decreases frames.len(),
{
    if frames.len() == 0 {
        Seq::empty()
    } else {
        encoding(frames[0]) + encoding_all(frames.drop_first())
    }
}

/// What a decoder that starts with `buf` emits when the chunks arrive one
/// by one and it decodes all it can after each.
pub open spec fn frames_fed(buf: Seq<u8>, chunks: Seq<Seq<u8>>) -> Seq<FrameModel>
    decreases chunks.len(),
{
    if chunks.len() == 0 {
        Seq::empty()
    } else {
        frames_of(buf + chunks[0]) + frames_fed(rest_of(buf + chunks[0]), chunks.drop_first())
    }
}

/// The chunks joined into one sequence of bytes.
pub open spec fn joined(chunks: Seq<Seq<u8>>) -> Seq<u8>
    decreases chunks.len(),
{
    if chunks.len() == 0 {
        Seq::empty()
    } else {
        chunks[0] + joined(chunks.drop_first())
    }
}

/// The frames of a vector as mathematical values.
pub open spec fn models(frames: Seq<Frame>) -> Seq<FrameModel> {
    frames.map_values(|f: Frame| f@)
}

/// Takes every whole frame from the front of `src`, in order, and stops at
/// the first place that holds none: there `src` either needs more bytes
/// (`None`) or is corrupt (the error). The frames taken before a failure
/// are returned with it.
pub fn decode_all(src: &mut BytesMut) -> (r: (Vec<Frame>, Option<CodecError>))
    ensures
        models(r.0@) == frames_of(buffered(*old(src))),
        buffered(*final(src)) == rest_of(buffered(*old(src))),
        r.1 == failure_of(parse(rest_of(buffered(*old(src))))),
{
    let mut frames: Vec<Frame> = Vec::new();
    assert(models(frames@) =~= Seq::<FrameModel>::empty());
    loop
        invariant
            frames_of(buffered(*old(src))) == models(frames@) + frames_of(buffered(*src)),
            rest_of(buffered(*old(src))) == rest_of(buffered(*src)),
        decreases buffered(*src).len(),
    {
        let ghost before = buffered(*src);
        let ghost taken = models(frames@);
        match decode(src) {
            Ok(Some(frame)) => {
                frames.push(frame);
                proof {
                    assert(models(frames@) =~= taken.push(frame@));
                    assert(taken + (seq![frame@] + frames_of(buffered(*src))) =~= taken.push(
                        frame@,
                    ) + frames_of(buffered(*src)));
                }
            },
            Ok(None) => {
                assert(taken + frames_of(before) =~= taken);
                return (frames, None);
            },
            Err(e) => {
                assert(taken + frames_of(before) =~= taken);
                return (frames, Some(e));
            },
        }
    }
}

/// A frame takes up its header and its payload on the wire.
pub proof fn lemma_encoding_len(f: FrameModel)
    ensures
        encoding(f).len() == HEADER + f.payload().len(),
{
}

/// The encoding of a well-formed frame, whatever follows it in the
/// buffer, is read back as that frame and as taking up exactly the bytes
/// of its encoding.
pub proof fn lemma_round_trip(f: FrameModel, rest: Seq<u8>)
    requires
        f.well_formed(),
    ensures
        parse(encoding(f) + rest) == Parsed::Complete(f, encoding(f).len()),
{
    let buf = encoding(f) + rest;
    match f {
        FrameModel::ExitStatusCode(code) => {
            let w = code_word(code);
            lemma_word_round_trip(w);
            lemma_code_round_trip(code, w);
            assert(buf[1] == be_bytes(w)[0] && buf[2] == be_bytes(w)[1] && buf[3] == be_bytes(w)[2]
                && buf[4] == be_bytes(w)[3]);
        },
        _ => {
            let p = f.payload();
            let w = p.len() as u32;
            lemma_word_round_trip(w);
            assert(buf[1] == be_bytes(w)[0] && buf[2] == be_bytes(w)[1] && buf[3] == be_bytes(w)[2]
                && buf[4] == be_bytes(w)[3]);
            assert(buf.subrange(HEADER as int, HEADER + p.len()) =~= p);
        },
    }
}

/// Every proper prefix of the encoding of a well-formed frame asks for
/// more bytes, so `decode` emits nothing and leaves it in the buffer.
pub proof fn lemma_prefix_incomplete(f: FrameModel, n: int)
    requires
        f.well_formed(),
        0 <= n < encoding(f).len(),
    ensures
        parse(encoding(f).take(n)) == Parsed::Incomplete,
{
    let buf = encoding(f).take(n);
    if n >= HEADER {
        let w = f.payload().len() as u32;
        lemma_word_round_trip(w);
        assert(buf[0] == f.kind().marker_of());
        assert(buf[1] == be_bytes(w)[0] && buf[2] == be_bytes(w)[1] && buf[3] == be_bytes(w)[2]
            && buf[4] == be_bytes(w)[3]);
    }
}

/// What a buffer is read as never changes once it is a frame or a failure:
/// bytes that arrive later only ever turn `Incomplete` into something else.
pub proof fn lemma_parse_stable(buf: Seq<u8>, more: Seq<u8>)
    requires
        !(parse(buf) is Incomplete),
    ensures
        parse(buf + more) == parse(buf),
{
    let all = buf + more;
    assert(all[0] == buf[0] && all[1] == buf[1] && all[2] == buf[2] && all[3] == buf[3] && all[4]
        == buf[4]);
    if let Parsed::Complete(frame, used) = parse(buf) {
        assert(all.subrange(HEADER as int, used as int) =~= buf.subrange(
            HEADER as int,
            used as int,
        ));
    }
}

/// A header of a payload-bearing kind that declares more than `MAX` bytes
/// is refused whatever follows it, and however little of the payload has
/// arrived; `decode` then leaves the buffer as it was.
pub proof fn lemma_oversized_header(buf: Seq<u8>)
    requires
        buf.len() >= HEADER,
        buf[0] == FrameKind::Stderr.marker_of() || buf[0] == FrameKind::Out.marker_of(),
        be_word(buf[1], buf[2], buf[3], buf[4]) > MAX,
    ensures
        parse(buf) == Parsed::TooLarge(be_word(buf[1], buf[2], buf[3], buf[4]) as nat),
{
}

/// Once a header's worth of bytes is buffered, a first byte other than 0,
/// 1 and 2 is refused, whatever follows it.
pub proof fn lemma_invalid_kind(buf: Seq<u8>)
    requires
        buf.len() >= HEADER,
        buf[0] > 2,
    ensures
        parse(buf) == Parsed::InvalidKind(buf[0]),
{
}

/// Whatever `parse` calls a whole frame is well formed, takes up its
/// header and payload, and lies within the buffer.
pub proof fn lemma_complete_is_well_formed(buf: Seq<u8>)
    ensures
        parse(buf) matches Parsed::Complete(frame, used) ==> frame.well_formed() && used == HEADER
            + frame.payload().len() && used <= buf.len(),
{
}

/// Decoding resumes: bytes that arrive in two parts give the frames of the
/// first part, then the frames of what the first part left together with
/// the second, and leave what the whole would have left. So the frames
/// never depend on where the input was cut.
pub proof fn lemma_resumable(first: Seq<u8>, second: Seq<u8>)
    ensures
        frames_of(first + second) == frames_of(first) + frames_of(rest_of(first) + second),
        rest_of(first + second) == rest_of(rest_of(first) + second),
    decreases first.len(),
{
    match parse(first) {
        Parsed::Complete(frame, used) => {
            lemma_parse_stable(first, second);
            let tail = first.skip(used as int);
            assert((first + second).skip(used as int) =~= tail + second);
            lemma_resumable(tail, second);
            assert(seq![frame] + (frames_of(tail) + frames_of(rest_of(tail) + second)) =~= (
            seq![frame] + frames_of(tail)) + frames_of(rest_of(tail) + second));
        },
        _ => {
            assert(Seq::<FrameModel>::empty() + frames_of(first + second) =~= frames_of(
                first + second,
            ));
        },
    }
}

/// Feeding the input in any number of chunks, of any lengths, to a decoder
/// that holds no whole frame gives the frames of feeding it at once.
pub proof fn lemma_chunks_as_whole(buf: Seq<u8>, chunks: Seq<Seq<u8>>)
    requires
        rest_of(buf) == buf,
    ensures
        frames_fed(buf, chunks) == frames_of(buf + joined(chunks)),
    decreases chunks.len(),
{
    if chunks.len() == 0 {
        assert(buf + joined(chunks) =~= buf);
        lemma_rest_holds_no_frame(buf);
    } else {
        let now = buf + chunks[0];
        let later = joined(chunks.drop_first());
        lemma_rest_is_final(now);
        lemma_chunks_as_whole(rest_of(now), chunks.drop_first());
        lemma_resumable(now, later);
        assert(now + later =~= buf + joined(chunks));
    }
}

/// Nothing more can be taken from what `rest_of` leaves.
pub proof fn lemma_rest_is_final(buf: Seq<u8>)
    ensures
        rest_of(rest_of(buf)) == rest_of(buf),
    decreases buf.len(),
{
    if let Parsed::Complete(_, used) = parse(buf) {
        lemma_rest_is_final(buf.skip(used as int));
    }
}

/// A buffer that `rest_of` leaves as it is holds no whole frame in front.
pub proof fn lemma_rest_holds_no_frame(buf: Seq<u8>)
    requires
        rest_of(buf) == buf,
    ensures
        frames_of(buf) == Seq::<FrameModel>::empty(),
    decreases buf.len(),
{
    if let Parsed::Complete(_, used) = parse(buf) {
        lemma_rest_shorter(buf.skip(used as int));
    }
}

/// `rest_of` never lengthens a buffer.
pub proof fn lemma_rest_shorter(buf: Seq<u8>)
    ensures
        rest_of(buf).len() <= buf.len(),
    decreases buf.len(),
{
    if let Parsed::Complete(_, used) = parse(buf) {
        lemma_rest_shorter(buf.skip(used as int));
    }
}

/// A sequence of well-formed frames that is encoded frame after frame is
/// decoded as the same frames in the same order, and nothing is left over.
pub proof fn lemma_stream_round_trip(frames: Seq<FrameModel>)
    requires
        forall|i: int| 0 <= i < frames.len() ==> (#[trigger] frames[i]).well_formed(),
    ensures
        frames_of(encoding_all(frames)) == frames,
        rest_of(encoding_all(frames)) == Seq::<u8>::empty(),
    decreases frames.len(),
{
    if frames.len() > 0 {
        let head = frames[0];
        let tail = frames.drop_first();
        let bytes = encoding_all(frames);
        assert(head.well_formed());
        assert forall|i: int| 0 <= i < tail.len() implies (#[trigger] tail[i]).well_formed() by {
            assert(tail[i] == frames[i + 1]);
        }
        lemma_round_trip(head, encoding_all(tail));
        lemma_stream_round_trip(tail);
        assert(bytes.skip(encoding(head).len() as int) =~= encoding_all(tail));
        assert(seq![head] + tail =~= frames);
    }
}

/// Fed in any chunks to a decoder with an empty buffer, the encoding of
/// one well-formed frame comes out as exactly that one frame.
pub proof fn lemma_one_frame_in_chunks(f: FrameModel, chunks: Seq<Seq<u8>>)
    requires
        f.well_formed(),
        joined(chunks) == encoding(f),
    ensures
        frames_fed(Seq::empty(), chunks) == seq![f],
{
    let empty = Seq::<u8>::empty();
    lemma_chunks_as_whole(empty, chunks);
    assert(empty + joined(chunks) =~= encoding(f) + empty);
    lemma_round_trip(f, empty);
    assert((encoding(f) + empty).skip(encoding(f).len() as int) =~= empty);
    assert(frames_of(empty) =~= Seq::<FrameModel>::empty());
    assert(seq![f] + Seq::<FrameModel>::empty() =~= seq![f]);
}

} // verus!
