use muxeo::wire::{code_to_word, word_from_be, word_to_code};
use muxeo::{Frame, FrameKind};
use tokio_util::bytes::Bytes;

#[test]
fn kind_of_each_frame() {
    assert_eq!(Frame::Stderr(Bytes::from_static(b"e")).kind(), FrameKind::Stderr);
    assert_eq!(Frame::ExitStatusCode(1).kind(), FrameKind::ExitStatusCode);
    assert_eq!(Frame::Out(Bytes::from_static(b"o")).kind(), FrameKind::Out);
}

#[test]
fn markers_are_zero_one_two() {
    assert_eq!(FrameKind::Stderr.marker(), 0);
    assert_eq!(FrameKind::ExitStatusCode.marker(), 1);
    assert_eq!(FrameKind::Out.marker(), 2);
}

#[test]
fn from_marker_reads_only_known_bytes() {
    assert_eq!(FrameKind::from_marker(0), Some(FrameKind::Stderr));
    assert_eq!(FrameKind::from_marker(1), Some(FrameKind::ExitStatusCode));
    assert_eq!(FrameKind::from_marker(2), Some(FrameKind::Out));
    for marker in 3..=255u8 {
        assert_eq!(FrameKind::from_marker(marker), None);
    }
}

#[test]
fn marker_round_trip() {
    for kind in [FrameKind::Stderr, FrameKind::ExitStatusCode, FrameKind::Out] {
        assert_eq!(FrameKind::from_marker(kind.marker()), Some(kind));
    }
}

#[test]
fn word_from_be_puts_first_byte_highest() {
    assert_eq!(word_from_be(0x08, 0x09, 0xa0, 0xa1), 0x0809_a0a1);
    assert_eq!(word_from_be(0, 0, 0, 0), 0);
    assert_eq!(word_from_be(0, 0, 1, 0), 256);
    assert_eq!(word_from_be(255, 255, 255, 255), u32::MAX);
    assert_eq!(word_from_be(1, 2, 3, 4), u32::from_be_bytes([1, 2, 3, 4]));
}

#[test]
fn code_and_word_share_their_bits() {
    for code in [0, 1, 7, -1, -2, i32::MIN, i32::MAX, 0x1234_5678, -0x1234_5678] {
        assert_eq!(code_to_word(code), u32::from_be_bytes(code.to_be_bytes()));
        assert_eq!(word_to_code(code_to_word(code)), code);
    }
    assert_eq!(code_to_word(-1), 0xffff_ffff);
    assert_eq!(code_to_word(i32::MIN), 0x8000_0000);
    assert_eq!(word_to_code(0x8000_0000), i32::MIN);
    assert_eq!(word_to_code(0xffff_fff9), -7);
    assert_eq!(word_to_code(0x7fff_ffff), i32::MAX);
}
