//! The frames that travel over the wire and their kinds.

use tokio_util::bytes::Bytes;
use vstd::prelude::*;

use crate::buffer::contents;

verus! {

/// The largest payload, in bytes, that a frame may carry.
pub const MAX: usize = 8 * 1024 * 1024;

/// What a frame carries.
#[derive(Clone, Copy, Debug, PartialEq, Eq, Structural)]
pub enum FrameKind {
    Stderr,
    ExitStatusCode,
    Out,
}

impl FrameKind {
    /// The byte that stands for this kind on the wire.
    pub open spec fn marker_of(self) -> u8 {
        match self {
            FrameKind::Stderr => 0,
            FrameKind::ExitStatusCode => 1,
            FrameKind::Out => 2,
        }
    }

    /// The kind that a wire byte stands for, if any.
    pub open spec fn of_marker(marker: u8) -> Option<FrameKind> {
        if marker == 0 {
            Some(FrameKind::Stderr)
        } else if marker == 1 {
            Some(FrameKind::ExitStatusCode)
        } else if marker == 2 {
            Some(FrameKind::Out)
        } else {
            None
        }
    }

    /// The byte that stands for this kind on the wire.
    pub fn marker(self) -> (m: u8)
        ensures
            m == self.marker_of(),
    {
        match self {
            FrameKind::Stderr => 0,
            FrameKind::ExitStatusCode => 1,
            FrameKind::Out => 2,
        }
    }

    /// Reads a wire byte as a kind; `None` for a byte that stands for none.
    pub fn from_marker(marker: u8) -> (kind: Option<FrameKind>)
        ensures
            kind == FrameKind::of_marker(marker),
    {
        match marker {
            0 => Some(FrameKind::Stderr),
            1 => Some(FrameKind::ExitStatusCode),
            2 => Some(FrameKind::Out),
            _ => None,
        }
    }

    /// Every kind is found again from its wire byte, and only the bytes
    /// 0, 1 and 2 stand for a kind.
    pub proof fn lemma_marker_round_trip(kind: FrameKind, marker: u8)
        ensures
            FrameKind::of_marker(kind.marker_of()) == Some(kind),
            FrameKind::of_marker(marker) is Some <==> marker <= 2,
            FrameKind::of_marker(marker) is Some ==> FrameKind::of_marker(marker).unwrap().marker_of()
                == marker,
    {
    }
}

/// One unit of the multiplexed stream.
#[derive(Debug, PartialEq, Eq)]
pub enum Frame {
    /// A chunk of standard error.
    Stderr(Bytes),
    /// The exit code of the child.
    ExitStatusCode(i32),
    /// A chunk of standard output.
    Out(Bytes),
}

/// A frame as a mathematical value: its payload is a sequence of bytes.
pub enum FrameModel {
    Stderr(Seq<u8>),
    ExitStatusCode(i32),
    Out(Seq<u8>),
}

impl FrameModel {
    /// The kind of the frame.
    pub open spec fn kind(self) -> FrameKind {
        match self {
            FrameModel::Stderr(_) => FrameKind::Stderr,
            FrameModel::ExitStatusCode(_) => FrameKind::ExitStatusCode,
            FrameModel::Out(_) => FrameKind::Out,
        }
    }

    /// The payload of the frame; empty for an exit status.
    pub open spec fn payload(self) -> Seq<u8> {
        match self {
            FrameModel::Stderr(p) => p,
            FrameModel::ExitStatusCode(_) => Seq::empty(),
            FrameModel::Out(p) => p,
        }
    }

    /// A frame may travel only if its payload is at most `MAX` bytes long.
    pub open spec fn well_formed(self) -> bool {
        self.payload().len() <= MAX
    }
}

impl View for Frame {
    type V = FrameModel;

    open spec fn view(&self) -> FrameModel {
        match *self {
            Frame::Stderr(p) => FrameModel::Stderr(contents(p)),
            Frame::ExitStatusCode(code) => FrameModel::ExitStatusCode(code),
            Frame::Out(p) => FrameModel::Out(contents(p)),
        }
    }
}

impl Frame {
    /// The kind of this frame.
    pub fn kind(&self) -> (k: FrameKind)
        ensures
            k == self@.kind(),
    {
        match self {
            Frame::Stderr(_) => FrameKind::Stderr,
            Frame::ExitStatusCode(_) => FrameKind::ExitStatusCode,
            Frame::Out(_) => FrameKind::Out,
        }
    }
}

} // verus!
