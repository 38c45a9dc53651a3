//! The byte buffers of the `bytes` crate, as far as the codec uses them.
//!
//! Nothing in this file is proved: each contract below restates what the
//! `bytes` crate does, over the bytes that a buffer holds.

use tokio_util::bytes::{Buf, BufMut, Bytes, BytesMut};
use vstd::prelude::*;

use crate::wire::be_bytes;

verus! {

/// `BytesMut`, the growable buffer: opaque here, known by `buffered` alone.
#[verifier::external_type_specification]
#[verifier::external_body]
pub struct ExBytesMut(BytesMut);

/// `Bytes`, the immutable buffer: opaque here, known by `contents` alone.
#[verifier::external_type_specification]
#[verifier::external_body]
pub struct ExBytes(Bytes);

/// The bytes that a growable buffer holds, first to last.
pub uninterp spec fn buffered(buf: BytesMut) -> Seq<u8>;

/// The bytes that a frozen buffer holds, first to last.
pub uninterp spec fn contents(bytes: Bytes) -> Seq<u8>;

/// `BytesMut::len`: the number of bytes held.
#[verifier::external_body]
pub(crate) fn buffered_len(buf: &BytesMut) -> (n: usize)
    ensures
        n == buffered(*buf).len(),
{
    buf.len()
}

/// Indexing a `BytesMut` through its slice: the byte at `i`. Out of bounds
/// it panics, so `i` must be in bounds.
#[verifier::external_body]
pub(crate) fn byte_at(buf: &BytesMut, i: usize) -> (b: u8)
    requires
        i < buffered(*buf).len(),
    ensures
        b == buffered(*buf)[i as int],
{
    buf[i]
}

/// `Buf::advance` of `BytesMut`: drops the first `cnt` bytes. It panics
/// when `cnt` is more than what is held.
#[verifier::external_body]
pub(crate) fn advance(buf: &mut BytesMut, cnt: usize)
    requires
        cnt <= buffered(*old(buf)).len(),
    ensures
        buffered(*final(buf)) == buffered(*old(buf)).skip(cnt as int),
{
    buf.advance(cnt)
}

/// `BytesMut::split_to`: hands out the first `at` bytes and keeps the
/// rest. It panics when `at` is more than what is held.
#[verifier::external_body]
pub(crate) fn split_to(buf: &mut BytesMut, at: usize) -> (head: BytesMut)
    requires
        at <= buffered(*old(buf)).len(),
    ensures
        buffered(head) == buffered(*old(buf)).take(at as int),
        buffered(*final(buf)) == buffered(*old(buf)).skip(at as int),
{
    buf.split_to(at)
}

/// `BytesMut::freeze`: the same bytes, now immutable.
#[verifier::external_body]
pub(crate) fn freeze(buf: BytesMut) -> (bytes: Bytes)
    ensures
        contents(bytes) == buffered(buf),
{
    buf.freeze()
}

/// `BytesMut::reserve`: makes room and leaves the bytes held as they are.
/// It panics when the new capacity overflows. The bound asked for here is
/// the room that the crate itself reports as left (`remaining_mut`): the
/// largest allocation less the bytes held. The same bound stands on the
/// `put` functions below, which make room in the same way.
#[verifier::external_body]
pub(crate) fn reserve(buf: &mut BytesMut, additional: usize)
    requires
        buffered(*old(buf)).len() + additional <= isize::MAX,
    ensures
        buffered(*final(buf)) == buffered(*old(buf)),
{
    buf.reserve(additional)
}

/// `BufMut::put_u8` of `BytesMut`: appends one byte.
#[verifier::external_body]
pub(crate) fn put_u8(buf: &mut BytesMut, n: u8)
    requires
        buffered(*old(buf)).len() + 1 <= isize::MAX,
    ensures
        buffered(*final(buf)) == buffered(*old(buf)).push(n),
{
    buf.put_u8(n)
}

/// `BufMut::put_u32` of `BytesMut`: appends the four bytes of `n`, most
/// significant first.
#[verifier::external_body]
pub(crate) fn put_u32(buf: &mut BytesMut, n: u32)
    requires
        buffered(*old(buf)).len() + 4 <= isize::MAX,
    ensures
        buffered(*final(buf)) == buffered(*old(buf)) + be_bytes(n),
{
    buf.put_u32(n)
}

/// `BufMut::put` of `BytesMut`, with a `Bytes` as the source: appends all
/// bytes of the source.
#[verifier::external_body]
pub(crate) fn put(buf: &mut BytesMut, src: Bytes)
    requires
        buffered(*old(buf)).len() + contents(src).len() <= isize::MAX,
    ensures
        buffered(*final(buf)) == buffered(*old(buf)) + contents(src),
{
    buf.put(src)
}

/// `Bytes::len`: the number of bytes held.
#[verifier::external_body]
pub(crate) fn contents_len(bytes: &Bytes) -> (n: usize)
    ensures
        n == contents(*bytes).len(),
{
    bytes.len()
}

} // verus!
