//! Big-endian 32-bit words and the two's-complement reading of exit codes.

use vstd::prelude::*;

verus! {

/// The four bytes of `w`, most significant first.
pub open spec fn be_bytes(w: u32) -> Seq<u8> {
    seq![
        (w / 0x100_0000) as u8,
        ((w / 0x1_0000) % 0x100) as u8,
        ((w / 0x100) % 0x100) as u8,
        (w % 0x100) as u8,
    ]
}

/// The word whose bytes, most significant first, are `b0 b1 b2 b3`.
pub open spec fn be_word(b0: u8, b1: u8, b2: u8, b3: u8) -> u32 {
    (b0 as int * 0x100_0000 + b1 as int * 0x1_0000 + b2 as int * 0x100 + b3 as int) as u32
}

/// The unsigned word that has the bits of `code` in two's complement.
pub open spec fn code_word(code: i32) -> u32 {
    if code >= 0 {
        code as u32
    } else {
        (code as int + 0x1_0000_0000) as u32
    }
}

/// The signed value of the bits of `w` in two's complement.
pub open spec fn word_code(w: u32) -> i32 {
    if w < 0x8000_0000 {
        w as i32
    } else {
        (w as int - 0x1_0000_0000) as i32
    }
}

/// Reading back the four bytes of a word gives the word.
pub proof fn lemma_word_round_trip(w: u32)
    ensures
        be_bytes(w).len() == 4,
        be_word(be_bytes(w)[0], be_bytes(w)[1], be_bytes(w)[2], be_bytes(w)[3]) == w,
{
}

/// An exit code and its word determine each other.
pub proof fn lemma_code_round_trip(code: i32, w: u32)
    ensures
        word_code(code_word(code)) == code,
        code_word(word_code(w)) == w,
{
}

/// Assembles a word from its four bytes, most significant first.
pub fn word_from_be(b0: u8, b1: u8, b2: u8, b3: u8) -> (w: u32)
    ensures
        w == be_word(b0, b1, b2, b3),
{
    let hi: u32 = (b0 as u32) * 0x100_0000 + (b1 as u32) * 0x1_0000;
    let lo: u32 = (b2 as u32) * 0x100 + (b3 as u32);
    hi + lo
}

/// The bits of an exit code as an unsigned word.
pub fn code_to_word(code: i32) -> (w: u32)
    ensures
        w == code_word(code),
{
    if code >= 0 {
        code as u32
    } else {
        let above_min: i32 = code - i32::MIN;
        (above_min as u32) + 0x8000_0000u32
    }
}

/// The exit code that an unsigned word stands for.
pub fn word_to_code(w: u32) -> (code: i32)
    ensures
        code == word_code(w),
{
    if w < 0x8000_0000u32 {
        w as i32
    } else {
        let above_min: u32 = w - 0x8000_0000u32;
        (above_min as i32) + i32::MIN
    }
}

} // verus!
