//! Position-tracked reads over an input byte buffer.
//!
//! Every read takes the buffer and a mutable offset, consumes exactly the
//! width of the value on success, and leaves the offset unchanged on failure.

use vstd::prelude::*;

verus! {

/// Byte order in which the multi-byte fields of an image are read.
#[derive(Clone, Copy, Debug, PartialEq, Eq, Structural)]
pub enum ByteOrder {
    Little,
    Big,
}

/// Width of the length prefix of a string: four bytes for images produced on
/// a 32-bit size profile, eight bytes for a 64-bit profile. The format does
/// not declare the profile inside the file, so the caller chooses it.
#[derive(Clone, Copy, Debug, PartialEq, Eq, Structural)]
pub enum LengthSize {
    Four,
    Eight,
}

/// The ways a decode can fail. Every failure aborts the whole decode: a
/// misaligned read would invalidate every later offset in the stream.
#[derive(Clone, Copy, Debug, PartialEq, Eq, Structural)]
pub enum DecodeError {
    /// A read asked for more bytes than the buffer still holds.
    UnexpectedEndOfInput,
    /// A constant carried a tag byte with no known payload layout.
    InvalidConstantTag(u8),
    /// An instruction word's opcode field has no table entry.
    UnknownOpcode(u8),
    /// A string's bytes are not valid UTF-8.
    InvalidText,
}

/// The 32-bit value held by the four bytes of `s` starting at `i`.
pub open spec fn u32_at(s: Seq<u8>, i: int, order: ByteOrder) -> u32 {
    match order {
        ByteOrder::Little => (s[i] + s[i + 1] * 0x100 + s[i + 2] * 0x10000 + s[i + 3]
            * 0x1000000) as u32,
        ByteOrder::Big => (s[i + 3] + s[i + 2] * 0x100 + s[i + 1] * 0x10000 + s[i]
            * 0x1000000) as u32,
    }
}

/// The 64-bit value held by the eight bytes of `s` starting at `i`.
pub open spec fn u64_at(s: Seq<u8>, i: int, order: ByteOrder) -> u64 {
    match order {
        ByteOrder::Little => (s[i] + s[i + 1] * 0x100 + s[i + 2] * 0x10000 + s[i + 3] * 0x1000000
            + s[i + 4] * 0x100000000 + s[i + 5] * 0x10000000000 + s[i + 6] * 0x1000000000000 + s[i
            + 7] * 0x100000000000000) as u64,
        ByteOrder::Big => (s[i + 7] + s[i + 6] * 0x100 + s[i + 5] * 0x10000 + s[i + 4] * 0x1000000
            + s[i + 3] * 0x100000000 + s[i + 2] * 0x10000000000 + s[i + 1] * 0x1000000000000 + s[i]
            * 0x100000000000000) as u64,
    }
}

/// Reads one byte and advances the offset by one.
pub fn read_u8(src: &[u8], offset: &mut usize) -> (r: Result<u8, DecodeError>)
    ensures
        *old(offset) + 1 <= src@.len() ==> r == Ok::<u8, DecodeError>(src@[*old(offset) as int])
            && *final(offset) == *old(offset) + 1,
        *old(offset) + 1 > src@.len() ==> r == Err::<u8, DecodeError>(
            DecodeError::UnexpectedEndOfInput,
        ) && *final(offset) == *old(offset),
{
    if *offset < src.len() {
        let b = src[*offset];
        *offset = *offset + 1;
        Ok(b)
    } else {
        Err(DecodeError::UnexpectedEndOfInput)
    }
}

/// Reads one 32-bit integer in the given byte order and advances by four.
pub fn read_u32(src: &[u8], offset: &mut usize, order: ByteOrder) -> (r: Result<
    u32,
    DecodeError,
>)
    ensures
        *old(offset) + 4 <= src@.len() ==> r == Ok::<u32, DecodeError>(
            u32_at(src@, *old(offset) as int, order),
        ) && *final(offset) == *old(offset) + 4,
        *old(offset) + 4 > src@.len() ==> r == Err::<u32, DecodeError>(
            DecodeError::UnexpectedEndOfInput,
        ) && *final(offset) == *old(offset),
{
    if src.len() >= 4 && *offset <= src.len() - 4 {
        let b0 = src[*offset] as u32;
        let b1 = src[*offset + 1] as u32;
        let b2 = src[*offset + 2] as u32;
        let b3 = src[*offset + 3] as u32;
        *offset = *offset + 4;
        match order {
            ByteOrder::Little => Ok(b0 + b1 * 0x100 + b2 * 0x10000 + b3 * 0x1000000),
            ByteOrder::Big => Ok(b3 + b2 * 0x100 + b1 * 0x10000 + b0 * 0x1000000),
        }
    } else {
        Err(DecodeError::UnexpectedEndOfInput)
    }
}

/// Reads one 64-bit integer in the given byte order and advances by eight.
pub fn read_u64(src: &[u8], offset: &mut usize, order: ByteOrder) -> (r: Result<
    u64,
    DecodeError,
>)
    ensures
        *old(offset) + 8 <= src@.len() ==> r == Ok::<u64, DecodeError>(
            u64_at(src@, *old(offset) as int, order),
        ) && *final(offset) == *old(offset) + 8,
        *old(offset) + 8 > src@.len() ==> r == Err::<u64, DecodeError>(
            DecodeError::UnexpectedEndOfInput,
        ) && *final(offset) == *old(offset),
{
    if src.len() >= 8 && *offset <= src.len() - 8 {
        let b0 = src[*offset] as u64;
        let b1 = src[*offset + 1] as u64;
        let b2 = src[*offset + 2] as u64;
        let b3 = src[*offset + 3] as u64;
        let b4 = src[*offset + 4] as u64;
        let b5 = src[*offset + 5] as u64;
        let b6 = src[*offset + 6] as u64;
        let b7 = src[*offset + 7] as u64;
        *offset = *offset + 8;
        match order {
            ByteOrder::Little => Ok(
                b0 + b1 * 0x100 + b2 * 0x10000 + b3 * 0x1000000 + b4 * 0x100000000 + b5
                    * 0x10000000000 + b6 * 0x1000000000000 + b7 * 0x100000000000000,
            ),
            ByteOrder::Big => Ok(
                b7 + b6 * 0x100 + b5 * 0x10000 + b4 * 0x1000000 + b3 * 0x100000000 + b2
                    * 0x10000000000 + b1 * 0x1000000000000 + b0 * 0x100000000000000,
            ),
        }
    } else {
        Err(DecodeError::UnexpectedEndOfInput)
    }
}

/// Reads `count` raw bytes and advances by `count`.
pub fn read_bytes(src: &[u8], offset: &mut usize, count: usize) -> (r: Result<
    Vec<u8>,
    DecodeError,
>)
    ensures
        *old(offset) + count <= src@.len() ==> r is Ok && r->Ok_0@ == src@.subrange(
            *old(offset) as int,
            *old(offset) + count,
        ) && *final(offset) == *old(offset) + count,
        *old(offset) + count > src@.len() ==> r == Err::<Vec<u8>, DecodeError>(
            DecodeError::UnexpectedEndOfInput,
        ) && *final(offset) == *old(offset),
{
    if *offset <= src.len() && count <= src.len() - *offset {
        let piece = vstd::slice::slice_subrange(src, *offset, *offset + count);
        let data = vstd::slice::slice_to_vec(piece);
        *offset = *offset + count;
        Ok(data)
    } else {
        Err(DecodeError::UnexpectedEndOfInput)
    }
}

} // verus!