//! Reading big-endian numbers, strings and ranges out of a byte buffer,
//! with every access checked against the end of the buffer.
use vstd::prelude::*;
use vstd::slice::slice_subrange;
use vstd::utf8::{encode_utf8, valid_utf8};

verus! {

/// Why a read from a byte buffer failed.
#[derive(Clone, Copy, Debug, PartialEq, Eq, Structural)]
pub enum SliceReadError {
    /// The buffer ends before what was to be read.
    UnexpectedEndOfInput,
}

/// What a read from a byte buffer gives.
pub type SliceReadResult<T> = Result<T, SliceReadError>;

/// The `n` bytes from position `pos` on lie inside the buffer.
pub open spec fn in_buffer(b: Seq<u8>, pos: int, n: int) -> bool {
    0 <= pos && pos + n <= b.len()
}

/// The number that the four bytes from position `pos` on hold, the most
/// significant byte first.
pub open spec fn spec_be_u32(b: Seq<u8>, pos: int) -> int {
    b[pos] * 0x100_0000 + b[pos + 1] * 0x1_0000 + b[pos + 2] * 0x100 + b[pos + 3]
}

/// The number that the eight bytes from position `pos` on hold, the most
/// significant byte first.
pub open spec fn spec_be_u64(b: Seq<u8>, pos: int) -> int {
    spec_be_u32(b, pos) * 0x1_0000_0000 + spec_be_u32(b, pos + 4)
}

/// Where the first zero byte at or behind position `pos` is, if there is
/// one.
pub open spec fn string0_end(b: Seq<u8>, pos: int) -> Option<int>
    decreases b.len() - pos,
{
    if pos < 0 || pos >= b.len() {
        None
    } else if b[pos] == 0 {
        Some(pos)
    } else {
        string0_end(b, pos + 1)
    }
}

/// The end of a string is behind its start and inside the buffer, holds
/// a zero byte, and no byte of the string is zero.
pub proof fn lemma_string0_end(b: Seq<u8>, pos: int)
    ensures
        string0_end(b, pos) is Some ==> ({
            let e = string0_end(b, pos)->Some_0;
            &&& 0 <= pos <= e < b.len()
            &&& b[e] == 0
            &&& forall|k: int| pos <= k < e ==> b[k] != 0
        }),
        string0_end(b, pos) is None && 0 <= pos ==> forall|k: int|
            pos <= k < b.len() ==> b[k] != 0,
    decreases b.len() - pos,
{
    if 0 <= pos < b.len() && b[pos] != 0 {
        lemma_string0_end(b, pos + 1);
    }
}

/// `val` rounded up to a multiple of `to`.
pub open spec fn spec_align(val: int, to: int) -> int {
    val + (to - val % to) % to
}

/// Reads the number that the four bytes from position `pos` on hold, the
/// most significant byte first.
pub fn read_be_u32(buf: &[u8], pos: usize) -> (r: SliceReadResult<u32>)
    ensures
        r is Ok <==> in_buffer(buf@, pos as int, 4),
        r is Ok ==> r->Ok_0 == spec_be_u32(buf@, pos as int),
{
    let len = buf.len();
    if pos > len || len - pos < 4 {
        return Err(SliceReadError::UnexpectedEndOfInput);
    }
    let b0: u32 = buf[pos] as u32;
    let b1: u32 = buf[pos + 1] as u32;
    let b2: u32 = buf[pos + 2] as u32;
    let b3: u32 = buf[pos + 3] as u32;
    Ok(b0 * 0x100_0000 + b1 * 0x1_0000 + b2 * 0x100 + b3)
}

/// Reads the number that the eight bytes from position `pos` on hold,
/// the most significant byte first.
pub fn read_be_u64(buf: &[u8], pos: usize) -> (r: SliceReadResult<u64>)
    ensures
        r is Ok <==> in_buffer(buf@, pos as int, 8),
        r is Ok ==> r->Ok_0 == spec_be_u64(buf@, pos as int),
{
    let len = buf.len();
    if pos > len || len - pos < 8 {
        return Err(SliceReadError::UnexpectedEndOfInput);
    }
    let high = match read_be_u32(buf, pos) {
        Err(e) => {
            return Err(e);
        },
        Ok(high) => high,
    };
    let low = match read_be_u32(buf, pos + 4) {
        Err(e) => {
            return Err(e);
        },
        Ok(low) => low,
    };
    let high: u64 = high as u64;
    let low: u64 = low as u64;
    Ok(high * 0x1_0000_0000 + low)
}

/// Reads the bytes from position `pos` up to the first zero byte, which
/// is left out.
pub fn read_bstring0(buf: &[u8], pos: usize) -> (r: SliceReadResult<&[u8]>)
    ensures
        r is Ok <==> string0_end(buf@, pos as int) is Some,
        r is Ok ==> r->Ok_0@ == buf@.subrange(
            pos as int,
            string0_end(buf@, pos as int)->Some_0,
        ),
{
    let mut cur = pos;
    while cur < buf.len()
        invariant
            pos <= cur,
            string0_end(buf@, pos as int) == string0_end(buf@, cur as int),
        decreases buf@.len() - cur,
    {
        if buf[cur] == 0 {
            return Ok(slice_subrange(buf, pos, cur));
        }
        cur += 1;
    }
    Err(SliceReadError::UnexpectedEndOfInput)
}

/// The bytes from position `start` up to position `end`, which is left
/// out.
pub fn subslice(buf: &[u8], start: usize, end: usize) -> (r: SliceReadResult<&[u8]>)
    ensures
        r is Ok <==> start <= end <= buf@.len(),
        r is Ok ==> r->Ok_0@ == buf@.subrange(start as int, end as int),
{
    if start > end || end > buf.len() {
        return Err(SliceReadError::UnexpectedEndOfInput);
    }
    Ok(slice_subrange(buf, start, end))
}

/// Tells whether two byte strings are the same.
pub fn bytes_eq(a: &[u8], b: &[u8]) -> (r: bool)
    ensures
        r == (a@ == b@),
{
    if a.len() != b.len() {
        return false;
    }
    let mut i: usize = 0;
    while i < a.len()
        invariant
            i <= a@.len(),
            a@.len() == b@.len(),
            forall|k: int| 0 <= k < i ==> a@[k] == b@[k],
        decreases a@.len() - i,
    {
        if a[i] != b[i] {
            return false;
        }
        i += 1;
    }
    assert(a@ =~= b@);
    true
}

/// The text that `bytes` encode, where they encode text.
///
/// Trusted: this is `core::str::from_utf8`, of which it is taken that it
/// accepts exactly the valid encodings of text, and that the text it
/// gives has the bytes it was given.
#[verifier::external_body]
pub(crate) fn utf8_str(bytes: &[u8]) -> (r: Option<&str>)
    ensures
        r is Some <==> valid_utf8(bytes@),
        r is Some ==> encode_utf8(r->Some_0@) == bytes@,
{
    match core::str::from_utf8(bytes) {
        Ok(text) => Some(text),
        Err(_) => None,
    }
}

} // verus!
