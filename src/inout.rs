//! The stored form of a dictionary and its graph: a four-byte magic value, a
//! version byte, the payload length as a little-endian 32-bit integer, then
//! the payload.
use vstd::prelude::*;
use vstd::slice::{slice_subrange, slice_to_vec};

use crate::error::{DecodeError, Error};

verus! {

/// The format version written and accepted.
pub const VERSION: u8 = 1;

/// The magic value that opens every record: the bytes of "swpd".
pub open spec fn magic() -> Seq<u8> {
    seq![0x73u8, 0x77u8, 0x70u8, 0x64u8]
}

/// The four little-endian bytes of `n`.
pub open spec fn le_bytes(n: u32) -> Seq<u8> {
    seq![(n & 0xff) as u8, ((n >> 8u32) & 0xff) as u8, ((n >> 16u32) & 0xff) as u8, ((n >> 24u32) & 0xff) as u8]
}

/// The number whose little-endian bytes are `b0` to `b3`.
pub open spec fn le_value(b0: u8, b1: u8, b2: u8, b3: u8) -> u32 {
    (b0 as u32) | ((b1 as u32) << 8u32) | ((b2 as u32) << 16u32) | ((b3 as u32) << 24u32)
}

/// The record of `payload`.
pub open spec fn frame(payload: Seq<u8>) -> Seq<u8> {
    magic() + seq![VERSION] + le_bytes(payload.len() as u32) + payload
}

/// The payload length that a header announces.
pub open spec fn announced(b: Seq<u8>) -> nat {
    le_value(b[5], b[6], b[7], b[8]) as nat
}

/// What reading a record from the start of `b` gives: its payload, or why
/// it is refused. Bytes after the record are not read.
pub open spec fn parse_frame(b: Seq<u8>) -> Result<Seq<u8>, DecodeError> {
    if b.len() < 4 {
        Err(DecodeError::Truncated)
    } else if b.take(4) != magic() {
        Err(DecodeError::BadMagic)
    } else if b.len() < 5 {
        Err(DecodeError::Truncated)
    } else if b[4] != VERSION {
        Err(DecodeError::BadVersion(b[4]))
    } else if b.len() < 9 || b.len() < 9 + announced(b) {
        Err(DecodeError::Truncated)
    } else {
        Ok(b.subrange(9, 9 + announced(b) as int))
    }
}

/// Appends the record of `payload` to `write`. A payload longer than a
/// 32-bit length can announce is refused and nothing is written.
pub fn to_write(write: &mut Vec<u8>, payload: &[u8]) -> (r: Result<(), Error>)
    ensures
        payload@.len() <= u32::MAX ==> r is Ok && final(write)@ == old(write)@ + frame(payload@),
        payload@.len() > u32::MAX ==> r == Err::<(), Error>(Error::TooLarge(payload@.len() as usize))
            && final(write)@ == old(write)@,
{
    if payload.len() > u32::MAX as usize {
        return Err(Error::TooLarge(payload.len()));
    }
    let n = payload.len() as u32;
    let ghost start = write@;
    write.push(0x73u8);
    write.push(0x77u8);
    write.push(0x70u8);
    write.push(0x64u8);
    write.push(VERSION);
    write.push((n & 0xff) as u8);
    write.push(((n >> 8u32) & 0xff) as u8);
    write.push(((n >> 16u32) & 0xff) as u8);
    write.push(((n >> 24u32) & 0xff) as u8);
    let ghost head = write@;
    assert(head =~= start + magic() + seq![VERSION] + le_bytes(n));
    let mut i: usize = 0;
    while i < payload.len()
        invariant
            i <= payload@.len(),
            write@ == head + payload@.take(i as int),
        decreases payload@.len() - i,
    {
        write.push(payload[i]);
        assert(payload@.take(i + 1) =~= payload@.take(i as int).push(payload@[i as int]));
        i = i + 1;
    }
    assert(payload@.take(i as int) =~= payload@);
    assert(write@ =~= start + frame(payload@));
    Ok(())
}

/// Reads the record at the start of `read` and returns its payload. A wrong
/// magic value or version is refused before the length is read.
pub fn from_read(read: &[u8]) -> (r: Result<Vec<u8>, Error>)
    ensures
        match parse_frame(read@) {
            Ok(p) => r is Ok && r->Ok_0@ == p,
            Err(e) => r == Err::<Vec<u8>, Error>(Error::Decode(e)),
        },
{
    let len = read.len();
    if len < 4 {
        return Err(Error::Decode(DecodeError::Truncated));
    }
    if !(read[0] == 0x73u8 && read[1] == 0x77u8 && read[2] == 0x70u8 && read[3] == 0x64u8) {
        proof {
            if read@.take(4) == magic() {
                assert(read@.take(4)[0] == read@[0]);
                assert(read@.take(4)[1] == read@[1]);
                assert(read@.take(4)[2] == read@[2]);
                assert(read@.take(4)[3] == read@[3]);
            }
        }
        return Err(Error::Decode(DecodeError::BadMagic));
    }
    assert(read@.take(4) =~= magic());
    if len < 5 {
        return Err(Error::Decode(DecodeError::Truncated));
    }
    if read[4] != VERSION {
        return Err(Error::Decode(DecodeError::BadVersion(read[4])));
    }
    if len < 9 {
        return Err(Error::Decode(DecodeError::Truncated));
    }
    let size: u32 = (read[5] as u32) | ((read[6] as u32) << 8u32) | ((read[7] as u32) << 16u32) | ((
    read[8] as u32) << 24u32);
    if (len as u64) < 9 + size as u64 {
        return Err(Error::Decode(DecodeError::Truncated));
    }
    let end = 9 + size as usize;
    let payload = slice_to_vec(slice_subrange(read, 9, end));
    Ok(payload)
}

/// Reading back a written record gives the payload that was written, whatever
/// follows it.
pub proof fn lemma_frame_round_trip(payload: Seq<u8>, rest: Seq<u8>)
    requires
        payload.len() <= u32::MAX,
    ensures
        parse_frame(frame(payload) + rest) == Ok::<Seq<u8>, DecodeError>(payload),
{
    let n = payload.len() as u32;
    let b = frame(payload) + rest;
    assert(b.take(4) =~= magic());
    assert(b[4] == VERSION);
    assert(b[5] == (n & 0xff) as u8);
    assert(b[6] == ((n >> 8u32) & 0xff) as u8);
    assert(b[7] == ((n >> 16u32) & 0xff) as u8);
    assert(b[8] == ((n >> 24u32) & 0xff) as u8);
    assert(le_value((n & 0xff) as u8, ((n >> 8u32) & 0xff) as u8, ((n >> 16u32) & 0xff) as u8, ((n
        >> 24u32) & 0xff) as u8) == n) by {
        lemma_le_round_trip(n);
    }
    assert(b.subrange(9, 9 + n as int) =~= payload);
}

proof fn lemma_le_round_trip(n: u32)
    ensures
        ((n & 0xff) as u8 as u32) | ((((n >> 8u32) & 0xff) as u8 as u32) << 8u32) | ((((n >> 16u32)
            & 0xff) as u8 as u32) << 16u32) | ((((n >> 24u32) & 0xff) as u8 as u32) << 24u32) == n,
{
    assert(((n & 0xff) as u8 as u32) | ((((n >> 8u32) & 0xff) as u8 as u32) << 8u32) | ((((n
        >> 16u32) & 0xff) as u8 as u32) << 16u32) | ((((n >> 24u32) & 0xff) as u8 as u32) << 24u32)
        == n) by (bit_vector);
}

} // verus!
