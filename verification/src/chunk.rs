//! PNG chunks: length, four-byte type, data and CRC-32 of type and data.

use vstd::prelude::*;
use crate::bytes::{append_bytes, be32, from_be32, lemma_be32_roundtrip, read_be32, u32_be_bytes};

verus! {

/// One bit of the reflected CRC-32 division by the polynomial 0xEDB88320.
pub open spec fn crc_bit(c: u32) -> u32 {
    if c & 1 == 1 { (c >> 1) ^ 0xEDB8_8320u32 } else { c >> 1 }
}

/// The CRC register after taking in the byte `b`: eight division steps.
pub open spec fn crc_byte(c: u32, b: u8) -> u32 {
    crc_bit(crc_bit(crc_bit(crc_bit(crc_bit(crc_bit(crc_bit(crc_bit(c ^ (b as u32)))))))))
}

/// The CRC register after taking in `bytes` in order.
pub open spec fn crc_update(c: u32, bytes: Seq<u8>) -> u32
    decreases bytes.len(),
{
    if bytes.len() == 0 {
        c
    } else {
        crc_update(crc_byte(c, bytes[0]), bytes.subrange(1, bytes.len() as int))
    }
}

/// The CRC-32 (ISO-HDLC, as in PNG and zlib) of a byte sequence: the register
/// starts with all bits set and is inverted at the end.
pub open spec fn crc32_ieee(bytes: Seq<u8>) -> u32 {
    crc_update(0xFFFF_FFFFu32, bytes) ^ 0xFFFF_FFFFu32
}

/// Calls `crc32fast::hash`, which returns the CRC-32 (ISO-HDLC) of the bytes,
/// as its documentation says.
#[verifier::external_body]
fn crc32(bytes: &[u8]) -> (r: u32)
    ensures
        r == crc32_ieee(bytes@),
{
    crc32fast::hash(bytes)
}

/// A chunk: `size` is the length of `data`, `crc` the CRC-32 of type and data.
#[derive(Debug, Clone)]
pub struct Chunk {
    pub size: u32,
    pub chunk_type: [u8; 4],
    pub data: Vec<u8>,
    pub crc: u32,
}

/// Why a chunk could not be read.
#[derive(Debug, Clone, Copy, PartialEq, Eq, Structural)]
pub enum ChunkError {
    /// The input ends before the chunk does.
    UnexpectedEof,
    /// The stored CRC does not match type and data.
    InvalidData,
}

impl Chunk {
    /// The chunk's bytes on the wire: big-endian length, type, data, big-endian CRC.
    pub open spec fn wire_bytes(self) -> Seq<u8> {
        be32(self.size) + self.chunk_type@ + self.data@ + be32(self.crc)
    }

    /// The length field matches the data and the CRC matches type and data.
    pub open spec fn well_formed(self) -> bool {
        &&& self.size == self.data@.len()
        &&& self.crc == crc32_ieee(self.chunk_type@ + self.data@)
    }

    /// Builds the chunk of the given type and data and computes its CRC. The
    /// length field is the data's length truncated to 32 bits.
    pub fn new(chunk_type: [u8; 4], data: Vec<u8>) -> (c: Chunk)
        ensures
            c.chunk_type == chunk_type,
            c.data@ == data@,
            c.size == data@.len() as u32,
            c.crc == crc32_ieee(chunk_type@ + data@),
            data@.len() <= u32::MAX ==> c.well_formed(),
    {
        let mut covered: Vec<u8> = Vec::new();
        append_bytes(&mut covered, &chunk_type);
        append_bytes(&mut covered, data.as_slice());
        let crc = crc32(covered.as_slice());
        let size = data.len() as u32;
        Chunk { size, chunk_type, data, crc }
    }

    /// Appends the chunk's bytes to `writer`.
    pub fn write(&self, writer: &mut Vec<u8>)
        ensures
            final(writer)@ == old(writer)@ + self.wire_bytes(),
    {
        let size_bytes = u32_be_bytes(self.size);
        append_bytes(writer, &size_bytes);
        append_bytes(writer, &self.chunk_type);
        append_bytes(writer, self.data.as_slice());
        let crc_bytes = u32_be_bytes(self.crc);
        append_bytes(writer, &crc_bytes);
        assert(writer@ =~= old(writer)@ + self.wire_bytes());
    }
}


/// What reading one chunk from the front of `bytes` gives: its length field,
/// type, data and CRC field; `UnexpectedEof` when the input ends before the
/// chunk does, `InvalidData` when the stored CRC is not that of type and data.
pub open spec fn parse_chunk(bytes: Seq<u8>) -> Result<(u32, Seq<u8>, Seq<u8>, u32), ChunkError> {
    if bytes.len() < 8 {
        Err(ChunkError::UnexpectedEof)
    } else {
        let size = from_be32(bytes.subrange(0, 4));
        if bytes.len() < 12 + size {
            Err(ChunkError::UnexpectedEof)
        } else {
            let chunk_type = bytes.subrange(4, 8);
            let data = bytes.subrange(8, 8 + size);
            let crc = from_be32(bytes.subrange(8 + size, 12 + size));
            if crc != crc32_ieee(chunk_type + data) {
                Err(ChunkError::InvalidData)
            } else {
                Ok((size, chunk_type, data, crc))
            }
        }
    }
}

/// Reads one chunk from the front of `bytes` and checks its CRC.
pub fn read_chunk(bytes: &[u8]) -> (r: Result<Chunk, ChunkError>)
    ensures
        match r {
            Ok(c) => parse_chunk(bytes@) == Ok::<_, ChunkError>((c.size, c.chunk_type@, c.data@, c.crc)),
            Err(e) => parse_chunk(bytes@) == Err::<(u32, Seq<u8>, Seq<u8>, u32), _>(e),
        },
{
    let len = bytes.len();
    if len < 8 {
        return Err(ChunkError::UnexpectedEof);
    }
    let size = read_be32(bytes, 0);
    if (len as u64) < 12 + size as u64 {
        return Err(ChunkError::UnexpectedEof);
    }
    let size_us = size as usize;
    let chunk_type = [bytes[4], bytes[5], bytes[6], bytes[7]];
    assert(chunk_type@ =~= bytes@.subrange(4, 8));
    let mut data: Vec<u8> = Vec::new();
    append_bytes(&mut data, &bytes[8..8 + size_us]);
    let crc = read_be32(bytes, 8 + size_us);

    let mut covered: Vec<u8> = Vec::new();
    append_bytes(&mut covered, &chunk_type);
    append_bytes(&mut covered, data.as_slice());
    let expected_crc = crc32(covered.as_slice());
    if crc != expected_crc {
        return Err(ChunkError::InvalidData);
    }
    Ok(Chunk { size, chunk_type, data, crc })
}

/// Reading a well-formed chunk back from its bytes, whatever follows them,
/// gives the chunk again.
pub proof fn lemma_read_after_write(c: Chunk, rest: Seq<u8>)
    requires
        c.well_formed(),
    ensures
        parse_chunk(c.wire_bytes() + rest) == Ok::<_, ChunkError>((c.size, c.chunk_type@, c.data@, c.crc)),
        c.wire_bytes().len() == 12 + c.data@.len(),
{
    let b = c.wire_bytes() + rest;
    let n = c.size as int;
    lemma_be32_roundtrip(c.size);
    lemma_be32_roundtrip(c.crc);
    assert(b.subrange(0, 4) =~= be32(c.size));
    assert(b.subrange(4, 8) =~= c.chunk_type@);
    assert(b.subrange(8, 8 + n) =~= c.data@);
    assert(b.subrange(8 + n, 12 + n) =~= be32(c.crc));
}

} // verus!
