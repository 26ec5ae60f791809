//! Data blocks store any content in chunks. Data is referenced by a block
//! identifier and an offset inside the block.
//!
//! # Block Format
//!
//! The first byte of a block says how its payload is compressed. The next
//! four bytes are the length of the payload as it is stored, a big-endian
//! `u32`. The payload follows.

pub mod reader;
pub mod writer;

use crate::endian;
use std::io::Read;
use std::io::Write;
use vstd::prelude::*;

verus! {

/// Tag of a block whose payload is stored as it is.
pub const TAG_UNCOMPRESSED: u8 = 1;

/// Tag of a block whose payload is a raw DEFLATE stream.
pub const TAG_DEFLATE: u8 = 2;

/// Tag of a block whose payload is an LZ4 frame.
pub const TAG_LZ4: u8 = 3;

/// Number of bytes before the payload of a block: the tag and the length.
pub const BLOCK_HEADER_SIZE: usize = 5;

/// Method to compress data in blocks.
#[derive(Clone, Copy, Debug)]
pub enum BlockCompression {
    /// Don't compress data.
    Uncompressed,
    /// Use DEFLATE, with the specified compression level (`0..=9`).
    Deflate(u32),
    /// Use LZ4.
    Lz4,
}

impl Default for BlockCompression {
    fn default() -> (compression: BlockCompression)
        ensures
            compression == BlockCompression::Uncompressed,
    {
        BlockCompression::Uncompressed
    }
}

impl BlockCompression {
    /// Whether the level, if there is one, is within `0..=9`.
    pub open spec fn valid(self) -> bool {
        self matches BlockCompression::Deflate(level) ==> level <= 9
    }

    /// The tag of the blocks that this method writes.
    pub open spec fn spec_tag(&self) -> u8 {
        match *self {
            BlockCompression::Uncompressed => TAG_UNCOMPRESSED,
            BlockCompression::Deflate(_) => TAG_DEFLATE,
            BlockCompression::Lz4 => TAG_LZ4,
        }
    }

    /// The tag of the blocks that this method writes.
    #[verifier::when_used_as_spec(spec_tag)]
    pub fn tag(&self) -> (tag: u8)
        ensures
            tag == self.spec_tag(),
    {
        match self {
            BlockCompression::Uncompressed => TAG_UNCOMPRESSED,
            BlockCompression::Deflate(_) => TAG_DEFLATE,
            BlockCompression::Lz4 => TAG_LZ4,
        }
    }

    /// Whether the level, if there is one, is within `0..=9`.
    pub fn is_valid(&self) -> (valid: bool)
        ensures
            valid == self.valid(),
    {
        match self {
            BlockCompression::Deflate(level) => *level <= 9,
            _ => true,
        }
    }
}

/// What went wrong with the bytes of a stream.
#[derive(Debug, Clone, Copy, PartialEq, Eq, Structural)]
pub enum IoKind {
    /// The stream ended before what was to be read.
    UnexpectedEof,
    /// A payload is not what its block type says.
    InvalidData,
    /// A payload could not be compressed.
    Other,
}

/// Errors related to data blocks.
#[derive(Debug, Clone, Copy, PartialEq, Eq, Structural)]
pub enum BlockError {
    /// The stream could not be read or written.
    Io(IoKind),
    /// The tag of a block is none of the known ones.
    InvalidBlockType(u8),
    /// A block or an offset reaches beyond what there is.
    InvalidLength(u64),
    /// The payload of a block, as it is stored, does not fit in `u32`.
    BlockTooLarge,
}

/// The raw DEFLATE stream that the encoder makes of `data` at `level`,
/// if it makes one.
pub uninterp spec fn deflated(data: Seq<u8>, level: u32) -> Option<Seq<u8>>;

/// The data that the decoder reads from a raw DEFLATE stream, if it
/// accepts the stream.
pub uninterp spec fn inflated(stream: Seq<u8>) -> Option<Seq<u8>>;

/// The LZ4 frame that the encoder makes of `data`, if it makes one.
pub uninterp spec fn lz4_framed(data: Seq<u8>) -> Option<Seq<u8>>;

/// The data that the decoder reads from an LZ4 frame, if it accepts the
/// frame.
pub uninterp spec fn lz4_unframed(frame: Seq<u8>) -> Option<Seq<u8>>;

/// Compresses `data` into a raw DEFLATE stream.
///
/// Trusted: feeds `data` to a `flate2::write::DeflateEncoder` over an
/// empty vector and finishes it. The contract names the stream that comes
/// out, and claims that the decoder of the same crate reads `data` back
/// from it.
#[verifier::external_body]
pub(crate) fn deflate(data: &[u8], level: u32) -> (stream: Option<Vec<u8>>)
    requires
        level <= 9,
    ensures
        match stream {
            Some(bytes) => deflated(data@, level) == Some(bytes@) && inflated(bytes@) == Some(
                data@,
            ),
            None => deflated(data@, level) is None,
        },
{
    let mut encoder = flate2::write::DeflateEncoder::new(
        Vec::new(),
        flate2::Compression::new(level),
    );
    match encoder.write_all(data) {
        Ok(()) => encoder.finish().ok(),
        Err(_) => None,
    }
}

/// Reads the data of a raw DEFLATE stream.
///
/// Trusted: reads a `flate2::read::DeflateDecoder` over `stream` to its
/// end. The contract names what comes out, and that the decoder may refuse
/// the stream.
#[verifier::external_body]
pub(crate) fn inflate(stream: &[u8]) -> (data: Option<Vec<u8>>)
    ensures
        match data {
            Some(bytes) => inflated(stream@) == Some(bytes@),
            None => inflated(stream@) is None,
        },
{
    let mut data = Vec::new();
    match flate2::read::DeflateDecoder::new(stream).read_to_end(&mut data) {
        Ok(_) => Some(data),
        Err(_) => None,
    }
}

/// Compresses `data` into an LZ4 frame.
///
/// Trusted: feeds `data` to an `lz4_flex::frame::FrameEncoder` over an
/// empty vector and finishes it. The contract names the frame that comes
/// out, and claims that the decoder of the same crate reads `data` back
/// from it.
#[verifier::external_body]
pub(crate) fn lz4_compress(data: &[u8]) -> (frame: Option<Vec<u8>>)
    ensures
        match frame {
            Some(bytes) => lz4_framed(data@) == Some(bytes@) && lz4_unframed(bytes@) == Some(
                data@,
            ),
            None => lz4_framed(data@) is None,
        },
{
    let mut encoder = lz4_flex::frame::FrameEncoder::new(Vec::new());
    match encoder.write_all(data) {
        Ok(()) => encoder.finish().ok(),
        Err(_) => None,
    }
}

/// Reads the data of an LZ4 frame.
///
/// Trusted: reads an `lz4_flex::frame::FrameDecoder` over `frame` to its
/// end. The contract names what comes out, and that the decoder may refuse
/// the frame.
#[verifier::external_body]
pub(crate) fn lz4_decompress(frame: &[u8]) -> (data: Option<Vec<u8>>)
    ensures
        match data {
            Some(bytes) => lz4_unframed(frame@) == Some(bytes@),
            None => lz4_unframed(frame@) is None,
        },
{
    let mut data = Vec::new();
    match lz4_flex::frame::FrameDecoder::new(frame).read_to_end(&mut data) {
        Ok(_) => Some(data),
        Err(_) => None,
    }
}

/// The payload of a block as it is stored, if it can be compressed.
pub open spec fn stored(compression: BlockCompression, payload: Seq<u8>) -> Option<Seq<u8>> {
    match compression {
        BlockCompression::Uncompressed => Some(payload),
        BlockCompression::Deflate(level) => deflated(payload, level),
        BlockCompression::Lz4 => lz4_framed(payload),
    }
}

/// The payload that a block with `tag` holds in `bytes`, if it can be
/// decoded.
pub open spec fn restored(tag: u8, bytes: Seq<u8>) -> Option<Seq<u8>> {
    if tag == TAG_UNCOMPRESSED {
        Some(bytes)
    } else if tag == TAG_DEFLATE {
        inflated(bytes)
    } else if tag == TAG_LZ4 {
        lz4_unframed(bytes)
    } else {
        None
    }
}

/// Whether `tag` is the tag of a kind of block.
pub open spec fn known_tag(tag: u8) -> bool {
    tag == TAG_UNCOMPRESSED || tag == TAG_DEFLATE || tag == TAG_LZ4
}

/// The bytes of a block: its tag, the length of `bytes`, and `bytes`.
pub open spec fn block_bytes(tag: u8, bytes: Seq<u8>) -> Seq<u8> {
    seq![tag] + endian::be32(bytes.len() as u32) + bytes
}

/// The decoded payload of the block that starts at `block_id` in `stream`.
pub open spec fn block_at(stream: Seq<u8>, block_id: int) -> Result<Seq<u8>, BlockError> {
    if block_id < 0 || block_id >= stream.len() {
        Err(BlockError::Io(IoKind::UnexpectedEof))
    } else if !known_tag(stream[block_id]) {
        Err(BlockError::InvalidBlockType(stream[block_id]))
    } else if block_id + BLOCK_HEADER_SIZE > stream.len() {
        Err(BlockError::Io(IoKind::UnexpectedEof))
    } else {
        let len = endian::from_be32(stream.subrange(block_id + 1, block_id + 5));
        if block_id + BLOCK_HEADER_SIZE + len > stream.len() {
            Err(BlockError::InvalidLength(len as u64))
        } else {
            match restored(
                stream[block_id],
                stream.subrange(block_id + 5, block_id + 5 + len),
            ) {
                Some(payload) => Ok(payload),
                None => Err(BlockError::Io(IoKind::InvalidData)),
            }
        }
    }
}

/// The number of bytes that the block at `block_id` takes in `stream`,
/// where there is one that can be read.
pub open spec fn block_len(stream: Seq<u8>, block_id: int) -> int {
    BLOCK_HEADER_SIZE + endian::from_be32(stream.subrange(block_id + 1, block_id + 5))
}

/// A block that can be read stays the same when the bytes behind it
/// change.
pub proof fn lemma_block_at_same_prefix(first: Seq<u8>, second: Seq<u8>, block_id: int)
    requires
        block_at(first, block_id) is Ok,
        block_id + block_len(first, block_id) <= second.len(),
        first.subrange(0, block_id + block_len(first, block_id)) == second.subrange(
            0,
            block_id + block_len(first, block_id),
        ),
    ensures
        block_at(second, block_id) == block_at(first, block_id),
{
    let end = block_id + block_len(first, block_id);
    let a = first.subrange(0, end);
    let b = second.subrange(0, end);
    assert(first[block_id] == a[block_id]);
    assert(second[block_id] == b[block_id]);
    assert(first.subrange(block_id + 1, block_id + 5) =~= a.subrange(block_id + 1, block_id + 5));
    assert(second.subrange(block_id + 1, block_id + 5) =~= b.subrange(
        block_id + 1,
        block_id + 5,
    ));
    let len = endian::from_be32(first.subrange(block_id + 1, block_id + 5));
    assert(first.subrange(block_id + 5, block_id + 5 + len) =~= a.subrange(
        block_id + 5,
        block_id + 5 + len,
    ));
    assert(second.subrange(block_id + 5, block_id + 5 + len) =~= b.subrange(
        block_id + 5,
        block_id + 5 + len,
    ));
}

/// A block that can be read is read the same from any stream that holds
/// the same bytes at the same place.
pub proof fn lemma_block_at_same_bytes(first: Seq<u8>, second: Seq<u8>, block_id: int)
    requires
        block_at(first, block_id) is Ok,
        block_id + block_len(first, block_id) <= second.len(),
        first.subrange(block_id, block_id + block_len(first, block_id)) == second.subrange(
            block_id,
            block_id + block_len(first, block_id),
        ),
    ensures
        block_at(second, block_id) == block_at(first, block_id),
        block_len(second, block_id) == block_len(first, block_id),
{
    let end = block_id + block_len(first, block_id);
    let a = first.subrange(block_id, end);
    let b = second.subrange(block_id, end);
    assert(first[block_id] == a[0]);
    assert(second[block_id] == b[0]);
    assert(first.subrange(block_id + 1, block_id + 5) =~= a.subrange(1, 5));
    assert(second.subrange(block_id + 1, block_id + 5) =~= b.subrange(1, 5));
    let len = endian::from_be32(first.subrange(block_id + 1, block_id + 5));
    assert(first.subrange(block_id + 5, block_id + 5 + len) =~= a.subrange(5, 5 + len));
    assert(second.subrange(block_id + 5, block_id + 5 + len) =~= b.subrange(5, 5 + len));
}

/// A block that was written with a payload that its decoder reads back
/// holds that payload, wherever it stands in a stream.
pub proof fn lemma_block_round_trip(
    before: Seq<u8>,
    tag: u8,
    bytes: Seq<u8>,
    after: Seq<u8>,
    payload: Seq<u8>,
)
    requires
        known_tag(tag),
        bytes.len() <= u32::MAX,
        restored(tag, bytes) == Some(payload),
    ensures
        block_at(before + block_bytes(tag, bytes) + after, before.len() as int) == Ok::<
            Seq<u8>,
            BlockError,
        >(payload),
        block_len(before + block_bytes(tag, bytes) + after, before.len() as int) == block_bytes(
            tag,
            bytes,
        ).len(),
{
    let stream = before + block_bytes(tag, bytes) + after;
    let id = before.len() as int;
    endian::lemma_be32_round_trip(bytes.len() as u32);
    assert(stream[id] == tag);
    assert(stream.subrange(id + 1, id + 5) =~= endian::be32(bytes.len() as u32));
    assert(stream.subrange(id + 5, id + 5 + bytes.len()) =~= bytes);
}

/// The payload of a block as it is stored, or why it cannot be stored.
pub fn encode_payload(compression: BlockCompression, payload: &[u8]) -> (result: Result<
    Vec<u8>,
    BlockError,
>)
    requires
        compression.valid(),
    ensures
        match stored(compression, payload@) {
            Some(bytes) => result matches Ok(found) && found@ == bytes && restored(
                compression.spec_tag(),
                bytes,
            ) == Some(payload@),
            None => result matches Err(error) && error == BlockError::Io(IoKind::Other),
        },
{
    let encoded = match compression {
        BlockCompression::Uncompressed => Some(vstd::slice::slice_to_vec(payload)),
        BlockCompression::Deflate(level) => deflate(payload, level),
        BlockCompression::Lz4 => lz4_compress(payload),
    };
    match encoded {
        Some(bytes) => Ok(bytes),
        None => Err(BlockError::Io(IoKind::Other)),
    }
}

/// The payload that a block with `tag` holds in `bytes`, or why it cannot
/// be decoded.
pub fn decode_payload(tag: u8, bytes: &[u8]) -> (result: Result<Vec<u8>, BlockError>)
    requires
        known_tag(tag),
    ensures
        match restored(tag, bytes@) {
            Some(payload) => result matches Ok(found) && found@ == payload,
            None => result matches Err(error) && error == BlockError::Io(IoKind::InvalidData),
        },
{
    let decoded = if tag == TAG_UNCOMPRESSED {
        Some(vstd::slice::slice_to_vec(bytes))
    } else if tag == TAG_DEFLATE {
        inflate(bytes)
    } else {
        lz4_decompress(bytes)
    };
    match decoded {
        Some(payload) => Ok(payload),
        None => Err(BlockError::Io(IoKind::InvalidData)),
    }
}

} // verus!
