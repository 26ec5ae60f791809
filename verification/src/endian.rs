//! Big-endian fixed-width integers, as the container's header, the page
//! index and the block headers hold them.

use vstd::prelude::*;

verus! {

/// The four bytes of `value`, most significant first.
pub open spec fn be32(value: u32) -> Seq<u8> {
    seq![
        (value / 0x100_0000) as u8,
        (value / 0x1_0000 % 0x100) as u8,
        (value / 0x100 % 0x100) as u8,
        (value % 0x100) as u8,
    ]
}

/// The integer that four bytes hold, most significant first.
pub open spec fn from_be32(bytes: Seq<u8>) -> u32
    recommends
        bytes.len() == 4,
{
    (bytes[0] * 0x100_0000 + bytes[1] * 0x1_0000 + bytes[2] * 0x100 + bytes[3]) as u32
}

/// The eight bytes of `value`, most significant first.
pub open spec fn be64(value: u64) -> Seq<u8> {
    be32((value / 0x1_0000_0000) as u32) + be32((value % 0x1_0000_0000) as u32)
}

/// The integer that eight bytes hold, most significant first.
pub open spec fn from_be64(bytes: Seq<u8>) -> u64
    recommends
        bytes.len() == 8,
{
    (from_be32(bytes.subrange(0, 4)) * 0x1_0000_0000 + from_be32(bytes.subrange(4, 8))) as u64
}

/// Four bytes hold every 32-bit integer, and give it back.
pub proof fn lemma_be32_round_trip(value: u32)
    ensures
        be32(value).len() == 4,
        from_be32(be32(value)) == value,
{
}

/// Eight bytes hold every 64-bit integer, and give it back.
pub proof fn lemma_be64_round_trip(value: u64)
    ensures
        be64(value).len() == 8,
        from_be64(be64(value)) == value,
{
    let high = (value / 0x1_0000_0000) as u32;
    let low = (value % 0x1_0000_0000) as u32;
    lemma_be32_round_trip(high);
    lemma_be32_round_trip(low);
    assert(be64(value).subrange(0, 4) =~= be32(high));
    assert(be64(value).subrange(4, 8) =~= be32(low));
}

/// Appends the four bytes of `value` to `output`.
pub fn push_be32(output: &mut Vec<u8>, value: u32)
    ensures
        final(output)@ == old(output)@ + be32(value),
{
    output.push((value / 0x100_0000) as u8);
    output.push((value / 0x1_0000 % 0x100) as u8);
    output.push((value / 0x100 % 0x100) as u8);
    output.push((value % 0x100) as u8);
    assert(output@ =~= old(output)@ + be32(value));
}

/// Reads the 32-bit integer that stands at `position` in `input`.
pub fn read_be32(input: &[u8], position: usize) -> (value: u32)
    requires
        position + 4 <= input@.len(),
    ensures
        value == from_be32(input@.subrange(position as int, position + 4)),
{
    let b0: u32 = input[position] as u32;
    let b1: u32 = input[position + 1] as u32;
    let b2: u32 = input[position + 2] as u32;
    let b3: u32 = input[position + 3] as u32;
    b0 * 0x100_0000 + b1 * 0x1_0000 + b2 * 0x100 + b3
}

/// The eight bytes of `value` as a vector.
pub fn be64_bytes(value: u64) -> (bytes: Vec<u8>)
    ensures
        bytes@ == be64(value),
{
    let mut bytes: Vec<u8> = Vec::new();
    push_be32(&mut bytes, (value / 0x1_0000_0000) as u32);
    push_be32(&mut bytes, (value % 0x1_0000_0000) as u32);
    assert(bytes@ =~= be64(value));
    bytes
}

/// Reads the 64-bit integer that the eight bytes of `input` hold.
pub fn read_be64(input: &[u8]) -> (value: u64)
    requires
        input@.len() == 8,
    ensures
        value == from_be64(input@),
{
    let high: u64 = read_be32(input, 0) as u64;
    let low: u64 = read_be32(input, 4) as u64;
    high * 0x1_0000_0000 + low
}

} // verus!
