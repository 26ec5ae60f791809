//! Unsigned LEB128 integers: the variable-length encoding used for every
//! length in the container.

use vstd::prelude::*;

verus! {

/// The LEB128 encoding of `value`: seven bits per byte, least significant
/// group first, the high bit set on every byte but the last.
pub open spec fn encoding(value: nat) -> Seq<u8>
    decreases value,
{
    if value < 128 {
        seq![value as u8]
    } else {
        seq![(128 + value % 128) as u8] + encoding(value / 128)
    }
}

/// What reading one LEB128 integer from the front of a byte sequence gives.
pub enum Decoded {
    /// A value, and the number of bytes that encode it.
    Value { value: nat, len: nat },
    /// The input ended inside the integer.
    Truncated,
    /// The integer does not fit in 64 bits.
    Overflow,
}

/// Outcome of skipping the rest of an integer that was found too large:
/// the bytes are consumed up to the first one without the high bit.
pub open spec fn skip_oversized(bytes: Seq<u8>) -> Decoded
    decreases bytes.len(),
{
    if bytes.len() == 0 {
        Decoded::Truncated
    } else if bytes[0] < 128 {
        Decoded::Overflow
    } else {
        skip_oversized(bytes.skip(1))
    }
}

/// Reads the groups of an integer whose first group stands at bit `shift`.
pub open spec fn decoding_from(bytes: Seq<u8>, shift: nat) -> Decoded
    decreases bytes.len(),
{
    if bytes.len() == 0 {
        Decoded::Truncated
    } else if shift == 63 && bytes[0] != 0 && bytes[0] != 1 {
        skip_oversized(bytes)
    } else if bytes[0] < 128 {
        Decoded::Value { value: bytes[0] as nat, len: 1 }
    } else {
        match decoding_from(bytes.skip(1), shift + 7) {
            Decoded::Value { value, len } => Decoded::Value {
                value: (bytes[0] - 128) as nat + 128 * value,
                len: len + 1,
            },
            other => other,
        }
    }
}

/// Reads one LEB128 integer from the front of `bytes`.
pub open spec fn decoding(bytes: Seq<u8>) -> Decoded {
    decoding_from(bytes, 0)
}

/// Why an integer could not be read.
#[derive(Debug, Clone, Copy, PartialEq, Eq, Structural)]
pub enum VarintError {
    /// The input ended inside the integer.
    UnexpectedEof,
    /// The integer does not fit in 64 bits.
    Overflow,
}

/// One more than the largest value that the groups from the `group`-th on
/// can hold: the tenth group has a single bit, each earlier one seven more.
pub open spec fn capacity(group: nat) -> nat
    decreases 9 - group,
{
    if group >= 9 {
        2
    } else {
        128 * capacity(group + 1)
    }
}

/// All ten groups together hold exactly the 64-bit integers.
pub proof fn lemma_capacity_is_64_bits()
    ensures
        capacity(0) == u64::MAX + 1,
{
    reveal_with_fuel(capacity, 11);
}

proof fn lemma_round_trip_from(value: nat, rest: Seq<u8>, group: nat)
    requires
        group <= 9,
        value < capacity(group),
    ensures
        decoding_from(encoding(value) + rest, 7 * group) == (Decoded::Value {
            value,
            len: encoding(value).len(),
        }),
    decreases value,
{
    let bytes = encoding(value) + rest;
    if value < 128 {
        assert(bytes[0] == value as u8);
    } else {
        let tail = encoding(value / 128);
        assert(bytes[0] == (128 + value % 128) as u8);
        assert(bytes.skip(1) =~= tail + rest);
        lemma_round_trip_from(value / 128, rest, group + 1);
        assert(7 * (group + 1) == 7 * group + 7);
    }
}

/// Reading what was written gives the value back, whatever follows it.
pub proof fn lemma_round_trip(value: nat, rest: Seq<u8>)
    requires
        value <= u64::MAX,
    ensures
        decoding(encoding(value) + rest) == (Decoded::Value {
            value,
            len: encoding(value).len(),
        }),
{
    lemma_capacity_is_64_bits();
    lemma_round_trip_from(value, rest, 0);
}

proof fn lemma_skip_gives_no_value(bytes: Seq<u8>)
    ensures
        !(skip_oversized(bytes) is Value),
    decreases bytes.len(),
{
    if bytes.len() > 0 && bytes[0] >= 128 {
        lemma_skip_gives_no_value(bytes.skip(1));
    }
}

proof fn lemma_capacity_at_least_two(group: nat)
    ensures
        capacity(group) >= 2,
        group < 9 ==> capacity(group) >= 256,
    decreases 9 - group,
{
    if group < 9 {
        lemma_capacity_at_least_two(group + 1);
    }
}

proof fn lemma_decoding_bounds_from(bytes: Seq<u8>, group: nat)
    requires
        group <= 9,
    ensures
        decoding_from(bytes, 7 * group) matches Decoded::Value { value, len } ==> 1 <= len
            <= bytes.len() && value < capacity(group),
    decreases bytes.len(),
{
    lemma_skip_gives_no_value(bytes);
    lemma_capacity_at_least_two(group);
    if bytes.len() > 0 && !(7 * group == 63 && bytes[0] != 0 && bytes[0] != 1) && bytes[0]
        >= 128 {
        assert(group < 9);
        lemma_decoding_bounds_from(bytes.skip(1), group + 1);
        assert(7 * (group + 1) == 7 * group + 7);
    }
}

/// A value that was read fits in 64 bits, and its encoding lies within
/// the input.
pub proof fn lemma_decoding_bounds(bytes: Seq<u8>)
    ensures
        decoding(bytes) matches Decoded::Value { value, len } ==> 1 <= len <= bytes.len()
            && value <= u64::MAX,
{
    lemma_capacity_is_64_bits();
    lemma_decoding_bounds_from(bytes, 0);
}

/// Appends the LEB128 encoding of `value` to `output`.
///
/// Trusted: calls `leb128::write::unsigned` with the vector as its sink.
/// The contract claims that the bytes written are exactly `encoding(value)`:
/// the low seven bits of the value first, then of the value shifted right
/// by seven, and so on, each byte but the last with its high bit set.
#[verifier::external_body]
pub(crate) fn write_unsigned(output: &mut Vec<u8>, value: u64)
    ensures
        final(output)@ == old(output)@ + encoding(value as nat),
{
    let _ = leb128::write::unsigned(output, value);
}

/// Reads one LEB128 integer from the front of `input`.
///
/// Trusted: calls `leb128::read::unsigned` on a cursor over the slice and
/// hands back the value with the cursor's position. The contract claims
/// that the outcome is `decoding(input@)`: groups are accumulated seven
/// bits at a time; a tenth byte other than 0 or 1 makes the integer too
/// large, after which the reader consumes bytes up to the end of the
/// integer before it reports the overflow; running out of input at any
/// point is reported as an unexpected end.
#[verifier::external_body]
pub(crate) fn read_unsigned(input: &[u8]) -> (result: Result<(u64, usize), VarintError>)
    ensures
        match decoding(input@) {
            Decoded::Value { value, len } => result matches Ok((v, n)) && v == value && n == len,
            Decoded::Truncated => result == Err::<(u64, usize), VarintError>(
                VarintError::UnexpectedEof,
            ),
            Decoded::Overflow => result == Err::<(u64, usize), VarintError>(VarintError::Overflow),
        },
{
    let mut cursor = std::io::Cursor::new(input);
    match leb128::read::unsigned(&mut cursor) {
        Ok(value) => Ok((value, cursor.position() as usize)),
        Err(leb128::read::Error::IoError(_)) => Err(VarintError::UnexpectedEof),
        Err(leb128::read::Error::Overflow) => Err(VarintError::Overflow),
    }
}

} // verus!
