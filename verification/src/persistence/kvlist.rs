//! Lists of key-value pairs.
//!
//! A pair is a one-byte tag and a payload. On the wire a pair is its tag,
//! the length of its payload as a LEB128 integer, and the payload. A list
//! ends with a single zero byte, so no tag is zero.

use crate::varint;
use crate::varint::{Decoded, VarintError};
use vstd::prelude::*;
use vstd::slice::{slice_subrange, slice_to_vec};

verus! {

/// A tag with its payload.
#[derive(Debug, Clone, PartialEq, Eq)]
pub struct Pair {
    pub tag: u8,
    pub payload: Vec<u8>,
}

impl View for Pair {
    type V = (u8, Seq<u8>);

    open spec fn view(&self) -> (u8, Seq<u8>) {
        (self.tag, self.payload@)
    }
}

/// The pairs of a vector, each by its view.
pub open spec fn views(pairs: Seq<Pair>) -> Seq<(u8, Seq<u8>)> {
    pairs.map_values(|pair: Pair| pair@)
}

/// The wire form of one pair.
pub open spec fn pair_bytes(pair: (u8, Seq<u8>)) -> Seq<u8> {
    seq![pair.0] + varint::encoding(pair.1.len()) + pair.1
}

/// The wire forms of the pairs, one after the other, without terminator.
pub open spec fn pairs_bytes(pairs: Seq<(u8, Seq<u8>)>) -> Seq<u8>
    decreases pairs.len(),
{
    if pairs.len() == 0 {
        Seq::empty()
    } else {
        pairs_bytes(pairs.drop_last()) + pair_bytes(pairs.last())
    }
}

/// The wire form of a list: its pairs, then the zero byte.
pub open spec fn list_bytes(pairs: Seq<(u8, Seq<u8>)>) -> Seq<u8> {
    pairs_bytes(pairs) + seq![0u8]
}

/// Why a list could not be read further.
#[derive(Debug, Clone, Copy, PartialEq, Eq, Structural)]
pub enum DeserializeError {
    /// The input ended where a tag was expected.
    IoError,
    /// The length of a payload could not be read.
    Leb128Error(VarintError),
    /// The length of a payload is more than what is left of the input.
    InvalidLength(u64),
    /// The tag is none of those that the caller recognizes.
    InvalidByteTag(u8),
}

/// What stands at the front of an input.
pub enum Step {
    /// The terminator.
    End,
    /// A pair, and the number of bytes that it takes.
    Pair { pair: (u8, Seq<u8>), len: nat },
    /// Nothing that can be read.
    Failed(DeserializeError),
}

/// Reads what stands at the front of `input`, `tags` being the tags that
/// the caller recognizes.
pub open spec fn step(input: Seq<u8>, tags: Seq<u8>) -> Step {
    if input.len() == 0 {
        Step::Failed(DeserializeError::IoError)
    } else if input[0] == 0 {
        Step::End
    } else if !tags.contains(input[0]) {
        Step::Failed(DeserializeError::InvalidByteTag(input[0]))
    } else {
        match varint::decoding(input.skip(1)) {
            Decoded::Truncated => Step::Failed(
                DeserializeError::Leb128Error(VarintError::UnexpectedEof),
            ),
            Decoded::Overflow => Step::Failed(
                DeserializeError::Leb128Error(VarintError::Overflow),
            ),
            Decoded::Value { value, len } => if 1 + len + value > input.len() {
                Step::Failed(DeserializeError::InvalidLength(value as u64))
            } else {
                Step::Pair {
                    pair: (input[0], input.subrange(1 + len as int, (1 + len + value) as int)),
                    len: 1 + len + value,
                }
            },
        }
    }
}

/// What reading a list to its end gives: the pairs in their order, and
/// the error that stopped the reading, if one did.
pub struct Listing {
    pub pairs: Seq<(u8, Seq<u8>)>,
    pub error: Option<DeserializeError>,
}

/// Reads `input` pair by pair, up to the terminator or the first error.
pub open spec fn listing(input: Seq<u8>, tags: Seq<u8>) -> Listing
    decreases input.len(),
{
    match step(input, tags) {
        Step::End => Listing { pairs: Seq::empty(), error: None },
        Step::Failed(error) => Listing { pairs: Seq::empty(), error: Some(error) },
        Step::Pair { pair, len } => {
            let rest = listing(input.skip(len as int), tags);
            Listing { pairs: seq![pair] + rest.pairs, error: rest.error }
        },
    }
}

/// Whether every pair has a tag that is not zero and is among `tags`, and
/// a payload whose length fits in 64 bits.
pub open spec fn well_tagged(pairs: Seq<(u8, Seq<u8>)>, tags: Seq<u8>) -> bool {
    forall|i: int|
        0 <= i < pairs.len() ==> {
            &&& (#[trigger] pairs[i]).0 != 0
            &&& tags.contains(pairs[i].0)
            &&& pairs[i].1.len() <= u64::MAX
        }
}

/// The wire form of a list starts with its first pair.
pub proof fn lemma_pairs_bytes_front(pairs: Seq<(u8, Seq<u8>)>)
    requires
        pairs.len() > 0,
    ensures
        pairs_bytes(pairs) == pair_bytes(pairs[0]) + pairs_bytes(pairs.skip(1)),
    decreases pairs.len(),
{
    if pairs.len() == 1 {
        assert(pairs.drop_last() =~= Seq::empty());
        assert(pairs.skip(1) =~= Seq::empty());
        assert(pairs_bytes(pairs) =~= pair_bytes(pairs[0]) + pairs_bytes(pairs.skip(1)));
    } else {
        lemma_pairs_bytes_front(pairs.drop_last());
        assert(pairs.drop_last().skip(1) =~= pairs.skip(1).drop_last());
        assert(pairs.skip(1).last() == pairs.last());
        assert(pairs_bytes(pairs) =~= pair_bytes(pairs[0]) + pairs_bytes(pairs.skip(1)));
    }
}

/// A pair that was written is read back, whatever follows it.
pub proof fn lemma_step_of_pair(pair: (u8, Seq<u8>), rest: Seq<u8>, tags: Seq<u8>)
    requires
        pair.0 != 0,
        tags.contains(pair.0),
        pair.1.len() <= u64::MAX,
    ensures
        step(pair_bytes(pair) + rest, tags) == (Step::Pair {
            pair,
            len: pair_bytes(pair).len(),
        }),
{
    let input = pair_bytes(pair) + rest;
    let length = varint::encoding(pair.1.len());
    assert(input.skip(1) =~= length + (pair.1 + rest));
    varint::lemma_round_trip(pair.1.len(), pair.1 + rest);
    assert(input.subrange(1 + length.len() as int, (1 + length.len() + pair.1.len()) as int) =~= pair.1);
}

/// Reading a list that was written gives back its pairs, in their order,
/// and ends without an error, whatever follows the terminator.
pub proof fn lemma_round_trip(pairs: Seq<(u8, Seq<u8>)>, rest: Seq<u8>, tags: Seq<u8>)
    requires
        well_tagged(pairs, tags),
    ensures
        listing(list_bytes(pairs) + rest, tags) == (Listing { pairs, error: None }),
    decreases pairs.len(),
{
    let input = list_bytes(pairs) + rest;
    if pairs.len() == 0 {
        assert(input[0] == 0);
        assert(listing(input, tags).pairs =~= pairs);
    } else {
        let first = pairs[0];
        let others = pairs.skip(1);
        lemma_pairs_bytes_front(pairs);
        assert(input =~= pair_bytes(first) + (list_bytes(others) + rest));
        lemma_step_of_pair(first, list_bytes(others) + rest, tags);
        assert(input.skip(pair_bytes(first).len() as int) =~= list_bytes(others) + rest);
        assert(well_tagged(others, tags)) by {
            assert forall|i: int| 0 <= i < others.len() implies {
                &&& (#[trigger] others[i]).0 != 0
                &&& tags.contains(others[i].0)
                &&& others[i].1.len() <= u64::MAX
            } by {
                assert(others[i] == pairs[i + 1]);
            }
        }
        lemma_round_trip(others, rest, tags);
        assert(seq![first] + others =~= pairs);
    }
}

/// Appends `bytes` to `output`.
pub fn append(output: &mut Vec<u8>, bytes: &[u8])
    ensures
        final(output)@ == old(output)@ + bytes@,
{
    let mut i: usize = 0;
    while i < bytes.len()
        invariant
            i <= bytes.len(),
            output@ == old(output)@ + bytes@.subrange(0, i as int),
        decreases bytes.len() - i,
    {
        output.push(bytes[i]);
        i = i + 1;
        assert(output@ =~= old(output)@ + bytes@.subrange(0, i as int));
    }
    assert(bytes@.subrange(0, bytes@.len() as int) =~= bytes@);
}

/// Whether `tag` is one of `tags`.
pub fn recognizes(tags: &[u8], tag: u8) -> (found: bool)
    ensures
        found == tags@.contains(tag),
{
    let mut i: usize = 0;
    while i < tags.len()
        invariant
            i <= tags.len(),
            forall|j: int| 0 <= j < i ==> tags@[j] != tag,
        decreases tags.len() - i,
    {
        if tags[i] == tag {
            return true;
        }
        i = i + 1;
    }
    false
}

/// Appends the wire form of one pair to `output`.
pub fn serialize_pair(output: &mut Vec<u8>, pair: &Pair)
    ensures
        final(output)@ == old(output)@ + pair_bytes(pair@),
{
    output.push(pair.tag);
    varint::write_unsigned(output, pair.payload.len() as u64);
    append(output, pair.payload.as_slice());
    assert(output@ =~= old(output)@ + pair_bytes(pair@));
}

/// Serializes a list of pairs: appends its wire form to `output`.
pub fn serialize(output: &mut Vec<u8>, pairs: &[Pair])
    requires
        forall|i: int| 0 <= i < pairs@.len() ==> (#[trigger] pairs@[i]).tag != 0,
    ensures
        final(output)@ == old(output)@ + list_bytes(views(pairs@)),
{
    let mut i: usize = 0;
    while i < pairs.len()
        invariant
            i <= pairs.len(),
            output@ == old(output)@ + pairs_bytes(views(pairs@.subrange(0, i as int))),
        decreases pairs.len() - i,
    {
        serialize_pair(output, &pairs[i]);
        proof {
            let before = views(pairs@.subrange(0, i as int));
            let after = views(pairs@.subrange(0, i + 1));
            assert(after.drop_last() =~= before);
            assert(after.last() == pairs@[i as int]@);
            assert(output@ =~= old(output)@ + pairs_bytes(after));
        }
        i = i + 1;
    }
    output.push(0);
    assert(pairs@.subrange(0, pairs@.len() as int) =~= pairs@);
    assert(output@ =~= old(output)@ + list_bytes(views(pairs@)));
}

/// What was found at the front of an input.
pub enum Found {
    /// The terminator.
    End,
    /// A pair, and the number of bytes that it takes.
    Pair { pair: Pair, len: usize },
    /// Nothing that can be read.
    Failed(DeserializeError),
}

impl View for Found {
    type V = Step;

    open spec fn view(&self) -> Step {
        match self {
            Found::End => Step::End,
            Found::Pair { pair, len } => Step::Pair { pair: pair@, len: *len as nat },
            Found::Failed(error) => Step::Failed(*error),
        }
    }
}

/// Reads what stands at the front of `input`, `tags` being the tags that
/// the caller recognizes.
pub fn read_step(input: &[u8], tags: &[u8]) -> (found: Found)
    ensures
        found@ == step(input@, tags@),
{
    if input.len() == 0 {
        return Found::Failed(DeserializeError::IoError);
    }
    let tag = input[0];
    if tag == 0 {
        return Found::End;
    }
    if !recognizes(tags, tag) {
        return Found::Failed(DeserializeError::InvalidByteTag(tag));
    }
    let after_tag = slice_subrange(input, 1, input.len());
    assert(after_tag@ =~= input@.skip(1));
    proof {
        varint::lemma_decoding_bounds(after_tag@);
    }
    match varint::read_unsigned(after_tag) {
        Err(error) => Found::Failed(DeserializeError::Leb128Error(error)),
        Ok((value, length_len)) => {
            let left = input.len() - 1 - length_len;
            if value > left as u64 {
                return Found::Failed(DeserializeError::InvalidLength(value));
            }
            let start = 1 + length_len;
            let end = start + value as usize;
            let payload = slice_to_vec(slice_subrange(input, start, end));
            Found::Pair { pair: Pair { tag, payload }, len: end }
        },
    }
}

/// A reader of the pairs of a list, one at a time.
///
/// After the terminator or an error it gives nothing more.
pub struct StreamParser<'a> {
    input: &'a [u8],
    tags: &'a [u8],
    io_valid: bool,
}

/// A reader of the list that starts at the front of `input`, which takes
/// the tags of `tags` and no others.
pub fn deserialize<'a>(input: &'a [u8], tags: &'a [u8]) -> (parser: StreamParser<'a>)
    ensures
        parser.remaining() == input@,
        parser.tags() == tags@,
        parser.active(),
{
    StreamParser { input, tags, io_valid: true }
}

impl<'a> StreamParser<'a> {
    /// The input that has not been read yet.
    pub closed spec fn remaining(self) -> Seq<u8> {
        self.input@
    }

    /// The tags that the reader takes.
    pub closed spec fn tags(self) -> Seq<u8> {
        self.tags@
    }

    /// Whether the reader has met neither the terminator nor an error.
    pub closed spec fn active(self) -> bool {
        self.io_valid
    }

    /// The pair at the front of the input.
    ///
    /// Gives `None` at the terminator, and ever after; gives the error
    /// where no pair can be read, and `None` ever after.
    pub fn next(&mut self) -> (item: Option<Result<Pair, DeserializeError>>)
        ensures
            final(self).tags() == old(self).tags(),
            !old(self).active() ==> item is None && *final(self) == *old(self),
            old(self).active() ==> match step(old(self).remaining(), old(self).tags()) {
                Step::End => item is None && !final(self).active(),
                Step::Failed(error) => item == Some(
                    Err::<Pair, DeserializeError>(error),
                ) && !final(self).active(),
                Step::Pair { pair, len } => {
                    &&& item matches Some(Ok(found))
                    &&& found@ == pair
                    &&& final(self).active()
                    &&& final(self).remaining() == old(self).remaining().skip(len as int)
                },
            },
    {
        if !self.io_valid {
            return None;
        }
        match read_step(self.input, self.tags) {
            Found::End => {
                self.io_valid = false;
                None
            },
            Found::Failed(error) => {
                self.io_valid = false;
                Some(Err(error))
            },
            Found::Pair { pair, len } => {
                self.input = slice_subrange(self.input, len, self.input.len());
                Some(Ok(pair))
            },
        }
    }

    /// Reads the list to its end: its pairs, or the error that stopped
    /// the reading.
    pub fn collect(self) -> (result: Result<Vec<Pair>, DeserializeError>)
        ensures
            !self.active() ==> (result matches Ok(pairs) && pairs@.len() == 0),
            self.active() ==> match listing(self.remaining(), self.tags()).error {
                Some(error) => result == Err::<Vec<Pair>, DeserializeError>(error),
                None => result matches Ok(pairs) && views(pairs@) == listing(
                    self.remaining(),
                    self.tags(),
                ).pairs,
            },
    {
        let mut parser = self;
        let mut pairs: Vec<Pair> = Vec::new();
        if !parser.io_valid {
            return Ok(pairs);
        }
        loop
            invariant
                self.active(),
                parser.active(),
                parser.tags() == self.tags(),
                listing(self.remaining(), self.tags()).error == listing(
                    parser.remaining(),
                    parser.tags(),
                ).error,
                listing(self.remaining(), self.tags()).pairs == views(pairs@) + listing(
                    parser.remaining(),
                    parser.tags(),
                ).pairs,
            decreases parser.remaining().len(),
        {
            let ghost before = parser.remaining();
            proof {
                lemma_step_bounds(before, parser.tags());
            }
            match parser.next() {
                None => {
                    assert(views(pairs@) + Seq::<(u8, Seq<u8>)>::empty() =~= views(pairs@));
                    return Ok(pairs);
                },
                Some(Err(error)) => {
                    return Err(error);
                },
                Some(Ok(pair)) => {
                    let ghost earlier = views(pairs@);
                    pairs.push(pair);
                    assert(views(pairs@) =~= earlier.push(pair@));
                    assert(earlier.push(pair@) + listing(parser.remaining(), parser.tags()).pairs
                        =~= earlier + (seq![pair@] + listing(
                        parser.remaining(),
                        parser.tags(),
                    ).pairs));
                },
            }
        }
    }
}

/// A pair at the front of an input takes at least two bytes of it, and
/// no more than there are.
pub proof fn lemma_step_bounds(input: Seq<u8>, tags: Seq<u8>)
    ensures
        step(input, tags) matches Step::Pair { pair, len } ==> 2 <= len <= input.len()
            && pair.1.len() + 2 <= len && pair.1.len() <= u64::MAX,
{
    if input.len() > 0 {
        varint::lemma_decoding_bounds(input.skip(1));
    }
}

} // verus!
