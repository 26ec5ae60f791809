//! Metadata of books and pages.
//!
//! Both a book and a page carry any number of metadata entries. They are
//! stored as a list of key-value pairs: the tag of an entry says what it
//! is, and its payload holds the value.

use crate::endian;
use crate::persistence::kvlist;
use crate::persistence::kvlist::{DeserializeError, Found, Pair, Step};
use crate::varint;
use crate::varint::{Decoded, VarintError};
use vstd::prelude::*;
use vstd::slice::{slice_subrange, slice_to_vec};
use vstd::utf8::{decode_utf8, encode_utf8, valid_utf8};

verus! {

/// Errors related to the reading of metadata.
#[derive(Debug, Clone, Copy, PartialEq, Eq, Structural)]
pub enum MetadataError {
    /// The byte sequence did not contain valid Unicode data.
    UnicodeError,
    /// The input ended where an entry was expected.
    IoError,
    /// Failed to decode a LEB128-encoded number.
    Leb128Error(VarintError),
    /// A length value read from the input is not valid.
    InvalidLength(u64),
    /// Unknown byte tag for a metadata entry.
    InvalidByteTag(u8),
}

/// Metadata associated to a book or a page.
///
/// The same kind of entry can appear several times; their order is kept.
#[derive(Debug, PartialEq, Eq, Clone)]
#[non_exhaustive]
pub enum MetadataEntry {
    Title(String),
    Author(String),
    Language(String),
    Date(u64),
    License(String),
    Keyword(String),
    User(String, String),
}

/// A metadata entry as a mathematical value.
pub enum EntryView {
    Title(Seq<char>),
    Author(Seq<char>),
    Language(Seq<char>),
    Date(u64),
    License(Seq<char>),
    Keyword(Seq<char>),
    User(Seq<char>, Seq<char>),
}

impl View for MetadataEntry {
    type V = EntryView;

    open spec fn view(&self) -> EntryView {
        match self {
            MetadataEntry::Title(text) => EntryView::Title(text@),
            MetadataEntry::Author(text) => EntryView::Author(text@),
            MetadataEntry::Language(text) => EntryView::Language(text@),
            MetadataEntry::Date(date) => EntryView::Date(*date),
            MetadataEntry::License(text) => EntryView::License(text@),
            MetadataEntry::Keyword(text) => EntryView::Keyword(text@),
            MetadataEntry::User(key, value) => EntryView::User(key@, value@),
        }
    }
}

/// The entries of a vector, each by its view.
pub open spec fn views(entries: Seq<MetadataEntry>) -> Seq<EntryView> {
    entries.map_values(|entry: MetadataEntry| entry@)
}

pub const TAG_TITLE: u8 = 1;

pub const TAG_AUTHOR: u8 = 2;

pub const TAG_LANGUAGE: u8 = 3;

pub const TAG_DATE: u8 = 4;

pub const TAG_LICENSE: u8 = 5;

pub const TAG_KEYWORD: u8 = 6;

pub const TAG_USER: u8 = 100;

/// The tags of the metadata entries. A tag, once given, keeps its meaning.
pub open spec fn recognized_tags() -> Seq<u8> {
    seq![TAG_TITLE, TAG_AUTHOR, TAG_LANGUAGE, TAG_DATE, TAG_LICENSE, TAG_KEYWORD, TAG_USER]
}

/// The tag that says what `entry` is.
pub open spec fn tag_of(entry: EntryView) -> u8 {
    match entry {
        EntryView::Title(_) => TAG_TITLE,
        EntryView::Author(_) => TAG_AUTHOR,
        EntryView::Language(_) => TAG_LANGUAGE,
        EntryView::Date(_) => TAG_DATE,
        EntryView::License(_) => TAG_LICENSE,
        EntryView::Keyword(_) => TAG_KEYWORD,
        EntryView::User(_, _) => TAG_USER,
    }
}

/// The payload that holds the value of `entry`: a text in UTF-8, a date
/// as eight big-endian bytes, and for a user entry the length of the key
/// in UTF-8 as a LEB128 integer, the key, and the value.
pub open spec fn payload_of(entry: EntryView) -> Seq<u8> {
    match entry {
        EntryView::Title(text) => encode_utf8(text),
        EntryView::Author(text) => encode_utf8(text),
        EntryView::Language(text) => encode_utf8(text),
        EntryView::Date(date) => endian::be64(date),
        EntryView::License(text) => encode_utf8(text),
        EntryView::Keyword(text) => encode_utf8(text),
        EntryView::User(key, value) => varint::encoding(encode_utf8(key).len()) + encode_utf8(key)
            + encode_utf8(value),
    }
}

/// The key-value pair that stands for `entry`.
pub open spec fn pair_of(entry: EntryView) -> (u8, Seq<u8>) {
    (tag_of(entry), payload_of(entry))
}

/// The key-value pairs that stand for `entries`.
pub open spec fn pairs_of(entries: Seq<EntryView>) -> Seq<(u8, Seq<u8>)> {
    entries.map_values(|entry: EntryView| pair_of(entry))
}

/// The wire form of a list of metadata entries.
pub open spec fn metadata_bytes(entries: Seq<EntryView>) -> Seq<u8> {
    kvlist::list_bytes(pairs_of(entries))
}

/// The text that `bytes` hold in UTF-8.
pub open spec fn text_of(bytes: Seq<u8>) -> Result<Seq<char>, MetadataError> {
    if valid_utf8(bytes) {
        Ok(decode_utf8(bytes))
    } else {
        Err(MetadataError::UnicodeError)
    }
}

/// The user entry that `payload` holds.
pub open spec fn user_of(payload: Seq<u8>) -> Result<EntryView, MetadataError> {
    match varint::decoding(payload) {
        Decoded::Truncated => Err(MetadataError::Leb128Error(VarintError::UnexpectedEof)),
        Decoded::Overflow => Err(MetadataError::Leb128Error(VarintError::Overflow)),
        Decoded::Value { value, len } => if len + value > payload.len() {
            Err(MetadataError::InvalidLength(value as u64))
        } else {
            match text_of(payload.subrange(len as int, (len + value) as int)) {
                Err(error) => Err(error),
                Ok(key) => match text_of(payload.skip((len + value) as int)) {
                    Err(error) => Err(error),
                    Ok(text) => Ok(EntryView::User(key, text)),
                },
            }
        },
    }
}

/// The entry that a key-value pair stands for.
pub open spec fn entry_of(pair: (u8, Seq<u8>)) -> Result<EntryView, MetadataError> {
    let (tag, payload) = pair;
    if tag == TAG_DATE {
        if payload.len() == 8 {
            Ok(EntryView::Date(endian::from_be64(payload)))
        } else {
            Err(MetadataError::InvalidLength(payload.len() as u64))
        }
    } else if tag == TAG_USER {
        user_of(payload)
    } else if tag == TAG_TITLE || tag == TAG_AUTHOR || tag == TAG_LANGUAGE || tag == TAG_LICENSE
        || tag == TAG_KEYWORD {
        match text_of(payload) {
            Err(error) => Err(error),
            Ok(text) => Ok(
                if tag == TAG_TITLE {
                    EntryView::Title(text)
                } else if tag == TAG_AUTHOR {
                    EntryView::Author(text)
                } else if tag == TAG_LANGUAGE {
                    EntryView::Language(text)
                } else if tag == TAG_LICENSE {
                    EntryView::License(text)
                } else {
                    EntryView::Keyword(text)
                },
            ),
        }
    } else {
        Err(MetadataError::InvalidByteTag(tag))
    }
}

/// The error of the metadata that stands for an error of the list.
pub open spec fn list_error(error: DeserializeError) -> MetadataError {
    match error {
        DeserializeError::IoError => MetadataError::IoError,
        DeserializeError::Leb128Error(inner) => MetadataError::Leb128Error(inner),
        DeserializeError::InvalidLength(length) => MetadataError::InvalidLength(length),
        DeserializeError::InvalidByteTag(tag) => MetadataError::InvalidByteTag(tag),
    }
}

/// What stands at the front of an input.
pub enum EntryStep {
    /// The terminator.
    End,
    /// An entry, and the number of bytes that it takes.
    Entry { entry: EntryView, len: nat },
    /// Nothing that can be read.
    Failed(MetadataError),
}

/// Reads the entry that stands at the front of `input`.
pub open spec fn entry_step(input: Seq<u8>) -> EntryStep {
    match kvlist::step(input, recognized_tags()) {
        Step::End => EntryStep::End,
        Step::Failed(error) => EntryStep::Failed(list_error(error)),
        Step::Pair { pair, len } => match entry_of(pair) {
            Ok(entry) => EntryStep::Entry { entry, len },
            Err(error) => EntryStep::Failed(error),
        },
    }
}

/// What reading metadata to its end gives: the entries in their order,
/// and the error that stopped the reading, if one did.
pub struct Reading {
    pub entries: Seq<EntryView>,
    pub error: Option<MetadataError>,
}

/// Reads `input` entry by entry, up to the terminator or the first error.
pub open spec fn reading(input: Seq<u8>) -> Reading
    decreases input.len(),
{
    match entry_step(input) {
        EntryStep::End => Reading { entries: Seq::empty(), error: None },
        EntryStep::Failed(error) => Reading { entries: Seq::empty(), error: Some(error) },
        EntryStep::Entry { entry, len } => {
            let rest = reading(input.skip(len as int));
            Reading { entries: seq![entry] + rest.entries, error: rest.error }
        },
    }
}

/// Whether every length that the wire form of `entry` holds fits in 64
/// bits.
pub open spec fn storable(entry: EntryView) -> bool {
    payload_of(entry).len() <= u64::MAX
}

/// The text of a string from its bytes in UTF-8.
///
/// Trusted: calls `String::from_utf8`. The contract claims what the
/// documentation of the standard library says: the call succeeds exactly
/// on valid UTF-8, and the string then holds the text that the bytes
/// encode.
#[verifier::external_body]
pub(crate) fn string_from_utf8(bytes: Vec<u8>) -> (text: Option<String>)
    ensures
        text is Some <==> valid_utf8(bytes@),
        text matches Some(string) ==> string@ == decode_utf8(bytes@),
{
    match String::from_utf8(bytes) {
        Ok(string) => Some(string),
        Err(_) => None,
    }
}

fn text_from(bytes: Vec<u8>) -> (result: Result<String, MetadataError>)
    ensures
        match text_of(bytes@) {
            Ok(text) => result matches Ok(string) && string@ == text,
            Err(error) => result matches Err(found) && found == error,
        },
{
    match string_from_utf8(bytes) {
        Some(string) => Ok(string),
        None => Err(MetadataError::UnicodeError),
    }
}

fn text_payload(text: &String) -> (bytes: Vec<u8>)
    ensures
        bytes@ == encode_utf8(text@),
{
    slice_to_vec(text.as_str().as_bytes())
}

impl MetadataEntry {
    /// The key-value pair that stands for this entry.
    pub fn serialize(&self) -> (pair: Pair)
        ensures
            pair@ == pair_of(self@),
    {
        match self {
            MetadataEntry::Title(text) => Pair { tag: TAG_TITLE, payload: text_payload(text) },
            MetadataEntry::Author(text) => Pair { tag: TAG_AUTHOR, payload: text_payload(text) },
            MetadataEntry::Language(text) => Pair {
                tag: TAG_LANGUAGE,
                payload: text_payload(text),
            },
            MetadataEntry::Date(date) => Pair { tag: TAG_DATE, payload: endian::be64_bytes(*date) },
            MetadataEntry::License(text) => Pair { tag: TAG_LICENSE, payload: text_payload(text) },
            MetadataEntry::Keyword(text) => Pair { tag: TAG_KEYWORD, payload: text_payload(text) },
            MetadataEntry::User(key, value) => {
                let key_bytes = key.as_str().as_bytes();
                let mut payload: Vec<u8> = Vec::new();
                varint::write_unsigned(&mut payload, key_bytes.len() as u64);
                kvlist::append(&mut payload, key_bytes);
                kvlist::append(&mut payload, value.as_str().as_bytes());
                assert(payload@ =~= payload_of(self@));
                Pair { tag: TAG_USER, payload }
            },
        }
    }

    /// The entry that a key-value pair stands for.
    pub fn deserialize(pair: Pair) -> (result: Result<MetadataEntry, MetadataError>)
        ensures
            match entry_of(pair@) {
                Ok(entry) => result matches Ok(found) && found@ == entry,
                Err(error) => result matches Err(found) && found == error,
            },
    {
        let Pair { tag, payload } = pair;
        if tag == TAG_DATE {
            if payload.len() == 8 {
                Ok(MetadataEntry::Date(endian::read_be64(payload.as_slice())))
            } else {
                Err(MetadataError::InvalidLength(payload.len() as u64))
            }
        } else if tag == TAG_USER {
            proof {
                varint::lemma_decoding_bounds(payload@);
            }
            match varint::read_unsigned(payload.as_slice()) {
                Err(error) => Err(MetadataError::Leb128Error(error)),
                Ok((key_len, length_len)) => {
                    if key_len > (payload.len() - length_len) as u64 {
                        return Err(MetadataError::InvalidLength(key_len));
                    }
                    let key_end = length_len + key_len as usize;
                    let key_bytes = slice_to_vec(
                        slice_subrange(payload.as_slice(), length_len, key_end),
                    );
                    let value_bytes = slice_to_vec(
                        slice_subrange(payload.as_slice(), key_end, payload.len()),
                    );
                    assert(value_bytes@ =~= payload@.skip(key_end as int));
                    let key = text_from(key_bytes)?;
                    let value = text_from(value_bytes)?;
                    Ok(MetadataEntry::User(key, value))
                },
            }
        } else if tag == TAG_TITLE {
            Ok(MetadataEntry::Title(text_from(payload)?))
        } else if tag == TAG_AUTHOR {
            Ok(MetadataEntry::Author(text_from(payload)?))
        } else if tag == TAG_LANGUAGE {
            Ok(MetadataEntry::Language(text_from(payload)?))
        } else if tag == TAG_LICENSE {
            Ok(MetadataEntry::License(text_from(payload)?))
        } else if tag == TAG_KEYWORD {
            Ok(MetadataEntry::Keyword(text_from(payload)?))
        } else {
            Err(MetadataError::InvalidByteTag(tag))
        }
    }
}

/// The tags of the metadata entries, as the list reader takes them.
pub fn tag_list() -> (tags: &'static [u8])
    ensures
        tags@ == recognized_tags(),
{
    let tags: &'static [u8; 7] = &[
        TAG_TITLE,
        TAG_AUTHOR,
        TAG_LANGUAGE,
        TAG_DATE,
        TAG_LICENSE,
        TAG_KEYWORD,
        TAG_USER,
    ];
    assert(tags@ =~= recognized_tags());
    tags.as_slice()
}

/// Writes metadata: appends the wire form of `metadata` to `output`.
pub fn dump(output: &mut Vec<u8>, metadata: &[MetadataEntry])
    ensures
        final(output)@ == old(output)@ + metadata_bytes(views(metadata@)),
        forall|i: int| 0 <= i < metadata@.len() ==> storable(#[trigger] views(metadata@)[i]),
{
    let mut i: usize = 0;
    while i < metadata.len()
        invariant
            i <= metadata.len(),
            output@ == old(output)@ + kvlist::pairs_bytes(
                pairs_of(views(metadata@.subrange(0, i as int))),
            ),
            forall|j: int| 0 <= j < i ==> storable(#[trigger] views(metadata@)[j]),
        decreases metadata.len() - i,
    {
        let pair = metadata[i].serialize();
        assert(pair.payload.len() <= usize::MAX);
        kvlist::serialize_pair(output, &pair);
        proof {
            let before = pairs_of(views(metadata@.subrange(0, i as int)));
            let after = pairs_of(views(metadata@.subrange(0, i + 1)));
            assert(after.drop_last() =~= before);
            assert(after.last() == pair@);
            assert(output@ =~= old(output)@ + kvlist::pairs_bytes(after));
        }
        i = i + 1;
    }
    output.push(0);
    assert(metadata@.subrange(0, metadata@.len() as int) =~= metadata@);
    assert(output@ =~= old(output)@ + metadata_bytes(views(metadata@)));
}

/// A reader of metadata entries, one at a time.
///
/// After the terminator or an error it gives nothing more.
pub struct BinaryDataParser<'a> {
    input: &'a [u8],
    io_valid: bool,
}

/// A reader of the metadata that starts at the front of `input`.
pub fn load<'a>(input: &'a [u8]) -> (parser: BinaryDataParser<'a>)
    ensures
        parser.remaining() == input@,
        parser.active(),
{
    BinaryDataParser { input, io_valid: true }
}

impl<'a> BinaryDataParser<'a> {
    /// The input that has not been read yet.
    pub closed spec fn remaining(self) -> Seq<u8> {
        self.input@
    }

    /// Whether the reader has met neither the terminator nor an error.
    pub closed spec fn active(self) -> bool {
        self.io_valid
    }

    /// The entry at the front of the input.
    ///
    /// Gives `None` at the terminator, and ever after; gives the error
    /// where no entry can be read, and `None` ever after.
    pub fn next(&mut self) -> (item: Option<Result<MetadataEntry, MetadataError>>)
        ensures
            !old(self).active() ==> item is None && *final(self) == *old(self),
            old(self).active() ==> match entry_step(old(self).remaining()) {
                EntryStep::End => item is None && !final(self).active(),
                EntryStep::Failed(error) => {
                    &&& item matches Some(Err(found))
                    &&& found == error
                    &&& !final(self).active()
                },
                EntryStep::Entry { entry, len } => {
                    &&& item matches Some(Ok(found))
                    &&& found@ == entry
                    &&& final(self).active()
                    &&& final(self).remaining() == old(self).remaining().skip(len as int)
                },
            },
    {
        if !self.io_valid {
            return None;
        }
        match kvlist::read_step(self.input, tag_list()) {
            Found::End => {
                self.io_valid = false;
                None
            },
            Found::Failed(error) => {
                self.io_valid = false;
                Some(Err(from_list_error(error)))
            },
            Found::Pair { pair, len } => match MetadataEntry::deserialize(pair) {
                Ok(entry) => {
                    proof {
                        kvlist::lemma_step_bounds(self.input@, recognized_tags());
                    }
                    self.input = slice_subrange(self.input, len, self.input.len());
                    Some(Ok(entry))
                },
                Err(error) => {
                    self.io_valid = false;
                    Some(Err(error))
                },
            },
        }
    }

    /// Reads the metadata to its end: the entries, or the error that
    /// stopped the reading.
    pub fn collect(self) -> (result: Result<Vec<MetadataEntry>, MetadataError>)
        ensures
            !self.active() ==> (result matches Ok(entries) && entries@.len() == 0),
            self.active() ==> match reading(self.remaining()).error {
                Some(error) => result matches Err(found) && found == error,
                None => result matches Ok(entries) && views(entries@) == reading(
                    self.remaining(),
                ).entries,
            },
    {
        let mut parser = self;
        let mut entries: Vec<MetadataEntry> = Vec::new();
        loop
            invariant
                self.active() ==> parser.active(),
                self.active() ==> reading(self.remaining()).error == reading(
                    parser.remaining(),
                ).error,
                self.active() ==> reading(self.remaining()).entries == views(entries@) + reading(
                    parser.remaining(),
                ).entries,
                !self.active() ==> !parser.active() && entries@.len() == 0,
            decreases parser.remaining().len(),
        {
            proof {
                lemma_entry_step_bounds(parser.remaining());
            }
            match parser.next() {
                None => {
                    assert(views(entries@) + Seq::<EntryView>::empty() =~= views(entries@));
                    return Ok(entries);
                },
                Some(Err(error)) => {
                    return Err(error);
                },
                Some(Ok(entry)) => {
                    let ghost earlier = views(entries@);
                    entries.push(entry);
                    assert(views(entries@) =~= earlier.push(entry@));
                    assert(earlier.push(entry@) + reading(parser.remaining()).entries =~= earlier
                        + (seq![entry@] + reading(parser.remaining()).entries));
                },
            }
        }
    }
}

fn from_list_error(error: DeserializeError) -> (result: MetadataError)
    ensures
        result == list_error(error),
{
    match error {
        DeserializeError::IoError => MetadataError::IoError,
        DeserializeError::Leb128Error(inner) => MetadataError::Leb128Error(inner),
        DeserializeError::InvalidLength(length) => MetadataError::InvalidLength(length),
        DeserializeError::InvalidByteTag(tag) => MetadataError::InvalidByteTag(tag),
    }
}

/// An entry at the front of an input takes at least two bytes of it, and
/// no more than there are.
pub proof fn lemma_entry_step_bounds(input: Seq<u8>)
    ensures
        entry_step(input) matches EntryStep::Entry { entry, len } ==> 2 <= len <= input.len(),
{
    kvlist::lemma_step_bounds(input, recognized_tags());
}

/// The pair that stands for an entry stands for no other: it gives the
/// entry back.
pub proof fn lemma_entry_round_trip(entry: EntryView)
    requires
        storable(entry),
    ensures
        entry_of(pair_of(entry)) == Ok::<EntryView, MetadataError>(entry),
        recognized_tags().contains(tag_of(entry)),
        tag_of(entry) != 0,
{
    let tags = recognized_tags();
    assert(tags[0] == TAG_TITLE && tags[1] == TAG_AUTHOR && tags[2] == TAG_LANGUAGE && tags[3]
        == TAG_DATE && tags[4] == TAG_LICENSE && tags[5] == TAG_KEYWORD && tags[6] == TAG_USER);
    match entry {
        EntryView::Title(text) => lemma_text_round_trip(text),
        EntryView::Author(text) => lemma_text_round_trip(text),
        EntryView::Language(text) => lemma_text_round_trip(text),
        EntryView::License(text) => lemma_text_round_trip(text),
        EntryView::Keyword(text) => lemma_text_round_trip(text),
        EntryView::Date(date) => endian::lemma_be64_round_trip(date),
        EntryView::User(key, value) => {
            let key_bytes = encode_utf8(key);
            let value_bytes = encode_utf8(value);
            let length = varint::encoding(key_bytes.len());
            let payload = payload_of(entry);
            lemma_text_round_trip(key);
            lemma_text_round_trip(value);
            assert(payload =~= length + (key_bytes + value_bytes));
            varint::lemma_round_trip(key_bytes.len(), key_bytes + value_bytes);
            assert(payload.subrange(length.len() as int, (length.len() + key_bytes.len()) as int)
                =~= key_bytes);
            assert(payload.skip((length.len() + key_bytes.len()) as int) =~= value_bytes);
        },
    }
}

proof fn lemma_text_round_trip(text: Seq<char>)
    ensures
        text_of(encode_utf8(text)) == Ok::<Seq<char>, MetadataError>(text),
{
    vstd::utf8::encode_utf8_valid_utf8(text);
    vstd::utf8::encode_utf8_decode_utf8(text);
}

/// Reading metadata that was written gives back its entries, in their
/// order, and ends without an error, whatever follows the terminator.
pub proof fn lemma_round_trip(entries: Seq<EntryView>, rest: Seq<u8>)
    requires
        forall|i: int| 0 <= i < entries.len() ==> storable(#[trigger] entries[i]),
    ensures
        reading(metadata_bytes(entries) + rest) == (Reading { entries, error: None }),
    decreases entries.len(),
{
    let input = metadata_bytes(entries) + rest;
    let pairs = pairs_of(entries);
    if entries.len() == 0 {
        assert(input[0] == 0);
        assert(reading(input).entries =~= entries);
    } else {
        let first = entries[0];
        let others = entries.skip(1);
        lemma_entry_round_trip(first);
        kvlist::lemma_pairs_bytes_front(pairs);
        assert(pairs.skip(1) =~= pairs_of(others));
        assert(pairs[0] == pair_of(first));
        let tail = metadata_bytes(others) + rest;
        assert(input =~= kvlist::pair_bytes(pair_of(first)) + tail);
        kvlist::lemma_step_of_pair(pair_of(first), tail, recognized_tags());
        assert(input.skip(kvlist::pair_bytes(pair_of(first)).len() as int) =~= tail);
        assert forall|i: int| 0 <= i < others.len() implies storable(#[trigger] others[i]) by {
            assert(others[i] == entries[i + 1]);
        }
        lemma_round_trip(others, rest);
        assert(seq![first] + others =~= entries);
    }
}

} // verus!
