//! Persistence for pages.
//!
//! # Storage Format
//!
//! Pages are stored in two parts: a collection of data blocks and an index.
//!
//! The content of each page is a fragment of a data block: the length of
//! the content as a LEB128 integer, and the content. The metadata of all
//! pages stands in one data block of its own, the list of one page behind
//! that of the other.
//!
//! Each entry of the index is composed by `6` numbers:
//!
//! 1. Page identifier.
//! 2. Identifier of the parent page, or `0` if none.
//! 3. Data block with the metadata.
//! 4. Offset in the data block for the metadata.
//! 5. Data block with the page content.
//! 6. Offset in the data block for the page content.
//!
//! Each number is encoded as a 4 bytes, big-endian, unsigned integer. The
//! total size of each entry is `24` bytes.

use super::{block_error, from_block_error, Error, Page, PageId, PageView};
use crate::persistence::datablock::writer::{
    closed_fragment, lemma_close_keeps, lemma_closed_fragment_kept, lemma_extends_kept,
    lemma_fragment_keeps, lemma_write_holds, lemma_write_keeps, DataBlocksWriter, WriterView,
};
use crate::persistence::datablock::{block_len, lemma_block_at_same_bytes, BlockCompression};
use crate::persistence::{block_failure, from_block_failure, PersistenceError};
use crate::endian;
use crate::endian::{be32, from_be32};
use crate::metadata;
use crate::metadata::{EntryStep, EntryView, MetadataEntry};
use crate::persistence::datablock::block_at;
use crate::persistence::datablock::reader::DataBlocksReader;
use crate::varint;
use crate::varint::{Decoded, VarintError};
use vstd::prelude::*;
use vstd::slice::{slice_subrange, slice_to_vec};

verus! {

/// Number of bytes of an entry of the index.
pub const INDEX_ENTRY_SIZE: usize = 24;

/// A single entry in the page index.
#[derive(Debug, Clone, Copy, PartialEq, Eq, Structural)]
pub struct IndexEntry {
    /// Page identifier.
    pub id: u32,
    /// Identifier of the parent page, or `0` if none.
    pub parent_id: u32,
    /// Data block with the metadata.
    pub metadata_block_id: u32,
    /// Offset in the data block for the metadata.
    pub metadata_block_offset: u32,
    /// Data block with the page content.
    pub content_block_id: u32,
    /// Offset in the data block for the page content.
    pub content_block_offset: u32,
}

/// The bytes of an entry of the index.
pub open spec fn entry_bytes(entry: IndexEntry) -> Seq<u8> {
    be32(entry.id) + be32(entry.parent_id) + be32(entry.metadata_block_id) + be32(
        entry.metadata_block_offset,
    ) + be32(entry.content_block_id) + be32(entry.content_block_offset)
}

/// The entry of the index that stands at `position` in `bytes`.
pub open spec fn entry_at(bytes: Seq<u8>, position: int) -> IndexEntry {
    IndexEntry {
        id: from_be32(bytes.subrange(position, position + 4)),
        parent_id: from_be32(bytes.subrange(position + 4, position + 8)),
        metadata_block_id: from_be32(bytes.subrange(position + 8, position + 12)),
        metadata_block_offset: from_be32(bytes.subrange(position + 12, position + 16)),
        content_block_id: from_be32(bytes.subrange(position + 16, position + 20)),
        content_block_offset: from_be32(bytes.subrange(position + 20, position + 24)),
    }
}

/// The bytes of the entries of an index, one behind the other.
pub open spec fn index_bytes(entries: Seq<IndexEntry>) -> Seq<u8>
    decreases entries.len(),
{
    if entries.len() == 0 {
        Seq::empty()
    } else {
        index_bytes(entries.drop_last()) + entry_bytes(entries.last())
    }
}

/// An entry takes 24 bytes, and is read back from them wherever they
/// stand.
pub proof fn lemma_entry_round_trip(before: Seq<u8>, entry: IndexEntry, after: Seq<u8>)
    ensures
        entry_bytes(entry).len() == INDEX_ENTRY_SIZE,
        entry_at(before + entry_bytes(entry) + after, before.len() as int) == entry,
{
    let bytes = before + entry_bytes(entry) + after;
    let position = before.len() as int;
    endian::lemma_be32_round_trip(entry.id);
    endian::lemma_be32_round_trip(entry.parent_id);
    endian::lemma_be32_round_trip(entry.metadata_block_id);
    endian::lemma_be32_round_trip(entry.metadata_block_offset);
    endian::lemma_be32_round_trip(entry.content_block_id);
    endian::lemma_be32_round_trip(entry.content_block_offset);
    assert(bytes.subrange(position, position + 4) =~= be32(entry.id));
    assert(bytes.subrange(position + 4, position + 8) =~= be32(entry.parent_id));
    assert(bytes.subrange(position + 8, position + 12) =~= be32(entry.metadata_block_id));
    assert(bytes.subrange(position + 12, position + 16) =~= be32(entry.metadata_block_offset));
    assert(bytes.subrange(position + 16, position + 20) =~= be32(entry.content_block_id));
    assert(bytes.subrange(position + 20, position + 24) =~= be32(entry.content_block_offset));
}

/// The index takes 24 bytes for each of its entries.
pub proof fn lemma_index_bytes_len(entries: Seq<IndexEntry>)
    ensures
        index_bytes(entries).len() == INDEX_ENTRY_SIZE * entries.len(),
    decreases entries.len(),
{
    if entries.len() > 0 {
        lemma_index_bytes_len(entries.drop_last());
        lemma_entry_round_trip(Seq::empty(), entries.last(), Seq::empty());
    }
}

/// Each entry of an index that was written is read back from its place.
pub proof fn lemma_index_round_trip(
    before: Seq<u8>,
    entries: Seq<IndexEntry>,
    after: Seq<u8>,
    i: int,
)
    requires
        0 <= i < entries.len(),
    ensures
        entry_at(before + index_bytes(entries) + after, before.len() + INDEX_ENTRY_SIZE * i)
            == entries[i],
    decreases entries.len(),
{
    let earlier = entries.drop_last();
    lemma_index_bytes_len(earlier);
    lemma_entry_round_trip(Seq::empty(), entries.last(), Seq::empty());
    if i == entries.len() - 1 {
        lemma_entry_round_trip(before + index_bytes(earlier), entries.last(), after);
        assert(before + index_bytes(entries) + after =~= before + index_bytes(earlier)
            + entry_bytes(entries.last()) + after);
    } else {
        lemma_index_round_trip(before, earlier, entry_bytes(entries.last()) + after, i);
        assert(before + index_bytes(entries) + after =~= before + index_bytes(earlier) + (
        entry_bytes(entries.last()) + after));
    }
}

impl IndexEntry {
    /// The identifier of the parent page, if there is one.
    pub fn parent_id(&self) -> (parent: Option<PageId>)
        ensures
            super::number_of(parent) == self.parent_id,
    {
        PageId::new(self.parent_id)
    }

    /// Appends the bytes of the entry to `output`.
    pub fn write(&self, output: &mut Vec<u8>)
        ensures
            final(output)@ == old(output)@ + entry_bytes(*self),
    {
        endian::push_be32(output, self.id);
        endian::push_be32(output, self.parent_id);
        endian::push_be32(output, self.metadata_block_id);
        endian::push_be32(output, self.metadata_block_offset);
        endian::push_be32(output, self.content_block_id);
        endian::push_be32(output, self.content_block_offset);
        assert(output@ =~= old(output)@ + entry_bytes(*self));
    }

    /// Reads the entry that stands at `position` in `input`.
    pub fn read(input: &[u8], position: usize) -> (entry: IndexEntry)
        requires
            position + INDEX_ENTRY_SIZE <= input@.len(),
        ensures
            entry == entry_at(input@, position as int),
    {
        assert(position + INDEX_ENTRY_SIZE <= input.len());
        IndexEntry {
            id: endian::read_be32(input, position),
            parent_id: endian::read_be32(input, position + 4),
            metadata_block_id: endian::read_be32(input, position + 8),
            metadata_block_offset: endian::read_be32(input, position + 12),
            content_block_id: endian::read_be32(input, position + 16),
            content_block_offset: endian::read_be32(input, position + 20),
        }
    }

    /// The title of the page: that of the first title among its
    /// metadata, or the empty text where they hold none.
    pub fn get_page_title(&self, db_reader: &mut DataBlocksReader) -> (result: Result<
        String,
        Error,
    >)
        requires
            old(db_reader).wf(),
        ensures
            final(db_reader).wf(),
            final(db_reader)@.stream == old(db_reader)@.stream,
            match title_at(old(db_reader)@.stream, *self) {
                Ok(title) => result matches Ok(found) && found@ == title,
                Err(error) => result matches Err(found) && found == error,
            },
    {
        match db_reader.with_block(
            self.metadata_block_id as u64,
            self.metadata_block_offset as usize,
            find_title,
        ) {
            Ok(title) => Ok(title),
            Err(error) => Err(from_block_error(error)),
        }
    }
}

/// The decoded payload of the block `block_id` of `stream`, from `offset`
/// on.
pub open spec fn fragment_at(stream: Seq<u8>, block_id: u32, offset: u32) -> Result<
    Seq<u8>,
    Error,
> {
    match block_at(stream, block_id as int) {
        Err(error) => Err(block_error(error)),
        Ok(payload) => if offset > payload.len() {
            Err(Error::InvalidLength(offset as u64))
        } else {
            Ok(payload.skip(offset as int))
        },
    }
}

/// The content that stands at the front of a fragment: its length as a
/// LEB128 integer, and as many bytes.
pub open spec fn content_of(fragment: Seq<u8>) -> Result<Seq<u8>, Error> {
    match varint::decoding(fragment) {
        Decoded::Truncated => Err(Error::Leb128Error(VarintError::UnexpectedEof)),
        Decoded::Overflow => Err(Error::Leb128Error(VarintError::Overflow)),
        Decoded::Value { value, len } => if len + value > fragment.len() {
            Err(Error::InvalidLength(value as u64))
        } else {
            Ok(fragment.subrange(len as int, (len + value) as int))
        },
    }
}

/// The metadata that stand at the front of a fragment.
pub open spec fn metadata_of(fragment: Seq<u8>) -> Result<Seq<EntryView>, Error> {
    match metadata::reading(fragment).error {
        Some(error) => Err(Error::InvalidMetadata(error)),
        None => Ok(metadata::reading(fragment).entries),
    }
}

/// The first title among the metadata at the front of `input`, or the
/// empty text: where the list ends, or cannot be read further, before a
/// title is found.
pub open spec fn first_title(input: Seq<u8>) -> Seq<char>
    decreases input.len(),
{
    match metadata::entry_step(input) {
        EntryStep::End => Seq::empty(),
        EntryStep::Failed(_) => Seq::empty(),
        EntryStep::Entry { entry, len } => match entry {
            EntryView::Title(title) => title,
            _ => first_title(input.skip(len as int)),
        },
    }
}

/// The page that an entry of the index stands for in `stream`.
pub open spec fn page_at(stream: Seq<u8>, entry: IndexEntry) -> Result<PageView, Error> {
    match fragment_at(stream, entry.content_block_id, entry.content_block_offset) {
        Err(error) => Err(error),
        Ok(fragment) => match content_of(fragment) {
            Err(error) => Err(error),
            Ok(content) => match fragment_at(
                stream,
                entry.metadata_block_id,
                entry.metadata_block_offset,
            ) {
                Err(error) => Err(error),
                Ok(fragment) => match metadata_of(fragment) {
                    Err(error) => Err(error),
                    Ok(metadata) => if entry.id == 0 {
                        Err(Error::InvalidId(0))
                    } else {
                        Ok(PageView { id: entry.id, parent_id: entry.parent_id, metadata, content })
                    },
                },
            },
        },
    }
}

/// The title of the page that an entry of the index stands for in
/// `stream`.
pub open spec fn title_at(stream: Seq<u8>, entry: IndexEntry) -> Result<Seq<char>, Error> {
    match fragment_at(stream, entry.metadata_block_id, entry.metadata_block_offset) {
        Err(error) => Err(error),
        Ok(fragment) => Ok(first_title(fragment)),
    }
}

/// Reads the content that stands at the front of a fragment.
pub fn read_content(fragment: &[u8]) -> (result: Result<Vec<u8>, Error>)
    ensures
        match content_of(fragment@) {
            Ok(content) => result matches Ok(found) && found@ == content,
            Err(error) => result matches Err(found) && found == error,
        },
{
    proof {
        varint::lemma_decoding_bounds(fragment@);
    }
    match varint::read_unsigned(fragment) {
        Err(error) => Err(Error::Leb128Error(error)),
        Ok((len, position)) => {
            if len > (fragment.len() - position) as u64 {
                return Err(Error::InvalidLength(len));
            }
            Ok(slice_to_vec(slice_subrange(fragment, position, position + len as usize)))
        },
    }
}

/// Reads the metadata that stand at the front of a fragment.
pub fn read_metadata(fragment: &[u8]) -> (result: Result<Vec<MetadataEntry>, Error>)
    ensures
        match metadata_of(fragment@) {
            Ok(entries) => result matches Ok(found) && metadata::views(found@) == entries,
            Err(error) => result matches Err(found) && found == error,
        },
{
    match metadata::load(fragment).collect() {
        Ok(entries) => Ok(entries),
        Err(error) => Err(Error::InvalidMetadata(error)),
    }
}

/// Looks for the first title among the metadata at the front of `input`.
pub fn find_title(input: &[u8]) -> (title: String)
    ensures
        title@ == first_title(input@),
{
    let mut parser = metadata::load(input);
    loop
        invariant
            parser.active(),
            first_title(input@) == first_title(parser.remaining()),
        decreases parser.remaining().len(),
    {
        proof {
            metadata::lemma_entry_step_bounds(parser.remaining());
        }
        match parser.next() {
            Some(Ok(MetadataEntry::Title(title))) => {
                return title;
            },
            Some(Ok(_)) => {},
            _ => {
                return String::new();
            },
        }
    }
}

/// Build a `Page` value using the data from a stream.
pub fn build_page(entry: &IndexEntry, db_reader: &mut DataBlocksReader) -> (result: Result<
    Page,
    Error,
>)
    requires
        old(db_reader).wf(),
    ensures
        final(db_reader).wf(),
        final(db_reader)@.stream == old(db_reader)@.stream,
        match page_at(old(db_reader)@.stream, *entry) {
            Ok(page) => result matches Ok(found) && found@ == page,
            Err(error) => result matches Err(found) && found == error,
        },
{
    // Page content.
    let content = match db_reader.with_block(
        entry.content_block_id as u64,
        entry.content_block_offset as usize,
        read_content,
    ) {
        Err(error) => {
            return Err(from_block_error(error));
        },
        Ok(Err(error)) => {
            return Err(error);
        },
        Ok(Ok(content)) => content,
    };

    // Page metadata.
    let metadata = match db_reader.with_block(
        entry.metadata_block_id as u64,
        entry.metadata_block_offset as usize,
        read_metadata,
    ) {
        Err(error) => {
            return Err(from_block_error(error));
        },
        Ok(Err(error)) => {
            return Err(error);
        },
        Ok(Ok(metadata)) => metadata,
    };

    // Final page.
    let id = match PageId::new(entry.id) {
        Some(id) => id,
        None => {
            return Err(Error::InvalidId(0));
        },
    };
    Ok(Page { id, parent_id: PageId::new(entry.parent_id), metadata, content })
}

/// The fragment that holds the content of a page: the length of the
/// content as a LEB128 integer, and the content.
pub open spec fn content_fragment(content: Seq<u8>) -> Seq<u8> {
    varint::encoding(content.len()) + content
}

/// What the write path has made of the pages that it has taken.
pub struct Staging {
    /// The writer of the data blocks.
    pub writer: WriterView,
    /// The entries of the index, the block of the metadata not yet known.
    pub index: Seq<IndexEntry>,
    /// The metadata of the pages, which wait to be written.
    pub metadata: Seq<u8>,
}

/// The write path once it has taken `page`: the content stands in a
/// fragment of its own, the metadata wait behind those of the pages before,
/// and the index has one entry more.
pub open spec fn staged_page(before: Staging, page: PageView) -> Result<
    Staging,
    PersistenceError,
> {
    match before.writer.with_fragment(page.content.len() as u64) {
        Err(error) => Err(block_failure(error)),
        Ok(writer) => {
            let location = writer.location();
            if location.block_id > u32::MAX || location.offset > u32::MAX || before.metadata.len()
                > u32::MAX {
                Err(PersistenceError::TooManyPages)
            } else {
                Ok(
                    Staging {
                        writer: writer.with_bytes(content_fragment(page.content)),
                        index: before.index.push(
                            IndexEntry {
                                id: page.id,
                                parent_id: page.parent_id,
                                metadata_block_id: u32::MAX,
                                metadata_block_offset: before.metadata.len() as u32,
                                content_block_id: location.block_id as u32,
                                content_block_offset: location.offset as u32,
                            },
                        ),
                        metadata: before.metadata + metadata::metadata_bytes(page.metadata),
                    },
                )
            }
        },
    }
}

/// The write path once it has taken `pages`, one after the other.
pub open spec fn staged_pages(start: Staging, pages: Seq<PageView>) -> Result<
    Staging,
    PersistenceError,
>
    decreases pages.len(),
{
    if pages.len() == 0 {
        Ok(start)
    } else {
        match staged_pages(start, pages.drop_last()) {
            Err(error) => Err(error),
            Ok(staging) => staged_page(staging, pages.last()),
        }
    }
}

/// The entries of an index with the block of the metadata set.
pub open spec fn with_metadata_block(index: Seq<IndexEntry>, block_id: u32) -> Seq<IndexEntry> {
    index.map_values(|entry: IndexEntry| IndexEntry { metadata_block_id: block_id, ..entry })
}

/// What the write path makes of `pages` behind `stream`: the stream with
/// the data blocks, the last of which holds the metadata of all pages, and
/// the entries of the index.
pub open spec fn staged_blocks(
    stream: Seq<u8>,
    pages: Seq<PageView>,
    compression: BlockCompression,
) -> Result<(Seq<u8>, Seq<IndexEntry>), PersistenceError> {
    let start = Staging {
        writer: WriterView { stream, compression, active: None },
        index: Seq::empty(),
        metadata: Seq::empty(),
    };
    match staged_pages(start, pages) {
        Err(error) => Err(error),
        Ok(staging) => match staging.writer.with_fragment(u64::MAX) {
            Err(error) => Err(block_failure(error)),
            Ok(writer) => if writer.location().block_id > u32::MAX {
                Err(PersistenceError::TooManyPages)
            } else {
                match writer.with_bytes(staging.metadata).closed() {
                    Err(error) => Err(block_failure(error)),
                    Ok(blocks) => Ok(
                        (
                            blocks,
                            with_metadata_block(staging.index, writer.location().block_id as u32),
                        ),
                    ),
                }
            },
        },
    }
}

/// The stream once `pages` are written behind what it held, and the
/// position of the index in it.
pub open spec fn pages_section(
    stream: Seq<u8>,
    pages: Seq<PageView>,
    compression: BlockCompression,
) -> Result<(Seq<u8>, int), PersistenceError> {
    match staged_blocks(stream, pages, compression) {
        Err(error) => Err(error),
        Ok((blocks, index)) => Ok((blocks + index_bytes(index), blocks.len() as int)),
    }
}

/// Whether the index that stands at `position` in `stream` has an entry
/// for each of `pages`, in their order, from which the page is read as it
/// is.
///
/// The index and the data blocks that it names stand at `from` or behind
/// it.
pub open spec fn holds_pages(
    stream: Seq<u8>,
    position: int,
    pages: Seq<PageView>,
    from: int,
) -> bool {
    &&& from <= position
    &&& position + INDEX_ENTRY_SIZE * pages.len() <= stream.len()
    &&& forall|i: int|
        0 <= i < pages.len() ==> {
            let entry = entry_at(stream, position + INDEX_ENTRY_SIZE * i);
            &&& entry.id == (#[trigger] pages[i]).id
            &&& entry.parent_id == pages[i].parent_id
            &&& page_at(stream, entry) == Ok::<PageView, Error>(pages[i])
            &&& from <= entry.content_block_id
            &&& from <= entry.metadata_block_id
        }
}

/// Whether the write path holds what it has taken of `page` under
/// `entry`, and can read it back.
pub open spec fn staged_well(
    writer: WriterView,
    metadata: Seq<u8>,
    entry: IndexEntry,
    page: PageView,
    from: int,
) -> bool {
    let listed = metadata::metadata_bytes(page.metadata);
    &&& from <= entry.content_block_id
    &&& entry.id == page.id
    &&& page.id != 0
    &&& entry.parent_id == page.parent_id
    &&& page.content.len() <= u64::MAX
    &&& writer.holds_fragment(
        entry.content_block_id as int,
        entry.content_block_offset as int,
        content_fragment(page.content),
    )
    &&& entry.metadata_block_offset + listed.len() <= metadata.len()
    &&& metadata.subrange(
        entry.metadata_block_offset as int,
        entry.metadata_block_offset + listed.len(),
    ) == listed
    &&& forall|k: int|
        0 <= k < page.metadata.len() ==> metadata::storable(#[trigger] page.metadata[k])
}

/// Whether the content and the metadata of `page` stand in closed blocks
/// of `stream`, where `entry` says.
pub open spec fn stored_well(
    stream: Seq<u8>,
    entry: IndexEntry,
    page: PageView,
    from: int,
) -> bool {
    &&& from <= entry.content_block_id
    &&& from <= entry.metadata_block_id
    &&& entry.id == page.id
    &&& page.id != 0
    &&& entry.parent_id == page.parent_id
    &&& page.content.len() <= u64::MAX
    &&& closed_fragment(
        stream,
        stream.len() as int,
        entry.content_block_id as int,
        entry.content_block_offset as int,
        content_fragment(page.content),
    )
    &&& closed_fragment(
        stream,
        stream.len() as int,
        entry.metadata_block_id as int,
        entry.metadata_block_offset as int,
        metadata::metadata_bytes(page.metadata),
    )
    &&& forall|k: int|
        0 <= k < page.metadata.len() ==> metadata::storable(#[trigger] page.metadata[k])
}

/// A page whose content and metadata stand in closed blocks is read back
/// as it is.
pub proof fn lemma_page_read_back(stream: Seq<u8>, entry: IndexEntry, page: PageView, from: int)
    requires
        stored_well(stream, entry, page, from),
    ensures
        page_at(stream, entry) == Ok::<PageView, Error>(page),
{
    let payload = block_at(stream, entry.content_block_id as int)->Ok_0;
    let offset = entry.content_block_offset as int;
    let written = content_fragment(page.content);
    let fragment = payload.skip(offset);
    let rest = payload.skip(offset + written.len());
    assert(fragment =~= written + rest);
    let length = varint::encoding(page.content.len());
    assert(written + rest =~= length + (page.content + rest));
    varint::lemma_round_trip(page.content.len(), page.content + rest);
    assert(fragment.subrange(length.len() as int, (length.len() + page.content.len()) as int)
        =~= page.content);

    let listed = metadata::metadata_bytes(page.metadata);
    let block = block_at(stream, entry.metadata_block_id as int)->Ok_0;
    let start = entry.metadata_block_offset as int;
    let tail = block.skip(start + listed.len());
    assert(block.skip(start) =~= listed + tail);
    metadata::lemma_round_trip(page.metadata, tail);
}

/// Takes one page into the write path.
fn stage_page(
    writer: &mut DataBlocksWriter,
    index: &mut Vec<IndexEntry>,
    metadata_buf: &mut Vec<u8>,
    page: &Page,
    Ghost(base): Ghost<Seq<u8>>,
) -> (result: Result<(), PersistenceError>)
    requires
        old(writer).wf(),
        old(writer)@.extends(base),
    ensures
        final(writer).wf(),
        final(writer)@.compression == old(writer)@.compression,
        final(writer)@.extends(base),
        match staged_page(
            Staging { writer: old(writer)@, index: old(index)@, metadata: old(metadata_buf)@ },
            page@,
        ) {
            Err(error) => result == Err::<(), PersistenceError>(error),
            Ok(staging) => {
                &&& result is Ok
                &&& final(writer)@ == staging.writer
                &&& final(index)@ == staging.index
                &&& final(metadata_buf)@ == staging.metadata
                &&& staged_well(
                    final(writer)@,
                    final(metadata_buf)@,
                    staging.index.last(),
                    page@,
                    base.len() as int,
                )
                &&& forall|block_id: int, offset: int, bytes: Seq<u8>| #[trigger]
                    old(writer)@.holds_fragment(block_id, offset, bytes)
                        ==> final(writer)@.holds_fragment(block_id, offset, bytes)
            },
        },
{
    let content = page.content();
    let ghost before = writer@;
    let ghost fragment_bytes = content_fragment(content@);
    let mut fragment = match writer.fragment(content.len() as u64) {
        Ok(fragment) => fragment,
        Err(error) => {
            return Err(from_block_failure(error));
        },
    };
    let ghost opened = fragment.writer@;
    let mut length: Vec<u8> = Vec::new();
    varint::write_unsigned(&mut length, content.len() as u64);
    fragment.write_all(length.as_slice());
    fragment.write_all(content);
    let location = fragment.location();
    proof {
        assert(length@ =~= varint::encoding(content@.len()));
        assert(opened.with_bytes(length@).with_bytes(content@) =~= opened.with_bytes(
            fragment_bytes,
        )) by {
            let block = opened.active->Some_0;
            assert(block.payload + length@ + content@ =~= block.payload + fragment_bytes);
        }
        lemma_write_holds(opened, fragment_bytes);
        lemma_extends_kept(before, base, content.len() as u64, Seq::empty());
        lemma_extends_kept(opened, base, 0, fragment_bytes);
        assert forall|block_id: int, offset: int, bytes: Seq<u8>| #[trigger]
            before.holds_fragment(block_id, offset, bytes) implies writer@.holds_fragment(
            block_id,
            offset,
            bytes,
        ) by {
            lemma_fragment_keeps(before, content.len() as u64, block_id, offset, bytes);
            lemma_write_keeps(opened, fragment_bytes, block_id, offset, bytes);
        }
    }
    if location.block_id > u32::MAX as u64 || location.offset > u32::MAX as u64
        || metadata_buf.len() > u32::MAX as usize {
        return Err(PersistenceError::TooManyPages);
    }
    let metadata_block_offset = metadata_buf.len() as u32;
    metadata::dump(metadata_buf, page.metadata());
    let parent_id = match page.parent() {
        Some(parent) => parent.get(),
        None => 0,
    };
    let entry = IndexEntry {
        id: page.id().get(),
        parent_id,
        metadata_block_id: u32::MAX,
        metadata_block_offset,
        content_block_id: location.block_id as u32,
        content_block_offset: location.offset as u32,
    };
    index.push(entry);
    proof {
        let listed = metadata::metadata_bytes(page@.metadata);
        assert(metadata_buf@.subrange(
            metadata_block_offset as int,
            metadata_block_offset + listed.len(),
        ) =~= listed);
    }
    Ok(())
}

/// Takes the pages into the write path, one after the other.
fn stage_pages(
    writer: &mut DataBlocksWriter,
    index: &mut Vec<IndexEntry>,
    metadata_buf: &mut Vec<u8>,
    pages: &[Page],
    Ghost(base): Ghost<Seq<u8>>,
) -> (result: Result<(), PersistenceError>)
    requires
        old(writer).wf(),
        old(writer)@.extends(base),
        old(index)@.len() == 0,
    ensures
        final(writer).wf(),
        final(writer)@.compression == old(writer)@.compression,
        final(writer)@.extends(base),
        match staged_pages(
            Staging { writer: old(writer)@, index: old(index)@, metadata: old(metadata_buf)@ },
            super::views(pages@),
        ) {
            Err(error) => result == Err::<(), PersistenceError>(error),
            Ok(staging) => {
                &&& result is Ok
                &&& final(writer)@ == staging.writer
                &&& final(index)@ == staging.index
                &&& final(metadata_buf)@ == staging.metadata
                &&& final(index)@.len() == pages@.len()
                &&& forall|j: int|
                    0 <= j < pages@.len() ==> staged_well(
                        final(writer)@,
                        final(metadata_buf)@,
                        #[trigger] final(index)@[j],
                        pages@[j]@,
                        base.len() as int,
                    )
            },
        },
{
    let ghost start = Staging { writer: writer@, index: index@, metadata: metadata_buf@ };
    let ghost all = super::views(pages@);
    let mut i: usize = 0;
    while i < pages.len()
        invariant
            i <= pages.len(),
            writer.wf(),
            writer@.compression == start.writer.compression,
            all == super::views(pages@),
            start == (Staging {
                writer: old(writer)@,
                index: old(index)@,
                metadata: old(metadata_buf)@,
            }),
            writer@.extends(base),
            staged_pages(start, all.subrange(0, i as int)) == Ok::<Staging, PersistenceError>(
                Staging { writer: writer@, index: index@, metadata: metadata_buf@ },
            ),
            index@.len() == i,
            forall|j: int|
                0 <= j < i ==> staged_well(
                    writer@,
                    metadata_buf@,
                    #[trigger] index@[j],
                    pages@[j]@,
                    base.len() as int,
                ),
        decreases pages.len() - i,
    {
        let ghost before = writer@;
        let ghost listed = metadata_buf@;
        let ghost entries = index@;
        proof {
            assert(all.subrange(0, i + 1).drop_last() =~= all.subrange(0, i as int));
            assert(all.subrange(0, i + 1).last() == pages@[i as int]@);
        }
        let staged = stage_page(writer, index, metadata_buf, &pages[i], Ghost(base));
        match staged {
            Err(error) => {
                proof {
                    lemma_staged_pages_failed(start, all.subrange(0, i + 1), all);
                }
                return Err(error);
            },
            Ok(()) => {},
        }
        proof {
            assert forall|j: int| 0 <= j < i + 1 implies staged_well(
                writer@,
                metadata_buf@,
                #[trigger] index@[j],
                pages@[j]@,
                base.len() as int,
            ) by {
                if j < i {
                    let entry = entries[j];
                    let page = pages@[j]@;
                    assert(index@[j] == entry);
                    assert(staged_well(before, listed, entry, page, base.len() as int));
                    let bytes = metadata::metadata_bytes(page.metadata);
                    assert(metadata_buf@.subrange(
                        entry.metadata_block_offset as int,
                        entry.metadata_block_offset + bytes.len(),
                    ) =~= listed.subrange(
                        entry.metadata_block_offset as int,
                        entry.metadata_block_offset + bytes.len(),
                    ));
                }
            }
        }
        i = i + 1;
    }
    assert(all.subrange(0, pages@.len() as int) =~= all);
    Ok(())
}

/// Where the write path fails on the first pages, it fails in the same
/// way on all of them.
pub proof fn lemma_staged_pages_failed(start: Staging, first: Seq<PageView>, all: Seq<PageView>)
    requires
        first.len() <= all.len(),
        first == all.subrange(0, first.len() as int),
        staged_pages(start, first) is Err,
    ensures
        staged_pages(start, all) == staged_pages(start, first),
    decreases all.len(),
{
    if first.len() < all.len() {
        assert(all.drop_last().subrange(0, first.len() as int) =~= first);
        lemma_staged_pages_failed(start, first, all.drop_last());
    } else {
        assert(first =~= all);
    }
}

/// Writes the data blocks of the pages: those with the contents, and
/// behind them the one with the metadata of all pages. Gives the
/// identifier of that block.
fn stage_blocks(
    writer: &mut DataBlocksWriter,
    index: &mut Vec<IndexEntry>,
    pages: &[Page],
    Ghost(base): Ghost<Seq<u8>>,
) -> (result: Result<u32, PersistenceError>)
    requires
        old(writer).wf(),
        old(writer)@.extends(base),
        old(writer)@.active is None,
        old(index)@.len() == 0,
    ensures
        final(writer).wf(),
        final(writer)@.extends(base),
        match staged_blocks(
            old(writer)@.stream,
            super::views(pages@),
            old(writer)@.compression,
        ) {
            Err(error) => result == Err::<u32, PersistenceError>(error),
            Ok((blocks, entries)) => {
                &&& result matches Ok(block_id)
                &&& final(writer)@ == old(writer)@.after_close(blocks)
                &&& with_metadata_block(final(index)@, block_id) == entries
                &&& entries.len() == pages@.len()
                &&& forall|j: int|
                    0 <= j < pages@.len() ==> stored_well(
                        blocks,
                        #[trigger] entries[j],
                        pages@[j]@,
                        base.len() as int,
                    )
            },
        },
{
    let ghost start = writer@;
    let mut metadata_buf: Vec<u8> = Vec::new();
    assert(start == (WriterView {
        stream: start.stream,
        compression: start.compression,
        active: None,
    }));
    assert(index@ =~= Seq::<IndexEntry>::empty());
    assert(metadata_buf@ =~= Seq::<u8>::empty());
    stage_pages(writer, index, &mut metadata_buf, pages, Ghost(base))?;
    let ghost staged = writer@;
    let mut fragment = match writer.fragment(u64::MAX) {
        Ok(fragment) => fragment,
        Err(error) => {
            return Err(from_block_failure(error));
        },
    };
    let ghost opened = fragment.writer@;
    fragment.write_all(metadata_buf.as_slice());
    let location = fragment.location();
    let ghost filled = writer@;
    proof {
        lemma_extends_kept(staged, base, u64::MAX, Seq::empty());
        lemma_extends_kept(opened, base, 0, metadata_buf@);
    }
    if location.block_id > u32::MAX as u64 {
        return Err(PersistenceError::TooManyPages);
    }
    let block_id = location.block_id as u32;
    match writer.close_current() {
        Ok(()) => {},
        Err(error) => {
            return Err(from_block_failure(error));
        },
    }
    proof {
        let blocks = writer@.stream;
        let entries = with_metadata_block(index@, block_id);
        lemma_extends_kept(filled, base, 0, Seq::empty());
        assert(opened.active->Some_0.payload + metadata_buf@ =~= metadata_buf@);
        assert forall|j: int| 0 <= j < pages@.len() implies stored_well(
            blocks,
            #[trigger] entries[j],
            pages@[j]@,
            base.len() as int,
        ) by {
            let entry = index@[j];
            let page = pages@[j]@;
            let listed = metadata::metadata_bytes(page.metadata);
            let written = content_fragment(page.content);
            assert(staged_well(staged, metadata_buf@, entry, page, base.len() as int));
            lemma_fragment_keeps(
                staged,
                u64::MAX,
                entry.content_block_id as int,
                entry.content_block_offset as int,
                written,
            );
            lemma_write_keeps(
                opened,
                metadata_buf@,
                entry.content_block_id as int,
                entry.content_block_offset as int,
                written,
            );
            lemma_close_keeps(
                filled,
                entry.content_block_id as int,
                entry.content_block_offset as int,
                written,
            );
            assert(filled.holds_fragment(
                block_id as int,
                entry.metadata_block_offset as int,
                listed,
            ));
            lemma_close_keeps(filled, block_id as int, entry.metadata_block_offset as int, listed);
        }
    }
    Ok(block_id)
}

/// Appends the entries of the index to `stream`, each with the block of
/// the metadata set.
fn write_index(stream: &mut Vec<u8>, index: &Vec<IndexEntry>, block_id: u32)
    ensures
        final(stream)@ == old(stream)@ + index_bytes(with_metadata_block(index@, block_id)),
{
    let ghost entries = with_metadata_block(index@, block_id);
    let mut i: usize = 0;
    while i < index.len()
        invariant
            i <= index.len(),
            entries == with_metadata_block(index@, block_id),
            stream@ == old(stream)@ + index_bytes(entries.subrange(0, i as int)),
        decreases index.len() - i,
    {
        let mut entry = index[i];
        entry.metadata_block_id = block_id;
        entry.write(stream);
        proof {
            assert(entries.subrange(0, i + 1).drop_last() =~= entries.subrange(0, i as int));
            assert(entries.subrange(0, i + 1).last() == entry);
            assert(stream@ =~= old(stream)@ + index_bytes(entries.subrange(0, i + 1)));
        }
        i = i + 1;
    }
    assert(entries.subrange(0, index@.len() as int) =~= entries);
}

/// Pages whose content and metadata stand in closed blocks are read back
/// through the index that is written behind the blocks.
pub proof fn lemma_pages_read_back(
    blocks: Seq<u8>,
    entries: Seq<IndexEntry>,
    pages: Seq<PageView>,
    from: int,
)
    requires
        entries.len() == pages.len(),
        from <= blocks.len(),
        forall|j: int|
            0 <= j < pages.len() ==> stored_well(blocks, #[trigger] entries[j], pages[j], from),
    ensures
        holds_pages(blocks + index_bytes(entries), blocks.len() as int, pages, from),
{
    let stream = blocks + index_bytes(entries);
    let position = blocks.len() as int;
    lemma_index_bytes_len(entries);
    assert forall|i: int| 0 <= i < pages.len() implies {
        let entry = entry_at(stream, position + INDEX_ENTRY_SIZE * i);
        &&& entry.id == (#[trigger] pages[i]).id
        &&& entry.parent_id == pages[i].parent_id
        &&& page_at(stream, entry) == Ok::<PageView, Error>(pages[i])
        &&& from <= entry.content_block_id
        &&& from <= entry.metadata_block_id
    } by {
        let entry = entries[i];
        let page = pages[i];
        lemma_index_round_trip(blocks, entries, Seq::empty(), i);
        assert(blocks + index_bytes(entries) + Seq::<u8>::empty() =~= stream);
        assert(stored_well(blocks, entry, page, from));
        assert(blocks.subrange(0, blocks.len() as int) =~= stream.subrange(
            0,
            blocks.len() as int,
        ));
        lemma_closed_fragment_kept(
            blocks,
            blocks.len() as int,
            stream,
            stream.len() as int,
            entry.content_block_id as int,
            entry.content_block_offset as int,
            content_fragment(page.content),
        );
        lemma_closed_fragment_kept(
            blocks,
            blocks.len() as int,
            stream,
            stream.len() as int,
            entry.metadata_block_id as int,
            entry.metadata_block_offset as int,
            metadata::metadata_bytes(page.metadata),
        );
        lemma_page_read_back(stream, entry, page, from);
    }
}

/// Write the data blocks and the page index behind what `output` holds.
///
/// On success, returns the position of the page index. On failure the
/// output holds what it held before.
pub fn dump_pages(output: &mut Vec<u8>, pages: &[Page], compression: BlockCompression) -> (result:
    Result<u64, PersistenceError>)
    requires
        compression.valid(),
    ensures
        match pages_section(old(output)@, super::views(pages@), compression) {
            Err(error) => result == Err::<u64, PersistenceError>(error) && final(output)@ == old(
                output,
            )@,
            Ok((stream, position)) => {
                &&& result matches Ok(found)
                &&& found == position
                &&& final(output)@ == stream
                &&& old(output)@.len() <= position <= stream.len()
                &&& stream.subrange(0, old(output)@.len() as int) == old(output)@
                &&& holds_pages(
                    stream,
                    position,
                    super::views(pages@),
                    old(output)@.len() as int,
                )
            },
        },
{
    let ghost base = output@;
    let base_len = output.len();
    let mut held: Vec<u8> = Vec::new();
    core::mem::swap(output, &mut held);
    let mut writer = DataBlocksWriter::new(held, compression);
    assert(writer@.extends(base)) by {
        assert(base.subrange(0, base.len() as int) =~= base);
    }
    let mut index: Vec<IndexEntry> = Vec::new();
    let staged = stage_blocks(&mut writer, &mut index, pages, Ghost(base));
    let mut stream = writer.into_stream();
    match staged {
        Err(error) => {
            stream.truncate(base_len);
            *output = stream;
            Err(error)
        },
        Ok(block_id) => {
            let position = stream.len();
            let ghost blocks = stream@;
            write_index(&mut stream, &index, block_id);
            proof {
                let entries = with_metadata_block(index@, block_id);
                lemma_pages_read_back(blocks, entries, super::views(pages@), base.len() as int);
                assert(stream@.subrange(0, base.len() as int) =~= blocks.subrange(
                    0,
                    base.len() as int,
                ));
            }
            *output = stream;
            Ok(position as u64)
        },
    }
}

/// Pages that are read from a stream are read the same from a stream
/// that differs from it only before the index and the data blocks.
pub proof fn lemma_holds_pages_patched(
    first: Seq<u8>,
    second: Seq<u8>,
    position: int,
    pages: Seq<PageView>,
    from: int,
)
    requires
        holds_pages(first, position, pages, from),
        0 <= from,
        first.len() == second.len(),
        first.skip(from) == second.skip(from),
    ensures
        holds_pages(second, position, pages, from),
{
    assert forall|i: int| 0 <= i < pages.len() implies {
        let entry = entry_at(second, position + INDEX_ENTRY_SIZE * i);
        &&& entry.id == (#[trigger] pages[i]).id
        &&& entry.parent_id == pages[i].parent_id
        &&& page_at(second, entry) == Ok::<PageView, Error>(pages[i])
        &&& from <= entry.content_block_id
        &&& from <= entry.metadata_block_id
    } by {
        let at = position + INDEX_ENTRY_SIZE * i;
        let entry = entry_at(first, at);
        assert(pages[i].id == entry.id);
        assert forall|a: int, b: int| from <= a <= b <= first.len() implies first.subrange(a, b)
            == second.subrange(a, b) by {
            assert(first.subrange(a, b) =~= first.skip(from).subrange(a - from, b - from));
            assert(second.subrange(a, b) =~= second.skip(from).subrange(a - from, b - from));
        }
        assert(first.subrange(at, at + 4) == second.subrange(at, at + 4));
        assert(first.subrange(at + 4, at + 8) == second.subrange(at + 4, at + 8));
        assert(first.subrange(at + 8, at + 12) == second.subrange(at + 8, at + 12));
        assert(first.subrange(at + 12, at + 16) == second.subrange(at + 12, at + 16));
        assert(first.subrange(at + 16, at + 20) == second.subrange(at + 16, at + 20));
        assert(first.subrange(at + 20, at + 24) == second.subrange(at + 20, at + 24));
        assert(entry_at(second, at) == entry);
        let content_block = entry.content_block_id as int;
        let metadata_block = entry.metadata_block_id as int;
        assert(first.subrange(content_block, content_block + block_len(first, content_block))
            == second.subrange(content_block, content_block + block_len(first, content_block)));
        lemma_block_at_same_bytes(first, second, content_block);
        assert(first.subrange(metadata_block, metadata_block + block_len(first, metadata_block))
            == second.subrange(
            metadata_block,
            metadata_block + block_len(first, metadata_block),
        ));
        lemma_block_at_same_bytes(first, second, metadata_block);
    }
}

} // verus!
