//! Version 1 of the book files.
//!
//! A container starts with the magic number. The header follows: the
//! number of pages, the position of the metadata of the book, the position
//! of the page index, and a position that is kept for an index of the text,
//! which is not written. The positions count from the start of the
//! container. Behind the header stand the metadata of the book, the data
//! blocks of the pages, and the page index.

use super::datablock::reader::DataBlocksReader;
use super::datablock::{BlockCompression, IoKind};
use super::PersistenceError;
use crate::book::{Book, BookView};
use crate::endian;
use crate::endian::{be32, from_be32};
use crate::metadata;
use crate::metadata::{EntryView, MetadataEntry, Reading};
use crate::page;
use crate::page::persistence::{
    dump_pages, holds_pages, lemma_holds_pages_patched, pages_section, IndexEntry,
    INDEX_ENTRY_SIZE,
};
use crate::page::{Page, PageView};
use vstd::prelude::*;
use vstd::slice::slice_subrange;

verus! {

/// Number of bytes of the magic number.
pub const MAGIC_SIZE: usize = 8;

/// Number of bytes of the header.
pub const HEADER_SIZE: usize = 16;

/// What stands in the header where a position is not known, or not used.
pub const NO_POSITION: u32 = 0xFFFF_FFFF;

/// Magic string for this version.
///
/// Byte `89` helps to identify the file as binary data. Byte `01` is the
/// version number. The letters `THRPKG` follow.
pub open spec fn magic() -> Seq<u8> {
    seq![0x89u8, 0x01u8, 0x54u8, 0x48u8, 0x52u8, 0x50u8, 0x4Bu8, 0x47u8]
}

/// The header of a container.
#[derive(Debug, Clone, Copy, PartialEq, Eq, Structural)]
pub struct Header {
    pub num_pages: u32,
    pub metadata_pos: u32,
    pub pages_pos: u32,
    pub fts_pos: u32,
}

/// The bytes of a header.
pub open spec fn header_bytes(header: Header) -> Seq<u8> {
    be32(header.num_pages) + be32(header.metadata_pos) + be32(header.pages_pos) + be32(
        header.fts_pos,
    )
}

/// The header that stands at `position` in `stream`.
pub open spec fn header_at(stream: Seq<u8>, position: int) -> Header {
    Header {
        num_pages: from_be32(stream.subrange(position, position + 4)),
        metadata_pos: from_be32(stream.subrange(position + 4, position + 8)),
        pages_pos: from_be32(stream.subrange(position + 8, position + 12)),
        fts_pos: from_be32(stream.subrange(position + 12, position + 16)),
    }
}

/// A header takes 16 bytes, and is read back from them wherever they
/// stand.
pub proof fn lemma_header_round_trip(before: Seq<u8>, header: Header, after: Seq<u8>)
    ensures
        header_bytes(header).len() == HEADER_SIZE,
        header_at(before + header_bytes(header) + after, before.len() as int) == header,
{
    let stream = before + header_bytes(header) + after;
    let position = before.len() as int;
    endian::lemma_be32_round_trip(header.num_pages);
    endian::lemma_be32_round_trip(header.metadata_pos);
    endian::lemma_be32_round_trip(header.pages_pos);
    endian::lemma_be32_round_trip(header.fts_pos);
    assert(stream.subrange(position, position + 4) =~= be32(header.num_pages));
    assert(stream.subrange(position + 4, position + 8) =~= be32(header.metadata_pos));
    assert(stream.subrange(position + 8, position + 12) =~= be32(header.pages_pos));
    assert(stream.subrange(position + 12, position + 16) =~= be32(header.fts_pos));
}

/// The stream once a container with the book is written behind what
/// `before` holds.
pub open spec fn container(
    before: Seq<u8>,
    pages: Seq<PageView>,
    entries: Seq<EntryView>,
    compression: BlockCompression,
) -> Result<Seq<u8>, PersistenceError> {
    if pages.len() > u32::MAX {
        Err(PersistenceError::TooManyPages)
    } else {
        let reserved = reserved_header(pages.len() as u32);
        let front = before + magic() + header_bytes(reserved) + metadata::metadata_bytes(entries);
        match pages_section(front, pages, compression) {
            Err(error) => Err(error),
            Ok((stream, position)) => if position - before.len() > u32::MAX {
                Err(PersistenceError::TooManyPages)
            } else {
                let header = complete_header(
                    pages.len() as u32,
                    (position - before.len()) as u32,
                );
                Ok(
                    before + magic() + header_bytes(header) + stream.skip(
                        before.len() + MAGIC_SIZE + HEADER_SIZE,
                    ),
                )
            },
        }
    }
}

/// Whether a container starts at `beginning` in `stream` from which the
/// book is read as it is: its metadata, and each of its pages through an
/// entry of the index.
pub open spec fn holds_book(
    stream: Seq<u8>,
    beginning: int,
    entries: Seq<EntryView>,
    pages: Seq<PageView>,
) -> bool {
    let header = header_at(stream, beginning + MAGIC_SIZE);
    &&& 0 <= beginning
    &&& beginning + MAGIC_SIZE + HEADER_SIZE <= stream.len()
    &&& stream.subrange(beginning, beginning + MAGIC_SIZE) == magic()
    &&& header.num_pages == pages.len()
    &&& beginning + header.metadata_pos <= stream.len()
    &&& metadata::reading(stream.skip(beginning + header.metadata_pos)) == (Reading {
        entries,
        error: None,
    })
    &&& holds_pages(
        stream,
        beginning + header.pages_pos,
        pages,
        beginning + MAGIC_SIZE + HEADER_SIZE,
    )
}

/// Why no book can be loaded from the container that starts at
/// `beginning` in `stream`, if there is a reason.
pub open spec fn load_fault(stream: Seq<u8>, beginning: int) -> Option<PersistenceError> {
    let header = header_at(stream, beginning + MAGIC_SIZE);
    if beginning + MAGIC_SIZE > stream.len() || stream.subrange(beginning, beginning + MAGIC_SIZE)
        != magic() {
        Some(PersistenceError::InvalidMagic)
    } else if beginning + MAGIC_SIZE + HEADER_SIZE > stream.len() {
        Some(PersistenceError::Io(IoKind::UnexpectedEof))
    } else {
        match page::first_fault(stream, beginning + header.pages_pos, header.num_pages as nat) {
            Some(error) => Some(PersistenceError::PageError(error)),
            None => None,
        }
    }
}

/// Whether `book` is what is loaded from the container that starts at
/// `beginning` in `stream`.
pub open spec fn loaded(stream: Seq<u8>, beginning: int, book: BookView) -> bool {
    let header = header_at(stream, beginning + MAGIC_SIZE);
    &&& book.stream == stream
    &&& book.beginning == beginning
    &&& book.num_pages == header.num_pages
    &&& book.metadata_pos == header.metadata_pos
    &&& page::ascending(book.index)
    &&& book.index.len() == header.num_pages
    &&& forall|entry: IndexEntry|
        book.index.contains(entry) <==> page::records(
            stream,
            beginning + header.pages_pos,
            header.num_pages as nat,
        ).contains(entry)
}

/// A container whose header was completed once the pages were written
/// holds the book.
pub proof fn lemma_patched_container(
    before: Seq<u8>,
    entries: Seq<EntryView>,
    pages: Seq<PageView>,
    written: Seq<u8>,
    position: int,
    header: Header,
)
    requires
        forall|i: int| 0 <= i < entries.len() ==> metadata::storable(#[trigger] entries[i]),
        pages.len() <= u32::MAX,
        position - before.len() <= u32::MAX,
        header == complete_header(pages.len() as u32, (position - before.len()) as u32),
        ({
            let front = before + magic() + header_bytes(reserved_header(pages.len() as u32))
                + metadata::metadata_bytes(entries);
            &&& front.len() <= written.len()
            &&& written.subrange(0, front.len() as int) == front
            &&& holds_pages(written, position, pages, front.len() as int)
        }),
    ensures
        ({
            let stream = before + magic() + header_bytes(header) + written.skip(
                before.len() + MAGIC_SIZE + HEADER_SIZE,
            );
            &&& holds_book(stream, before.len() as int, entries, pages)
            &&& stream.subrange(0, before.len() as int) == before
        }),
{
    let reserved = reserved_header(pages.len() as u32);
    let listed = metadata::metadata_bytes(entries);
    let front = before + magic() + header_bytes(reserved) + listed;
    let start = before.len() as int;
    let body = start + MAGIC_SIZE + HEADER_SIZE;
    let stream = before + magic() + header_bytes(header) + written.skip(body);
    lemma_header_round_trip(before + magic(), reserved, Seq::empty());
    lemma_header_round_trip(before + magic(), header, written.skip(body));
    assert(stream.subrange(start, start + MAGIC_SIZE) =~= magic());
    assert(stream.subrange(0, start) =~= before);
    assert(stream.skip(body) =~= written.skip(body));
    // The metadata of the book.
    let tail = written.skip(front.len() as int);
    assert(front.skip(body) =~= listed);
    assert(written.skip(body) =~= written.subrange(0, front.len() as int).skip(body) + tail);
    metadata::lemma_round_trip(entries, tail);
    // The pages.
    assert(holds_pages(written, position, pages, body));
    lemma_holds_pages_patched(written, stream, position, pages, body);
}

/// No entry of an index that holds pages with distinct identifiers has
/// anything wrong.
pub proof fn lemma_index_without_fault(
    stream: Seq<u8>,
    position: int,
    pages: Seq<PageView>,
    from: int,
    count: nat,
)
    requires
        holds_pages(stream, position, pages, from),
        count <= pages.len(),
        forall|i: int, j: int|
            0 <= i < j < pages.len() ==> (#[trigger] pages[i]).id != (#[trigger] pages[j]).id,
    ensures
        page::first_fault(stream, position, count) is None,
    decreases count,
{
    if count > 0 {
        lemma_index_without_fault(stream, position, pages, from, (count - 1) as nat);
        let k = count - 1;
        assert(pages[k].id != 0);
        assert forall|j: int| 0 <= j < k implies (#[trigger] page::persistence::entry_at(
            stream,
            position + INDEX_ENTRY_SIZE * j,
        )).id != pages[k].id by {
            assert(pages[j].id != pages[k].id);
        }
    }
}

/// An index that was loaded holds each page of the index that it was
/// loaded from under the identifier of the page.
pub proof fn lemma_lookup_of_record(
    index: Seq<IndexEntry>,
    found: Seq<IndexEntry>,
    i: int,
)
    requires
        page::ascending(index),
        0 <= i < found.len(),
        forall|entry: IndexEntry| index.contains(entry) <==> found.contains(entry),
    ensures
        page::lookup(index, found[i].id) == Some(found[i]),
{
    let record = found[i];
    assert(found.contains(record));
    assert(index.contains(record));
    let at = choose|at: int| 0 <= at < index.len() && index[at] == record;
    assert(index[at].id == record.id);
    let chosen = choose|at: int| 0 <= at < index.len() && (#[trigger] index[at]).id == record.id;
    if chosen < at {
        assert(index[chosen].id < index[at].id);
    } else if at < chosen {
        assert(index[at].id < index[chosen].id);
    }
}

/// An index that was loaded from the index of a container holds each
/// page under its identifier, and nothing but the pages.
pub proof fn lemma_loaded_pages(
    stream: Seq<u8>,
    position: int,
    pages: Seq<PageView>,
    from: int,
    index: Seq<IndexEntry>,
)
    requires
        holds_pages(stream, position, pages, from),
        page::ascending(index),
        forall|entry: IndexEntry|
            index.contains(entry) <==> page::records(stream, position, pages.len()).contains(
                entry,
            ),
    ensures
        forall|i: int|
            0 <= i < pages.len() ==> (page::lookup(index, (#[trigger] pages[i]).id) matches Some(
                entry,
            ) && page::persistence::page_at(stream, entry) == Ok::<PageView, page::Error>(
                pages[i],
            )),
        forall|k: int|
            0 <= k < index.len() ==> exists|i: int|
                0 <= i < pages.len() && (#[trigger] index[k]).id == (#[trigger] pages[i]).id,
{
    let found = page::records(stream, position, pages.len());
    assert(found.len() == pages.len());
    assert forall|i: int| 0 <= i < pages.len() implies (page::lookup(
        index,
        (#[trigger] pages[i]).id,
    ) matches Some(entry) && page::persistence::page_at(stream, entry) == Ok::<
        PageView,
        page::Error,
    >(pages[i])) by {
        let record = page::persistence::entry_at(stream, position + INDEX_ENTRY_SIZE * i);
        assert(found[i] == record);
        assert(record.id == pages[i].id);
        assert(page::persistence::page_at(stream, record) == Ok::<PageView, page::Error>(
            pages[i],
        ));
        lemma_lookup_of_record(index, found, i);
        assert(page::lookup(index, pages[i].id) == Some(record));
    }
    assert forall|k: int| 0 <= k < index.len() implies exists|i: int|
        0 <= i < pages.len() && (#[trigger] index[k]).id == (#[trigger] pages[i]).id by {
        let entry = index[k];
        assert(index.contains(entry));
        assert(found.contains(entry));
        let i = choose|i: int| 0 <= i < found.len() && found[i] == entry;
        let record = page::persistence::entry_at(stream, position + INDEX_ENTRY_SIZE * i);
        assert(found[i] == record);
        assert(record.id == pages[i].id);
        assert(0 <= i < pages.len() && index[k].id == pages[i].id);
    }
}

/// A book that was dumped with distinct identifiers can be loaded:
/// nothing is wrong with its container.
pub proof fn lemma_dump_can_be_loaded(
    stream: Seq<u8>,
    beginning: int,
    entries: Seq<EntryView>,
    pages: Seq<PageView>,
)
    requires
        holds_book(stream, beginning, entries, pages),
        forall|i: int, j: int|
            0 <= i < j < pages.len() ==> (#[trigger] pages[i]).id != (#[trigger] pages[j]).id,
    ensures
        load_fault(stream, beginning) is None,
{
    let header = header_at(stream, beginning + MAGIC_SIZE);
    lemma_index_without_fault(
        stream,
        beginning + header.pages_pos,
        pages,
        beginning + MAGIC_SIZE + HEADER_SIZE,
        pages.len(),
    );
}

/// A book that was dumped is the book that is loaded: the metadata of the
/// book are read as they were written; the index has an entry for each
/// page and for nothing else; and each page is read back under its
/// identifier as it was written.
pub proof fn lemma_load_of_dump(
    stream: Seq<u8>,
    beginning: int,
    entries: Seq<EntryView>,
    pages: Seq<PageView>,
    book: BookView,
)
    requires
        holds_book(stream, beginning, entries, pages),
        loaded(stream, beginning, book),
    ensures
        book.num_pages == pages.len(),
        book.index.len() == pages.len(),
        metadata::reading(book.metadata_input()) == (Reading { entries, error: None }),
        forall|i: int|
            0 <= i < pages.len() ==> (page::lookup(book.index, (#[trigger] pages[i]).id)
                matches Some(entry) && page::persistence::page_at(stream, entry) == Ok::<
                PageView,
                page::Error,
            >(pages[i])),
        forall|k: int|
            0 <= k < book.index.len() ==> exists|i: int|
                0 <= i < pages.len() && (#[trigger] book.index[k]).id == (#[trigger] pages[i]).id,
{
    let header = header_at(stream, beginning + MAGIC_SIZE);
    lemma_loaded_pages(
        stream,
        beginning + header.pages_pos,
        pages,
        beginning + MAGIC_SIZE + HEADER_SIZE,
        book.index,
    );
}

/// What a stream starts with, it still starts with once more is written
/// behind it.
proof fn lemma_prefix_kept(before: Seq<u8>, front: Seq<u8>, written: Seq<u8>)
    requires
        before.len() <= front.len() <= written.len(),
        front.subrange(0, before.len() as int) == before,
        written.subrange(0, front.len() as int) == front,
    ensures
        written.subrange(0, before.len() as int) == before,
        front.subrange(0, before.len() as int) == before,
{
    assert(written.subrange(0, before.len() as int) =~= written.subrange(
        0,
        front.len() as int,
    ).subrange(0, before.len() as int));
    assert(front.subrange(0, before.len() as int) =~= before);
}

/// Writes `bytes` over what `output` holds from `position` on.
fn overwrite(output: &mut Vec<u8>, position: usize, bytes: &[u8])
    requires
        position + bytes@.len() <= old(output)@.len(),
    ensures
        final(output)@ == old(output)@.subrange(0, position as int) + bytes@ + old(output)@.skip(
            position + bytes@.len(),
        ),
{
    let mut i: usize = 0;
    while i < bytes.len()
        invariant
            i <= bytes.len(),
            position + bytes@.len() <= output@.len(),
            output@.len() == old(output)@.len(),
            output@ == old(output)@.subrange(0, position as int) + bytes@.subrange(0, i as int)
                + old(output)@.skip(position + i),
        decreases bytes.len() - i,
    {
        assert(position + i < output.len());
        output[position + i] = bytes[i];
        i = i + 1;
        assert(output@ =~= old(output)@.subrange(0, position as int) + bytes@.subrange(
            0,
            i as int,
        ) + old(output)@.skip(position + i));
    }
    assert(bytes@.subrange(0, bytes@.len() as int) =~= bytes@);
}

impl Header {
    /// Appends the bytes of the header to `output`.
    pub fn write(&self, output: &mut Vec<u8>)
        ensures
            final(output)@ == old(output)@ + header_bytes(*self),
    {
        endian::push_be32(output, self.num_pages);
        endian::push_be32(output, self.metadata_pos);
        endian::push_be32(output, self.pages_pos);
        endian::push_be32(output, self.fts_pos);
        assert(output@ =~= old(output)@ + header_bytes(*self));
    }

    /// Reads the header that stands at `position` in `input`.
    pub fn read(input: &[u8], position: usize) -> (header: Header)
        requires
            position + HEADER_SIZE <= input@.len(),
        ensures
            header == header_at(input@, position as int),
    {
        assert(position + HEADER_SIZE <= input.len());
        Header {
            num_pages: endian::read_be32(input, position),
            metadata_pos: endian::read_be32(input, position + 4),
            pages_pos: endian::read_be32(input, position + 8),
            fts_pos: endian::read_be32(input, position + 12),
        }
    }
}

/// Appends the magic number to `output`.
pub fn write_magic(output: &mut Vec<u8>)
    ensures
        final(output)@ == old(output)@ + magic(),
{
    output.push(0x89);
    output.push(0x01);
    output.push(0x54);
    output.push(0x48);
    output.push(0x52);
    output.push(0x50);
    output.push(0x4B);
    output.push(0x47);
    assert(output@ =~= old(output)@ + magic());
}

/// Whether the magic number stands at `position` in `input`.
pub fn has_magic(input: &[u8], position: usize) -> (found: bool)
    ensures
        found == (position + MAGIC_SIZE <= input@.len() && input@.subrange(
            position as int,
            position + MAGIC_SIZE,
        ) == magic()),
{
    if input.len() < MAGIC_SIZE || position > input.len() - MAGIC_SIZE {
        return false;
    }
    let found = input[position] == 0x89 && input[position + 1] == 0x01 && input[position + 2]
        == 0x54 && input[position + 3] == 0x48 && input[position + 4] == 0x52 && input[position
        + 5] == 0x50 && input[position + 6] == 0x4B && input[position + 7] == 0x47;
    proof {
        let read = input@.subrange(position as int, position + MAGIC_SIZE);
        if found {
            assert(read =~= magic());
        } else {
            assert(read[0] == input@[position as int]);
            assert(read[1] == input@[position + 1]);
            assert(read[2] == input@[position + 2]);
            assert(read[3] == input@[position + 3]);
            assert(read[4] == input@[position + 4]);
            assert(read[5] == input@[position + 5]);
            assert(read[6] == input@[position + 6]);
            assert(read[7] == input@[position + 7]);
        }
    }
    found
}

/// Loads the book of the container that starts at `beginning` in `input`,
/// where the magic number has been found.
pub fn load(input: Vec<u8>, beginning: usize) -> (result: Result<Book, PersistenceError>)
    requires
        beginning + MAGIC_SIZE <= input@.len(),
        input@.subrange(beginning as int, beginning + MAGIC_SIZE) == magic(),
    ensures
        match load_fault(input@, beginning as int) {
            Some(error) => result matches Err(found) && found == error,
            None => result matches Ok(book) && book.wf() && loaded(
                input@,
                beginning as int,
                book@,
            ),
        },
{
    if input.len() - beginning < MAGIC_SIZE + HEADER_SIZE {
        return Err(PersistenceError::Io(IoKind::UnexpectedEof));
    }
    let header = Header::read(input.as_slice(), beginning + MAGIC_SIZE);
    let num_pages = header.num_pages as usize;
    let position = match (beginning as u64).checked_add(header.pages_pos as u64) {
        Some(position) => position,
        None => {
            // The index would start behind any byte that a stream can hold.
            if num_pages > 0 {
                proof {
                    page::lemma_first_fault_stays(
                        input@,
                        beginning + header.pages_pos,
                        0,
                        num_pages as nat,
                    );
                }
                return Err(
                    PersistenceError::PageError(page::Error::Io(IoKind::UnexpectedEof)),
                );
            }
            0
        },
    };
    let page_index = match page::Index::new(input.as_slice(), num_pages, position) {
        Ok(index) => index,
        Err(error) => {
            return Err(PersistenceError::PageError(error));
        },
    };
    proof {
        if num_pages == 0 {
            assert(page::records(input@, position as int, 0) =~= page::records(
                input@,
                beginning + header.pages_pos,
                0,
            ));
        }
    }
    Ok(
        Book::from_parts(
            DataBlocksReader::new(input),
            beginning,
            num_pages,
            header.metadata_pos as usize,
            page_index,
        ),
    )
}

/// The header that is written before the positions are known.
pub open spec fn reserved_header(num_pages: u32) -> Header {
    Header {
        num_pages,
        metadata_pos: NO_POSITION,
        pages_pos: NO_POSITION,
        fts_pos: NO_POSITION,
    }
}

/// The header once the pages are written and their index stands at
/// `pages_pos`.
pub open spec fn complete_header(num_pages: u32, pages_pos: u32) -> Header {
    Header {
        num_pages,
        metadata_pos: (MAGIC_SIZE + HEADER_SIZE) as u32,
        pages_pos,
        fts_pos: NO_POSITION,
    }
}

/// Writes what stands before the pages: the magic number, the header with
/// its space for the positions, and the metadata of the book.
fn write_front(output: &mut Vec<u8>, num_pages: u32, entries: &[MetadataEntry])
    ensures
        final(output)@ == old(output)@ + magic() + header_bytes(reserved_header(num_pages))
            + metadata::metadata_bytes(metadata::views(entries@)),
        final(output)@.len() >= old(output)@.len() + MAGIC_SIZE + HEADER_SIZE,
        final(output)@.subrange(0, old(output)@.len() as int) == old(output)@,
        forall|i: int|
            0 <= i < entries@.len() ==> metadata::storable(#[trigger] metadata::views(entries@)[i]),
{
    let header = Header {
        num_pages,
        metadata_pos: NO_POSITION,
        pages_pos: NO_POSITION,
        fts_pos: NO_POSITION,
    };
    // The magic number must be at the beginning of the container.
    write_magic(output);
    // The (incomplete) header reserves its space in the stream.
    header.write(output);
    // The metadata table.
    metadata::dump(output, entries);
    proof {
        lemma_header_round_trip(Seq::empty(), header, Seq::empty());
        assert(output@.subrange(0, old(output)@.len() as int) =~= old(output)@);
    }
}

/// Writes the complete header over the space that was reserved for it.
fn write_header(output: &mut Vec<u8>, beginning: usize, header: Header)
    requires
        beginning + MAGIC_SIZE + HEADER_SIZE <= old(output)@.len(),
    ensures
        final(output)@ == old(output)@.subrange(0, beginning + MAGIC_SIZE) + header_bytes(header)
            + old(output)@.skip(beginning + MAGIC_SIZE + HEADER_SIZE),
{
    let mut head: Vec<u8> = Vec::new();
    header.write(&mut head);
    proof {
        lemma_header_round_trip(Seq::empty(), header, Seq::empty());
        assert(head@ =~= header_bytes(header));
    }
    assert(beginning + MAGIC_SIZE + HEADER_SIZE <= output.len());
    overwrite(output, beginning + MAGIC_SIZE, head.as_slice());
}

/// Dumps a book behind what `output` holds. On failure the output holds
/// what it held before.
pub fn dump(
    output: &mut Vec<u8>,
    pages: &[Page],
    entries: &[MetadataEntry],
    compression: BlockCompression,
) -> (result: Result<(), PersistenceError>)
    requires
        compression.valid(),
    ensures
        match container(
            old(output)@,
            page::views(pages@),
            metadata::views(entries@),
            compression,
        ) {
            Err(error) => result == Err::<(), PersistenceError>(error) && final(output)@ == old(
                output,
            )@,
            Ok(stream) => {
                &&& result is Ok
                &&& final(output)@ == stream
                &&& stream.subrange(0, old(output)@.len() as int) == old(output)@
                &&& holds_book(
                    stream,
                    old(output)@.len() as int,
                    metadata::views(entries@),
                    page::views(pages@),
                )
            },
        },
{
    let ghost before = output@;
    let beginning = output.len();
    if pages.len() > u32::MAX as usize {
        return Err(PersistenceError::TooManyPages);
    }
    let num_pages = pages.len() as u32;
    write_front(output, num_pages, entries);
    let ghost front = output@;
    proof {
        assert(front.subrange(0, front.len() as int) =~= front);
    }

    // The pages table.
    match dump_pages(output, pages, compression) {
        Ok(page_pos) => {
            proof {
                lemma_prefix_kept(before, front, output@);
            }
            seal(
                output,
                beginning,
                num_pages,
                page_pos,
                Ghost(before),
                Ghost(metadata::views(entries@)),
                Ghost(page::views(pages@)),
            )
        },
        Err(error) => {
            output.truncate(beginning);
            Err(error)
        },
    }
}

/// Completes the header of a container whose pages were written, their
/// index at `page_pos`. Where that position does not fit in the header the
/// container is taken back.
fn seal(
    output: &mut Vec<u8>,
    beginning: usize,
    num_pages: u32,
    page_pos: u64,
    Ghost(before): Ghost<Seq<u8>>,
    Ghost(entries): Ghost<Seq<EntryView>>,
    Ghost(pages): Ghost<Seq<PageView>>,
) -> (result: Result<(), PersistenceError>)
    requires
        beginning == before.len(),
        num_pages == pages.len(),
        forall|i: int| 0 <= i < entries.len() ==> metadata::storable(#[trigger] entries[i]),
        old(output)@.subrange(0, beginning as int) == before,
        ({
            let front = before + magic() + header_bytes(reserved_header(num_pages))
                + metadata::metadata_bytes(entries);
            &&& front.len() <= page_pos <= old(output)@.len()
            &&& old(output)@.subrange(0, front.len() as int) == front
            &&& holds_pages(old(output)@, page_pos as int, pages, front.len() as int)
        }),
    ensures
        page_pos - beginning > u32::MAX ==> result == Err::<(), PersistenceError>(
            PersistenceError::TooManyPages,
        ) && final(output)@ == before,
        page_pos - beginning <= u32::MAX ==> {
            let stream = before + magic() + header_bytes(
                complete_header(num_pages, (page_pos - beginning) as u32),
            ) + old(output)@.skip(beginning + MAGIC_SIZE + HEADER_SIZE);
            &&& result is Ok
            &&& final(output)@ == stream
            &&& stream.subrange(0, beginning as int) == before
            &&& holds_book(stream, beginning as int, entries, pages)
        },
{
    let ghost written = output@;
    proof {
        lemma_header_round_trip(Seq::empty(), reserved_header(num_pages), Seq::empty());
    }
    let relative = page_pos - beginning as u64;
    if relative > u32::MAX as u64 {
        output.truncate(beginning);
        return Err(PersistenceError::TooManyPages);
    }
    // Write the final header.
    let header = Header {
        num_pages,
        metadata_pos: (MAGIC_SIZE + HEADER_SIZE) as u32,
        pages_pos: relative as u32,
        fts_pos: NO_POSITION,
    };
    write_header(output, beginning, header);
    proof {
        let start = beginning as int;
        let front = before + magic() + header_bytes(reserved_header(num_pages))
            + metadata::metadata_bytes(entries);
        assert(written.subrange(0, start + MAGIC_SIZE) =~= front.subrange(0, start + MAGIC_SIZE));
        assert(front.subrange(0, start + MAGIC_SIZE) =~= before + magic());
        lemma_patched_container(before, entries, pages, written, page_pos as int, header);
    }
    Ok(())
}

} // verus!
