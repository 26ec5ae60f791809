//! Persistence of books in a binary container.

pub mod datablock;
pub mod kvlist;
pub mod v1;

use self::datablock::{BlockCompression, BlockError, IoKind};
use crate::book::Book;
use crate::metadata;
use crate::metadata::MetadataEntry;
use crate::page;
use crate::page::Page;
use vstd::prelude::*;

verus! {

/// Errors related to persistence operations.
#[derive(Debug, Clone, Copy, PartialEq, Eq, Structural)]
#[non_exhaustive]
pub enum PersistenceError {
    /// A payload could not be compressed.
    Io(IoKind),
    /// The container does not start with the magic number.
    InvalidMagic,
    /// The book contains too many pages, or too much of something else:
    /// a count or an offset does not fit in `u32`.
    TooManyPages,
    /// The payload of a data block, as it is stored, does not fit in `u32`.
    BlockTooLarge,
    /// Unable to load page index.
    PageError(crate::page::Error),
}

/// The error of the persistence that stands for an error of the writer of
/// data blocks.
pub open spec fn block_failure(error: BlockError) -> PersistenceError {
    match error {
        BlockError::BlockTooLarge => PersistenceError::BlockTooLarge,
        BlockError::Io(kind) => PersistenceError::Io(kind),
        _ => PersistenceError::Io(IoKind::Other),
    }
}

/// The error of the persistence that stands for an error of the writer of
/// data blocks.
pub fn from_block_failure(error: BlockError) -> (result: PersistenceError)
    ensures
        result == block_failure(error),
{
    match error {
        BlockError::BlockTooLarge => PersistenceError::BlockTooLarge,
        BlockError::Io(kind) => PersistenceError::Io(kind),
        _ => PersistenceError::Io(IoKind::Other),
    }
}

/// Load a book from an input, like the bytes of a file.
///
/// The container is expected to start at `beginning`, and to be written by
/// the [`dump`] function.
pub fn load(input: Vec<u8>, beginning: usize) -> (result: Result<Book, PersistenceError>)
    ensures
        match v1::load_fault(input@, beginning as int) {
            Some(error) => result matches Err(found) && found == error,
            None => result matches Ok(book) && book.wf() && v1::loaded(
                input@,
                beginning as int,
                book@,
            ),
        },
{
    if !v1::has_magic(input.as_slice(), beginning) {
        return Err(PersistenceError::InvalidMagic);
    }
    v1::load(input, beginning)
}

/// Dump the content of the book behind what `output` holds. On failure the
/// output holds what it held before.
pub fn dump(
    output: &mut Vec<u8>,
    pages: &[Page],
    entries: &[MetadataEntry],
    compression: BlockCompression,
) -> (result: Result<(), PersistenceError>)
    requires
        compression.valid(),
    ensures
        match v1::container(
            old(output)@,
            page::views(pages@),
            metadata::views(entries@),
            compression,
        ) {
            Err(error) => result == Err::<(), PersistenceError>(error) && final(output)@ == old(
                output,
            )@,
            Ok(stream) => {
                &&& result is Ok
                &&& final(output)@ == stream
                &&& stream.subrange(0, old(output)@.len() as int) == old(output)@
                &&& v1::holds_book(
                    stream,
                    old(output)@.len() as int,
                    metadata::views(entries@),
                    page::views(pages@),
                )
            },
        },
{
    v1::dump(output, pages, entries, compression)
}

} // verus!
