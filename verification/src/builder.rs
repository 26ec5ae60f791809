//! This module provide the implementation to create a new book.

use crate::metadata;
use crate::metadata::{EntryView, MetadataEntry};
use crate::page;
use crate::page::{Page, PageId, PageView};
use crate::persistence;
use crate::persistence::datablock::BlockCompression;
use crate::persistence::v1::{container, holds_book};
use crate::persistence::PersistenceError;
use vstd::prelude::*;

verus! {

/// A builder for new books.
///
/// The pages are kept in memory, and then they can be stored with
/// [`BookBuilder::dump()`].
pub struct BookBuilder {
    next_page_id: u32,
    metadata: Vec<MetadataEntry>,
    pages: Vec<Page>,
    compression: BlockCompression,
}

impl BookBuilder {
    /// The identifier that the next page gets.
    pub closed spec fn next_page_id(&self) -> u32 {
        self.next_page_id
    }

    /// The metadata of the book, in the order in which they were added.
    pub closed spec fn entries(&self) -> Seq<MetadataEntry> {
        self.metadata@
    }

    /// The pages of the book, in the order in which they were made.
    pub closed spec fn pages(&self) -> Seq<Page> {
        self.pages@
    }

    /// How the data blocks will be compressed.
    pub closed spec fn compression(&self) -> BlockCompression {
        self.compression
    }

    /// Whether the next identifier is not zero, and the compression is
    /// one that can be used.
    pub open spec fn wf(&self) -> bool {
        &&& self.next_page_id() != 0
        &&& self.compression().valid()
    }

    /// Whether the builder holds nothing yet.
    pub open spec fn is_new(&self) -> bool {
        &&& self.next_page_id() == 1
        &&& self.entries().len() == 0
        &&& self.pages().len() == 0
        &&& self.compression() == BlockCompression::Uncompressed
    }

    /// Creates a new instance.
    pub fn new() -> (builder: BookBuilder)
        ensures
            builder.wf(),
            builder.is_new(),
    {
        BookBuilder {
            next_page_id: 1,
            metadata: Vec::new(),
            pages: Vec::new(),
            compression: BlockCompression::Uncompressed,
        }
    }

    /// Set the compression method to store data in each block.
    pub fn set_compression(&mut self, compression: BlockCompression) -> (builder: &mut BookBuilder)
        requires
            old(self).wf(),
            compression.valid(),
        ensures
            builder.wf(),
            builder.compression() == compression,
            builder.next_page_id() == old(self).next_page_id(),
            builder.entries() == old(self).entries(),
            builder.pages() == old(self).pages(),
            *final(self) == *final(builder),
    {
        self.compression = compression;
        self
    }

    /// Add a new metadata entry.
    ///
    /// The same metadata entry type can appear multiple times, but the
    /// reader can choose to show only one of them.
    pub fn add_metadata(&mut self, entry: MetadataEntry) -> (builder: &mut BookBuilder)
        requires
            old(self).wf(),
        ensures
            builder.wf(),
            builder.entries() == old(self).entries().push(entry),
            builder.compression() == old(self).compression(),
            builder.next_page_id() == old(self).next_page_id(),
            builder.pages() == old(self).pages(),
            *final(self) == *final(builder),
    {
        self.metadata.push(entry);
        self
    }

    /// Create a new page with a title. The content of the page is set
    /// using the mutable reference returned by this function.
    ///
    /// The page gets the next identifier: the first page gets 1, and each
    /// page one more than the page before, up to the largest identifier
    /// there is.
    pub fn new_page(&mut self, title: &str) -> (page: &mut Page)
        requires
            old(self).wf(),
        ensures
            page@ == (PageView {
                id: old(self).next_page_id(),
                parent_id: 0,
                metadata: seq![EntryView::Title(title@)],
                content: Seq::empty(),
            }),
            final(self).wf(),
            final(self).pages() == old(self).pages().push(*final(page)),
            final(self).next_page_id() == if old(self).next_page_id() == u32::MAX {
                u32::MAX
            } else {
                (old(self).next_page_id() + 1) as u32
            },
            final(self).entries() == old(self).entries(),
            final(self).compression() == old(self).compression(),
    {
        let page = Page::new(title.to_owned(), PageId::force_value(self.next_page_id));
        self.next_page_id = if self.next_page_id == u32::MAX {
            u32::MAX
        } else {
            self.next_page_id + 1
        };
        self.pages.push(page);
        let last = self.pages.len() - 1;
        &mut self.pages[last]
    }

    /// Dump this book behind what `output` holds. The written data can be
    /// loaded with [`load`](crate::Book::load). On failure the output
    /// holds what it held before.
    pub fn dump(&self, output: &mut Vec<u8>) -> (result: Result<(), PersistenceError>)
        requires
            self.wf(),
        ensures
            match container(
                old(output)@,
                page::views(self.pages()),
                metadata::views(self.entries()),
                self.compression(),
            ) {
                Err(error) => result == Err::<(), PersistenceError>(error) && final(output)@
                    == old(output)@,
                Ok(stream) => {
                    &&& result is Ok
                    &&& final(output)@ == stream
                    &&& stream.subrange(0, old(output)@.len() as int) == old(output)@
                    &&& holds_book(
                        stream,
                        old(output)@.len() as int,
                        metadata::views(self.entries()),
                        page::views(self.pages()),
                    )
                },
            },
    {
        persistence::dump(
            output,
            self.pages.as_slice(),
            self.metadata.as_slice(),
            self.compression,
        )
    }
}

} // verus!
