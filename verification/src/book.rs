//! Module with the `Book` implementation.

use crate::builder::BookBuilder;
use crate::metadata;
use crate::metadata::BinaryDataParser;
use crate::page;
use crate::page::persistence::{page_at, IndexEntry};
use crate::page::{Index, Page, PageId};
use crate::persistence;
use crate::persistence::datablock::reader::DataBlocksReader;
use crate::persistence::PersistenceError;
use crate::toc::{forest_view, toc_of, BookToc, TocEntry, TocError};
use vstd::prelude::*;
use vstd::slice::slice_subrange;

verus! {

/// A book as a mathematical value.
pub struct BookView {
    /// The bytes of the stream that holds the container.
    pub stream: Seq<u8>,
    /// Where the container starts in the stream.
    pub beginning: int,
    /// Number of pages in the book.
    pub num_pages: nat,
    /// Position of the metadata, counted from the start of the container.
    pub metadata_pos: nat,
    /// The page index, in the order of the identifiers.
    pub index: Seq<IndexEntry>,
}

impl BookView {
    /// The bytes from which the metadata of the book are read.
    pub open spec fn metadata_input(self) -> Seq<u8> {
        if self.beginning + self.metadata_pos <= self.stream.len() {
            self.stream.skip(self.beginning + self.metadata_pos)
        } else {
            Seq::empty()
        }
    }
}

/// A book loaded from an input stream, like a file.
pub struct Book {
    /// Data blocks in the input stream.
    data_blocks: DataBlocksReader,
    /// Position of the container in the input.
    beginning: usize,
    /// Number of pages in the book.
    num_pages: usize,
    /// Position, in bytes, of the metadata table in the container.
    metadata_pos: usize,
    /// Page index loaded from the input.
    page_index: Index,
}

impl View for Book {
    type V = BookView;

    closed spec fn view(&self) -> BookView {
        BookView {
            stream: self.data_blocks@.stream,
            beginning: self.beginning as int,
            num_pages: self.num_pages as nat,
            metadata_pos: self.metadata_pos as nat,
            index: self.page_index@,
        }
    }
}

impl Book {
    /// Whether the page index is in order and the reader of the data
    /// blocks keeps what it should.
    pub closed spec fn wf(&self) -> bool {
        &&& self.data_blocks.wf()
        &&& self.page_index.wf()
    }

    /// A book from its parts.
    pub(crate) fn from_parts(
        data_blocks: DataBlocksReader,
        beginning: usize,
        num_pages: usize,
        metadata_pos: usize,
        page_index: Index,
    ) -> (book: Book)
        requires
            data_blocks.wf(),
            page_index.wf(),
        ensures
            book.wf(),
            book@ == (BookView {
                stream: data_blocks@.stream,
                beginning: beginning as int,
                num_pages: num_pages as nat,
                metadata_pos: metadata_pos as nat,
                index: page_index@,
            }),
    {
        Book { data_blocks, beginning, num_pages, metadata_pos, page_index }
    }

    /// Return an instance of [`BookBuilder`], which can be used to build a
    /// new book, with its own pages and metadata.
    pub fn builder() -> (builder: BookBuilder)
        ensures
            builder.wf(),
            builder.is_new(),
    {
        BookBuilder::new()
    }

    /// Load the book of the container that `input` starts with.
    pub fn load(input: Vec<u8>) -> (result: Result<Book, PersistenceError>)
        ensures
            match persistence::v1::load_fault(input@, 0) {
                Some(error) => result matches Err(found) && found == error,
                None => result matches Ok(book) && book.wf() && persistence::v1::loaded(
                    input@,
                    0,
                    book@,
                ),
            },
    {
        persistence::load(input, 0)
    }

    /// Load the book of the container that starts at `beginning` in
    /// `input`.
    pub fn load_at(input: Vec<u8>, beginning: usize) -> (result: Result<Book, PersistenceError>)
        ensures
            match persistence::v1::load_fault(input@, beginning as int) {
                Some(error) => result matches Err(found) && found == error,
                None => result matches Ok(book) && book.wf() && persistence::v1::loaded(
                    input@,
                    beginning as int,
                    book@,
                ),
            },
    {
        persistence::load(input, beginning)
    }

    /// Return the number of pages included in the book.
    pub fn num_pages(&self) -> (count: usize)
        ensures
            count == self@.num_pages,
    {
        self.num_pages
    }

    /// Return a reader of all metadata entries in the book.
    pub fn metadata(&self) -> (parser: BinaryDataParser<'_>)
        ensures
            parser.active(),
            parser.remaining() == self@.metadata_input(),
    {
        let stream = self.data_blocks.input_stream();
        let len = stream.len();
        let start = if self.beginning <= len && self.metadata_pos <= len - self.beginning {
            self.beginning + self.metadata_pos
        } else {
            len
        };
        let input = slice_subrange(stream, start, len);
        assert(input@ =~= self@.metadata_input());
        metadata::load(input)
    }

    /// Return all pages in the book, in the order of their identifiers;
    /// for a page that cannot be read, the error.
    pub fn pages(&mut self) -> (pages: Vec<Result<Page, page::Error>>)
        requires
            old(self).wf(),
        ensures
            final(self).wf(),
            final(self)@ == old(self)@,
            pages@.len() == old(self)@.index.len(),
            forall|i: int|
                0 <= i < old(self)@.index.len() ==> match page_at(
                    old(self)@.stream,
                    old(self)@.index[i],
                ) {
                    Ok(page) => (#[trigger] pages@[i]) matches Ok(found) && found@ == page,
                    Err(error) => pages@[i] matches Err(found) && found == error,
                },
    {
        self.page_index.pages_iter(&mut self.data_blocks)
    }

    /// Return a single page by its identifier.
    pub fn get_page_by_id(&mut self, page_id: PageId) -> (result: Result<Page, page::Error>)
        requires
            old(self).wf(),
        ensures
            final(self).wf(),
            final(self)@ == old(self)@,
            match page::lookup(old(self)@.index, page_id@) {
                None => result matches Err(found) && found == page::Error::InvalidId(page_id@),
                Some(entry) => match page_at(old(self)@.stream, entry) {
                    Ok(page) => result matches Ok(found) && found@ == page,
                    Err(error) => result matches Err(found) && found == error,
                },
            },
    {
        self.page_index.get_by_id(&mut self.data_blocks, page_id)
    }

    /// Table of contents of this book: the pages without parent, in the
    /// order of their identifiers, each with the pages under it.
    pub fn toc(&mut self) -> (result: Result<Vec<TocEntry>, TocError>)
        requires
            old(self).wf(),
        ensures
            final(self).wf(),
            final(self)@ == old(self)@,
            match toc_of(old(self)@.stream, old(self)@.index) {
                Err(fault) => result matches Err(error) && error@ == fault,
                Ok(state) => result matches Ok(entries) && forest_view(entries@) == state.forest,
            },
    {
        match BookToc::new(&mut self.data_blocks, &self.page_index) {
            Ok(toc) => Ok(toc.into_entries()),
            Err(error) => Err(error),
        }
    }
}

} // verus!
