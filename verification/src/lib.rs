//! Storage of a book, a collection of pages with metadata, in a single
//! seekable binary container.
//!
//! Content is organized into *pages*. The collection of pages is a *book*.
//! Both pages and books can contain metadata entries.
//!
//! New books are created with [`BookBuilder`]: content is added with
//! [`add_metadata`](BookBuilder::add_metadata) and
//! [`new_page`](BookBuilder::new_page), and the book is persisted with
//! [`dump`](BookBuilder::dump). A book written that way is loaded with
//! [`Book::load`].

pub mod book;
pub mod builder;
pub mod endian;
pub mod metadata;
pub mod page;
pub mod persistence;
pub mod toc;
pub mod varint;

pub use book::Book;
pub use builder::BookBuilder;
pub use metadata::MetadataEntry;
pub use page::{Page, PageId};
pub use persistence::datablock::BlockCompression;
pub use toc::TocEntry;

/// Types to describe errors.
pub mod errors;
