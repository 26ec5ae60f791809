//! Types to describe errors.

pub use crate::metadata::MetadataError;
pub use crate::page::Error as PageError;
pub use crate::persistence::datablock::BlockError;
pub use crate::persistence::PersistenceError;
pub use crate::toc::TocError;
