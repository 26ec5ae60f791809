//! This module provides the [`Page`] type, which contains a single page in
//! memory.

pub mod persistence;

use self::persistence::IndexEntry;
use crate::metadata;
use crate::metadata::{EntryView, MetadataEntry, MetadataError};
use crate::persistence::datablock::reader::DataBlocksReader;
use crate::persistence::datablock::{BlockError, IoKind};
use crate::varint::VarintError;
use vstd::prelude::*;

verus! {

/// Errors related to the reading of pages.
#[derive(Debug, Clone, Copy, PartialEq, Eq, Structural)]
#[non_exhaustive]
pub enum Error {
    /// The stream could not be read.
    Io(IoKind),
    /// The tag of a data block is none of the known ones.
    InvalidBlockType(u8),
    /// The metadata of the page could not be read.
    InvalidMetadata(MetadataError),
    /// Failed to decode a LEB128-encoded number.
    Leb128Error(VarintError),
    /// A length or an offset reaches beyond what there is.
    InvalidLength(u64),
    /// The identifier is zero, or no page has it.
    InvalidId(u32),
    /// Two pages have the identifier.
    DuplicatedId(u32),
}

/// The error of a page that stands for an error of a data block.
pub open spec fn block_error(error: BlockError) -> Error {
    match error {
        BlockError::Io(kind) => Error::Io(kind),
        BlockError::InvalidBlockType(tag) => Error::InvalidBlockType(tag),
        BlockError::InvalidLength(length) => Error::InvalidLength(length),
        BlockError::BlockTooLarge => Error::Io(IoKind::Other),
    }
}

/// The error of a page that stands for an error of a data block.
pub fn from_block_error(error: BlockError) -> (result: Error)
    ensures
        result == block_error(error),
{
    match error {
        BlockError::Io(kind) => Error::Io(kind),
        BlockError::InvalidBlockType(tag) => Error::InvalidBlockType(tag),
        BlockError::InvalidLength(length) => Error::InvalidLength(length),
        BlockError::BlockTooLarge => Error::Io(IoKind::Other),
    }
}

/// Page identifier: a 32-bit number that is not zero.
#[derive(Debug, PartialEq, Eq, Structural, Clone, Copy, Hash, PartialOrd, Ord)]
pub struct PageId(u32);

impl View for PageId {
    type V = u32;

    closed spec fn view(&self) -> u32 {
        self.0
    }
}

impl PageId {
    #[verifier::type_invariant]
    spec fn inv(self) -> bool {
        self.0 != 0
    }

    /// The identifier with the number `id`, which is not zero.
    pub fn force_value(id: u32) -> (page_id: PageId)
        requires
            id != 0,
        ensures
            page_id@ == id,
    {
        PageId(id)
    }

    /// The identifier with the number `id`, unless that is zero.
    pub fn new(id: u32) -> (page_id: Option<PageId>)
        ensures
            id == 0 ==> page_id is None,
            id != 0 ==> (page_id matches Some(found) && found@ == id),
    {
        if id == 0 {
            None
        } else {
            Some(PageId(id))
        }
    }

    /// The number of the identifier.
    pub fn get(&self) -> (id: u32)
        ensures
            id == self@,
            id != 0,
    {
        proof {
            use_type_invariant(self);
        }
        self.0
    }
}

impl From<PageId> for u32 {
    fn from(id: PageId) -> (number: u32) {
        id.0
    }
}

impl vstd::std_specs::convert::FromSpecImpl<PageId> for u32 {
    open spec fn obeys_from_spec() -> bool {
        true
    }

    open spec fn from_spec(id: PageId) -> u32 {
        id@
    }
}

/// The number of an optional identifier, zero standing for none.
pub open spec fn number_of(id: Option<PageId>) -> u32 {
    match id {
        Some(id) => id@,
        None => 0,
    }
}

/// A page as a mathematical value.
pub struct PageView {
    pub id: u32,
    /// The identifier of the parent, or zero where there is none.
    pub parent_id: u32,
    pub metadata: Seq<EntryView>,
    pub content: Seq<u8>,
}

/// A single page in a book.
#[derive(Debug, PartialEq, Eq, Clone)]
pub struct Page {
    pub(crate) id: PageId,
    pub(crate) parent_id: Option<PageId>,
    pub(crate) metadata: Vec<MetadataEntry>,
    pub(crate) content: Vec<u8>,
}

impl View for Page {
    type V = PageView;

    closed spec fn view(&self) -> PageView {
        PageView {
            id: self.id@,
            parent_id: number_of(self.parent_id),
            metadata: metadata::views(self.metadata@),
            content: self.content@,
        }
    }
}

/// The pages of a vector, each by its view.
pub open spec fn views(pages: Seq<Page>) -> Seq<PageView> {
    pages.map_values(|page: Page| page@)
}

impl Page {
    /// A page with a title and nothing else.
    pub fn new(title: String, id: PageId) -> (page: Page)
        ensures
            page@ == (PageView {
                id: id@,
                parent_id: 0,
                metadata: seq![EntryView::Title(title@)],
                content: Seq::empty(),
            }),
    {
        let mut metadata: Vec<MetadataEntry> = Vec::new();
        metadata.push(MetadataEntry::Title(title));
        let page = Page { id, parent_id: None, metadata, content: Vec::new() };
        assert(page@.metadata =~= seq![EntryView::Title(title@)]);
        page
    }

    /// Return the page identifier.
    pub fn id(&self) -> (id: PageId)
        ensures
            id@ == self@.id,
    {
        self.id
    }

    /// Set the parent page.
    pub fn set_parent(&mut self, page_id: PageId) -> (page: &mut Page)
        ensures
            page@ == (PageView { parent_id: page_id@, ..old(self)@ }),
            *final(self) == *final(page),
    {
        self.parent_id = Some(page_id);
        self
    }

    /// Add a metadata entry to the page.
    pub fn add_metadata(&mut self, entry: MetadataEntry) -> (page: &mut Page)
        ensures
            page@ == (PageView { metadata: old(self)@.metadata.push(entry@), ..old(self)@ }),
            *final(self) == *final(page),
    {
        self.metadata.push(entry);
        assert(self@.metadata =~= old(self)@.metadata.push(entry@));
        self
    }

    /// Set the content for this page.
    pub fn set_content(&mut self, content: Vec<u8>) -> (page: &mut Page)
        ensures
            page@ == (PageView { content: content@, ..old(self)@ }),
            *final(self) == *final(page),
    {
        self.content = content;
        self
    }

    /// Return the parent of this page.
    pub fn parent(&self) -> (parent: Option<PageId>)
        ensures
            number_of(parent) == self@.parent_id,
    {
        self.parent_id
    }

    /// Return the content of this page.
    pub fn content(&self) -> (content: &[u8])
        ensures
            content@ == self@.content,
    {
        self.content.as_slice()
    }

    /// Return the metadata of this page.
    pub fn metadata(&self) -> (entries: &[MetadataEntry])
        ensures
            metadata::views(entries@) == self@.metadata,
    {
        self.metadata.as_slice()
    }
}

/// Whether the identifiers of `entries` ascend strictly, and none is zero.
pub open spec fn ascending(entries: Seq<IndexEntry>) -> bool {
    &&& forall|i: int, j: int|
        0 <= i < j < entries.len() ==> (#[trigger] entries[i]).id < (#[trigger] entries[j]).id
    &&& forall|i: int| 0 <= i < entries.len() ==> (#[trigger] entries[i]).id != 0
}

/// The entries that stand in `bytes` from `position` on, `count` of them,
/// in the order in which they stand there.
pub open spec fn records(bytes: Seq<u8>, position: int, count: nat) -> Seq<IndexEntry> {
    Seq::new(count, |k: int| persistence::entry_at(bytes, position + persistence::INDEX_ENTRY_SIZE * k))
}

/// What is wrong with the entry `k` of an index, if anything: it reaches
/// beyond the input, its identifier is zero, or an earlier entry has its
/// identifier.
pub open spec fn fault_at(bytes: Seq<u8>, position: int, k: int) -> Option<Error> {
    let entry = persistence::entry_at(bytes, position + persistence::INDEX_ENTRY_SIZE * k);
    if position + persistence::INDEX_ENTRY_SIZE * (k + 1) > bytes.len() {
        Some(Error::Io(IoKind::UnexpectedEof))
    } else if entry.id == 0 {
        Some(Error::InvalidId(0))
    } else if exists|j: int|
        0 <= j < k && (#[trigger] persistence::entry_at(
            bytes,
            position + persistence::INDEX_ENTRY_SIZE * j,
        )).id == entry.id {
        Some(Error::DuplicatedId(entry.id))
    } else {
        None
    }
}

/// What is wrong with the first entry among the first `count` that has
/// something wrong.
pub open spec fn first_fault(bytes: Seq<u8>, position: int, count: nat) -> Option<Error>
    decreases count,
{
    if count == 0 {
        None
    } else {
        match first_fault(bytes, position, (count - 1) as nat) {
            Some(error) => Some(error),
            None => fault_at(bytes, position, count - 1),
        }
    }
}

/// The first entry that has something wrong decides the fault of the
/// index, however many entries follow it.
pub proof fn lemma_first_fault_stays(bytes: Seq<u8>, position: int, k: nat, count: nat)
    requires
        k < count,
        first_fault(bytes, position, k) is None,
        fault_at(bytes, position, k as int) is Some,
    ensures
        first_fault(bytes, position, count) == fault_at(bytes, position, k as int),
    decreases count,
{
    if count > k + 1 {
        lemma_first_fault_stays(bytes, position, k, (count - 1) as nat);
    }
}

/// The entry of `entries` with the identifier `id`, if there is one.
pub open spec fn lookup(entries: Seq<IndexEntry>, id: u32) -> Option<IndexEntry> {
    if exists|i: int| 0 <= i < entries.len() && (#[trigger] entries[i]).id == id {
        Some(entries[choose|i: int| 0 <= i < entries.len() && (#[trigger] entries[i]).id == id])
    } else {
        None
    }
}

/// Puts `entry` into `entries` where its identifier belongs, unless an
/// entry has that identifier already.
fn insert_entry(entries: &mut Vec<IndexEntry>, entry: IndexEntry) -> (inserted: bool)
    requires
        ascending(old(entries)@),
        entry.id != 0,
    ensures
        ascending(final(entries)@),
        inserted == !exists|twin: IndexEntry|
            old(entries)@.contains(twin) && twin.id == entry.id,
        !inserted ==> final(entries)@ == old(entries)@,
        inserted ==> final(entries)@.len() == old(entries)@.len() + 1,
        inserted ==> forall|other: IndexEntry|
            final(entries)@.contains(other) <==> old(entries)@.contains(other) || other == entry,
{
    let ghost earlier = entries@;
    let mut p: usize = entries.len();
    while p > 0 && entries[p - 1].id > entry.id
        invariant
            p <= entries.len(),
            entries@ == earlier,
            forall|q: int| p <= q < entries@.len() ==> (#[trigger] entries@[q]).id > entry.id,
        decreases p,
    {
        p = p - 1;
    }
    if p > 0 && entries[p - 1].id == entry.id {
        assert(earlier.contains(earlier[p - 1]));
        return false;
    }
    proof {
        if exists|twin: IndexEntry| earlier.contains(twin) && twin.id == entry.id {
            let twin = choose|twin: IndexEntry| earlier.contains(twin) && twin.id == entry.id;
            let q = choose|q: int| 0 <= q < earlier.len() && earlier[q] == twin;
            if q < p - 1 {
                assert(earlier[q].id < earlier[p - 1].id);
            }
            assert(false);
        }
    }
    entries.insert(p, entry);
    proof {
        let later = entries@;
        assert(later =~= earlier.insert(p as int, entry));
        assert forall|i: int, j: int| 0 <= i < j < later.len() implies (#[trigger] later[i]).id < (
        #[trigger] later[j]).id by {
            if i < p && j > p {
                assert(later[i] == earlier[i]);
                assert(later[j] == earlier[j - 1]);
            } else if i < p && j == p {
                assert(later[i] == earlier[i]);
                if i < p - 1 {
                    assert(earlier[i].id < earlier[p - 1].id);
                }
            } else if i < p {
                assert(later[i] == earlier[i]);
                assert(later[j] == earlier[j]);
            } else if i == p {
                assert(later[j] == earlier[j - 1]);
            } else {
                assert(later[i] == earlier[i - 1]);
                assert(later[j] == earlier[j - 1]);
            }
        }
        assert forall|i: int| 0 <= i < later.len() implies (#[trigger] later[i]).id != 0 by {
            if i < p {
                assert(later[i] == earlier[i]);
            } else if i > p {
                assert(later[i] == earlier[i - 1]);
            }
        }
        assert forall|other: IndexEntry|
            later.contains(other) <==> earlier.contains(other) || other == entry by {
            if later.contains(other) {
                let i = choose|i: int| 0 <= i < later.len() && later[i] == other;
                if i < p {
                    assert(earlier[i] == other);
                } else if i > p {
                    assert(earlier[i - 1] == other);
                }
            }
            if earlier.contains(other) {
                let i = choose|i: int| 0 <= i < earlier.len() && earlier[i] == other;
                if i < p {
                    assert(later[i] == other);
                } else {
                    assert(later[i + 1] == other);
                }
            }
            if other == entry {
                assert(later[p as int] == other);
            }
        }
    }
    true
}

/// Page index: the entries of the pages, in the order of their
/// identifiers.
pub struct Index {
    entries: Vec<IndexEntry>,
}

impl View for Index {
    type V = Seq<IndexEntry>;

    closed spec fn view(&self) -> Seq<IndexEntry> {
        self.entries@
    }
}

impl Index {
    /// Whether the identifiers ascend strictly, and none is zero.
    pub open spec fn wf(&self) -> bool {
        ascending(self@)
    }

    /// Load the `num_pages` entries located at `position`.
    pub fn new(input: &[u8], num_pages: usize, position: u64) -> (result: Result<Index, Error>)
        ensures
            match first_fault(input@, position as int, num_pages as nat) {
                Some(error) => result matches Err(found) && found == error,
                None => {
                    &&& result matches Ok(index)
                    &&& index.wf()
                    &&& index@.len() == num_pages
                    &&& forall|entry: IndexEntry|
                        index@.contains(entry) <==> records(
                            input@,
                            position as int,
                            num_pages as nat,
                        ).contains(entry)
                },
            },
    {
        let mut entries: Vec<IndexEntry> = Vec::new();
        let mut cursor: u64 = position;
        let mut k: usize = 0;
        while k < num_pages
            invariant
                k <= num_pages,
                cursor == position + persistence::INDEX_ENTRY_SIZE * k,
                first_fault(input@, position as int, k as nat) is None,
                ascending(entries@),
                entries@.len() == k,
                forall|entry: IndexEntry|
                    entries@.contains(entry) <==> records(
                        input@,
                        position as int,
                        k as nat,
                    ).contains(entry),
            decreases num_pages - k,
        {
            let ghost known = records(input@, position as int, k as nat);
            let ghost earlier = entries@;
            let len = input.len() as u64;
            if len < cursor || len - cursor < persistence::INDEX_ENTRY_SIZE as u64 {
                proof {
                    lemma_first_fault_stays(input@, position as int, k as nat, num_pages as nat);
                }
                return Err(Error::Io(IoKind::UnexpectedEof));
            }
            let ie = IndexEntry::read(input, cursor as usize);
            if ie.id == 0 {
                proof {
                    lemma_first_fault_stays(input@, position as int, k as nat, num_pages as nat);
                }
                return Err(Error::InvalidId(0));
            }
            if !insert_entry(&mut entries, ie) {
                proof {
                    let twin = choose|twin: IndexEntry| earlier.contains(twin) && twin.id == ie.id;
                    assert(known.contains(twin));
                    let j = choose|j: int| 0 <= j < known.len() && known[j] == twin;
                    assert(persistence::entry_at(
                        input@,
                        position + persistence::INDEX_ENTRY_SIZE * j,
                    ).id == ie.id);
                    lemma_first_fault_stays(input@, position as int, k as nat, num_pages as nat);
                }
                return Err(Error::DuplicatedId(ie.id));
            }
            proof {
                let grown = records(input@, position as int, (k + 1) as nat);
                assert(grown =~= known.push(ie));
                if exists|j: int|
                    0 <= j < k && (#[trigger] persistence::entry_at(
                        input@,
                        position + persistence::INDEX_ENTRY_SIZE * j,
                    )).id == ie.id {
                    let j = choose|j: int|
                        0 <= j < k && (#[trigger] persistence::entry_at(
                            input@,
                            position + persistence::INDEX_ENTRY_SIZE * j,
                        )).id == ie.id;
                    assert(known[j].id == ie.id);
                    assert(known.contains(known[j]));
                    assert(earlier.contains(known[j]));
                    assert(false);
                }
                assert forall|entry: IndexEntry| entries@.contains(entry) <==> grown.contains(
                    entry,
                ) by {
                    if entries@.contains(entry) && entry != ie {
                        assert(known.contains(entry));
                        let j = choose|j: int| 0 <= j < known.len() && known[j] == entry;
                        assert(grown[j] == entry);
                    }
                    if entry == ie {
                        assert(grown[k as int] == entry);
                    }
                    if grown.contains(entry) {
                        let j = choose|j: int| 0 <= j < grown.len() && grown[j] == entry;
                        if j < k {
                            assert(known[j] == entry);
                            assert(known.contains(entry));
                        }
                    }
                }
            }
            cursor = cursor + persistence::INDEX_ENTRY_SIZE as u64;
            k = k + 1;
        }
        Ok(Index { entries })
    }

    /// The number of pages.
    pub fn len(&self) -> (len: usize)
        ensures
            len == self@.len(),
    {
        self.entries.len()
    }

    /// The entries, in the order of their identifiers.
    pub fn entries(&self) -> (entries: &[IndexEntry])
        ensures
            entries@ == self@,
    {
        self.entries.as_slice()
    }

    /// The entry of the page `id`, if the index holds it.
    pub fn find(&self, id: u32) -> (found: Option<IndexEntry>)
        requires
            self.wf(),
        ensures
            found == lookup(self@, id),
    {
        let mut low: usize = 0;
        let mut high: usize = self.entries.len();
        while low < high
            invariant
                low <= high <= self.entries@.len(),
                ascending(self.entries@),
                forall|i: int| 0 <= i < low ==> (#[trigger] self.entries@[i]).id < id,
                forall|i: int|
                    high <= i < self.entries@.len() ==> (#[trigger] self.entries@[i]).id > id,
            decreases high - low,
        {
            let middle = low + (high - low) / 2;
            let entry = self.entries[middle];
            if entry.id == id {
                proof {
                    let i = choose|i: int|
                        0 <= i < self@.len() && (#[trigger] self@[i]).id == id;
                    if i < middle {
                        assert(self@[i].id < self@[middle as int].id);
                    } else if i > middle {
                        assert(self@[middle as int].id < self@[i].id);
                    }
                }
                return Some(entry);
            } else if entry.id < id {
                assert forall|i: int| 0 <= i < middle + 1 implies (#[trigger] self.entries@[i]).id
                    < id by {
                    if i < middle {
                        assert(self.entries@[i].id < self.entries@[middle as int].id);
                    }
                }
                low = middle + 1;
            } else {
                assert forall|i: int| middle <= i < self.entries@.len() implies (
                #[trigger] self.entries@[i]).id > id by {
                    if i > middle {
                        assert(self.entries@[middle as int].id < self.entries@[i].id);
                    }
                }
                high = middle;
            }
        }
        None
    }

    /// All pages in the book, in the order of their identifiers; for a
    /// page that cannot be read, the error.
    pub fn pages_iter(&self, db_reader: &mut DataBlocksReader) -> (pages: Vec<Result<Page, Error>>)
        requires
            old(db_reader).wf(),
        ensures
            final(db_reader).wf(),
            final(db_reader)@.stream == old(db_reader)@.stream,
            pages@.len() == self@.len(),
            forall|i: int|
                0 <= i < self@.len() ==> match persistence::page_at(
                    old(db_reader)@.stream,
                    self@[i],
                ) {
                    Ok(page) => (#[trigger] pages@[i]) matches Ok(found) && found@ == page,
                    Err(error) => pages@[i] matches Err(found) && found == error,
                },
    {
        let mut pages: Vec<Result<Page, Error>> = Vec::new();
        let mut i: usize = 0;
        while i < self.entries.len()
            invariant
                i <= self.entries@.len(),
                db_reader.wf(),
                db_reader@.stream == old(db_reader)@.stream,
                pages@.len() == i,
                forall|j: int|
                    0 <= j < i ==> match persistence::page_at(
                        old(db_reader)@.stream,
                        self@[j],
                    ) {
                        Ok(page) => (#[trigger] pages@[j]) matches Ok(found) && found@ == page,
                        Err(error) => pages@[j] matches Err(found) && found == error,
                    },
            decreases self.entries@.len() - i,
        {
            let page = persistence::build_page(&self.entries[i], db_reader);
            pages.push(page);
            i = i + 1;
        }
        pages
    }

    /// Get a single page.
    pub fn get_by_id(&self, db_reader: &mut DataBlocksReader, page_id: PageId) -> (result: Result<
        Page,
        Error,
    >)
        requires
            self.wf(),
            old(db_reader).wf(),
        ensures
            final(db_reader).wf(),
            final(db_reader)@.stream == old(db_reader)@.stream,
            match lookup(self@, page_id@) {
                None => result matches Err(found) && found == Error::InvalidId(page_id@),
                Some(entry) => match persistence::page_at(old(db_reader)@.stream, entry) {
                    Ok(page) => result matches Ok(found) && found@ == page,
                    Err(error) => result matches Err(found) && found == error,
                },
            },
    {
        match self.find(page_id.get()) {
            Some(entry) => persistence::build_page(&entry, db_reader),
            None => Err(Error::InvalidId(page_id.get())),
        }
    }
}

} // verus!
