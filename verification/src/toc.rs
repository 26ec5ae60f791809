//! This module provides types to read the TOC of a book.

use crate::page;
use crate::page::persistence::{title_at, IndexEntry};
use crate::page::{Index, PageId};
use crate::persistence::datablock::reader::DataBlocksReader;
use std::collections::HashMap;
use vstd::prelude::*;

verus! {

/// Maximum subsections level when compute the TOC.
///
/// Its main use is to avoid cyclic references.
pub const MAX_SUB_LEVEL: usize = 32;

/// List of section numbers to reference a page.
///
/// The numbers are held by a `tinyvec::TinyVec`, which keeps the first
/// four in place.
#[verifier::external_body]
pub struct SectionNumbers {
    numbers: tinyvec::TinyVec<[u32; 4]>,
}

/// The numbers of a list, in their order.
pub uninterp spec fn numbers_of(list: SectionNumbers) -> Seq<u32>;

/// A list with the numbers of `numbers`.
///
/// Trusted: calls the conversion of `tinyvec::TinyVec` from a slice, which
/// clones the items in their order.
#[verifier::external_body]
pub(crate) fn numbers_from(numbers: &[u32]) -> (list: SectionNumbers)
    ensures
        numbers_of(list) == numbers@,
{
    SectionNumbers { numbers: tinyvec::TinyVec::from(numbers) }
}

/// A list with the numbers of `list`.
///
/// Trusted: calls `clone` of `tinyvec::TinyVec`.
#[verifier::external_body]
pub(crate) fn numbers_clone(list: &SectionNumbers) -> (copy: SectionNumbers)
    ensures
        numbers_of(copy) == numbers_of(*list),
{
    SectionNumbers { numbers: list.numbers.clone() }
}

/// Puts `number` at the end of `list`.
///
/// Trusted: calls `tinyvec::TinyVec::push`, which moves the items to the
/// heap where they have no room in place.
#[verifier::external_body]
pub(crate) fn numbers_push(list: &mut SectionNumbers, number: u32)
    ensures
        numbers_of(*final(list)) == numbers_of(*old(list)).push(number),
{
    list.numbers.push(number)
}

/// The numbers of `list` as a slice.
///
/// Trusted: calls `tinyvec::TinyVec::as_slice`.
#[verifier::external_body]
pub(crate) fn numbers_as_slice(list: &SectionNumbers) -> (numbers: &[u32])
    ensures
        numbers@ == numbers_of(*list),
{
    list.numbers.as_slice()
}

#[verifier::external_type_specification]
#[verifier::external_body]
#[verifier::reject_recursive_types(A)]
pub struct ExArrayVec<A>(tinyvec::ArrayVec<A>);

/// The identifiers that a path holds, in the order in which they were
/// put there.
pub uninterp spec fn path_ids(path: tinyvec::ArrayVec<[u32; 32]>) -> Seq<u32>;

/// A path without identifiers.
///
/// Trusted: calls `tinyvec::ArrayVec::new`.
#[verifier::external_body]
pub(crate) fn path_new() -> (path: tinyvec::ArrayVec<[u32; 32]>)
    ensures
        path_ids(path) == Seq::<u32>::empty(),
{
    tinyvec::ArrayVec::new()
}

/// Puts `id` at the end of `path`, unless the path is full: then the
/// identifier comes back.
///
/// Trusted: calls `tinyvec::ArrayVec::try_push`, which has room for as many
/// items as its array, here 32.
#[verifier::external_body]
pub(crate) fn path_try_push(path: &mut tinyvec::ArrayVec<[u32; 32]>, id: u32) -> (rejected: Option<
    u32,
>)
    ensures
        path_ids(*old(path)).len() < MAX_SUB_LEVEL ==> rejected is None && path_ids(*final(path))
            == path_ids(*old(path)).push(id),
        path_ids(*old(path)).len() >= MAX_SUB_LEVEL ==> rejected == Some(id) && path_ids(
            *final(path),
        ) == path_ids(*old(path)),
{
    path.try_push(id)
}

/// The identifiers of `path` as a slice.
///
/// Trusted: calls `tinyvec::ArrayVec::as_slice`.
#[verifier::external_body]
pub(crate) fn path_as_slice(path: &tinyvec::ArrayVec<[u32; 32]>) -> (ids: &[u32])
    ensures
        ids@ == path_ids(*path),
{
    path.as_slice()
}

/// An entry of the TOC tree as a mathematical value.
pub struct TocView {
    pub id: u32,
    pub title: Seq<char>,
    pub section_numbers: Seq<u32>,
    pub children: Seq<TocView>,
}

/// Entry in the TOC tree.
pub struct TocEntry {
    /// Page identifier.
    id: PageId,
    /// Title of the page.
    title: String,
    /// A list to describe the section number.
    section_numbers: SectionNumbers,
    /// Pages under this level, in the order of their identifiers.
    children: Vec<TocEntry>,
}

/// The views of the first `count` entries of `list`.
pub closed spec fn list_view(list: Seq<TocEntry>, count: nat) -> Seq<TocView>
    decreases list, count,
{
    if count == 0 || count > list.len() {
        Seq::empty()
    } else {
        list_view(list, (count - 1) as nat).push(entry_view(list[count - 1]))
    }
}

/// The view of an entry.
pub closed spec fn entry_view(entry: TocEntry) -> TocView
    decreases entry, 0nat,
{
    TocView {
        id: entry.id@,
        title: entry.title@,
        section_numbers: numbers_of(entry.section_numbers),
        children: list_view(entry.children@, entry.children@.len()),
    }
}

/// The views of the entries of `list`.
pub open spec fn forest_view(list: Seq<TocEntry>) -> Seq<TocView> {
    list_view(list, list.len())
}

/// The views of a list are those of its entries, in their order.
pub proof fn lemma_list_view(list: Seq<TocEntry>, count: nat)
    requires
        count <= list.len(),
    ensures
        list_view(list, count).len() == count,
        forall|i: int| 0 <= i < count ==> (#[trigger] list_view(list, count)[i]) == entry_view(list[i]),
    decreases count,
{
    if count > 0 {
        lemma_list_view(list, (count - 1) as nat);
    }
}

/// Error raised when accessing the table of contents.
#[derive(Debug, Clone, Copy, PartialEq, Eq, Structural)]
pub enum TocError {
    /// A page names a parent that no page before it is.
    InvalidParent(PageId),
    /// The title of a page could not be read.
    TitleError(page::Error),
    /// Too many nested levels.
    ParentLoop,
}

/// An error of the table of contents as a mathematical value.
pub enum TocFault {
    InvalidParent(u32),
    TitleError(page::Error),
    ParentLoop,
}

impl View for TocError {
    type V = TocFault;

    open spec fn view(&self) -> TocFault {
        match self {
            TocError::InvalidParent(id) => TocFault::InvalidParent(id@),
            TocError::TitleError(error) => TocFault::TitleError(*error),
            TocError::ParentLoop => TocFault::ParentLoop,
        }
    }
}

/// What the way up from a page finds.
pub enum Walk {
    /// A page without parent. The pages on the way are given, the one
    /// where the way started first.
    Root(Seq<u32>),
    /// More pages than levels are allowed.
    Loop,
    /// A page that is not known.
    Missing,
}

/// Walks from the page `id` up to a page without parent, `parents`
/// giving the parent of each page that is known, zero where it has none.
/// The pages of `path` have been passed already.
pub open spec fn walk(parents: Map<u32, u32>, id: u32, path: Seq<u32>) -> Walk
    decreases MAX_SUB_LEVEL - path.len(),
{
    if path.len() >= MAX_SUB_LEVEL {
        Walk::Loop
    } else if !parents.contains_key(id) {
        Walk::Missing
    } else if parents[id] == 0 {
        Walk::Root(path.push(id))
    } else {
        walk(parents, parents[id], path.push(id))
    }
}

/// The number of the section that comes behind `count` sections.
pub open spec fn next_number(count: nat) -> u32 {
    if count >= u32::MAX {
        u32::MAX
    } else {
        (count + 1) as u32
    }
}

/// Where the first entry with the identifier `id` stands in `forest`, or
/// a negative number where there is none.
pub open spec fn position_of(forest: Seq<TocView>, id: u32) -> int
    decreases forest.len(),
{
    if forest.len() == 0 {
        -1
    } else {
        let before = position_of(forest.drop_last(), id);
        if before >= 0 {
            before
        } else if forest.last().id == id {
            forest.len() - 1
        } else {
            -1
        }
    }
}

/// The entry for a new page under `parent`.
pub open spec fn child_of(parent: TocView, id: u32, title: Seq<char>) -> TocView {
    TocView {
        id,
        title,
        section_numbers: parent.section_numbers.push(next_number(parent.children.len())),
        children: Seq::empty(),
    }
}

/// The forest once a new page is put under the page that `path` leads
/// to. The path names the parent first, and last the page of `forest`
/// under which the others are found. There is no such forest where a
/// page of the path is not found.
pub open spec fn attached(
    forest: Seq<TocView>,
    path: Seq<u32>,
    id: u32,
    title: Seq<char>,
) -> Option<Seq<TocView>>
    decreases path.len(),
{
    if path.len() == 0 {
        None
    } else {
        let at = position_of(forest, path.last());
        if at < 0 || at >= forest.len() {
            None
        } else if path.len() == 1 {
            Some(
                forest.update(
                    at,
                    TocView {
                        children: forest[at].children.push(child_of(forest[at], id, title)),
                        ..forest[at]
                    },
                ),
            )
        } else {
            match attached(forest[at].children, path.drop_last(), id, title) {
                None => None,
                Some(children) => Some(forest.update(at, TocView { children, ..forest[at] })),
            }
        }
    }
}

/// What the making of a table of contents has gathered.
pub struct TocState {
    /// The pages without parent, with the pages under them.
    pub forest: Seq<TocView>,
    /// The parent of each page that was taken, zero where it has none.
    pub parents: Map<u32, u32>,
}

/// The table of contents once the page of `entry` is taken: a page
/// without parent becomes the last of the top level, any other page the
/// last under its parent.
pub open spec fn toc_step(stream: Seq<u8>, state: TocState, entry: IndexEntry) -> Result<
    TocState,
    TocFault,
> {
    let parents = state.parents.insert(entry.id, entry.parent_id);
    match title_at(stream, entry) {
        Err(error) => Err(TocFault::TitleError(error)),
        Ok(title) => if entry.parent_id == 0 {
            Ok(
                TocState {
                    forest: state.forest.push(
                        TocView {
                            id: entry.id,
                            title,
                            section_numbers: seq![next_number(state.forest.len())],
                            children: Seq::empty(),
                        },
                    ),
                    parents,
                },
            )
        } else {
            match walk(parents, entry.parent_id, Seq::empty()) {
                Walk::Loop => Err(TocFault::ParentLoop),
                Walk::Missing => Err(TocFault::InvalidParent(entry.parent_id)),
                Walk::Root(path) => match attached(state.forest, path, entry.id, title) {
                    None => Err(TocFault::InvalidParent(entry.parent_id)),
                    Some(forest) => Ok(TocState { forest, parents }),
                },
            }
        },
    }
}

/// The table of contents of the pages of `entries`, taken in their order.
pub open spec fn toc_of(stream: Seq<u8>, entries: Seq<IndexEntry>) -> Result<TocState, TocFault>
    decreases entries.len(),
{
    if entries.len() == 0 {
        Ok(TocState { forest: Seq::empty(), parents: Map::empty() })
    } else {
        match toc_of(stream, entries.drop_last()) {
            Err(error) => Err(error),
            Ok(state) => toc_step(stream, state, entries.last()),
        }
    }
}

/// Where the table of contents fails on the first pages, it fails in the
/// same way on all of them.
pub proof fn lemma_toc_failed(stream: Seq<u8>, first: Seq<IndexEntry>, all: Seq<IndexEntry>)
    requires
        first.len() <= all.len(),
        first == all.subrange(0, first.len() as int),
        toc_of(stream, first) is Err,
    ensures
        toc_of(stream, all) == toc_of(stream, first),
    decreases all.len(),
{
    if first.len() < all.len() {
        assert(all.drop_last().subrange(0, first.len() as int) =~= first);
        lemma_toc_failed(stream, first, all.drop_last());
    } else {
        assert(first =~= all);
    }
}

/// The first entry with an identifier stands where no entry before it has
/// the identifier.
pub proof fn lemma_position_of(forest: Seq<TocView>, id: u32, at: int)
    requires
        0 <= at <= forest.len(),
        forall|j: int| 0 <= j < at ==> (#[trigger] forest[j]).id != id,
        at < forest.len() ==> forest[at].id == id,
    ensures
        at < forest.len() ==> position_of(forest, id) == at,
        at == forest.len() ==> position_of(forest, id) == -1,
    decreases forest.len(),
{
    if forest.len() > 0 {
        let shorter = forest.drop_last();
        if at < forest.len() - 1 {
            lemma_position_of(shorter, id, at);
        } else if at == forest.len() - 1 {
            lemma_position_of(shorter, id, at);
        } else {
            lemma_position_of(shorter, id, at - 1);
            assert(forest[at - 1].id != id);
        }
    }
}

impl TocEntry {
    /// The entry as a mathematical value.
    pub open spec fn view(&self) -> TocView {
        entry_view(*self)
    }

    fn new(id: PageId, title: String, section_numbers: SectionNumbers) -> (entry: TocEntry)
        ensures
            entry@ == (TocView {
                id: id@,
                title: title@,
                section_numbers: numbers_of(section_numbers),
                children: Seq::empty(),
            }),
    {
        let entry = TocEntry { id, title, section_numbers, children: Vec::new() };
        assert(entry@.children =~= Seq::<TocView>::empty());
        entry
    }

    /// Page identifier.
    pub fn id(&self) -> (id: PageId)
        ensures
            id@ == self@.id,
    {
        self.id
    }

    /// Title of the page.
    pub fn title(&self) -> (title: &str)
        ensures
            title@ == self@.title,
    {
        self.title.as_str()
    }

    /// Section number of the page.
    ///
    /// The list includes the section numbers of the parents.
    pub fn section_numbers(&self) -> (numbers: &[u32])
        ensures
            numbers@ == self@.section_numbers,
    {
        numbers_as_slice(&self.section_numbers)
    }

    /// List of pages under this one, in the order of their identifiers.
    pub fn children(&self) -> (children: &[TocEntry])
        ensures
            forest_view(children@) == self@.children,
    {
        self.children.as_slice()
    }
}

/// The number of the section that comes behind `count` sections.
fn section_after(count: usize) -> (number: u32)
    ensures
        number == next_number(count as nat),
{
    if count >= u32::MAX as usize {
        u32::MAX
    } else {
        count as u32 + 1
    }
}

/// Puts a new page under the page that the first `remaining` identifiers
/// of `ids` lead to, the last of them being looked for in `tree`. Says
/// whether the pages of the path were found.
///
/// The identifiers ascend at each level of the tree, so a page is looked
/// for by halving.
fn attach(
    tree: &mut Vec<TocEntry>,
    ids: &[u32],
    remaining: usize,
    id: PageId,
    title: String,
) -> (done: bool)
    requires
        0 < remaining <= ids@.len(),
        sorted(forest_view(old(tree)@)),
    ensures
        match attached(
            forest_view(old(tree)@),
            ids@.subrange(0, remaining as int),
            id@,
            title@,
        ) {
            None => !done,
            Some(forest) => done && forest_view(final(tree)@) == forest,
        },
    decreases remaining,
{
    let ghost before = tree@;
    let ghost forest = forest_view(before);
    let ghost path = ids@.subrange(0, remaining as int);
    let current = ids[remaining - 1];
    proof {
        lemma_list_view(before, before.len());
        assert(path.last() == current);
    }
    let mut low: usize = 0;
    let mut high: usize = tree.len();
    let mut found: Option<usize> = None;
    while low < high && found.is_none()
        invariant
            low <= high <= tree.len(),
            tree@ == before,
            forest == forest_view(before),
            forest.len() == before.len(),
            sorted(forest),
            forall|j: int| 0 <= j < before.len() ==> (#[trigger] forest[j]) == entry_view(before[j]),
            forall|j: int| 0 <= j < low ==> (#[trigger] forest[j]).id < current,
            forall|j: int| high <= j < forest.len() ==> (#[trigger] forest[j]).id > current,
            found matches Some(at) ==> at < tree.len() && forest[at as int].id == current,
        decreases (high - low) + (if found is None { 1int } else { 0int }),
    {
        let middle = low + (high - low) / 2;
        let here = tree[middle].id.get();
        assert(here == forest[middle as int].id);
        if here == current {
            found = Some(middle);
        } else if here < current {
            assert forall|j: int| 0 <= j < middle + 1 implies (#[trigger] forest[j]).id
                < current by {
                if j < middle {
                    assert(forest[j].id < forest[middle as int].id);
                }
            }
            low = middle + 1;
        } else {
            assert forall|j: int| middle <= j < forest.len() implies (#[trigger] forest[j]).id
                > current by {
                if j > middle {
                    assert(forest[middle as int].id < forest[j].id);
                }
            }
            high = middle;
        }
    }
    let at = match found {
        Some(at) => at,
        None => {
            proof {
                lemma_position_of(forest, current, forest.len() as int);
            }
            return false;
        },
    };
    proof {
        assert forall|j: int| 0 <= j < at implies (#[trigger] forest[j]).id != current by {
            assert(forest[j].id < forest[at as int].id);
        }
        lemma_position_of(forest, current, at as int);
    }
    let ghost node = before[at as int];
    proof {
        lemma_list_view(node.children@, node.children@.len());
        assert(sorted(forest[at as int].children));
    }
    if remaining == 1 {
        let parent = &mut tree[at];
        let mut numbers = numbers_clone(&parent.section_numbers);
        numbers_push(&mut numbers, section_after(parent.children.len()));
        let child = TocEntry::new(id, title, numbers);
        parent.children.push(child);
        proof {
            let grown = tree@[at as int];
            lemma_list_view(grown.children@, grown.children@.len());
            lemma_list_view(tree@, tree@.len());
            assert(grown@.children =~= node@.children.push(child_of(node@, id@, title@)));
            assert(forest_view(tree@) =~= forest.update(
                at as int,
                TocView {
                    children: forest[at as int].children.push(
                        child_of(forest[at as int], id@, title@),
                    ),
                    ..forest[at as int]
                },
            ));
        }
        true
    } else {
        assert(path.drop_last() =~= ids@.subrange(0, remaining - 1));
        let parent = &mut tree[at];
        let done = attach(&mut parent.children, ids, remaining - 1, id, title);
        proof {
            if done {
                let grown = tree@[at as int];
                lemma_list_view(tree@, tree@.len());
                assert(forest_view(tree@) =~= forest.update(
                    at as int,
                    TocView { children: grown@.children, ..forest[at as int] },
                ));
            }
        }
        done
    }
}

/// Why the way up from a page does not end at a page without parent.
enum WalkError {
    Loop,
    Missing,
}

/// Walks from the page `start` up to a page without parent, and gives the
/// pages on the way, `start` first.
fn ancestors(parents: &HashMap<u32, u32>, start: u32) -> (result: Result<
    tinyvec::ArrayVec<[u32; 32]>,
    WalkError,
>)
    ensures
        match walk(parents@, start, Seq::empty()) {
            Walk::Root(ids) => result matches Ok(path) && path_ids(path) == ids,
            Walk::Loop => result matches Err(WalkError::Loop),
            Walk::Missing => result matches Err(WalkError::Missing),
        },
{
    let mut path = path_new();
    let mut last_id = start;
    loop
        invariant
            path_ids(path).len() <= MAX_SUB_LEVEL,
            walk(parents@, start, Seq::empty()) == walk(parents@, last_id, path_ids(path)),
        decreases MAX_SUB_LEVEL - path_ids(path).len(),
    {
        if path_try_push(&mut path, last_id).is_some() {
            return Err(WalkError::Loop);
        }
        match parents.get(&last_id) {
            None => {
                return Err(WalkError::Missing);
            },
            Some(next) => {
                if *next == 0 {
                    return Ok(path);
                }
                last_id = *next;
            },
        }
    }
}

/// Table of contents of a book.
pub struct BookToc {
    tree: Vec<TocEntry>,
}

impl View for BookToc {
    type V = Seq<TocView>;

    closed spec fn view(&self) -> Seq<TocView> {
        forest_view(self.tree@)
    }
}

impl BookToc {
    /// Makes the table of contents of the pages of `index`, whose titles
    /// are read through `data_blocks`.
    pub fn new(data_blocks: &mut DataBlocksReader, index: &Index) -> (result: Result<
        BookToc,
        TocError,
    >)
        requires
            old(data_blocks).wf(),
            index.wf(),
        ensures
            final(data_blocks).wf(),
            final(data_blocks)@.stream == old(data_blocks)@.stream,
            match toc_of(old(data_blocks)@.stream, index@) {
                Err(fault) => result matches Err(error) && error@ == fault,
                Ok(state) => result matches Ok(toc) && toc@ == state.forest,
            },
    {
        let ghost stream = data_blocks@.stream;
        let entries = index.entries();
        let mut parents: HashMap<u32, u32> = HashMap::new();
        let mut tree: Vec<TocEntry> = Vec::new();
        let mut k: usize = 0;
        assert(entries@.subrange(0, 0) =~= Seq::<IndexEntry>::empty());
        while k < entries.len()
            invariant
                k <= entries@.len(),
                entries@ == index@,
                page::ascending(entries@),
                data_blocks.wf(),
                data_blocks@.stream == stream,
                stream == old(data_blocks)@.stream,
                toc_of(stream, entries@.subrange(0, k as int)) == Ok::<TocState, TocFault>(
                    TocState { forest: forest_view(tree@), parents: parents@ },
                ),
            decreases entries@.len() - k,
        {
            let entry = entries[k];
            let ghost before = tree@;
            proof {
                assert(entries@.subrange(0, k + 1).drop_last() =~= entries@.subrange(0, k as int));
                assert(entries@.subrange(0, k + 1).last() == entry);
                lemma_list_view(before, before.len());
                lemma_ascending_prefix(entries@, k as int);
                lemma_toc_numbering(stream, entries@.subrange(0, k as int));
            }
            let id = PageId::force_value(entry.id);
            let ghost known = parents@;
            parents.insert(entry.id, entry.parent_id);
            let taken = take_page(data_blocks, &mut tree, &parents, entry, id, Ghost(known));
            match taken {
                Ok(()) => {},
                Err(error) => {
                    proof {
                        if k + 1 < entries@.len() {
                            lemma_toc_failed(stream, entries@.subrange(0, k + 1), entries@);
                        } else {
                            assert(entries@.subrange(0, k + 1) =~= entries@);
                        }
                    }
                    return Err(error);
                },
            }
            k = k + 1;
        }
        assert(entries@.subrange(0, entries@.len() as int) =~= entries@);
        Ok(BookToc { tree })
    }

    /// The pages without parent, in the order of their identifiers.
    pub fn entries(&self) -> (entries: &[TocEntry])
        ensures
            forest_view(entries@) == self@,
    {
        self.tree.as_slice()
    }

    /// The pages without parent, in the order of their identifiers.
    pub fn into_entries(self) -> (entries: Vec<TocEntry>)
        ensures
            forest_view(entries@) == self@,
    {
        self.tree
    }
}

/// Takes the page of `entry` into the tree: reads its title, and puts it
/// at the top level or under its parent.
fn take_page(
    data_blocks: &mut DataBlocksReader,
    tree: &mut Vec<TocEntry>,
    parents: &HashMap<u32, u32>,
    entry: IndexEntry,
    id: PageId,
    Ghost(known): Ghost<Map<u32, u32>>,
) -> (result: Result<(), TocError>)
    requires
        old(data_blocks).wf(),
        id@ == entry.id,
        parents@ == known.insert(entry.id, entry.parent_id),
        sorted(forest_view(old(tree)@)),
    ensures
        final(data_blocks).wf(),
        final(data_blocks)@.stream == old(data_blocks)@.stream,
        match toc_step(
            old(data_blocks)@.stream,
            TocState { forest: forest_view(old(tree)@), parents: known },
            entry,
        ) {
            Err(fault) => result matches Err(error) && error@ == fault,
            Ok(state) => result is Ok && forest_view(final(tree)@) == state.forest,
        },
{
    let ghost before = tree@;
    proof {
        lemma_list_view(before, before.len());
    }
    let title = match entry.get_page_title(data_blocks) {
        Ok(title) => title,
        Err(error) => {
            return Err(TocError::TitleError(error));
        },
    };
    match entry.parent_id() {
        None => {
            let section: [u32; 1] = [section_after(tree.len())];
            let numbers = numbers_from(section.as_slice());
            let root = TocEntry::new(id, title, numbers);
            tree.push(root);
            proof {
                lemma_list_view(tree@, tree@.len());
                assert(numbers_of(numbers) =~= seq![next_number(before.len())]);
                assert(forest_view(tree@) =~= forest_view(before).push(root@));
            }
            Ok(())
        },
        Some(parent_id) => {
            let parent_number = parent_id.get();
            assert(parent_number == entry.parent_id);
            let path = match ancestors(parents, entry.parent_id) {
                Ok(path) => path,
                Err(WalkError::Loop) => {
                    return Err(TocError::ParentLoop);
                },
                Err(WalkError::Missing) => {
                    return Err(TocError::InvalidParent(parent_id));
                },
            };
            let ids = path_as_slice(&path);
            if ids.len() == 0 {
                return Err(TocError::InvalidParent(parent_id));
            }
            assert(ids@.subrange(0, ids@.len() as int) =~= ids@);
            if attach(tree, ids, ids.len(), id, title) {
                Ok(())
            } else {
                Err(TocError::InvalidParent(parent_id))
            }
        },
    }
}

/// Whether the identifiers ascend at each level of `forest`.
pub open spec fn sorted(forest: Seq<TocView>) -> bool
    decreases forest,
{
    &&& forall|i: int, j: int|
        0 <= i < j < forest.len() ==> (#[trigger] forest[i]).id < (#[trigger] forest[j]).id
    &&& forall|i: int| 0 <= i < forest.len() ==> sorted((#[trigger] forest[i]).children)
}

/// Whether every identifier of `forest` is above zero and below `bound`.
pub open spec fn bounded(forest: Seq<TocView>, bound: int) -> bool
    decreases forest,
{
    forall|i: int|
        0 <= i < forest.len() ==> 0 < (#[trigger] forest[i]).id < bound && bounded(
            forest[i].children,
            bound,
        )
}

/// Whether each entry of `forest` has the section numbers of the entry
/// above it, which are `prefix`, and behind them its place among the
/// entries of its level, counted from one.
pub open spec fn numbered(forest: Seq<TocView>, prefix: Seq<u32>) -> bool
    decreases forest,
{
    forall|i: int|
        0 <= i < forest.len() ==> (#[trigger] forest[i]).section_numbers == prefix.push(
            (i + 1) as u32,
        ) && numbered(forest[i].children, forest[i].section_numbers)
}

/// The entry that `path` leads to: the path gives the place of an entry
/// at the top level, then the place of one under it, and so on.
pub open spec fn entry_at(forest: Seq<TocView>, path: Seq<int>) -> Option<TocView>
    decreases path.len(),
{
    if path.len() == 0 || !(0 <= path[0] < forest.len()) {
        None
    } else if path.len() == 1 {
        Some(forest[path[0]])
    } else {
        entry_at(forest[path[0]].children, path.skip(1))
    }
}

/// The section numbers of the entry that `path` leads to: each place of
/// the path, counted from one.
pub open spec fn numbers_along(path: Seq<int>) -> Seq<u32> {
    path.map_values(|place: int| (place + 1) as u32)
}

/// Identifiers that ascend from above zero are no less than the number of
/// identifiers before them.
pub proof fn lemma_sorted_ids(forest: Seq<TocView>, bound: int, i: int)
    requires
        sorted(forest),
        bounded(forest, bound),
        0 <= i < forest.len(),
    ensures
        forest[i].id >= i + 1,
    decreases i,
{
    if i > 0 {
        lemma_sorted_ids(forest, bound, i - 1);
        assert(forest[i - 1].id < forest[i].id);
    }
}

/// A forest that is bounded stays bounded by anything above.
pub proof fn lemma_bounded_above(forest: Seq<TocView>, bound: int, above: int)
    requires
        bounded(forest, bound),
        bound <= above,
    ensures
        bounded(forest, above),
    decreases forest,
{
    assert forall|i: int| 0 <= i < forest.len() implies 0 < (#[trigger] forest[i]).id < above
        && bounded(forest[i].children, above) by {
        lemma_bounded_above(forest[i].children, bound, above);
    }
}

/// A page that is put into a forest whose identifiers ascend, all of
/// them below its own, leaves the identifiers in their order, and the
/// sections numbered by their places.
pub proof fn lemma_attached_keeps(
    forest: Seq<TocView>,
    path: Seq<u32>,
    id: u32,
    title: Seq<char>,
    prefix: Seq<u32>,
)
    requires
        sorted(forest),
        bounded(forest, id as int),
        numbered(forest, prefix),
        0 < id,
        attached(forest, path, id, title) is Some,
    ensures
        sorted(attached(forest, path, id, title)->Some_0),
        bounded(attached(forest, path, id, title)->Some_0, id + 1),
        numbered(attached(forest, path, id, title)->Some_0, prefix),
    decreases path.len(),
{
    let at = position_of(forest, path.last());
    let grown = attached(forest, path, id, title)->Some_0;
    let node = forest[at];
    lemma_bounded_above(forest, id as int, id + 1);
    assert(sorted(node.children));
    assert(bounded(node.children, id as int));
    assert(numbered(node.children, node.section_numbers));
    if path.len() == 1 {
        let child = child_of(node, id, title);
        let count = node.children.len() as int;
        let children = node.children.push(child);
        if count > 0 {
            lemma_sorted_ids(node.children, id as int, count - 1);
        }
        assert(child.section_numbers == node.section_numbers.push((count + 1) as u32));
        assert(sorted(children)) by {
            assert forall|i: int| 0 <= i < children.len() implies sorted(
                (#[trigger] children[i]).children,
            ) by {
                if i < count {
                    assert(children[i] == node.children[i]);
                }
            }
        }
        assert(bounded(children, id + 1)) by {
            lemma_bounded_above(node.children, id as int, id + 1);
            assert forall|i: int| 0 <= i < children.len() implies 0 < (#[trigger] children[i]).id
                < id + 1 && bounded(children[i].children, id + 1) by {
                if i < count {
                    assert(children[i] == node.children[i]);
                }
            }
        }
        assert(numbered(children, node.section_numbers)) by {
            assert forall|i: int| 0 <= i < children.len() implies (
            #[trigger] children[i]).section_numbers == node.section_numbers.push((i + 1) as u32)
                && numbered(children[i].children, children[i].section_numbers) by {
                if i < count {
                    assert(children[i] == node.children[i]);
                }
            }
        }
        lemma_updated_keeps(forest, at, children, id, prefix);
    } else {
        lemma_attached_keeps(node.children, path.drop_last(), id, title, node.section_numbers);
        let children = attached(node.children, path.drop_last(), id, title)->Some_0;
        lemma_updated_keeps(forest, at, children, id, prefix);
    }
}

/// A forest in which the entries under one entry are replaced by others
/// that are in order keeps its order and its numbers.
proof fn lemma_updated_keeps(
    forest: Seq<TocView>,
    at: int,
    children: Seq<TocView>,
    id: u32,
    prefix: Seq<u32>,
)
    requires
        0 <= at < forest.len(),
        sorted(forest),
        bounded(forest, id + 1),
        numbered(forest, prefix),
        sorted(children),
        bounded(children, id + 1),
        numbered(children, forest[at].section_numbers),
    ensures
        sorted(forest.update(at, TocView { children, ..forest[at] })),
        bounded(forest.update(at, TocView { children, ..forest[at] }), id + 1),
        numbered(forest.update(at, TocView { children, ..forest[at] }), prefix),
{
    let grown = forest.update(at, TocView { children, ..forest[at] });
    assert forall|i: int, j: int| 0 <= i < j < grown.len() implies (#[trigger] grown[i]).id < (
    #[trigger] grown[j]).id by {
        assert(forest[i].id < forest[j].id);
    }
    assert forall|i: int| 0 <= i < grown.len() implies sorted((#[trigger] grown[i]).children) by {
        if i != at {
            assert(grown[i] == forest[i]);
        }
    }
    assert forall|i: int| 0 <= i < grown.len() implies 0 < (#[trigger] grown[i]).id < id + 1
        && bounded(grown[i].children, id + 1) by {
        assert(0 < forest[i].id < id + 1);
        if i != at {
            assert(grown[i] == forest[i]);
        }
    }
    assert forall|i: int| 0 <= i < grown.len() implies (#[trigger] grown[i]).section_numbers
        == prefix.push((i + 1) as u32) && numbered(grown[i].children, grown[i].section_numbers) by {
        assert(forest[i].section_numbers == prefix.push((i + 1) as u32));
        if i != at {
            assert(grown[i] == forest[i]);
        }
    }
}

/// The first entries of an index whose identifiers ascend have
/// identifiers that ascend.
pub proof fn lemma_ascending_prefix(entries: Seq<IndexEntry>, count: int)
    requires
        page::ascending(entries),
        0 <= count <= entries.len(),
    ensures
        page::ascending(entries.subrange(0, count)),
{
    let first = entries.subrange(0, count);
    assert forall|i: int, j: int| 0 <= i < j < first.len() implies (#[trigger] first[i]).id < (
    #[trigger] first[j]).id by {
        assert(entries[i].id < entries[j].id);
    }
    assert forall|i: int| 0 <= i < first.len() implies (#[trigger] first[i]).id != 0 by {
        assert(entries[i].id != 0);
    }
}

/// The table of contents of pages whose identifiers ascend has at each
/// level the pages in the order of their identifiers, and each page has
/// for section numbers those of the page above it and its place among
/// the pages of its level, counted from one.
pub proof fn lemma_toc_numbering(stream: Seq<u8>, entries: Seq<IndexEntry>)
    requires
        page::ascending(entries),
        toc_of(stream, entries) is Ok,
    ensures
        sorted(toc_of(stream, entries)->Ok_0.forest),
        numbered(toc_of(stream, entries)->Ok_0.forest, Seq::empty()),
        bounded(
            toc_of(stream, entries)->Ok_0.forest,
            if entries.len() == 0 {
                1
            } else {
                entries.last().id + 1
            },
        ),
    decreases entries.len(),
{
    if entries.len() > 0 {
        let earlier = entries.drop_last();
        let entry = entries.last();
        lemma_ascending_prefix(entries, entries.len() - 1);
        assert(earlier =~= entries.subrange(0, entries.len() - 1));
        lemma_toc_numbering(stream, earlier);
        let state = toc_of(stream, earlier)->Ok_0;
        let forest = state.forest;
        assert(entry.id != 0) by {
            assert(entries[entries.len() - 1].id != 0);
        }
        if earlier.len() > 0 {
            assert(entries[earlier.len() - 1].id < entries[entries.len() - 1].id);
            lemma_bounded_above(forest, earlier.last().id + 1, entry.id as int);
        } else {
            lemma_bounded_above(forest, 1, entry.id as int);
        }
        let title = title_at(stream, entry)->Ok_0;
        if entry.parent_id == 0 {
            let count = forest.len() as int;
            if count > 0 {
                lemma_sorted_ids(forest, entry.id as int, count - 1);
            }
            let root = TocView {
                id: entry.id,
                title,
                section_numbers: seq![next_number(forest.len())],
                children: Seq::empty(),
            };
            let grown = forest.push(root);
            lemma_bounded_above(forest, entry.id as int, entry.id + 1);
            assert(root.section_numbers =~= Seq::<u32>::empty().push((count + 1) as u32));
            assert forall|i: int| 0 <= i < grown.len() implies sorted(
                (#[trigger] grown[i]).children,
            ) by {
                if i < count {
                    assert(grown[i] == forest[i]);
                }
            }
            assert forall|i: int| 0 <= i < grown.len() implies 0 < (#[trigger] grown[i]).id
                < entry.id + 1 && bounded(grown[i].children, entry.id + 1) by {
                if i < count {
                    assert(grown[i] == forest[i]);
                }
            }
            assert forall|i: int| 0 <= i < grown.len() implies (
            #[trigger] grown[i]).section_numbers == Seq::<u32>::empty().push((i + 1) as u32)
                && numbered(grown[i].children, grown[i].section_numbers) by {
                if i < count {
                    assert(grown[i] == forest[i]);
                }
            }
        } else {
            let parents = state.parents.insert(entry.id, entry.parent_id);
            let path = walk(parents, entry.parent_id, Seq::empty())->Root_0;
            lemma_attached_keeps(forest, path, entry.id, title, Seq::empty());
        }
    }
}

/// In a forest whose sections are numbered by their places, the entry
/// that a path leads to has for section numbers the places of the path,
/// counted from one.
pub proof fn lemma_numbers_of_path(forest: Seq<TocView>, prefix: Seq<u32>, path: Seq<int>)
    requires
        numbered(forest, prefix),
        entry_at(forest, path) is Some,
    ensures
        entry_at(forest, path)->Some_0.section_numbers == prefix + numbers_along(path),
    decreases path.len(),
{
    let first = forest[path[0]];
    if path.len() == 1 {
        assert(prefix.push((path[0] + 1) as u32) =~= prefix + numbers_along(path));
    } else {
        lemma_numbers_of_path(first.children, first.section_numbers, path.skip(1));
        assert(first.section_numbers + numbers_along(path.skip(1)) =~= prefix + numbers_along(
            path,
        ));
    }
}

} // verus!
