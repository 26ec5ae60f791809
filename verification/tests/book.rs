use theory::errors::{PageError, PersistenceError, TocError};
use theory::persistence::datablock::IoKind;
use theory::{BlockCompression, Book, MetadataEntry, Page, PageId, TocEntry};

fn check_entry(entry: &TocEntry, id: PageId, title: &str, section: &[u32]) {
    assert_eq!(entry.id(), id);
    assert_eq!(entry.title(), title);
    assert_eq!(entry.section_numbers(), section);
}

#[test]
fn dump_and_load() {
    let metadata = [MetadataEntry::Title("Theory Example".into()), MetadataEntry::Date(1234)];

    let mut builder = Book::builder();

    for entry in &metadata {
        builder.add_metadata(entry.clone());
    }

    let page1 = builder
        .new_page("First")
        .add_metadata(MetadataEntry::Keyword("abc, def".into()))
        .add_metadata(MetadataEntry::User("description".into(), "abcdef".into()))
        .set_content(b"- 1 -".to_vec())
        .clone();

    let page2 = builder
        .new_page("Second")
        .set_parent(page1.id())
        .add_metadata(MetadataEntry::Keyword("abc, def".into()))
        .add_metadata(MetadataEntry::User("description".into(), "abcdef".into()))
        .set_content(b"- 2 -".to_vec())
        .clone();

    let mut buffer: Vec<u8> = Vec::new();
    builder.dump(&mut buffer).expect("BookBuilder::dump");

    let mut book = Book::load(buffer).unwrap();

    // Check metadata.
    let pkg_metadata: Vec<_> = book.metadata().collect().expect("Invalid metadata");

    assert_eq!(pkg_metadata[..], metadata[..]);

    // Load a single page.
    let found_page = book.get_page_by_id(page2.id()).unwrap();
    assert_eq!(found_page, page2);

    // Check pages iterator.
    let mut pages: Vec<_> =
        book.pages().into_iter().map(|page| page.expect("Invalid page")).collect();

    pages.sort_by_key(|page| page.id());

    assert_eq!(book.num_pages(), 2);
    assert_eq!(pages[..], [page1, page2][..]);
}

#[test]
fn compute_toc() {
    let mut builder = Book::builder();

    let page_a = builder.new_page("A").id();
    let page_b = builder.new_page("B").id();
    let page_c = builder.new_page("C").set_parent(page_a).id();
    let page_d = builder.new_page("D").set_parent(page_a).id();
    let page_e = builder.new_page("E").set_parent(page_a).id();
    let page_f = builder.new_page("F").set_parent(page_b).id();
    let page_g = builder.new_page("G").set_parent(page_f).id();

    let mut buffer: Vec<u8> = Vec::new();
    builder.dump(&mut buffer).expect("BookBuilder::dump");

    let mut book = Book::load(buffer).unwrap();
    let toc = book.toc().expect("Book::toc");
    assert_eq!(toc.len(), 2);

    let entry = &toc[0];
    check_entry(entry, page_a, "A", &[1]);
    let children = entry.children();
    assert_eq!(children.len(), 3);

    check_entry(&children[0], page_c, "C", &[1, 1]);
    check_entry(&children[1], page_d, "D", &[1, 2]);
    check_entry(&children[2], page_e, "E", &[1, 3]);

    let entry = &toc[1];
    check_entry(entry, page_b, "B", &[2]);
    assert_eq!(entry.children().len(), 1);
    let entry = &entry.children()[0];
    check_entry(entry, page_f, "F", &[2, 1]);
    assert_eq!(entry.children().len(), 1);
    check_entry(&entry.children()[0], page_g, "G", &[2, 1, 1]);
    assert_eq!(entry.children()[0].children().len(), 0);
}

#[test]
fn detect_loops() {
    let mut buffer: Vec<u8> = Vec::new();
    let mut builder = Book::builder();

    builder.new_page("A").set_parent(PageId::force_value(1));

    builder.dump(&mut buffer).expect("BookBuilder::dump");

    let mut book = Book::load(buffer).unwrap();
    assert!(matches!(book.toc(), Err(TocError::ParentLoop)));
}

#[test]
fn empty_book() {
    let builder = Book::builder();
    let mut buffer = Vec::new();
    builder.dump(&mut buffer).unwrap();
    // The magic number, the header, the empty metadata, and one empty block.
    assert_eq!(
        buffer,
        vec![
            0x89, 0x01, b'T', b'H', b'R', b'P', b'K', b'G', 0, 0, 0, 0, 0, 0, 0, 24, 0, 0, 0, 30,
            0xFF, 0xFF, 0xFF, 0xFF, 0, 1, 0, 0, 0, 0
        ]
    );
    let mut book = Book::load(buffer).unwrap();
    assert_eq!(book.num_pages(), 0);
    assert_eq!(book.metadata().collect(), Ok(vec![]));
    assert!(book.pages().is_empty());
    assert!(book.toc().unwrap().is_empty());
}

fn two_pages(compression: BlockCompression) -> Vec<u8> {
    let mut builder = Book::builder();
    builder.set_compression(compression);
    builder.new_page("First").set_content(b"1".to_vec());
    builder.new_page("Second").set_content(b"2".to_vec());
    builder.add_metadata(MetadataEntry::Title("Theory Example".into()));
    let mut buffer = Vec::new();
    builder.dump(&mut buffer).unwrap();
    buffer
}

fn all_pages(book: &mut Book) -> Vec<Page> {
    book.pages().into_iter().map(|page| page.unwrap()).collect()
}

#[test]
fn two_pages_no_compression() {
    let buffer = two_pages(BlockCompression::Uncompressed);
    let mut expected = vec![0x89, 0x01, b'T', b'H', b'R', b'P', b'K', b'G'];
    // The header: two pages, the metadata at 24, the index at 72.
    expected.extend_from_slice(&[0, 0, 0, 2, 0, 0, 0, 24, 0, 0, 0, 72, 0xFF, 0xFF, 0xFF, 0xFF]);
    // The metadata of the book.
    expected.extend_from_slice(&[1, 14]);
    expected.extend_from_slice(b"Theory Example");
    expected.push(0);
    // The block with the contents, at 41.
    expected.extend_from_slice(&[1, 0, 0, 0, 4, 1, b'1', 1, b'2']);
    // The block with the metadata of the pages, at 50.
    expected.extend_from_slice(&[1, 0, 0, 0, 17]);
    expected.extend_from_slice(&[1, 5]);
    expected.extend_from_slice(b"First");
    expected.push(0);
    expected.extend_from_slice(&[1, 6]);
    expected.extend_from_slice(b"Second");
    expected.push(0);
    // The index.
    expected.extend_from_slice(&[0, 0, 0, 1, 0, 0, 0, 0, 0, 0, 0, 50, 0, 0, 0, 0]);
    expected.extend_from_slice(&[0, 0, 0, 41, 0, 0, 0, 0]);
    expected.extend_from_slice(&[0, 0, 0, 2, 0, 0, 0, 0, 0, 0, 0, 50, 0, 0, 0, 8]);
    expected.extend_from_slice(&[0, 0, 0, 41, 0, 0, 0, 2]);
    assert_eq!(buffer, expected);

    let mut book = Book::load(buffer).unwrap();
    assert_eq!(book.num_pages(), 2);
    assert_eq!(
        book.metadata().collect(),
        Ok(vec![MetadataEntry::Title("Theory Example".into())])
    );
    assert_eq!(book.get_page_by_id(PageId::force_value(2)).unwrap().content(), b"2");
    let first = book.get_page_by_id(PageId::force_value(1)).unwrap();
    assert_eq!(first.metadata(), [MetadataEntry::Title("First".into())]);
    assert_eq!(first.parent(), None);
}

#[test]
fn compression_parity() {
    let plain = two_pages(BlockCompression::Uncompressed);
    let best = two_pages(BlockCompression::Deflate(9));
    let stored = two_pages(BlockCompression::Deflate(0));
    let lz4 = two_pages(BlockCompression::Lz4);
    assert_ne!(best.len(), stored.len());
    assert_ne!(lz4.len(), plain.len());
    let expected = all_pages(&mut Book::load(plain).unwrap());
    assert_eq!(expected.len(), 2);
    for buffer in [best, stored, lz4] {
        let mut book = Book::load(buffer).unwrap();
        assert_eq!(all_pages(&mut book), expected);
    }
}

#[test]
fn lru_fit() {
    let mut builder = Book::builder();
    for i in 0..20u8 {
        builder.new_page("page").set_content(vec![i; 40 * 1024]);
    }
    let mut buffer = Vec::new();
    builder.dump(&mut buffer).unwrap();
    let mut book = Book::load(buffer).unwrap();
    let mut first = None;
    for id in 1..=20u32 {
        let page = book.get_page_by_id(PageId::force_value(id)).unwrap();
        assert_eq!(page.content(), vec![(id - 1) as u8; 40 * 1024]);
        if id == 1 {
            first = Some(page);
        }
    }
    let again = book.get_page_by_id(PageId::force_value(1)).unwrap();
    assert_eq!(Some(again), first);
}

#[test]
fn pages_come_in_the_order_of_their_identifiers() {
    // An index that is not in order: the page 2 stands before the page 1.
    let mut buffer = two_pages(BlockCompression::Uncompressed);
    let (first, second) = (72, 72 + 24);
    let entry: Vec<u8> = buffer[first..second].to_vec();
    buffer.copy_within(second..second + 24, first);
    buffer[second..second + 24].copy_from_slice(&entry);
    let mut book = Book::load(buffer).unwrap();
    let pages = all_pages(&mut book);
    assert_eq!(pages[0].id(), PageId::force_value(1));
    assert_eq!(pages[1].id(), PageId::force_value(2));
    assert_eq!(pages[1].content(), b"2");
}

#[test]
fn a_container_need_not_start_the_stream() {
    let mut builder = Book::builder();
    builder.new_page("Only").set_content(b"content".to_vec());
    let mut buffer = b"<prefix>".to_vec();
    builder.dump(&mut buffer).unwrap();
    assert_eq!(&buffer[..8], b"<prefix>");
    assert_eq!(Book::load(buffer.clone()).err(), Some(PersistenceError::InvalidMagic));
    let mut book = Book::load_at(buffer, 8).unwrap();
    assert_eq!(book.num_pages(), 1);
    assert_eq!(book.metadata().collect(), Ok(vec![]));
    let page = book.get_page_by_id(PageId::force_value(1)).unwrap();
    assert_eq!(page.content(), b"content");
    assert_eq!(page.metadata(), [MetadataEntry::Title("Only".into())]);
    let toc = book.toc().unwrap();
    assert_eq!(toc.len(), 1);
    check_entry(&toc[0], PageId::force_value(1), "Only", &[1]);
}

#[test]
fn load_errors() {
    let good = two_pages(BlockCompression::Uncompressed);
    // A corrupted magic number, and a stream that is too short for one.
    let mut bad = good.clone();
    bad[1] = 2;
    assert_eq!(Book::load(bad).err(), Some(PersistenceError::InvalidMagic));
    assert_eq!(Book::load(good[..5].to_vec()).err(), Some(PersistenceError::InvalidMagic));
    // A stream that ends in the header.
    assert_eq!(
        Book::load(good[..20].to_vec()).err(),
        Some(PersistenceError::Io(IoKind::UnexpectedEof))
    );
    // A stream that ends in the index.
    assert_eq!(
        Book::load(good[..good.len() - 1].to_vec()).err(),
        Some(PersistenceError::PageError(PageError::Io(IoKind::UnexpectedEof)))
    );
    // An identifier that is zero.
    let mut bad = good.clone();
    bad[72 + 3] = 0;
    assert_eq!(
        Book::load(bad).err(),
        Some(PersistenceError::PageError(PageError::InvalidId(0)))
    );
    // An identifier that is repeated.
    let mut bad = good.clone();
    bad[72 + 24 + 3] = 1;
    assert_eq!(
        Book::load(bad).err(),
        Some(PersistenceError::PageError(PageError::DuplicatedId(1)))
    );
}

#[test]
fn page_errors() {
    let good = two_pages(BlockCompression::Uncompressed);
    let mut book = Book::load(good.clone()).unwrap();
    assert_eq!(
        book.get_page_by_id(PageId::force_value(3)).err(),
        Some(PageError::InvalidId(3))
    );
    // The block of the contents says that it is longer than the stream.
    let mut bad = good.clone();
    bad[41 + 1] = 1;
    let mut book = Book::load(bad).unwrap();
    assert_eq!(
        book.get_page_by_id(PageId::force_value(1)).err(),
        Some(PageError::InvalidLength(0x0100_0004))
    );
    // The content says that it is longer than its block.
    let mut bad = good.clone();
    bad[41 + 5] = 9;
    let mut book = Book::load(bad).unwrap();
    assert_eq!(
        book.get_page_by_id(PageId::force_value(1)).err(),
        Some(PageError::InvalidLength(9))
    );
    // An offset behind the end of the block.
    let mut bad = good.clone();
    bad[72 + 23] = 5;
    let mut book = Book::load(bad).unwrap();
    assert_eq!(
        book.get_page_by_id(PageId::force_value(1)).err(),
        Some(PageError::InvalidLength(5))
    );
    // A block of a kind that is not known.
    let mut bad = good.clone();
    bad[50] = 4;
    let mut book = Book::load(bad).unwrap();
    assert_eq!(
        book.get_page_by_id(PageId::force_value(2)).err(),
        Some(PageError::InvalidBlockType(4))
    );
    assert!(matches!(
        book.toc(),
        Err(TocError::TitleError(PageError::InvalidBlockType(4)))
    ));
}

#[test]
fn damaged_fragments() {
    let good = two_pages(BlockCompression::Uncompressed);
    // The length of a content never ends.
    let mut bad = good.clone();
    bad[41 + 5] = 0x80;
    bad[41 + 6] = 0x80;
    bad[41 + 7] = 0x80;
    bad[41 + 8] = 0x80;
    let mut book = Book::load(bad).unwrap();
    assert_eq!(
        book.get_page_by_id(PageId::force_value(1)).err(),
        Some(PageError::Leb128Error(theory::varint::VarintError::UnexpectedEof))
    );
    // The metadata of the first page hold a tag that is not known.
    let mut bad = good.clone();
    bad[50 + 5] = 77;
    let mut book = Book::load(bad).unwrap();
    assert_eq!(
        book.get_page_by_id(PageId::force_value(1)).err(),
        Some(PageError::InvalidMetadata(theory::errors::MetadataError::InvalidByteTag(77)))
    );
    // The second page is read all the same, and the first has no title.
    assert_eq!(book.get_page_by_id(PageId::force_value(2)).unwrap().content(), b"2");
    let toc = book.toc().unwrap();
    check_entry(&toc[0], PageId::force_value(1), "", &[1]);
    check_entry(&toc[1], PageId::force_value(2), "Second", &[2]);
}

#[test]
fn page_with_empty_content() {
    let mut builder = Book::builder();
    builder.new_page("Empty");
    let mut buffer = Vec::new();
    builder.dump(&mut buffer).unwrap();
    // The content is a length of zero and nothing else.
    assert_eq!(&buffer[25..31], &[1, 0, 0, 0, 1, 0]);
    let mut book = Book::load(buffer).unwrap();
    let page = book.get_page_by_id(PageId::force_value(1)).unwrap();
    assert!(page.content().is_empty());
    assert_eq!(page.metadata(), [MetadataEntry::Title("Empty".into())]);
}

fn chain(levels: u32) -> Book {
    let mut builder = Book::builder();
    builder.new_page("1");
    for id in 2..=levels {
        builder.new_page("n").set_parent(PageId::force_value(id - 1));
    }
    let mut buffer = Vec::new();
    builder.dump(&mut buffer).unwrap();
    Book::load(buffer).unwrap()
}

#[test]
fn nesting_is_limited() {
    // A page with 32 pages above it is the deepest that there can be.
    let toc = chain(33).toc().unwrap();
    let mut entry = &toc[0];
    let mut section = vec![1];
    for id in 1..=33u32 {
        check_entry(entry, PageId::force_value(id), if id == 1 { "1" } else { "n" }, &section);
        if id < 33 {
            assert_eq!(entry.children().len(), 1);
            entry = &entry.children()[0];
            section.push(1);
        }
    }
    assert!(entry.children().is_empty());
    assert!(matches!(chain(34).toc(), Err(TocError::ParentLoop)));
}

#[test]
fn a_parent_must_come_before_its_child() {
    let mut builder = Book::builder();
    builder.new_page("A").set_parent(PageId::force_value(2));
    builder.new_page("B");
    let mut buffer = Vec::new();
    builder.dump(&mut buffer).unwrap();
    let mut book = Book::load(buffer).unwrap();
    assert_eq!(book.toc().err(), Some(TocError::InvalidParent(PageId::force_value(2))));
}

#[test]
fn identifiers_count_from_one() {
    let mut builder = Book::builder();
    assert_eq!(builder.new_page("a").id(), PageId::force_value(1));
    assert_eq!(builder.new_page("b").id(), PageId::force_value(2));
    assert_eq!(builder.new_page("c").id().get(), 3);
}

#[test]
fn a_dump_keeps_what_the_output_held() {
    let mut builder = Book::builder();
    builder.new_page("a").set_content(vec![1, 2, 3]);
    let mut buffer = vec![9, 9];
    builder.dump(&mut buffer).unwrap();
    assert_eq!(&buffer[..2], &[9, 9]);
    assert_eq!(&buffer[2..10], &[0x89, 0x01, b'T', b'H', b'R', b'P', b'K', b'G']);
}
