use theory::metadata::{dump, load, MetadataEntry, MetadataError};
use theory::varint::VarintError;

#[test]
fn write_read_metadata() {
    let entries = [
        MetadataEntry::Title("title".into()),
        MetadataEntry::Date(1234567890),
        MetadataEntry::User("key".into(), "value".into()),
    ];

    let mut buf = Vec::new();
    dump(&mut buf, &entries);

    let loaded = load(&buf).collect().unwrap();

    assert_eq!(entries, loaded[..]);
}

#[test]
fn metadata_wire_form() {
    let entries = [
        MetadataEntry::Title("ab".into()),
        MetadataEntry::Date(0x0102030405060708),
        MetadataEntry::User("k".into(), "vw".into()),
    ];
    let mut buf = vec![0xAA];
    dump(&mut buf, &entries);
    assert_eq!(
        buf,
        vec![
            0xAA, 1, 2, b'a', b'b', 4, 8, 1, 2, 3, 4, 5, 6, 7, 8, 100, 4, 1, b'k', b'v', b'w', 0
        ]
    );
}

#[test]
fn metadata_reader_stops_after_an_error() {
    // A title, then a tag that is not known.
    let bytes = [1, 1, b'x', 9, 0, 0];
    let mut parser = load(&bytes);
    assert_eq!(parser.next(), Some(Ok(MetadataEntry::Title("x".into()))));
    assert_eq!(parser.next(), Some(Err(MetadataError::InvalidByteTag(9))));
    assert_eq!(parser.next(), None);
    assert_eq!(parser.next(), None);
}

#[test]
fn metadata_errors() {
    assert_eq!(load(&[]).collect(), Err(MetadataError::IoError));
    assert_eq!(load(&[1]).collect(), Err(MetadataError::Leb128Error(VarintError::UnexpectedEof)));
    assert_eq!(load(&[1, 3, b'a']).collect(), Err(MetadataError::InvalidLength(3)));
    assert_eq!(load(&[4, 2, 0, 0, 0]).collect(), Err(MetadataError::InvalidLength(2)));
    assert_eq!(load(&[2, 1, 0xFF, 0]).collect(), Err(MetadataError::UnicodeError));
    assert_eq!(
        load(&[1, 0x80, 0x80, 0x80, 0x80, 0x80, 0x80, 0x80, 0x80, 0x80, 0x02, 0]).collect(),
        Err(MetadataError::Leb128Error(VarintError::Overflow))
    );
    assert_eq!(load(&[100, 2, 5, b'a', 0]).collect(), Err(MetadataError::InvalidLength(5)));
    assert_eq!(load(&[0]).collect(), Ok(vec![]));
}
