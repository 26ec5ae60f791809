use theory::persistence::kvlist::{deserialize, serialize, DeserializeError, Pair};
use theory::varint::VarintError;

#[derive(Debug, PartialEq)]
enum Entry {
    A(String),
    B(u64),
}

const TAG_A: u8 = 1;
const TAG_B: u8 = 2;

fn to_pair(entry: &Entry) -> Pair {
    match entry {
        Entry::A(a) => Pair { tag: TAG_A, payload: a.as_bytes().to_vec() },
        Entry::B(b) => Pair { tag: TAG_B, payload: b.to_be_bytes().to_vec() },
    }
}

fn from_pair(pair: Pair) -> Entry {
    match pair.tag {
        TAG_A => Entry::A(String::from_utf8(pair.payload).unwrap()),
        TAG_B => Entry::B(u64::from_be_bytes(pair.payload[..].try_into().unwrap())),
        other => panic!("unexpected tag {}", other),
    }
}

#[test]
fn kvlist_write_read() {
    let mut bytes = Vec::new();

    let pairs = [to_pair(&Entry::A("abcd".into())), to_pair(&Entry::B(1234))];
    serialize(&mut bytes, &pairs);

    let tags = [TAG_A, TAG_B];
    let mut iter = deserialize(&bytes, &tags);
    assert_eq!(from_pair(iter.next().unwrap().unwrap()), Entry::A("abcd".into()));
    assert_eq!(from_pair(iter.next().unwrap().unwrap()), Entry::B(1234));
    assert!(iter.next().is_none());
}

#[test]
fn kvlist_wire_form() {
    let mut bytes = Vec::new();
    let pairs = [
        Pair { tag: 7, payload: vec![0xAB; 130] },
        Pair { tag: 9, payload: vec![] },
    ];
    serialize(&mut bytes, &pairs);
    let mut expected = vec![7, 0x82, 0x01];
    expected.extend_from_slice(&[0xAB; 130]);
    expected.extend_from_slice(&[9, 0, 0]);
    assert_eq!(bytes, expected);
    let tags = [9, 7];
    assert_eq!(deserialize(&bytes, &tags).collect(), Ok(pairs.to_vec()));
}

#[test]
fn kvlist_errors_are_sticky() {
    let tags = [1u8, 2];
    // An unknown tag.
    let bytes = [3u8, 0, 0];
    let mut parser = deserialize(&bytes, &tags);
    assert_eq!(parser.next(), Some(Err(DeserializeError::InvalidByteTag(3))));
    assert_eq!(parser.next(), None);
    // A length that is more than what is left.
    let bytes = [1u8, 4, 1, 2, 3];
    let mut parser = deserialize(&bytes, &tags);
    assert_eq!(parser.next(), Some(Err(DeserializeError::InvalidLength(4))));
    assert_eq!(parser.next(), None);
    // No terminator.
    let bytes = [1u8, 1, 5];
    let mut parser = deserialize(&bytes, &tags);
    assert_eq!(parser.next(), Some(Ok(Pair { tag: 1, payload: vec![5] })));
    assert_eq!(parser.next(), Some(Err(DeserializeError::IoError)));
    assert_eq!(parser.next(), None);
    // A length that ends too early.
    let bytes = [2u8, 0x80];
    let mut parser = deserialize(&bytes, &tags);
    assert_eq!(
        parser.next(),
        Some(Err(DeserializeError::Leb128Error(VarintError::UnexpectedEof)))
    );
    assert_eq!(parser.next(), None);
    // Nothing is read behind the terminator.
    let bytes = [0u8, 1, 0];
    let mut parser = deserialize(&bytes, &tags);
    assert_eq!(parser.next(), None);
    assert_eq!(parser.next(), None);
}
