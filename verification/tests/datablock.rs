use theory::persistence::datablock::reader::DataBlocksReader;
use theory::persistence::datablock::writer::DataBlocksWriter;
use theory::persistence::datablock::{BlockCompression, BlockError, IoKind};

fn write_read_with_compression(compression: BlockCompression) {
    let mut buffer = Vec::new();
    buffer.extend_from_slice(&b"<prefix>"[..]);

    let mut writer = DataBlocksWriter::new(buffer, compression);

    // First fragment: 50×'A' + 50×'B'
    let mut fragment = writer.fragment(100).unwrap();
    fragment.write_all(&[b'A'; 50]);
    fragment.write_all(&[b'B'; 50]);

    let block1 = fragment.location();
    assert_eq!(block1.offset, 0);

    // Second fragment: 10×'C'
    let mut fragment = writer.fragment(10).unwrap();
    fragment.write_all(&[b'C'; 10]);
    let fragment = fragment.location();

    assert_eq!(block1.block_id, fragment.block_id);
    assert_eq!(fragment.offset, 100);

    // Third fragment: 10×'D', but use a very big number as the hint.
    let mut fragment = writer.fragment(0xFFFFFF).unwrap();
    fragment.write_all(&[b'D'; 10]);

    let block2 = fragment.location();
    assert_eq!(block2.offset, 0);

    let buffer = writer.finish().unwrap();

    // The prefix should be kept.
    assert_eq!(&buffer[..8], b"<prefix>");

    let mut reader = DataBlocksReader::new(buffer);

    // The first block contains the ABC sequences.
    let expected = {
        let mut bytes = vec![0; 110];
        bytes[0..50].fill(b'A');
        bytes[50..100].fill(b'B');
        bytes[100..110].fill(b'C');
        bytes
    };

    let block_bytes = reader.with_block(block1.block_id, 0, |b| Vec::from(b)).unwrap();
    assert_eq!(block_bytes, expected);

    // The second block contains 10×'D'.
    let expected = vec![b'D'; 10];
    let block_bytes = reader.with_block(block2.block_id, 0, |b| Vec::from(b)).unwrap();
    assert_eq!(block_bytes, expected);
}

#[test]
fn tests_write_read() {
    write_read_with_compression(BlockCompression::Uncompressed);
    write_read_with_compression(BlockCompression::Deflate(0));
    write_read_with_compression(BlockCompression::Deflate(6));
}

#[test]
fn write_read_lz4() {
    write_read_with_compression(BlockCompression::Lz4);
}

#[test]
fn uncompressed_block_layout() {
    let mut writer = DataBlocksWriter::new(vec![7, 7], BlockCompression::Uncompressed);
    let mut fragment = writer.fragment(3).unwrap();
    fragment.write_all(&[1, 2, 3]);
    let location = fragment.location();
    assert_eq!((location.block_id, location.offset), (2, 0));
    assert_eq!(writer.finish().unwrap(), vec![7, 7, 1, 0, 0, 0, 3, 1, 2, 3]);
}

#[test]
fn slice_starts_at_the_offset() {
    let stream = vec![1, 0, 0, 0, 4, 10, 11, 12, 13];
    let mut reader = DataBlocksReader::new(stream);
    for offset in 0..=4usize {
        let slice = reader.with_block(0, offset, |b| b.to_vec()).unwrap();
        assert_eq!(slice, [10u8, 11, 12, 13][offset..].to_vec());
    }
    assert_eq!(reader.with_block(0, 5, |b| b.to_vec()), Err(BlockError::InvalidLength(5)));
}

#[test]
fn block_errors() {
    let mut reader = DataBlocksReader::new(vec![9, 0, 0, 0, 0]);
    assert_eq!(reader.with_block(0, 0, |b| b.len()), Err(BlockError::InvalidBlockType(9)));
    assert_eq!(reader.with_block(5, 0, |b| b.len()), Err(BlockError::Io(IoKind::UnexpectedEof)));
    let mut reader = DataBlocksReader::new(vec![1, 0, 0]);
    assert_eq!(reader.with_block(0, 0, |b| b.len()), Err(BlockError::Io(IoKind::UnexpectedEof)));
    let mut reader = DataBlocksReader::new(vec![1, 0, 0, 0, 2, 5]);
    assert_eq!(reader.with_block(0, 0, |b| b.len()), Err(BlockError::InvalidLength(2)));
    let mut reader = DataBlocksReader::new(vec![2, 0, 0, 0, 2, 0xFF, 0xFF]);
    assert_eq!(reader.with_block(0, 0, |b| b.len()), Err(BlockError::Io(IoKind::InvalidData)));
    assert_eq!(reader.cached_blocks(), 0);
    // A failure is not kept: the same call fails the same way again.
    assert_eq!(reader.with_block(0, 0, |b| b.len()), Err(BlockError::Io(IoKind::InvalidData)));
}

#[test]
fn a_new_block_starts_when_the_size_is_exceeded() {
    let mut writer = DataBlocksWriter::new(Vec::new(), BlockCompression::Uncompressed);
    let mut first = writer.fragment(10).unwrap();
    first.write_all(&[0; 10]);
    let first = first.location();
    // 10 + 32758 is exactly 32 KiB: the fragment stays in the block.
    let second = writer.fragment(32 * 1024 - 10).unwrap().location();
    assert_eq!((second.block_id, second.offset), (first.block_id, 10));
    // One byte more, and it starts a block of its own.
    let third = writer.fragment(32 * 1024 - 9).unwrap().location();
    assert_eq!((third.block_id, third.offset), (15, 0));
    // A fragment of any size goes into an empty block.
    let fourth = writer.fragment(1 << 40).unwrap().location();
    assert_eq!((fourth.block_id, fourth.offset), (15, 0));
    // The largest hint always starts a block.
    let fifth = writer.fragment(u64::MAX).unwrap().location();
    assert_eq!((fifth.block_id, fifth.offset), (20, 0));
}

#[test]
fn an_lz4_frame_must_be_one() {
    let mut reader = DataBlocksReader::new(vec![3, 0, 0, 0, 3, 1, 2, 3]);
    assert_eq!(reader.with_block(0, 0, |b| b.len()), Err(BlockError::Io(IoKind::InvalidData)));
}

#[test]
fn compressed_payloads_are_not_stored_as_they_are() {
    let payload = vec![7u8; 1000];
    for compression in [BlockCompression::Deflate(9), BlockCompression::Lz4] {
        let mut writer = DataBlocksWriter::new(Vec::new(), compression);
        let mut fragment = writer.fragment(1000).unwrap();
        fragment.write_all(&payload);
        let location = fragment.location();
        let stream = writer.finish().unwrap();
        assert!(stream.len() < 100);
        let stored = u32::from_be_bytes([stream[1], stream[2], stream[3], stream[4]]);
        assert_eq!(stored as usize, stream.len() - 5);
        let mut reader = DataBlocksReader::new(stream);
        let read = reader.with_block(location.block_id, 990, |b| b.to_vec()).unwrap();
        assert_eq!(read, vec![7u8; 10]);
    }
}

#[test]
fn no_more_than_sixteen_blocks_are_kept() {
    let mut writer = DataBlocksWriter::new(Vec::new(), BlockCompression::Uncompressed);
    let mut blocks = Vec::new();
    for i in 0..20u8 {
        let mut fragment = writer.fragment(u64::MAX).unwrap();
        fragment.write_all(&[i]);
        blocks.push(fragment.location().block_id);
    }
    let mut reader = DataBlocksReader::new(writer.finish().unwrap());
    for (i, block) in blocks.iter().enumerate() {
        assert_eq!(reader.with_block(*block, 0, |b| b.to_vec()), Ok(vec![i as u8]));
        assert_eq!(reader.cached_blocks(), (i + 1).min(16));
        // Reading the block again takes it from the cache.
        assert_eq!(reader.with_block(*block, 0, |b| b.to_vec()), Ok(vec![i as u8]));
        assert_eq!(reader.cached_blocks(), (i + 1).min(16));
    }
    assert_eq!(reader.with_block(blocks[0], 0, |b| b.to_vec()), Ok(vec![0]));
    assert_eq!(reader.cached_blocks(), 16);
}
