use std::sync::Arc;

use mini_lsm_starter::block::{Block, BlockBuilder, BlockIterator};

fn build(entries: &[(&[u8], &[u8])], block_size: usize) -> Block {
    let mut builder = BlockBuilder::new(block_size);
    for (k, v) in entries {
        assert!(builder.add(k, v));
    }
    builder.build()
}

fn collect(mut iter: BlockIterator) -> Vec<(Vec<u8>, Vec<u8>)> {
    let mut out = Vec::new();
    while iter.is_valid() {
        out.push((iter.key().to_vec(), iter.value().to_vec()));
        iter.next();
    }
    out
}

#[test]
fn test_block_build_single_key() {
    let block = build(&[(b"233", b"233333")], 16);
    let encoded = block.encode();
    let expected: Vec<u8> = vec![
        3, 0, b'2', b'3', b'3', 6, 0, b'2', b'3', b'3', b'3', b'3', b'3', 0, 0, 1, 0,
    ];
    assert_eq!(encoded, expected);
}

#[test]
fn test_block_record_layout() {
    let block = build(&[(b"key_1", b"v1"), (b"key_2", b"v2")], 4096);
    // Each record is key_len | key | value_len | value.
    assert_eq!(block.offsets, vec![0, 11]);
    assert_eq!(&block.data[11..], &[5, 0, b'k', b'e', b'y', b'_', b'2', 2, 0, b'v', b'2']);
    assert_eq!(block.first_key, b"key_1".to_vec());
}

#[test]
fn test_block_one_entry_bytes() {
    let block = build(&[(b"a", b"1")], 4096);
    assert_eq!(block.data.len(), 4 + 1 + 1);
    assert_eq!(block.encode().to_vec(), vec![1, 0, b'a', 1, 0, b'1', 0, 0, 1, 0]);
}

#[test]
fn test_block_encode_decode_roundtrip() {
    let entries: Vec<(Vec<u8>, Vec<u8>)> = (0..40)
        .map(|i| (format!("key_{:03}", i).into_bytes(), format!("value_{}", i * 7).into_bytes()))
        .collect();
    let mut builder = BlockBuilder::new(4096);
    for (k, v) in &entries {
        assert!(builder.add(k, v));
    }
    let block = builder.build();
    let decoded = Block::decode(&block.encode());
    assert_eq!(decoded.data, block.data);
    assert_eq!(decoded.offsets, block.offsets);
    assert_eq!(decoded.first_key, block.first_key);
    let read = collect(BlockIterator::create_and_seek_to_first(Arc::new(decoded)));
    assert_eq!(read, entries);
}

#[test]
fn test_block_first_entry_always_accepted() {
    let mut builder = BlockBuilder::new(8);
    assert!(builder.is_empty());
    // An entry larger than the target still goes into an empty block.
    assert!(builder.add(b"a_long_key", b"a_long_value"));
    assert!(!builder.is_empty());
    // A second entry does not fit.
    assert!(!builder.add(b"b", b"1"));
    let block = builder.build();
    assert_eq!(block.offsets.len(), 1);
}

#[test]
fn test_block_size_gate() {
    // Encoded size after the first entry: record 2+1+2+1 = 6, offset 2, count 2 = 10.
    let mut builder = BlockBuilder::new(17);
    assert!(builder.add(b"a", b"1"));
    // 10 + 6 + 1 + 1 = 18 > 17: rejected.
    assert!(!builder.add(b"b", b"1"));
    let mut builder = BlockBuilder::new(18);
    assert!(builder.add(b"a", b"1"));
    // 10 + 6 + 1 + 1 = 18 <= 18: accepted; the block then takes exactly 18 bytes.
    assert!(builder.add(b"b", b"1"));
    let block = builder.build();
    assert_eq!(block.encode().len(), 18);
}

#[test]
fn test_block_size_bound_many_entries() {
    let block_size = 256;
    let mut builder = BlockBuilder::new(block_size);
    let mut n = 0;
    while builder.add(format!("k{:04}", n).as_bytes(), b"some value") {
        n += 1;
    }
    let block = builder.build();
    assert!(n >= 2);
    assert!(block.encode().len() <= block_size);
}

#[test]
fn test_block_within_target() {
    // A block of two entries or more never passes its target.
    for block_size in [40usize, 64, 100, 256, 4096] {
        let mut builder = BlockBuilder::new(block_size);
        let mut n = 0;
        while n < 500 && builder.add(format!("key_{:04}", n).as_bytes(), b"v") {
            n += 1;
        }
        let block = builder.build();
        assert!(n >= 2);
        assert!(block.encode().len() <= block_size);
    }
}

#[test]
fn test_block_iterator_walks_all() {
    let entries: Vec<(&[u8], &[u8])> = vec![(b"apple", b"1"), (b"apricot", b"2"), (b"banana", b"3")];
    let block = Arc::new(build(&entries, 4096));
    let read = collect(BlockIterator::create_and_seek_to_first(block));
    let expected: Vec<(Vec<u8>, Vec<u8>)> =
        entries.iter().map(|(k, v)| (k.to_vec(), v.to_vec())).collect();
    assert_eq!(read, expected);
}

#[test]
fn test_block_iterator_next_past_end() {
    let block = Arc::new(build(&[(b"a", b"1")], 4096));
    let mut iter = BlockIterator::create_and_seek_to_first(block);
    assert!(iter.is_valid());
    iter.next();
    assert!(!iter.is_valid());
    iter.next();
    assert!(!iter.is_valid());
    iter.seek_to_first();
    assert!(iter.is_valid());
    assert_eq!(iter.key(), b"a");
}

#[test]
fn test_block_seek_to_key_lower_bound() {
    let block = Arc::new(build(&[(b"1", b"a"), (b"3", b"b"), (b"5", b"c")], 4096));
    let iter = BlockIterator::create_and_seek_to_key(block.clone(), b"2");
    assert_eq!(iter.key(), b"3");
    assert_eq!(iter.value(), b"b");
    let iter = BlockIterator::create_and_seek_to_key(block.clone(), b"0");
    assert_eq!(iter.key(), b"1");
    let iter = BlockIterator::create_and_seek_to_key(block.clone(), b"5");
    assert_eq!(iter.key(), b"5");
    let iter = BlockIterator::create_and_seek_to_key(block.clone(), b"6");
    assert!(!iter.is_valid());
    let mut iter = BlockIterator::create_and_seek_to_first(block);
    iter.seek_to_key(b"4");
    assert_eq!(iter.key(), b"5");
}

#[test]
fn test_block_seek_duplicate_keys_lands_on_first() {
    let block = Arc::new(build(&[(b"a", b"1"), (b"b", b"2"), (b"b", b"3"), (b"c", b"4")], 4096));
    let iter = BlockIterator::create_and_seek_to_key(block, b"b");
    assert_eq!(iter.value(), b"2");
}

#[test]
fn test_block_tombstone_round_trip() {
    let block = build(&[(b"a", b""), (b"b", b"2")], 4096);
    let decoded = Arc::new(Block::decode(&block.encode()));
    let mut iter = BlockIterator::create_and_seek_to_first(decoded);
    assert!(iter.is_valid());
    assert_eq!(iter.key(), b"a");
    assert_eq!(iter.value(), b"");
    iter.next();
    assert!(iter.is_valid());
    assert_eq!(iter.value(), b"2");
}

#[test]
fn test_block_decode_explicit_bytes() {
    let bytes: Vec<u8> = vec![2, 0, b'h', b'i', 1, 0, b'x', 0, 0, 1, 0];
    let block = Block::decode(&bytes);
    assert_eq!(block.data, bytes[..7].to_vec());
    assert_eq!(block.offsets, vec![0]);
    assert_eq!(block.first_key, b"hi".to_vec());
}

#[test]
fn test_block_iterator_walks_then_ends() {
    let entries: Vec<(&[u8], &[u8])> = vec![(b"a", b"1"), (b"b", b""), (b"c", b"3")];
    let block = Arc::new(Block::decode(&build(&entries, 4096).encode()));
    let mut iter = BlockIterator::create_and_seek_to_first(block);
    for (k, v) in &entries {
        assert!(iter.is_valid());
        assert_eq!(iter.key(), *k);
        assert_eq!(iter.value(), *v);
        iter.next();
    }
    assert!(!iter.is_valid());
}

#[test]
fn test_block_builder_any_target_accepts_first_entry() {
    let mut builder = BlockBuilder::new(usize::MAX);
    assert!(builder.is_empty());
    assert!(builder.add(b"k", b"v"));
    assert!(builder.add(b"l", b"w"));
    let mut builder = BlockBuilder::new(0);
    assert!(builder.add(b"k", b"v"));
    assert!(!builder.add(b"l", b"w"));
}
