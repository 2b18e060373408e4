use std::sync::Arc;

use mini_lsm_starter::block::{Block, BlockIterator};
use mini_lsm_starter::table::builder::is_fingerprint_safe;
use mini_lsm_starter::table::{block_range, decode_sst_layout, find_block_idx, BlockMeta, SsTableBuilder};

fn meta(offset: usize, first: &[u8], last: &[u8]) -> BlockMeta {
    BlockMeta { offset, first_key: first.to_vec(), last_key: last.to_vec() }
}

#[test]
fn test_block_meta_encode_bytes() {
    let mut buf = vec![9u8];
    BlockMeta::encode_block_meta(&[meta(0x0102, b"a", b"bc")], &mut buf);
    assert_eq!(buf, vec![9, 1, 0, 0, 0, 2, 1, 0, 0, 1, 0, b'a', 2, 0, b'b', b'c']);
}

#[test]
fn test_block_meta_roundtrip() {
    let metas = vec![meta(0, b"a", b"f"), meta(4096, b"g", b"m"), meta(70000, b"n", b"zz")];
    let mut buf = Vec::new();
    BlockMeta::encode_block_meta(&metas, &mut buf);
    let decoded = BlockMeta::decode_block_meta(&buf);
    assert_eq!(decoded.len(), 3);
    for (d, m) in decoded.iter().zip(metas.iter()) {
        assert_eq!(d.offset, m.offset);
        assert_eq!(d.first_key, m.first_key);
        assert_eq!(d.last_key, m.last_key);
    }
}

#[test]
fn test_find_block_idx() {
    let metas = vec![meta(0, b"b", b"d"), meta(10, b"f", b"h"), meta(20, b"j", b"l")];
    assert_eq!(find_block_idx(&metas, b"a"), 0);
    assert_eq!(find_block_idx(&metas, b"b"), 0);
    assert_eq!(find_block_idx(&metas, b"e"), 0);
    assert_eq!(find_block_idx(&metas, b"f"), 1);
    assert_eq!(find_block_idx(&metas, b"i"), 1);
    assert_eq!(find_block_idx(&metas, b"z"), 2);
    assert_eq!(find_block_idx(&[], b"z"), 0);
}

#[test]
fn test_block_range() {
    let metas = vec![meta(0, b"b", b"d"), meta(10, b"f", b"h")];
    assert_eq!(block_range(&metas, 25, 0), (0, 10));
    assert_eq!(block_range(&metas, 25, 1), (10, 25));
}

fn key_of(i: usize) -> Vec<u8> {
    format!("key_{:05}", i).into_bytes()
}

fn value_of(i: usize) -> Vec<u8> {
    format!("value_{}", i * 31).into_bytes()
}

#[test]
fn test_sst_build_and_read_back() {
    let mut builder = SsTableBuilder::new(128);
    let n = 200;
    for i in 0..n {
        builder.add(&key_of(i), &value_of(i));
    }
    assert!(builder.estimated_size() > 0);
    assert_eq!(builder.key_hashes().len(), n);
    let bloom = vec![7u8, 8, 9];
    let table = builder.build(&bloom);
    assert!(table.block_meta.len() > 1);
    assert_eq!(table.first_key, key_of(0));
    assert_eq!(table.last_key, key_of(n - 1));

    let layout = decode_sst_layout(&table.data);
    assert_eq!(layout.block_meta_offset, table.block_meta_offset);
    assert_eq!(layout.block_meta.len(), table.block_meta.len());
    assert_eq!(&table.data[layout.bloom_offset..table.data.len() - 4], &bloom[..]);
    assert_eq!(layout.first_key, key_of(0));
    assert_eq!(layout.last_key, key_of(n - 1));

    let mut read = Vec::new();
    for idx in 0..layout.block_meta.len() {
        let (lo, hi) = block_range(&layout.block_meta, layout.block_meta_offset, idx);
        let block = Arc::new(Block::decode(&table.data[lo..hi]));
        let mut iter = BlockIterator::create_and_seek_to_first(block);
        assert_eq!(iter.key(), &layout.block_meta[idx].first_key[..]);
        while iter.is_valid() {
            read.push((iter.key().to_vec(), iter.value().to_vec()));
            iter.next();
        }
        assert_eq!(read.last().unwrap().0, layout.block_meta[idx].last_key);
    }
    let expected: Vec<(Vec<u8>, Vec<u8>)> = (0..n).map(|i| (key_of(i), value_of(i))).collect();
    assert_eq!(read, expected);

    let idx = find_block_idx(&layout.block_meta, &key_of(137));
    let (lo, hi) = block_range(&layout.block_meta, layout.block_meta_offset, idx);
    let block = Arc::new(Block::decode(&table.data[lo..hi]));
    let iter = BlockIterator::create_and_seek_to_key(block, &key_of(137));
    assert_eq!(iter.value(), &value_of(137)[..]);
}

#[test]
fn test_sst_single_block_footer() {
    let mut builder = SsTableBuilder::new(4096);
    builder.add(b"k", b"v");
    let table = builder.build(&[]);
    let len = table.data.len();
    // The last four bytes hold the bloom offset, which here is the end of the footer.
    assert_eq!(
        u32::from_le_bytes([table.data[len - 4], table.data[len - 3], table.data[len - 2], table.data[len - 1]])
            as usize,
        len - 4
    );
    assert_eq!(table.block_meta.len(), 1);
    assert_eq!(table.block_meta[0].offset, 0);
}

#[test]
fn test_sst_key_hashes_are_farmhash_fingerprints() {
    let mut builder = SsTableBuilder::new(4096);
    builder.add(b"hello world", b"1");
    builder.add(b"zzz", b"2");
    let hashes = builder.key_hashes().to_vec();
    assert_eq!(hashes.len(), 2);
    assert_eq!(hashes[0], 430397466);
    assert_eq!(hashes[1], farmhash::fingerprint32(b"zzz"));
}

#[test]
fn test_sst_estimated_size_counts_cut_blocks() {
    let mut builder = SsTableBuilder::new(64);
    assert_eq!(builder.estimated_size(), 0);
    for i in 0..50 {
        builder.add(&key_of(i), &value_of(i));
    }
    assert!(builder.estimated_size() > 0);
}

#[test]
fn test_find_block_covers_every_key() {
    // Duplicate keys may span two blocks: the block found still covers the key.
    let mut builder = SsTableBuilder::new(48);
    let mut keys = Vec::new();
    for i in 0..60 {
        let k = key_of(i / 3);
        builder.add(&k, &value_of(i));
        keys.push(k);
    }
    let table = builder.build(&[]);
    let metas = &table.block_meta;
    assert!(metas.len() > 2);
    for k in &keys {
        let idx = find_block_idx(metas, k);
        assert!(&metas[idx].first_key[..] <= &k[..] && &k[..] <= &metas[idx].last_key[..]);
    }
}

#[test]
fn test_fingerprint_safe_keys() {
    // Short and long keys use wrapping arithmetic only.
    assert!(is_fingerprint_safe(b"abcd"));
    assert!(is_fingerprint_safe(&[0xffu8; 30]));
    assert!(is_fingerprint_safe(b"hello world"));
    // The first word plus the length overflows for this five-byte key.
    assert!(!is_fingerprint_safe(&[0xff, 0xff, 0xff, 0xff, 0x00]));
    // Nine plus the word at offset 4 overflows.
    assert!(!is_fingerprint_safe(&[0, 0, 0, 0, 0xff, 0xff, 0xff, 0xff]));
    assert!(is_fingerprint_safe(b"key_00042"));
}

#[test]
fn test_sst_estimated_size_grows_by_cut_blocks() {
    let mut builder = SsTableBuilder::new(64);
    assert_eq!(builder.estimated_size(), 0);
    let mut last = 0;
    let mut grew = 0;
    for i in 0..50 {
        builder.add(&key_of(i), &value_of(i));
        let now = builder.estimated_size();
        assert!(now >= last);
        if now > last {
            grew += 1;
        }
        last = now;
    }
    assert!(grew > 0);
}
