use std::sync::Arc;

use mini_lsm_starter::block::{BlockBuilder, BlockIterator};
use mini_lsm_starter::iterators::merge_iterator::MergeIterator;
use mini_lsm_starter::iterators::two_merge_iterator::TwoMergeIterator;
use mini_lsm_starter::iterators::StorageIterator;

fn block_iter(entries: &[(&[u8], &[u8])]) -> BlockIterator {
    let mut builder = BlockBuilder::new(4096);
    for (k, v) in entries {
        assert!(builder.add(k, v));
    }
    BlockIterator::create_and_seek_to_first(Arc::new(builder.build()))
}

fn drain<I: StorageIterator>(iter: &mut I) -> Vec<(Vec<u8>, Vec<u8>)> {
    let mut out = Vec::new();
    while StorageIterator::is_valid(iter) {
        out.push((StorageIterator::key(iter).to_vec(), StorageIterator::value(iter).to_vec()));
        if StorageIterator::next(iter).is_err() {
            panic!("block iterators do not fail");
        }
    }
    out
}

fn pairs(v: &[(&[u8], &[u8])]) -> Vec<(Vec<u8>, Vec<u8>)> {
    v.iter().map(|(k, v)| (k.to_vec(), v.to_vec())).collect()
}

#[test]
fn test_merge_prefers_smaller_index() {
    let i1 = block_iter(&[(b"a", b"1.1"), (b"b", b"2.1"), (b"c", b"3.1")]);
    let i2 = block_iter(&[(b"a", b"1.2"), (b"b", b"2.2"), (b"c", b"3.2"), (b"d", b"4.2")]);
    let i3 = block_iter(&[(b"b", b"2.3"), (b"c", b"3.3"), (b"d", b"4.3")]);
    let mut merged = MergeIterator::create(vec![Box::new(i1), Box::new(i2), Box::new(i3)]);
    assert_eq!(
        drain(&mut merged),
        pairs(&[(b"a", b"1.1"), (b"b", b"2.1"), (b"c", b"3.1"), (b"d", b"4.2")])
    );
}

#[test]
fn test_merge_interleaves_in_key_order() {
    let i1 = block_iter(&[(b"a", b"1"), (b"e", b"5")]);
    let i2 = block_iter(&[(b"b", b"2"), (b"d", b"4")]);
    let i3 = block_iter(&[(b"c", b"3"), (b"f", b"6")]);
    let mut merged = MergeIterator::create(vec![Box::new(i1), Box::new(i2), Box::new(i3)]);
    assert_eq!(
        drain(&mut merged),
        pairs(&[(b"a", b"1"), (b"b", b"2"), (b"c", b"3"), (b"d", b"4"), (b"e", b"5"), (b"f", b"6")])
    );
}

#[test]
fn test_merge_same_key_in_all_three() {
    let i1 = block_iter(&[(b"b", b"")]);
    let i2 = block_iter(&[(b"a", b"4"), (b"b", b"2")]);
    let i3 = block_iter(&[(b"b", b"1"), (b"c", b"3")]);
    let mut merged = MergeIterator::create(vec![Box::new(i1), Box::new(i2), Box::new(i3)]);
    assert_eq!(drain(&mut merged), pairs(&[(b"a", b"4"), (b"b", b""), (b"c", b"3")]));
}

#[test]
fn test_merge_empty_and_exhausted_children() {
    let merged: MergeIterator<BlockIterator> = MergeIterator::create(vec![]);
    assert!(!merged.is_valid());
    let mut exhausted = block_iter(&[(b"z", b"1")]);
    exhausted.next();
    let live = block_iter(&[(b"k", b"v")]);
    let mut merged = MergeIterator::create(vec![Box::new(exhausted), Box::new(live)]);
    assert_eq!(drain(&mut merged), pairs(&[(b"k", b"v")]));
    assert!(!merged.is_valid());
}

#[test]
fn test_merge_default_active_count() {
    let merged = MergeIterator::create(vec![Box::new(block_iter(&[(b"a", b"1")]))]);
    assert_eq!(merged.num_active_iterators(), 1);
}

#[test]
fn test_two_merge_prefers_a_on_ties() {
    let a = block_iter(&[(b"a", b"1"), (b"c", b"3")]);
    let b = block_iter(&[(b"a", b"old"), (b"b", b"2"), (b"c", b"old"), (b"d", b"4")]);
    let mut merged = TwoMergeIterator::create(a, b).ok().unwrap();
    assert_eq!(
        drain(&mut merged),
        pairs(&[(b"a", b"1"), (b"b", b"2"), (b"c", b"3"), (b"d", b"4")])
    );
    assert_eq!(merged.num_active_iterators(), 2);
}

#[test]
fn test_two_merge_one_side_empty() {
    let mut a = block_iter(&[(b"x", b"1")]);
    a.next();
    let b = block_iter(&[(b"m", b"2")]);
    let mut merged = TwoMergeIterator::create(a, b).ok().unwrap();
    assert_eq!(drain(&mut merged), pairs(&[(b"m", b"2")]));
    let a = block_iter(&[(b"m", b"1")]);
    let mut b = block_iter(&[(b"x", b"2")]);
    b.next();
    let mut merged = TwoMergeIterator::create(a, b).ok().unwrap();
    assert_eq!(drain(&mut merged), pairs(&[(b"m", b"1")]));
}

#[test]
fn test_two_merge_of_merges() {
    let m1 = MergeIterator::create(vec![Box::new(block_iter(&[(b"a", b"new")]))]);
    let m2 = MergeIterator::create(vec![
        Box::new(block_iter(&[(b"a", b"old"), (b"b", b"1")])),
        Box::new(block_iter(&[(b"c", b"2")])),
    ]);
    let mut merged = TwoMergeIterator::create(m1, m2).ok().unwrap();
    assert_eq!(drain(&mut merged), pairs(&[(b"a", b"new"), (b"b", b"1"), (b"c", b"2")]));
}
