use std::sync::Arc;

use mini_lsm_starter::block::{BlockBuilder, BlockIterator};
use mini_lsm_starter::iterators::merge_iterator::MergeIterator;
use mini_lsm_starter::iterators::StorageIterator;
use mini_lsm_starter::lsm_iterator::{EndBound, FusedIterator, LsmIterator};
use mini_lsm_starter::lsm_storage::{
    end_bound_of, key_within, memtable_over_limit, memtable_probe, probe_memtables, range_overlap, scan_iterator, skip_excluded_key,
    sst_point_lookup, CompactionOptions, KeyBound,
    LeveledCompactionOptions, LsmStorageOptions, LsmStorageState, ProbeOutcome,
    SimpleLeveledCompactionOptions, TieredCompactionOptions, WriteBatchRecord,
};

#[test]
fn test_options_defaults() {
    let o = LsmStorageOptions::default_for_week1_test();
    assert_eq!(o.block_size, 4096);
    assert_eq!(o.target_sst_size, 2 << 20);
    assert_eq!(o.num_memtable_limit, 50);
    assert!(!o.enable_wal && !o.serializable);
    assert!(matches!(o.compaction_options, CompactionOptions::NoCompaction));
    let o = LsmStorageOptions::default_for_week1_day6_test();
    assert_eq!(o.num_memtable_limit, 2);
    assert_eq!(o.target_sst_size, 2097152);
    let o = LsmStorageOptions::default_for_week2_test(CompactionOptions::Tiered(TieredCompactionOptions {}));
    assert_eq!(o.target_sst_size, 1 << 20);
    assert_eq!(o.num_memtable_limit, 2);
    assert!(matches!(o.compaction_options, CompactionOptions::Tiered(_)));
}

#[test]
fn test_state_create_levels() {
    let o = LsmStorageOptions::default_for_week1_test();
    let s: LsmStorageState<u32, u32> = LsmStorageState::create(&o, 0);
    assert_eq!(s.levels, vec![(1usize, Vec::<usize>::new())]);
    let o = LsmStorageOptions::default_for_week2_test(CompactionOptions::Leveled(LeveledCompactionOptions { max_levels: 3 }));
    let s: LsmStorageState<u32, u32> = LsmStorageState::create(&o, 0);
    assert_eq!(s.levels, vec![(1, vec![]), (2, vec![]), (3, vec![])]);
    let o = LsmStorageOptions::default_for_week2_test(CompactionOptions::Simple(SimpleLeveledCompactionOptions { max_levels: 2 }));
    let s: LsmStorageState<u32, u32> = LsmStorageState::create(&o, 0);
    assert_eq!(s.levels, vec![(1, vec![]), (2, vec![])]);
    let o = LsmStorageOptions::default_for_week2_test(CompactionOptions::Tiered(TieredCompactionOptions {}));
    let s: LsmStorageState<u32, u32> = LsmStorageState::create(&o, 0);
    assert!(s.levels.is_empty());
    assert!(s.imm_memtables.is_empty() && s.l0_sstables.is_empty() && s.sstables.is_empty());
}

#[test]
fn test_state_freeze_and_flush_order() {
    let o = LsmStorageOptions::default_for_week1_test();
    let mut s: LsmStorageState<u32, &str> = LsmStorageState::create(&o, 0);
    s.freeze_memtable(1);
    s.freeze_memtable(2);
    assert_eq!(s.memtable, 2);
    assert_eq!(s.imm_memtables, vec![1, 0]);
    let removed = s.install_flushed_sst(0, "sst0");
    assert_eq!(removed, 0);
    assert_eq!(s.imm_memtables, vec![1]);
    let removed = s.install_flushed_sst(1, "sst1");
    assert_eq!(removed, 1);
    assert!(s.imm_memtables.is_empty());
    assert_eq!(s.l0_sstables, vec![1, 0]);
    assert_eq!(s.sstables.get(&1), Some(&"sst1"));
    assert_eq!(s.sstables.len(), 2);
}

#[test]
fn test_range_overlap() {
    assert!(range_overlap(KeyBound::Unbounded, KeyBound::Unbounded, b"c", b"f"));
    assert!(range_overlap(KeyBound::Included(b"f"), KeyBound::Unbounded, b"c", b"f"));
    assert!(!range_overlap(KeyBound::Excluded(b"f"), KeyBound::Unbounded, b"c", b"f"));
    assert!(!range_overlap(KeyBound::Included(b"g"), KeyBound::Unbounded, b"c", b"f"));
    assert!(range_overlap(KeyBound::Unbounded, KeyBound::Included(b"c"), b"c", b"f"));
    assert!(!range_overlap(KeyBound::Unbounded, KeyBound::Excluded(b"c"), b"c", b"f"));
    assert!(!range_overlap(KeyBound::Unbounded, KeyBound::Included(b"b"), b"c", b"f"));
    assert!(range_overlap(KeyBound::Included(b"a"), KeyBound::Excluded(b"d"), b"c", b"f"));
    assert!(range_overlap(KeyBound::Excluded(b"d"), KeyBound::Excluded(b"e"), b"c", b"f"));
}

#[test]
fn test_key_within() {
    assert!(key_within(b"c", b"c", b"f"));
    assert!(key_within(b"f", b"c", b"f"));
    assert!(key_within(b"d", b"c", b"f"));
    assert!(!key_within(b"b", b"c", b"f"));
    assert!(!key_within(b"fa", b"c", b"f"));
    for k in [&b"b"[..], b"c", b"e", b"f", b"g"] {
        assert_eq!(key_within(k, b"c", b"f"), range_overlap(KeyBound::Included(k), KeyBound::Included(k), b"c", b"f"));
    }
}

#[test]
fn test_memtable_probe() {
    assert!(matches!(memtable_probe(None), ProbeOutcome::Continue));
    assert!(matches!(memtable_probe(Some(b"")), ProbeOutcome::Deleted));
    match memtable_probe(Some(b"v")) {
        ProbeOutcome::Found(v) => assert_eq!(v, b"v".to_vec()),
        _ => panic!("expected a value"),
    }
}

fn seeked(entries: &[(&[u8], &[u8])], key: &[u8]) -> Box<BlockIterator> {
    let mut builder = BlockBuilder::new(4096);
    for (k, v) in entries {
        assert!(builder.add(k, v));
    }
    Box::new(BlockIterator::create_and_seek_to_key(Arc::new(builder.build()), key))
}

#[test]
fn test_sst_point_lookup() {
    let newer: &[(&[u8], &[u8])] = &[(b"a", b"1"), (b"c", b"")];
    let older: &[(&[u8], &[u8])] = &[(b"b", b"2"), (b"c", b"3"), (b"d", b"4")];
    let lookup = |key: &[u8]| {
        let iter = MergeIterator::create(vec![seeked(newer, key), seeked(older, key)]);
        sst_point_lookup(&iter, key)
    };
    assert_eq!(lookup(b"a"), Some(b"1".to_vec()));
    assert_eq!(lookup(b"b"), Some(b"2".to_vec()));
    // The newer table's tombstone hides the older value.
    assert_eq!(lookup(b"c"), None);
    assert_eq!(lookup(b"d"), Some(b"4".to_vec()));
    // A lower-bound seek landing on a greater key is no hit.
    assert_eq!(lookup(b"bb"), None);
    assert_eq!(lookup(b"z"), None);
}

#[test]
fn test_write_batch_record() {
    let batch = vec![WriteBatchRecord::Put(b"k".to_vec(), b"v".to_vec()), WriteBatchRecord::Del(b"k".to_vec())];
    assert!(matches!(batch[0], WriteBatchRecord::Put(_, _)));
    assert!(matches!(batch[1], WriteBatchRecord::Del(_)));
}

#[test]
fn test_skip_excluded_key() {
    let entries: &[(&[u8], &[u8])] = &[(b"a", b"1"), (b"c", b"3"), (b"e", b"5")];
    // The seek lands on the bound itself: that entry is skipped.
    let mut it = seeked(entries, b"c");
    assert!(skip_excluded_key(it.as_mut(), b"c").is_ok());
    assert_eq!(it.key(), b"e");
    // The seek lands above the bound: nothing is skipped.
    let mut it = seeked(entries, b"b");
    assert!(skip_excluded_key(it.as_mut(), b"b").is_ok());
    assert_eq!(it.key(), b"c");
    // The bound is the last key: the iterator ends.
    let mut it = seeked(entries, b"e");
    assert!(skip_excluded_key(it.as_mut(), b"e").is_ok());
    assert!(!it.is_valid());
    // Past the end: stays invalid.
    let mut it = seeked(entries, b"f");
    assert!(skip_excluded_key(it.as_mut(), b"f").is_ok());
    assert!(!it.is_valid());
}

fn drain<I: StorageIterator>(mut it: FusedIterator<I>) -> Vec<(Vec<u8>, Vec<u8>)> {
    let mut out = Vec::new();
    while it.is_valid() {
        out.push((it.key().to_vec(), it.value().to_vec()));
        assert!(it.next().is_ok());
    }
    // An exhausted fused iterator stays put.
    assert!(it.next().is_ok());
    assert!(!it.is_valid());
    out
}

fn pairs(items: &[(&[u8], &[u8])]) -> Vec<(Vec<u8>, Vec<u8>)> {
    items.iter().map(|(k, v)| (k.to_vec(), v.to_vec())).collect()
}

#[test]
fn test_scan_iterator_layers_and_bounds() {
    let mem_new: &[(&[u8], &[u8])] = &[(b"a", b"1"), (b"b", b""), (b"c", b"3")];
    let mem_old: &[(&[u8], &[u8])] = &[(b"b", b"2"), (b"d", b"4")];
    let sst_new: &[(&[u8], &[u8])] = &[(b"a", b"0"), (b"e", b"5"), (b"f", b"")];
    let sst_old: &[(&[u8], &[u8])] = &[(b"f", b"6"), (b"g", b"7")];
    let scan = |lower: &[u8], upper: KeyBound| {
        let mems = vec![seeked(mem_new, lower), seeked(mem_old, lower)];
        let ssts = vec![seeked(sst_new, lower), seeked(sst_old, lower)];
        match scan_iterator(mems, ssts, upper) {
            Ok(it) => drain(it),
            Err(_) => panic!("block iterators never fail"),
        }
    };
    // The memtables shadow the tables, newer sources shadow older ones, and
    // tombstones hide the key.
    assert_eq!(
        scan(b"", KeyBound::Unbounded),
        pairs(&[(b"a", b"1"), (b"c", b"3"), (b"d", b"4"), (b"e", b"5"), (b"g", b"7")])
    );
    assert_eq!(scan(b"", KeyBound::Included(b"e")), pairs(&[(b"a", b"1"), (b"c", b"3"), (b"d", b"4"), (b"e", b"5")]));
    assert_eq!(scan(b"", KeyBound::Excluded(b"e")), pairs(&[(b"a", b"1"), (b"c", b"3"), (b"d", b"4")]));
    assert_eq!(scan(b"b", KeyBound::Included(b"d")), pairs(&[(b"c", b"3"), (b"d", b"4")]));
    assert_eq!(scan(b"h", KeyBound::Unbounded), pairs(&[]));
}

#[test]
fn test_lsm_iterator_skips_leading_tombstones() {
    let entries: &[(&[u8], &[u8])] = &[(b"a", b""), (b"b", b""), (b"c", b"3"), (b"d", b"")];
    let it = match LsmIterator::new(*seeked(entries, b""), EndBound::Unbounded) {
        Ok(it) => it,
        Err(_) => panic!("block iterators never fail"),
    };
    assert!(it.is_valid());
    assert_eq!(it.key(), b"c");
    assert_eq!(drain(FusedIterator::new(it)), pairs(&[(b"c", b"3")]));
}

#[test]
fn test_end_bound_of() {
    match end_bound_of(KeyBound::Included(b"k1")) {
        EndBound::Included(k) => assert_eq!(&k[..], b"k1"),
        _ => panic!("expected an included bound"),
    }
    match end_bound_of(KeyBound::Excluded(b"k2")) {
        EndBound::Excluded(k) => assert_eq!(&k[..], b"k2"),
        _ => panic!("expected an excluded bound"),
    }
    assert!(matches!(end_bound_of(KeyBound::Unbounded), EndBound::Unbounded));
}

#[test]
fn test_scan_iterator_counts_active_iterators() {
    let entries: &[(&[u8], &[u8])] = &[(b"a", b"1")];
    assert_eq!(seeked(entries, b"").num_active_iterators(), 1);
    let it = match scan_iterator(vec![seeked(entries, b"")], vec![seeked(entries, b""), seeked(entries, b"")], KeyBound::Unbounded) {
        Ok(it) => it,
        Err(_) => panic!("block iterators never fail"),
    };
    // One merge of memtables and one merge of tables.
    assert_eq!(it.num_active_iterators(), 2);
}

#[test]
fn test_probe_memtables_first_hit_decides() {
    let none: Option<&[u8]> = None;
    assert!(matches!(probe_memtables(&[none, none]), ProbeOutcome::Continue));
    assert!(matches!(probe_memtables(&[]), ProbeOutcome::Continue));
    match probe_memtables(&[none, Some(b"v2"), Some(b"")]) {
        ProbeOutcome::Found(v) => assert_eq!(v, b"v2".to_vec()),
        _ => panic!("expected a value"),
    }
    assert!(matches!(probe_memtables(&[Some(b""), Some(b"v1")]), ProbeOutcome::Deleted));
}

#[test]
fn test_memtable_over_limit_and_flush_choice() {
    let o = LsmStorageOptions::default_for_week1_test();
    assert!(!memtable_over_limit(2 << 20, &o));
    assert!(memtable_over_limit((2 << 20) + 1, &o));
    let mut s: LsmStorageState<u32, u32> = LsmStorageState::create(&o, 0);
    assert!(s.memtable_to_flush().is_none());
    s.freeze_memtable(1);
    s.freeze_memtable(2);
    // The earliest frozen memtable is flushed first.
    assert_eq!(s.memtable_to_flush(), Some(&0));
}
