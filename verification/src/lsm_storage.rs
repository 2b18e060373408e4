//! The storage engine's options, its layered state, and the decisions of its
//! read path.
use std::collections::HashMap;

use bytes::Bytes;

use vstd::prelude::*;

use crate::codec::bytes_copy_from_slice;
use crate::iterators::merge_iterator::MergeIterator;
use crate::iterators::two_merge_iterator::TwoMergeIterator;
use crate::iterators::{
    all_strictly_sorted, has_key, is_newest, lemma_merged_laws, merged, newest_at, StorageError,
    StorageIterator,
};
use crate::lsm_iterator::{
    below_end, lemma_below_end_admits, lemma_visible, visible, EndBound, EndView, FusedIterator, LsmIterator,
};
use crate::key::{
    compare_keys, is_lower_bound, key_le, key_lt, keys_strictly_sorted, lemma_key_order, KeyOrder,
    KvEntry,
};

verus! {

broadcast use vstd::std_specs::hash::group_hash_axioms;

/// Options of leveled compaction that the engine's state reads.
#[derive(Debug, Clone)]
pub struct LeveledCompactionOptions {
    pub max_levels: usize,
}

/// Options of simple leveled compaction that the engine's state reads.
#[derive(Debug, Clone)]
pub struct SimpleLeveledCompactionOptions {
    pub max_levels: usize,
}

/// Options of tiered compaction.
#[derive(Debug, Clone)]
pub struct TieredCompactionOptions {}

/// How the engine compacts its tables.
#[derive(Debug, Clone)]
pub enum CompactionOptions {
    Leveled(LeveledCompactionOptions),
    Tiered(TieredCompactionOptions),
    Simple(SimpleLeveledCompactionOptions),
    NoCompaction,
}

/// One operation of a write batch.
pub enum WriteBatchRecord<T> {
    Put(T, T),
    Del(T),
}

#[derive(Debug, Clone)]
pub struct LsmStorageOptions {
    // Block size in bytes
    pub block_size: usize,
    // SST size in bytes, also the approximate memtable capacity limit
    pub target_sst_size: usize,
    // Maximum number of memtables in memory, flush to L0 when exceeding this limit
    pub num_memtable_limit: usize,
    pub compaction_options: CompactionOptions,
    pub enable_wal: bool,
    pub serializable: bool,
}

impl LsmStorageOptions {
    pub fn default_for_week1_test() -> (r: Self)
        ensures
            r.block_size == 4096,
            r.target_sst_size == 2097152,
            r.compaction_options is NoCompaction,
            !r.enable_wal,
            r.num_memtable_limit == 50,
            !r.serializable,
    {
        assert((2usize << 20usize) == 2097152usize) by (bit_vector);
        Self {
            block_size: 4096,
            target_sst_size: 2 << 20,
            compaction_options: CompactionOptions::NoCompaction,
            enable_wal: false,
            num_memtable_limit: 50,
            serializable: false,
        }
    }

    pub fn default_for_week1_day6_test() -> (r: Self)
        ensures
            r.block_size == 4096,
            r.target_sst_size == 2097152,
            r.compaction_options is NoCompaction,
            !r.enable_wal,
            r.num_memtable_limit == 2,
            !r.serializable,
    {
        assert((2usize << 20usize) == 2097152usize) by (bit_vector);
        Self {
            block_size: 4096,
            target_sst_size: 2 << 20,
            compaction_options: CompactionOptions::NoCompaction,
            enable_wal: false,
            num_memtable_limit: 2,
            serializable: false,
        }
    }

    pub fn default_for_week2_test(compaction_options: CompactionOptions) -> (r: Self)
        ensures
            r.block_size == 4096,
            r.target_sst_size == 1048576,
            r.compaction_options == compaction_options,
            !r.enable_wal,
            r.num_memtable_limit == 2,
            !r.serializable,
    {
        assert((1usize << 20usize) == 1048576usize) by (bit_vector);
        Self {
            block_size: 4096,
            target_sst_size: 1 << 20,  // 1MB
            compaction_options,
            enable_wal: false,
            num_memtable_limit: 2,
            serializable: false,
        }
    }
}

/// A filter that compaction applies to the keys it rewrites.
#[derive(Clone, Debug)]
pub enum CompactionFilter {
    Prefix(Bytes),
}

/// The levels a fresh engine starts with: levels 1 to `max_levels`, all empty, for
/// leveled and simple leveled compaction; none for tiered compaction; a single
/// empty level 1 without compaction.
pub open spec fn initial_levels_spec(options: CompactionOptions) -> Seq<(usize, Seq<usize>)> {
    match options {
        CompactionOptions::Leveled(o) => Seq::new(o.max_levels as nat, |i: int| ((i + 1) as usize, Seq::empty())),
        CompactionOptions::Simple(o) => Seq::new(o.max_levels as nat, |i: int| ((i + 1) as usize, Seq::empty())),
        CompactionOptions::Tiered(_) => Seq::empty(),
        CompactionOptions::NoCompaction => seq![(1usize, Seq::empty())],
    }
}

/// A level as the specifications see it: its number and its table ids.
pub open spec fn level_views(levels: Seq<(usize, Vec<usize>)>) -> Seq<(usize, Seq<usize>)> {
    Seq::new(levels.len(), |i: int| (levels[i].0, levels[i].1@))
}

/// Level `1..=max_levels`, each without tables.
fn empty_levels(max_levels: usize) -> (r: Vec<(usize, Vec<usize>)>)
    ensures
        level_views(r@) == Seq::new(max_levels as nat, |i: int| ((i + 1) as usize, Seq::<usize>::empty())),
        r@.len() == max_levels,
        forall|i: int| 0 <= i < r@.len() ==> (#[trigger] r@[i]).0 == i + 1 && r@[i].1@.len() == 0,
{
    let mut levels: Vec<(usize, Vec<usize>)> = Vec::new();
    let mut i: usize = 0;
    while i < max_levels
        invariant
            i <= max_levels,
            levels@.len() == i,
            level_views(levels@) =~= Seq::new(i as nat, |j: int| ((j + 1) as usize, Seq::<usize>::empty())),
        decreases max_levels - i,
    {
        let ghost before = levels@;
        let tables: Vec<usize> = Vec::new();
        levels.push((i + 1, tables));
        proof {
            assert(levels@ == before.push(((i + 1) as usize, tables)));
            assert forall|j: int| 0 <= j < i + 1 implies #[trigger] level_views(levels@)[j] == ((j + 1) as usize, Seq::<usize>::empty()) by {
                if j < i {
                    assert(levels@[j] == before[j]);
                    assert(level_views(before)[j] == ((j + 1) as usize, Seq::<usize>::empty()));
                } else {
                    assert(levels@[j] == ((i + 1) as usize, tables));
                }
            }
        }
        i = i + 1;
    }
    proof {
        assert forall|t: int| 0 <= t < levels@.len() implies (#[trigger] levels@[t]).0 == t + 1 && levels@[t].1@.len() == 0 by {
            assert(level_views(levels@)[t] == ((t + 1) as usize, Seq::<usize>::empty()));
            assert(level_views(levels@)[t] == (levels@[t].0, levels@[t].1@));
        }
    }
    levels
}

/// Represents the state of the storage engine.
///
/// `M` is the memtable handle and `S` the table handle.
pub struct LsmStorageState<M, S> {
    /// The current memtable.
    pub memtable: M,
    /// Immutable memtables, from latest to earliest.
    pub imm_memtables: Vec<M>,
    /// L0 SSTs, from latest to earliest.
    pub l0_sstables: Vec<usize>,
    /// SsTables sorted by key range; L1 - L_max for leveled compaction, or tiers for tiered
    /// compaction.
    pub levels: Vec<(usize, Vec<usize>)>,
    /// SST objects.
    pub sstables: HashMap<usize, S>,
}

impl<M, S> LsmStorageState<M, S> {
    /// A fresh state around `memtable`, with the levels the compaction options call for.
    pub fn create(options: &LsmStorageOptions, memtable: M) -> (r: Self)
        ensures
            r.memtable == memtable,
            r.imm_memtables@.len() == 0,
            r.l0_sstables@.len() == 0,
            level_views(r.levels@) == initial_levels_spec(options.compaction_options),
            r.sstables@ == Map::<usize, S>::empty(),
            options.compaction_options matches CompactionOptions::Leveled(o) ==> {
                &&& r.levels@.len() == o.max_levels
                &&& forall|i: int|
                    0 <= i < r.levels@.len() ==> (#[trigger] r.levels@[i]).0 == i + 1 && r.levels@[i].1@.len() == 0
            },
            options.compaction_options matches CompactionOptions::Simple(o) ==> {
                &&& r.levels@.len() == o.max_levels
                &&& forall|i: int|
                    0 <= i < r.levels@.len() ==> (#[trigger] r.levels@[i]).0 == i + 1 && r.levels@[i].1@.len() == 0
            },
            options.compaction_options is Tiered ==> r.levels@.len() == 0,
            options.compaction_options is NoCompaction ==> {
                &&& r.levels@.len() == 1
                &&& r.levels@[0].0 == 1
                &&& r.levels@[0].1@.len() == 0
            },
    {
        let levels = match &options.compaction_options {
            CompactionOptions::Leveled(o) => empty_levels(o.max_levels),
            CompactionOptions::Simple(o) => empty_levels(o.max_levels),
            CompactionOptions::Tiered(_) => Vec::new(),
            CompactionOptions::NoCompaction => {
                let mut v: Vec<(usize, Vec<usize>)> = Vec::new();
                v.push((1, Vec::new()));
                proof {
                    assert(level_views(v@) =~= seq![(1usize, Seq::<usize>::empty())]) by {
                        assert(v@[0].1@ =~= Seq::<usize>::empty());
                    }
                }
                v
            },
        };
        proof {
            match options.compaction_options {
                CompactionOptions::Tiered(_) => {
                    assert(level_views(levels@) =~= Seq::<(usize, Seq<usize>)>::empty());
                },
                _ => {},
            }
        }
        Self {
            memtable,
            imm_memtables: Vec::new(),
            l0_sstables: Vec::new(),
            levels,
            sstables: HashMap::new(),
        }
    }

    /// Freeze the current memtable: `new_memtable` takes its place, and it becomes the
    /// latest immutable memtable.
    pub fn freeze_memtable(&mut self, new_memtable: M)
        ensures
            final(self).memtable == new_memtable,
            final(self).imm_memtables@ == seq![old(self).memtable].add(old(self).imm_memtables@),
            final(self).l0_sstables@ == old(self).l0_sstables@,
            final(self).levels@ == old(self).levels@,
            final(self).sstables@ == old(self).sstables@,
    {
        let mut memtable = new_memtable;
        std::mem::swap(&mut memtable, &mut self.memtable);
        self.imm_memtables.insert(0, memtable);
        proof {
            assert(self.imm_memtables@ =~= seq![old(self).memtable].add(old(self).imm_memtables@));
        }
    }

    /// The memtable that a flush writes out: the earliest immutable memtable, or none
    /// (a flush then does nothing) when there is no immutable memtable.
    pub fn memtable_to_flush(&self) -> (r: Option<&M>)
        ensures
            self.imm_memtables@.len() == 0 ==> r is None,
            self.imm_memtables@.len() > 0 ==> r == Some(&self.imm_memtables@.last()),
    {
        if self.imm_memtables.len() == 0 {
            None
        } else {
            Some(&self.imm_memtables[self.imm_memtables.len() - 1])
        }
    }

    /// Install a flushed table: the earliest immutable memtable leaves, and the table
    /// `sst` with id `sst_id` becomes the latest L0 table. Returns the memtable that left.
    pub fn install_flushed_sst(&mut self, sst_id: usize, sst: S) -> (removed: M)
        requires
            old(self).imm_memtables@.len() > 0,
        ensures
            removed == old(self).imm_memtables@.last(),
            final(self).memtable == old(self).memtable,
            final(self).imm_memtables@ == old(self).imm_memtables@.drop_last(),
            final(self).l0_sstables@ == seq![sst_id].add(old(self).l0_sstables@),
            final(self).levels@ == old(self).levels@,
            final(self).sstables@ == old(self).sstables@.insert(sst_id, sst),
    {
        let removed = self.imm_memtables.pop().unwrap();
        self.l0_sstables.insert(0, sst_id);
        self.sstables.insert(sst_id, sst);
        proof {
            assert(self.l0_sstables@ =~= seq![sst_id].add(old(self).l0_sstables@));
        }
        removed
    }
}

/// One end of a key range.
pub enum KeyBound<'a> {
    Included(&'a [u8]),
    Excluded(&'a [u8]),
    Unbounded,
}

/// `key` lies at or above the lower bound `lower`.
pub open spec fn above_lower(key: Seq<u8>, lower: KeyBound) -> bool {
    match lower {
        KeyBound::Included(k) => key_le(k@, key),
        KeyBound::Excluded(k) => key_lt(k@, key),
        KeyBound::Unbounded => true,
    }
}

/// `key` lies at or below the upper bound `upper`.
pub open spec fn below_upper(key: Seq<u8>, upper: KeyBound) -> bool {
    match upper {
        KeyBound::Included(k) => key_le(key, k@),
        KeyBound::Excluded(k) => key_lt(key, k@),
        KeyBound::Unbounded => true,
    }
}

/// The range `(lower, upper)` overlaps the closed range `[first, last]`, edge by edge:
/// the lower bound does not pass `last` and the upper bound does not fall short of `first`.
pub open spec fn range_overlap_spec(lower: KeyBound, upper: KeyBound, first: Seq<u8>, last: Seq<u8>) -> bool {
    let above_last = match lower {
        KeyBound::Included(k) => key_lt(last, k@),
        KeyBound::Excluded(k) => key_le(last, k@),
        KeyBound::Unbounded => false,
    };
    let below_first = match upper {
        KeyBound::Included(k) => key_lt(k@, first),
        KeyBound::Excluded(k) => key_le(k@, first),
        KeyBound::Unbounded => false,
    };
    !above_last && !below_first
}

/// Whether an SST whose key range is `[first, last]` can contribute any key to a scan
/// over (lower, upper). When unsure, keep the SST: over-keeping costs I/O, while
/// over-skipping silently loses keys.
pub fn range_overlap(lower: KeyBound, upper: KeyBound, first: &[u8], last: &[u8]) -> (r: bool)
    ensures
        r == range_overlap_spec(lower, upper, first@, last@),
{
    let above_last = match lower {
        KeyBound::Included(k) => compare_keys(k, last) == KeyOrder::Greater,
        KeyBound::Excluded(k) => compare_keys(k, last) != KeyOrder::Less,
        KeyBound::Unbounded => false,
    };
    let below_first = match upper {
        KeyBound::Included(k) => compare_keys(k, first) == KeyOrder::Less,
        KeyBound::Excluded(k) => compare_keys(k, first) != KeyOrder::Greater,
        KeyBound::Unbounded => false,
    };
    !above_last && !below_first
}

/// Whether `key` may exist in an SST spanning `[first, last]`: a point query is the
/// closed-edge overlap degenerated to `first <= key <= last`.
pub fn key_within(key: &[u8], first: &[u8], last: &[u8]) -> (r: bool)
    ensures
        r == (key_le(first@, key@) && key_le(key@, last@)),
{
    compare_keys(first, key) != KeyOrder::Greater && compare_keys(key, last) != KeyOrder::Greater
}

/// The overlap test never skips a table that holds a key of the range: whenever some
/// key between `first` and `last` lies inside `(lower, upper)`, the ranges overlap.
pub proof fn lemma_range_overlap_keeps(lower: KeyBound, upper: KeyBound, first: Seq<u8>, last: Seq<u8>, key: Seq<u8>)
    requires
        key_le(first, key),
        key_le(key, last),
        above_lower(key, lower),
        below_upper(key, upper),
    ensures
        range_overlap_spec(lower, upper, first, last),
{
    match lower {
        KeyBound::Included(k) => {
            lemma_key_order(k@, key, last);
            lemma_key_order(last, k@, key);
        },
        KeyBound::Excluded(k) => {
            lemma_key_order(k@, key, last);
            lemma_key_order(last, k@, key);
        },
        KeyBound::Unbounded => {},
    }
    match upper {
        KeyBound::Included(k) => {
            lemma_key_order(first, key, k@);
            lemma_key_order(k@, first, key);
        },
        KeyBound::Excluded(k) => {
            lemma_key_order(first, key, k@);
            lemma_key_order(k@, first, key);
        },
        KeyBound::Unbounded => {},
    }
}

/// A point query is the overlap test with both ends included at the key.
pub proof fn lemma_key_within_is_point_overlap(key: &[u8], first: Seq<u8>, last: Seq<u8>)
    ensures
        (key_le(first, key@) && key_le(key@, last)) == range_overlap_spec(
            KeyBound::Included(key),
            KeyBound::Included(key),
            first,
            last,
        ),
{
    lemma_key_order(first, key@, last);
    lemma_key_order(key@, first, last);
    lemma_key_order(last, key@, first);
}

/// Applies an excluded lower bound `key` to an iterator that a lower-bound seek to
/// `key` positioned: the seek lands on `key` itself when the table holds it, and the
/// bound leaves it out, so that one entry is skipped. Keys within a table are
/// unique, so one step suffices: afterwards every entry left lies strictly above
/// `key`.
pub fn skip_excluded_key<I: StorageIterator>(iter: &mut I, key: &[u8]) -> (r: Result<(), StorageError>)
    requires
        old(iter).inv(),
    ensures
        r is Ok ==> final(iter).inv(),
        r is Ok ==> final(iter).entries() == (if old(iter).entries().len() > 0
            && old(iter).entries()[0].0 == key@ {
            old(iter).entries().drop_first()
        } else {
            old(iter).entries()
        }),
        old(iter).infallible() ==> r is Ok && final(iter).infallible(),
        r is Ok && keys_strictly_sorted(old(iter).entries()) && is_lower_bound(
            old(iter).entries(),
            key@,
            0,
        ) ==> forall|i: int|
            0 <= i < final(iter).entries().len() ==> key_lt(key@, #[trigger] final(iter).entries()[i].0),
{
    let ghost es = iter.entries();
    if iter.is_valid() && compare_keys(iter.key(), key) == KeyOrder::Equal {
        let r = iter.next();
        proof {
            if r is Ok && keys_strictly_sorted(es) {
                assert forall|i: int| 0 <= i < iter.entries().len() implies key_lt(
                    key@,
                    #[trigger] iter.entries()[i].0,
                ) by {
                    assert(iter.entries()[i] == es[i + 1]);
                }
            }
        }
        r
    } else {
        proof {
            if keys_strictly_sorted(es) && is_lower_bound(es, key@, 0) && es.len() > 0 {
                lemma_key_order(es[0].0, key@, key@);
                assert forall|i: int| 0 <= i < es.len() implies key_lt(key@, #[trigger] es[i].0) by {
                    if i > 0 {
                        lemma_key_order(key@, es[0].0, es[i].0);
                    }
                }
            }
        }
        Ok(())
    }
}

/// What one memtable's answer decides for a point lookup.
pub enum ProbeOutcome {
    /// The key is deleted: the lookup answers `None`.
    Deleted,
    /// The key has this value: the lookup answers it.
    Found(Vec<u8>),
    /// This memtable does not hold the key: the lookup goes on to the next layer.
    Continue,
}

/// Whether a memtable of `approximate_size` bytes is due to be frozen: when it has
/// passed the target table size, which also bounds a memtable's capacity.
pub fn memtable_over_limit(approximate_size: usize, options: &LsmStorageOptions) -> (r: bool)
    ensures
        r == (approximate_size > options.target_sst_size),
{
    approximate_size > options.target_sst_size
}

/// The memtables are probed newest first, and the first one that holds the key
/// decides: an empty value is a tombstone (the key is deleted), a non-empty value
/// is the answer, and no hit means the next layer is asked.
pub fn memtable_probe(found: Option<&[u8]>) -> (r: ProbeOutcome)
    ensures
        match found {
            None => r is Continue,
            Some(v) => if v@.len() == 0 {
                r is Deleted
            } else {
                r matches ProbeOutcome::Found(w) && w@ == v@
            },
        },
{
    match found {
        Some(value) => {
            if value.len() == 0 {
                ProbeOutcome::Deleted
            } else {
                let mut w: Vec<u8> = Vec::new();
                w.extend_from_slice(value);
                ProbeOutcome::Found(w)
            }
        },
        None => ProbeOutcome::Continue,
    }
}

/// The memtables' answers up to `n` (newest first) are all misses.
pub open spec fn all_miss(answers: Seq<Option<&[u8]>>, n: int) -> bool {
    forall|j: int| 0 <= j < n ==> (#[trigger] answers[j]) is None
}

/// What probing the memtables newest first decides, given each memtable's answer
/// for the key: the first memtable that holds the key decides (a tombstone means
/// deleted, any other value is the answer), and when none holds it the lookup goes
/// on to the tables.
pub fn probe_memtables(answers: &[Option<&[u8]>]) -> (r: ProbeOutcome)
    ensures
        all_miss(answers@, answers@.len() as int) ==> r is Continue,
        forall|i: int|
            0 <= i < answers@.len() && all_miss(answers@, i) && #[trigger] answers@[i] is Some ==> {
                let v = answers@[i].unwrap();
                if v@.len() == 0 {
                    r is Deleted
                } else {
                    r matches ProbeOutcome::Found(w) && w@ == v@
                }
            },
{
    let mut i: usize = 0;
    while i < answers.len()
        invariant
            i <= answers@.len(),
            all_miss(answers@, i as int),
        decreases answers.len() - i,
    {
        match answers[i] {
            Some(v) => {
                let r = memtable_probe(Some(v));
                proof {
                    assert forall|j: int|
                        0 <= j < answers@.len() && all_miss(answers@, j) && #[trigger] answers@[j] is Some
                        implies j == i by {
                        if j < i {
                            assert(answers@[j] is None);
                        } else if j > i {
                            assert(answers@[i as int] is None);
                        }
                    }
                }
                return r;
            },
            None => {},
        }
        i = i + 1;
    }
    ProbeOutcome::Continue
}

/// The answer that the level-0 tables give for `key`, from the merge of their
/// iterators, each positioned at the first key not less than `key`: a value counts
/// only on exact key equality, and an empty value is a tombstone.
pub fn sst_point_lookup<I: StorageIterator>(iter: &MergeIterator<I>, key: &[u8]) -> (r: Option<Vec<u8>>)
    requires
        iter.inv(),
    ensures
        ({
            let es = iter.entries();
            if es.len() > 0 && es[0].0 == key@ && es[0].1.len() > 0 {
                r matches Some(v) && v@ == es[0].1
            } else {
                r is None
            }
        }),
{
    if !iter.is_valid() || compare_keys(iter.key(), key) != KeyOrder::Equal {
        return None;
    }
    let value = iter.value();
    if value.len() == 0 {
        return None;
    }
    let mut w: Vec<u8> = Vec::new();
    w.extend_from_slice(value);
    Some(w)
}

/// The upper end that `upper` sets, as the specifications see it.
pub open spec fn key_bound_end(upper: KeyBound) -> EndView {
    match upper {
        KeyBound::Included(k) => Some((true, k@)),
        KeyBound::Excluded(k) => Some((false, k@)),
        KeyBound::Unbounded => None,
    }
}

/// The upper end a scan bound sets admits exactly the keys the bound allows: not
/// after `k` for an included `k`, before `k` for an excluded `k`, any key for no bound.
pub proof fn lemma_key_bound_end(upper: KeyBound, key: Seq<u8>)
    ensures
        upper matches KeyBound::Included(k) ==> (below_end(key, key_bound_end(upper)) <==> !key_lt(k@, key)),
        upper matches KeyBound::Excluded(k) ==> (below_end(key, key_bound_end(upper)) <==> key_lt(key, k@)),
        upper is Unbounded ==> below_end(key, key_bound_end(upper)),
{
    match upper {
        KeyBound::Included(k) => lemma_below_end_admits(key, k@),
        KeyBound::Excluded(k) => lemma_below_end_admits(key, k@),
        KeyBound::Unbounded => {},
    }
}

/// The owned upper end of a scan bounded above by `upper`: its key copied into a
/// `Bytes` buffer.
pub fn end_bound_of(upper: KeyBound) -> (r: EndBound)
    ensures
        r@ == key_bound_end(upper),
{
    match upper {
        KeyBound::Included(k) => EndBound::Included(bytes_copy_from_slice(k)),
        KeyBound::Excluded(k) => EndBound::Excluded(bytes_copy_from_slice(k)),
        KeyBound::Unbounded => EndBound::Unbounded,
    }
}

/// The entries each of the iterators has still to yield, in order.
pub open spec fn iter_entries<I: StorageIterator>(its: Seq<Box<I>>) -> Seq<Seq<KvEntry>> {
    Seq::new(its.len(), |i: int| its[i].entries())
}

/// What a scan yields over the memtable sources `mems` and the table sources
/// `ssts`, each newest first: the memtables' merge takes precedence over the
/// tables' merge on equal keys, tombstones are hidden, and the scan ends at `end`.
pub open spec fn scan_view(mems: Seq<Seq<KvEntry>>, ssts: Seq<Seq<KvEntry>>, end: EndView) -> Seq<KvEntry> {
    visible(merged(seq![merged(mems), merged(ssts)]), end)
}

/// The iterator a scan hands out, built from the memtables' iterators and the
/// level-0 tables' iterators (each newest first, each already positioned at the
/// scan's lower bound): the memtable merge is the newer side, tombstones are
/// hidden, the iteration stops after `upper`, and an error ends it for good.
pub fn scan_iterator<M: StorageIterator, S: StorageIterator>(
    memtable_iters: Vec<Box<M>>,
    sst_iters: Vec<Box<S>>,
    upper: KeyBound,
) -> (r: Result<FusedIterator<LsmIterator<TwoMergeIterator<MergeIterator<M>, MergeIterator<S>>>>, StorageError>)
    requires
        forall|i: int| 0 <= i < memtable_iters@.len() ==> (#[trigger] memtable_iters@[i]).inv(),
        forall|i: int| 0 <= i < sst_iters@.len() ==> (#[trigger] sst_iters@[i]).inv(),
    ensures
        r matches Ok(it) ==> {
            &&& it.inv()
            &&& !it.tainted()
            &&& it.entries() == scan_view(
                iter_entries(memtable_iters@),
                iter_entries(sst_iters@),
                key_bound_end(upper),
            )
        },
        (forall|i: int| 0 <= i < memtable_iters@.len() ==> (#[trigger] memtable_iters@[i]).infallible())
            && (forall|i: int| 0 <= i < sst_iters@.len() ==> (#[trigger] sst_iters@[i]).infallible())
            ==> r is Ok,
{
    let ghost mems = iter_entries(memtable_iters@);
    let ghost ssts = iter_entries(sst_iters@);
    let memtable_merge = MergeIterator::create(memtable_iters);
    let sst_merge = MergeIterator::create(sst_iters);
    proof {
        assert(memtable_merge.entries() == merged(mems));
        assert(sst_merge.entries() == merged(ssts));
    }
    let two_merge = match TwoMergeIterator::create(memtable_merge, sst_merge) {
        Ok(it) => it,
        Err(e) => {
            return Err(e);
        },
    };
    let lsm_iter = match LsmIterator::new(two_merge, end_bound_of(upper)) {
        Ok(it) => it,
        Err(e) => {
            return Err(e);
        },
    };
    Ok(FusedIterator::new(lsm_iter))
}

/// Two entries of a strictly sorted sequence with the same key are the same entry.
proof fn lemma_sorted_unique(s: Seq<KvEntry>, x: KvEntry, y: KvEntry)
    requires
        keys_strictly_sorted(s),
        s.contains(x),
        s.contains(y),
        x.0 == y.0,
    ensures
        x == y,
{
    let i = choose|i: int| 0 <= i < s.len() && s[i] == x;
    let j = choose|j: int| 0 <= j < s.len() && s[j] == y;
    if i < j {
        lemma_key_order(x.0, y.0, y.0);
    } else if j < i {
        lemma_key_order(y.0, x.0, x.0);
    }
}

/// For each key, the newest entry over strictly sorted sources is unique.
proof fn lemma_newest_unique(cs: Seq<Seq<KvEntry>>, x: KvEntry, i: int, y: KvEntry, j: int)
    requires
        all_strictly_sorted(cs),
        newest_at(cs, x, i),
        newest_at(cs, y, j),
        x.0 == y.0,
    ensures
        x == y,
{
    let jx = choose|t: int| 0 <= t < cs[i].len() && cs[i][t] == x;
    let jy = choose|t: int| 0 <= t < cs[j].len() && cs[j][t] == y;
    if i < j {
        assert(has_key(cs[i], y.0));
    } else if j < i {
        assert(has_key(cs[j], x.0));
    } else {
        assert(keys_strictly_sorted(cs[i]));
        lemma_sorted_unique(cs[i], x, y);
    }
}

/// The merge of strictly sorted sources holds each source's newest entries: when
/// `e` is the newest entry for its key, the merge holds `e`; and every entry the
/// merge holds comes from some source.
proof fn lemma_merged_holds_newest(cs: Seq<Seq<KvEntry>>)
    requires
        all_strictly_sorted(cs),
    ensures
        forall|e: KvEntry, i: int| #[trigger] newest_at(cs, e, i) ==> merged(cs).contains(e),
        forall|k: Seq<u8>|
            #[trigger] has_key(merged(cs), k) ==> exists|i: int| 0 <= i < cs.len() && has_key(#[trigger] cs[i], k),
{
    lemma_merged_laws(cs);
    let m = merged(cs);
    assert forall|e: KvEntry, i: int| #[trigger] newest_at(cs, e, i) implies m.contains(e) by {
        let j = choose|j: int| 0 <= j < cs[i].len() && cs[i][j] == e;
        assert(has_key(m, cs[i][j].0));
        let p = choose|p: int| 0 <= p < m.len() && m[p].0 == e.0;
        assert(is_newest(cs, m[p]));
        let i2 = choose|i2: int| newest_at(cs, m[p], i2);
        lemma_newest_unique(cs, e, i, m[p], i2);
    }
    assert forall|k: Seq<u8>| #[trigger] has_key(m, k) implies exists|i: int| 0 <= i < cs.len() && has_key(#[trigger] cs[i], k) by {
        let p = choose|p: int| 0 <= p < m.len() && m[p].0 == k;
        assert(is_newest(cs, m[p]));
        let i = choose|i: int| newest_at(cs, m[p], i);
        let j = choose|j: int| 0 <= j < cs[i].len() && cs[i][j] == m[p];
        assert(has_key(cs[i], k));
    }
}

/// A source that is newest for an entry over the two merges of `mems` and `ssts`
/// is newest for it over all sources, memtables first.
proof fn lemma_two_level_newest(mems: Seq<Seq<KvEntry>>, ssts: Seq<Seq<KvEntry>>, e: KvEntry)
    requires
        all_strictly_sorted(mems),
        all_strictly_sorted(ssts),
        is_newest(seq![merged(mems), merged(ssts)], e),
    ensures
        is_newest(mems + ssts, e),
{
    let m = merged(mems);
    let t = merged(ssts);
    let two = seq![m, t];
    let all = mems + ssts;
    let ml = mems.len() as int;
    lemma_merged_laws(mems);
    lemma_merged_laws(ssts);
    let i = choose|i: int| newest_at(two, e, i);
    if i == 0 {
        assert(two[0] == m);
        let p = choose|p: int| 0 <= p < m.len() && m[p] == e;
        assert(is_newest(mems, m[p]));
        let i1 = choose|i1: int| newest_at(mems, e, i1);
        assert(all[i1] == mems[i1]);
        assert forall|i2: int| 0 <= i2 < i1 implies !has_key(#[trigger] all[i2], e.0) by {
            assert(all[i2] == mems[i2]);
        }
        assert(newest_at(all, e, i1));
    } else {
        assert(two[1] == t);
        assert(!has_key(two[0], e.0));
        let p = choose|p: int| 0 <= p < t.len() && t[p] == e;
        assert(is_newest(ssts, t[p]));
        let i1 = choose|i1: int| newest_at(ssts, e, i1);
        assert(all[ml + i1] == ssts[i1]);
        assert forall|i2: int| 0 <= i2 < ml + i1 implies !has_key(#[trigger] all[i2], e.0) by {
            if i2 < ml {
                assert(all[i2] == mems[i2]);
                if has_key(mems[i2], e.0) {
                    let j = choose|j: int| 0 <= j < mems[i2].len() && (#[trigger] mems[i2][j]).0 == e.0;
                    assert(has_key(m, mems[i2][j].0));
                }
            } else {
                assert(all[i2] == ssts[i2 - ml]);
            }
        }
        assert(newest_at(all, e, ml + i1));
    }
}

/// The newest entry for a key over all sources, memtables first, is held by the
/// merge of the two merges.
proof fn lemma_two_level_holds(mems: Seq<Seq<KvEntry>>, ssts: Seq<Seq<KvEntry>>, e: KvEntry, i: int)
    requires
        all_strictly_sorted(mems),
        all_strictly_sorted(ssts),
        newest_at(mems + ssts, e, i),
    ensures
        merged(seq![merged(mems), merged(ssts)]).contains(e),
{
    let m = merged(mems);
    let t = merged(ssts);
    let two = seq![m, t];
    let all = mems + ssts;
    let ml = mems.len() as int;
    lemma_merged_laws(mems);
    lemma_merged_laws(ssts);
    lemma_merged_holds_newest(mems);
    lemma_merged_holds_newest(ssts);
    assert(two[0] == m && two[1] == t);
    assert(all_strictly_sorted(two));
    lemma_merged_holds_newest(two);
    if i < ml {
        assert(all[i] == mems[i]);
        assert forall|i2: int| 0 <= i2 < i implies !has_key(#[trigger] mems[i2], e.0) by {
            assert(all[i2] == mems[i2]);
        }
        assert(newest_at(mems, e, i));
        assert(m.contains(e));
        assert(newest_at(two, e, 0));
    } else {
        assert(all[i] == ssts[i - ml]);
        assert forall|i2: int| 0 <= i2 < i - ml implies !has_key(#[trigger] ssts[i2], e.0) by {
            assert(all[ml + i2] == ssts[i2]);
        }
        assert(newest_at(ssts, e, i - ml));
        assert(t.contains(e));
        assert(!has_key(m, e.0)) by {
            if has_key(m, e.0) {
                let i3 = choose|i3: int| 0 <= i3 < mems.len() && has_key(#[trigger] mems[i3], e.0);
                assert(all[i3] == mems[i3]);
            }
        }
        assert forall|i2: int| 0 <= i2 < 1 implies !has_key(#[trigger] two[i2], e.0) by {}
        assert(newest_at(two, e, 1));
    }
}

/// The scan laws. Over sources that each yield strictly increasing keys (the
/// memtables newest first, then the level-0 tables newest first), a scan yields
/// strictly increasing keys; each entry it yields is live, within the upper end,
/// and the newest entry for its key over all sources (a newer source shadows an
/// older one, and any memtable shadows every table); and it yields every newest
/// entry that is live and within the upper end.
pub proof fn lemma_scan_laws(mems: Seq<Seq<KvEntry>>, ssts: Seq<Seq<KvEntry>>, end: EndView)
    requires
        all_strictly_sorted(mems),
        all_strictly_sorted(ssts),
    ensures
        keys_strictly_sorted(scan_view(mems, ssts, end)),
        forall|p: int|
            0 <= p < scan_view(mems, ssts, end).len() ==> {
                &&& (#[trigger] scan_view(mems, ssts, end)[p]).1.len() > 0
                &&& below_end(scan_view(mems, ssts, end)[p].0, end)
                &&& is_newest(mems + ssts, scan_view(mems, ssts, end)[p])
                &&& end matches Some((true, k)) ==> !key_lt(k, scan_view(mems, ssts, end)[p].0)
                &&& end matches Some((false, k)) ==> key_lt(scan_view(mems, ssts, end)[p].0, k)
            },
        forall|e: KvEntry, i: int|
            #[trigger] newest_at(mems + ssts, e, i) && e.1.len() > 0 && below_end(e.0, end)
                ==> scan_view(mems, ssts, end).contains(e),
{
    let m = merged(mems);
    let t = merged(ssts);
    let two = seq![m, t];
    let top = merged(two);
    let out = scan_view(mems, ssts, end);
    lemma_merged_laws(mems);
    lemma_merged_laws(ssts);
    assert(two[0] == m && two[1] == t);
    assert(all_strictly_sorted(two));
    lemma_merged_laws(two);
    lemma_visible(top, end);
    assert forall|p: int| 0 <= p < out.len() implies {
        &&& (#[trigger] out[p]).1.len() > 0
        &&& below_end(out[p].0, end)
        &&& is_newest(mems + ssts, out[p])
        &&& end matches Some((true, k)) ==> !key_lt(k, out[p].0)
        &&& end matches Some((false, k)) ==> key_lt(out[p].0, k)
    } by {
        let q = choose|q: int| 0 <= q < top.len() && top[q] == out[p];
        assert(is_newest(two, top[q]));
        lemma_two_level_newest(mems, ssts, out[p]);
        match end {
            Some((_, k)) => lemma_below_end_admits(out[p].0, k),
            None => {},
        }
    }
    assert forall|e: KvEntry, i: int|
        #[trigger] newest_at(mems + ssts, e, i) && e.1.len() > 0 && below_end(e.0, end) implies out.contains(e) by {
        lemma_two_level_holds(mems, ssts, e, i);
    }
}

/// The point lookup law. When every source yields strictly increasing keys and
/// stands at the first key not less than `key`, the merge starts on `key` exactly
/// when some source holds `key`, and then its first entry is the newest entry for
/// `key`: the head of the merge is the final answer, and a head with another key
/// means no source holds `key`.
pub proof fn lemma_point_lookup(cs: Seq<Seq<KvEntry>>, key: Seq<u8>)
    requires
        all_strictly_sorted(cs),
        forall|i: int| 0 <= i < cs.len() ==> is_lower_bound(#[trigger] cs[i], key, 0),
    ensures
        (merged(cs).len() > 0 && merged(cs)[0].0 == key) <==> exists|i: int|
            0 <= i < cs.len() && has_key(#[trigger] cs[i], key),
        merged(cs).len() > 0 && merged(cs)[0].0 == key ==> is_newest(cs, merged(cs)[0]),
{
    lemma_merged_laws(cs);
    lemma_merged_holds_newest(cs);
    let es = merged(cs);
    if exists|i: int| 0 <= i < cs.len() && has_key(#[trigger] cs[i], key) {
        let i = choose|i: int| 0 <= i < cs.len() && has_key(#[trigger] cs[i], key);
        let j = choose|j: int| 0 <= j < cs[i].len() && (#[trigger] cs[i][j]).0 == key;
        assert(has_key(es, cs[i][j].0));
        let p = choose|p: int| 0 <= p < es.len() && es[p].0 == key;
        if p > 0 {
            assert(key_lt(es[0].0, es[p].0));
            assert(is_newest(cs, es[0]));
            let i0 = choose|i0: int| newest_at(cs, es[0], i0);
            let j0 = choose|j0: int| 0 <= j0 < cs[i0].len() && cs[i0][j0] == es[0];
            assert(!key_lt(cs[i0][j0].0, key));
        }
    }
    if es.len() > 0 && es[0].0 == key {
        assert(has_key(es, key));
    }
}

} // verus!
