use std::sync::Arc;

use vstd::prelude::*;

use super::{
    rec_end, rec_key_len, rec_value_len, rec_value_start, record_key, slice_range, Block,
};
use crate::codec::u16_from_le;
use crate::iterators::{StorageError, StorageIterator};
use crate::key::{compare_keys, is_lower_bound, key_le, key_lt, keys_sorted, lemma_key_order, KeyOrder, KvEntry};

verus! {

/// Iterates on a block.
pub struct BlockIterator {
    /// The internal `Block`, wrapped by an `Arc`
    block: Arc<Block>,
    /// The current key, empty represents the iterator is invalid
    key: Vec<u8>,
    /// the current value range in the block.data, corresponds to the current key
    value_range: (usize, usize),
    /// Current index of the key-value pair, should be in range of [0, num_of_elements)
    idx: usize,
    /// The first key in the block
    first_key: Vec<u8>,
}

impl BlockIterator {
    /// The entries of the block that the iterator walks.
    pub closed spec fn block_entries(&self) -> Seq<KvEntry> {
        self.block.entries()
    }

    /// The index of the current entry; at or past the number of entries when the
    /// iterator is exhausted.
    pub closed spec fn position(&self) -> nat {
        self.idx as nat
    }

    /// The entries from the current one to the end of the block.
    pub closed spec fn remaining(&self) -> Seq<KvEntry> {
        let n = self.block.offsets@.len();
        if self.idx < n {
            self.block.entries().subrange(self.idx as int, n as int)
        } else {
            Seq::empty()
        }
    }

    /// The cursor holds the decoded key and the value's range of the current entry,
    /// or an empty key past the end.
    pub closed spec fn inv(&self) -> bool {
        let b = &*self.block;
        let n = b.offsets@.len();
        &&& b.wf()
        &&& self.first_key@ == b.first_key@
        &&& self.idx < n ==> {
            let start = b.offsets@[self.idx as int] as int;
            &&& self.key@ == record_key(b.data@, start)
            &&& self.value_range.0 == rec_value_start(b.data@, start)
            &&& self.value_range.1 == rec_end(b.data@, start)
        }
        &&& self.idx >= n ==> self.key@.len() == 0 && self.value_range == (0usize, 0usize)
    }

    proof fn lemma_current_record(&self)
        requires
            self.inv(),
            self.idx < self.block.offsets@.len(),
        ensures
            super::record_in_bounds(self.block.data@, self.block.offsets@[self.idx as int] as int),
            self.key@.len() > 0,
            self.remaining()[0] == self.block.entries()[self.idx as int],
    {
        let i = self.idx as int;
        assert(super::record_in_bounds(self.block.data@, self.block.offsets@[i] as int));
    }

    /// Where the iterator stands: it holds an entry exactly while its position lies
    /// inside the block; that entry is the block's entry at the position, with a
    /// non-empty key (an empty value does not end the iteration); and what remains
    /// is the block's entries from the position on.
    pub proof fn lemma_position(&self)
        requires
            self.inv(),
        ensures
            self.remaining().len() > 0 <==> self.position() < self.block_entries().len(),
            self.position() < self.block_entries().len() ==> self.remaining() == self.block_entries().skip(
                self.position() as int,
            ),
            self.remaining().len() > 0 ==> self.remaining()[0] == self.block_entries()[self.position() as int]
                && self.remaining()[0].0.len() > 0,
    {
        let n = self.block.offsets@.len();
        let e = self.block.entries();
        if self.idx < n {
            assert(e.subrange(self.idx as int, n as int) =~= e.skip(self.idx as int));
            assert(super::record_in_bounds(self.block.data@, self.block.offsets@[self.idx as int] as int));
        }
    }

    fn new(block: Arc<Block>) -> (r: Self)
        requires
            block.wf(),
        ensures
            r.block == block,
            r.first_key@ == block.first_key@,
    {
        // The iterator keeps its own copy of the block's first key.
        let mut first_key: Vec<u8> = Vec::new();
        first_key.extend_from_slice(block.first_key.as_slice());
        Self { block, key: Vec::new(), value_range: (0, 0), idx: 0, first_key }
    }

    /// Creates a block iterator and seek to the first entry.
    pub fn create_and_seek_to_first(block: Arc<Block>) -> (r: Self)
        requires
            block.wf(),
        ensures
            r.inv(),
            r.block_entries() == block.entries(),
            r.position() == 0,
            r.remaining() == block.entries(),
    {
        let mut iter = Self::new(block);
        iter.seek_to(0);
        proof {
            assert(block.entries().subrange(0, block.offsets@.len() as int) =~= block.entries());
        }
        iter
    }

    /// Creates a block iterator and seek to the first key that >= `key`.
    pub fn create_and_seek_to_key(block: Arc<Block>, key: &[u8]) -> (r: Self)
        requires
            block.wf(),
            keys_sorted(block.entries()),
        ensures
            r.inv(),
            r.block_entries() == block.entries(),
            is_lower_bound(block.entries(), key@, r.position() as int),
            r.remaining() == block.entries().skip(r.position() as int),
    {
        let mut iter = Self::new(block);
        iter.search(key);
        iter
    }

    /// Returns the key of the current entry.
    pub fn key(&self) -> (r: &[u8])
        requires
            self.inv(),
            self.remaining().len() > 0,
        ensures
            r@ == self.remaining()[0].0,
    {
        self.key.as_slice()
    }

    /// Returns the value of the current entry.
    pub fn value(&self) -> (r: &[u8])
        requires
            self.inv(),
            self.remaining().len() > 0,
        ensures
            r@ == self.remaining()[0].1,
    {
        proof {
            self.lemma_current_record();
        }
        slice_range(self.block.data.as_slice(), self.value_range.0, self.value_range.1)
    }

    /// Returns true if the iterator is valid.
    pub fn is_valid(&self) -> (r: bool)
        requires
            self.inv(),
        ensures
            r == (self.remaining().len() > 0),
    {
        proof {
            if self.idx < self.block.offsets@.len() {
                self.lemma_current_record();
            }
        }
        self.key.len() != 0
    }

    /// Seeks to the first key in the block.
    pub fn seek_to_first(&mut self)
        requires
            old(self).inv(),
        ensures
            final(self).inv(),
            final(self).block_entries() == old(self).block_entries(),
            final(self).position() == 0,
            final(self).remaining() == old(self).block_entries(),
    {
        self.seek_to(0);
        proof {
            let n = self.block.offsets@.len();
            assert(self.block.entries().subrange(0, n as int) =~= self.block.entries());
        }
    }

    /// Move to the next key in the block.
    pub fn next(&mut self)
        requires
            old(self).inv(),
            old(self).position() < usize::MAX,
        ensures
            final(self).inv(),
            final(self).block_entries() == old(self).block_entries(),
            final(self).position() == old(self).position() + 1,
            old(self).remaining().len() > 0 ==> final(self).remaining() == old(self).remaining().drop_first(),
            old(self).remaining().len() == 0 ==> final(self).remaining().len() == 0,
    {
        self.idx = self.idx + 1;
        self.seek_to(self.idx);
        proof {
            let n = self.block.offsets@.len();
            let e = self.block.entries();
            if old(self).idx < n {
                assert(e.subrange(self.idx as int, n as int) =~= e.subrange(old(self).idx as int, n as int).drop_first());
            }
        }
    }

    /// Seek to the first key that >= `key`.
    /// Note: You should assume the key-value pairs in the block are sorted when being added by
    /// callers.
    pub fn seek_to_key(&mut self, key: &[u8])
        requires
            old(self).inv(),
            keys_sorted(old(self).block_entries()),
        ensures
            final(self).inv(),
            final(self).block_entries() == old(self).block_entries(),
            is_lower_bound(old(self).block_entries(), key@, final(self).position() as int),
            final(self).remaining() == old(self).block_entries().skip(final(self).position() as int),
    {
        self.search(key);
    }

    /// Binary search for the first key that >= `key`, from any cursor state.
    fn search(&mut self, key: &[u8])
        requires
            old(self).block.wf(),
            old(self).first_key@ == old(self).block.first_key@,
            keys_sorted(old(self).block.entries()),
        ensures
            final(self).inv(),
            final(self).block == old(self).block,
            is_lower_bound(old(self).block.entries(), key@, final(self).position() as int),
            final(self).remaining() == old(self).block.entries().skip(final(self).position() as int),
    {
        // Binary search over entry numbers; `low`/`high` bound indices into
        // `offsets`. At each probe, decode the key at `offsets[mid]` to compare.
        let ghost e = self.block.entries();
        let mut low: usize = 0;
        let mut high: usize = self.block.offsets.len();
        while low < high
            invariant
                self.block.wf(),
                self.first_key@ == self.block.first_key@,
                self.block == old(self).block,
                self.block.entries() == e,
                keys_sorted(e),
                high <= e.len(),
                low <= high,
                forall|i: int| 0 <= i < low ==> key_lt(#[trigger] e[i].0, key@),
                forall|i: int| high <= i < e.len() ==> !key_lt(#[trigger] e[i].0, key@),
            decreases high - low,
        {
            let mid = low + (high - low) / 2;
            self.seek_to(mid);
            proof {
                assert(self.remaining()[0] == e[mid as int]);
            }
            if compare_keys(self.key.as_slice(), key) == KeyOrder::Less {
                proof {
                    assert forall|i: int| 0 <= i < mid + 1 implies key_lt(#[trigger] e[i].0, key@) by {
                        assert(key_le(e[i].0, e[mid as int].0));
                        lemma_key_order(e[i].0, e[mid as int].0, key@);
                    }
                }
                low = mid + 1;
            } else {
                proof {
                    assert forall|i: int| mid <= i < e.len() implies !key_lt(#[trigger] e[i].0, key@) by {
                        assert(key_le(e[mid as int].0, e[i].0));
                        lemma_key_order(e[mid as int].0, e[i].0, key@);
                    }
                }
                high = mid;
            }
        }
        self.seek_to(low);
        proof {
            let n = e.len();
            if low < n {
                assert(e.subrange(low as int, n as int) =~= e.skip(low as int));
            } else {
                assert(e.skip(low as int) =~= Seq::<KvEntry>::empty());
            }
        }
    }

    /// Seek to the entry at `index`, decoding it into the cursor. Out-of-range
    /// indices yield an invalid iterator (empty key, the sole validity signal).
    fn seek_to(&mut self, index: usize)
        requires
            old(self).block.wf(),
            old(self).first_key@ == old(self).block.first_key@,
        ensures
            final(self).inv(),
            final(self).block == old(self).block,
            final(self).idx == index,
            final(self).first_key == old(self).first_key,
            index < old(self).block.offsets@.len() ==> final(self).remaining()[0] == old(self).block.entries()[index as int],
    {
        self.idx = index;
        if index >= self.block.offsets.len() {
            self.key.clear();
            self.value_range = (0, 0);
            return;
        }
        let ghost start = self.block.offsets@[index as int] as int;
        proof {
            assert(super::record_in_bounds(self.block.data@, start));
        }
        let data = self.block.data.as_slice();
        // Cursor is an absolute position into the block's data section.
        // Record: key_len u16 | key | value_len u16 | value.
        let mut cursor = self.block.offsets[index] as usize;
        let key_len = u16_from_le(data[cursor], data[cursor + 1]) as usize;
        cursor += 2;
        self.key.clear();
        self.key.extend_from_slice(slice_range(data, cursor, cursor + key_len));
        cursor += key_len;
        let value_len = u16_from_le(data[cursor], data[cursor + 1]) as usize;
        cursor += 2;
        self.value_range = (cursor, cursor + value_len);
        proof {
            assert(key_len == rec_key_len(self.block.data@, start));
            assert(value_len == rec_value_len(self.block.data@, start));
            assert(self.key@ =~= record_key(self.block.data@, start));
            assert(self.remaining()[0] == self.block.entries()[index as int]);
        }
    }
}

impl StorageIterator for BlockIterator {
    /// The entries from the current one to the end of the block.
    closed spec fn entries(&self) -> Seq<KvEntry> {
        self.remaining()
    }

    closed spec fn inv(&self) -> bool {
        BlockIterator::inv(self)
    }

    /// A block iterator never fails to move on.
    open spec fn infallible(&self) -> bool {
        true
    }

    /// A block iterator is one iterator.
    open spec fn active_iterators(&self) -> nat {
        1
    }

    fn num_active_iterators(&self) -> (r: usize) {
        1
    }

    fn key(&self) -> (r: &[u8]) {
        BlockIterator::key(self)
    }

    fn value(&self) -> (r: &[u8]) {
        BlockIterator::value(self)
    }

    fn is_valid(&self) -> (r: bool) {
        BlockIterator::is_valid(self)
    }

    fn next(&mut self) -> (r: Result<(), StorageError>) {
        let n = self.block.offsets.len();
        assert(self.idx < n);
        BlockIterator::next(self);
        Ok(())
    }
}

} // verus!
