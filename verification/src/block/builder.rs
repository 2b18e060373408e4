use vstd::prelude::*;

use super::{
    rec_end, rec_key_len, rec_value_len, rec_value_start, record_in_bounds, record_key,
    record_value, Block,
};
use crate::codec::{le16, lemma_le16_roundtrip, put_slice, put_u16_le, u16_at};
use crate::key::KvEntry;

verus! {

/// The encoded record of entry `i`: `key_len (u16) | key | value_len (u16) | value`.
pub open spec fn entry_record(entries: Seq<KvEntry>, i: int) -> Seq<u8> {
    let key = entries[i].0;
    let value = entries[i].1;
    le16(key.len() as u16) + key + le16(value.len() as u16) + value
}

/// The data section holding the records of the first `n` entries.
pub open spec fn records(entries: Seq<KvEntry>, n: nat) -> Seq<u8>
    decreases n,
{
    if n == 0 {
        Seq::empty()
    } else {
        records(entries, (n - 1) as nat) + entry_record(entries, n - 1)
    }
}

/// Size of the encoded block holding `entries`: data section, one offset per entry and the count.
pub open spec fn encoded_size_of(entries: Seq<KvEntry>) -> nat {
    records(entries, entries.len()).len() + 2 * entries.len() + 2
}

/// Every key is non-empty and every key and value length fits a `u16`.
pub open spec fn entries_fit(entries: Seq<KvEntry>) -> bool {
    forall|i: int|
        0 <= i < entries.len() ==> {
            &&& 0 < (#[trigger] entries[i]).0.len() <= u16::MAX
            &&& entries[i].1.len() <= u16::MAX
        }
}

/// Every record of `entries` starts at a position that a `u16` offset can hold.
pub open spec fn offsets_fit(entries: Seq<KvEntry>) -> bool {
    forall|i: int| 0 <= i < entries.len() ==> (#[trigger] records(entries, i as nat)).len() <= u16::MAX
}

/// Builds a block.
pub struct BlockBuilder {
    /// Offsets of each key-value entries.
    offsets: Vec<u16>,
    /// All serialized key-value pairs in the block.
    data: Vec<u8>,
    /// The expected block size.
    block_size: usize,
    /// The first key in the block
    first_key: Vec<u8>,
    entries: Ghost<Seq<KvEntry>>,
}

impl BlockBuilder {
    /// The entries added so far, in order.
    pub closed spec fn view(&self) -> Seq<KvEntry> {
        self.entries@
    }

    /// The target size given at creation.
    pub closed spec fn target_size(&self) -> nat {
        self.block_size as nat
    }

    /// The builder's fields hold exactly the encoding of the entries added so far.
    pub closed spec fn wf(&self) -> bool {
        let e = self.entries@;
        let n = e.len();
        &&& entries_fit(e)
        &&& self.data@ == records(e, n)
        &&& self.offsets@.len() == n
        &&& forall|i: int| 0 <= i < n ==> #[trigger] self.offsets@[i] == records(e, i as nat).len() as u16
        &&& (n == 0 ==> self.first_key@ == Seq::<u8>::empty())
        &&& (n > 0 ==> self.first_key@ == e[0].0)
        &&& self.data@.len() >= 5 * n
        &&& encoded_size_of(e) <= (if self.block_size > 131078 { self.block_size as nat } else { 131078 })
        &&& (n >= 2 ==> encoded_size_of(e) <= self.block_size)
    }

    /// Creates a new block builder.
    pub fn new(block_size: usize) -> (r: Self)
        ensures
            r.wf(),
            r@ == Seq::<KvEntry>::empty(),
            r.target_size() == block_size,
    {
        Self {
            offsets: Vec::new(),
            data: Vec::new(),
            block_size,
            first_key: Vec::new(),
            entries: Ghost(Seq::empty()),
        }
    }

    /// Encoded size of the block if it were built right now:
    /// `data` section + 2 bytes per offset + 2 bytes for `num_of_elements`.
    fn estimated_size(&self) -> (r: usize)
        requires
            self.wf(),
        ensures
            r == encoded_size_of(self@),
    {
        self.data.len() + self.offsets.len() * 2 + 2
    }

    /// Adds a key-value pair to the block. Returns false when the block is full:
    /// when the block already holds an entry and the encoded size plus the entry's
    /// cost of `6 + key length + value length` bytes (its record and its offset)
    /// would pass the target size.
    pub fn add(&mut self, key: &[u8], value: &[u8]) -> (r: bool)
        requires
            old(self).wf(),
            0 < key@.len() <= u16::MAX,
            value@.len() <= u16::MAX,
        ensures
            final(self).wf(),
            final(self).target_size() == old(self).target_size(),
            r == !(old(self)@.len() > 0 && encoded_size_of(old(self)@) + 6 + key@.len()
                + value@.len() > old(self).target_size()),
            r ==> final(self)@ == old(self)@.push((key@, value@)),
            r ==> encoded_size_of(final(self)@) == encoded_size_of(old(self)@) + 6 + key@.len() + value@.len(),
            !r ==> final(self)@ == old(self)@,
    {
        let key_len = key.len();
        let value_len = value.len();
        // 6 = key_len(2) + value_len(2) + one offset(2); the num_of_elements
        // field is a fixed 2 bytes and does not grow per entry.
        let entry_size = 6 + key_len + value_len;
        // Reject only when the block is non-empty and the projected encoded
        // size would exceed the target. The first entry is always accepted so
        // the builder makes forward progress even on an oversized key.
        if !self.is_empty() {
            let estimated = self.estimated_size();
            // `estimated + entry_size > block_size`, without overflow.
            if entry_size > self.block_size || estimated > self.block_size - entry_size {
                return false;
            }
        }
        let ghost old_e = self.entries@;
        let ghost n = old_e.len();
        let ghost new_e = old_e.push((key@, value@));
        if self.is_empty() {
            self.first_key.extend_from_slice(key);
        }
        proof {
            assert(new_e[n as int] == (key@, value@));
            assert(n > 0 ==> new_e[0] == old_e[0]);
            lemma_records_push(old_e, (key@, value@), n);
        }
        self.offsets.push(self.data.len() as u16);
        put_u16_le(&mut self.data, key_len as u16);
        put_slice(&mut self.data, key);
        put_u16_le(&mut self.data, value_len as u16);
        put_slice(&mut self.data, value);
        self.entries = Ghost(new_e);
        proof {
            let rec = entry_record(new_e, n as int);
            assert(rec == le16(key@.len() as u16) + key@ + le16(value@.len() as u16) + value@);
            assert(records(new_e, n) == records(old_e, n));
            assert(records(new_e, (n + 1) as nat) == records(new_e, n) + rec);
            assert(self.data@ =~= records(old_e, n) + rec);
            assert(self.data@ == records(new_e, (n + 1) as nat));
            assert(rec.len() == 4 + key@.len() + value@.len());
            assert forall|i: int| 0 <= i < n + 1 implies #[trigger] self.offsets@[i] == records(
                new_e,
                i as nat,
            ).len() as u16 by {
                if i < n {
                    assert(old(self).offsets@[i] == records(old_e, i as nat).len() as u16);
                    assert(records(new_e, i as nat) == records(old_e, i as nat));
                } else {
                    assert(self.offsets@[i] == old(self).data@.len() as u16);
                }
            }
            assert(entries_fit(new_e)) by {
                assert forall|i: int| 0 <= i < new_e.len() implies {
                    &&& 0 < (#[trigger] new_e[i]).0.len() <= u16::MAX
                    &&& new_e[i].1.len() <= u16::MAX
                } by {
                    if i < n {
                        assert(new_e[i] == old_e[i]);
                    }
                }
            }
            let e = self.entries@;
            assert(encoded_size_of(e) == encoded_size_of(old_e) + 6 + key@.len() + value@.len());
            assert(e.len() > 0 ==> self.first_key@ == e[0].0);
        }
        true
    }

    /// A block never outgrows its target size once it holds two entries or more:
    /// only a block holding a single entry may, whatever that entry's size.
    pub proof fn lemma_size_bound(&self)
        requires
            self.wf(),
            self@.len() >= 2,
        ensures
            encoded_size_of(self@) <= self.target_size(),
    {
    }

    /// For a target of at most 64 KiB, every record starts at a position that a
    /// `u16` offset can hold.
    pub proof fn lemma_small_target_fits(&self)
        requires
            self.wf(),
            self.target_size() <= 65536,
        ensures
            offsets_fit(self@),
    {
        let e = self@;
        lemma_records_len(e, e.len());
        assert forall|i: int| 0 <= i < e.len() implies (#[trigger] records(e, i as nat)).len() <= u16::MAX by {
            if e.len() == 1 {
                assert(i == 0);
            } else {
                assert(records(e, i as nat).len() <= records(e, e.len()).len());
            }
        }
    }

    /// Every key the builder holds is non-empty, and every key and value length fits a `u16`.
    pub proof fn lemma_entries_fit(&self)
        requires
            self.wf(),
        ensures
            entries_fit(self@),
    {
    }

    /// Check if there is no key-value pair in the block.
    pub fn is_empty(&self) -> (r: bool)
        requires
            self.wf(),
        ensures
            r == (self@.len() == 0),
    {
        self.offsets.len() == 0
    }

    /// Finalize the block. When every record starts within `u16` range (always so
    /// for a target of at most 64 KiB), the block is well formed, holds exactly the
    /// entries added, and its first key is the first entry's.
    pub fn build(self) -> (r: Block)
        requires
            self.wf(),
            self@.len() > 0,
        ensures
            r.data@ == records(self@, self@.len()),
            r.offsets@.len() == self@.len(),
            forall|i: int|
                0 <= i < self@.len() ==> #[trigger] r.offsets@[i] == records(
                    self@,
                    i as nat,
                ).len() as u16,
            r.first_key@ == self@[0].0,
            self@.len() <= u16::MAX ==> r.anchored(),
            offsets_fit(self@) ==> r.wf() && r.anchored() && r.entries() == self@,
    {
        let b = Block { data: self.data, offsets: self.offsets, first_key: self.first_key };
        proof {
            if offsets_fit(self.entries@) {
                lemma_built_block(self.entries@, b);
            }
            if self.entries@.len() <= u16::MAX {
                lemma_built_entry(self.entries@, b, 0);
                assert(b.offsets@[0] == 0);
            }
        }
        b
    }
}

proof fn lemma_records_push(e: Seq<KvEntry>, x: KvEntry, n: nat)
    requires
        n == e.len(),
    ensures
        forall|i: nat| i <= n ==> #[trigger] records(e.push(x), i) == records(e, i),
    decreases n,
{
    assert forall|i: nat| i <= n implies #[trigger] records(e.push(x), i) == records(e, i) by {
        lemma_records_prefix_eq(e, e.push(x), i);
    }
}

proof fn lemma_records_prefix_eq(e: Seq<KvEntry>, f: Seq<KvEntry>, i: nat)
    requires
        i <= e.len(),
        i <= f.len(),
        forall|j: int| 0 <= j < i ==> e[j] == f[j],
    ensures
        records(f, i) == records(e, i),
    decreases i,
{
    if i > 0 {
        lemma_records_prefix_eq(e, f, (i - 1) as nat);
        assert(entry_record(e, i - 1) == entry_record(f, i - 1));
    }
}

proof fn lemma_records_len(e: Seq<KvEntry>, n: nat)
    requires
        n <= e.len(),
    ensures
        forall|i: nat| i <= n ==> (#[trigger] records(e, i)).len() <= records(e, n).len(),
        forall|i: nat|
            i < n ==> records(e, n).take((records(e, i).len() + entry_record(e, i as int).len()) as int)
                == #[trigger] records(e, i) + entry_record(e, i as int),
    decreases n,
{
    if n > 0 {
        lemma_records_len(e, (n - 1) as nat);
        let p = records(e, (n - 1) as nat);
        let r = entry_record(e, n - 1);
        assert forall|i: nat|
            i < n implies records(e, n).take((records(e, i).len() + entry_record(e, i as int).len()) as int)
            == #[trigger] records(e, i) + entry_record(e, i as int) by {
            if i < n - 1 {
                let k = (records(e, i).len() + entry_record(e, i as int).len()) as int;
                assert(p.take(k) == records(e, i) + entry_record(e, i as int));
                assert(records(e, (i + 1) as nat) == records(e, i) + entry_record(e, i as int));
                assert(k <= p.len());
                assert((p + r).take(k) =~= p.take(k));
            } else {
                assert((p + r).take((p.len() + r.len()) as int) =~= p + r);
            }
        }
    }
}

/// Reads the record that `pre` is followed by in `s`.
proof fn lemma_record_reads(s: Seq<u8>, pre: Seq<u8>, key: Seq<u8>, value: Seq<u8>)
    requires
        key.len() <= u16::MAX,
        value.len() <= u16::MAX,
        pre.len() + 4 + key.len() + value.len() <= s.len(),
        s.take((pre.len() + 4 + key.len() + value.len()) as int) == pre + (le16(key.len() as u16) + key + le16(
            value.len() as u16,
        ) + value),
    ensures
        record_in_bounds(s, pre.len() as int),
        record_key(s, pre.len() as int) == key,
        record_value(s, pre.len() as int) == value,
        rec_end(s, pre.len() as int) == pre.len() + 4 + key.len() + value.len(),
{
    let p = pre.len() as int;
    let kl = key.len();
    let t = s.take(p + 4 + kl + value.len());
    let tail = key + le16(value.len() as u16) + value;
    lemma_le16_roundtrip(pre, kl as u16, tail);
    assert(t =~= pre + le16(kl as u16) + tail);
    assert(s[p] == t[p] && s[p + 1] == t[p + 1]);
    assert(u16_at(s, p) == u16_at(t, p));
    assert(rec_key_len(s, p) == kl);
    let pre2 = pre + le16(kl as u16) + key;
    lemma_le16_roundtrip(pre2, value.len() as u16, value);
    assert(t =~= pre2 + le16(value.len() as u16) + value);
    assert(s[p + 2 + kl] == t[p + 2 + kl] && s[p + 3 + kl] == t[p + 3 + kl]);
    assert(u16_at(s, p + 2 + kl) == u16_at(t, p + 2 + kl));
    assert(rec_value_len(s, p) == value.len());
    assert(record_key(s, p) =~= key) by {
        assert forall|j: int| 0 <= j < kl implies #[trigger] record_key(s, p)[j] == key[j] by {
            assert(s[p + 2 + j] == t[p + 2 + j]);
        }
    }
    assert(record_value(s, p) =~= value) by {
        assert forall|j: int| 0 <= j < value.len() implies #[trigger] record_value(s, p)[j]
            == value[j] by {
            assert(s[p + 4 + kl + j] == t[p + 4 + kl + j]);
        }
    }
}

proof fn lemma_built_entry(e: Seq<KvEntry>, b: Block, i: int)
    requires
        0 <= i < e.len(),
        entries_fit(e),
        b.data@ == records(e, e.len()),
        b.offsets@.len() == e.len(),
        b.offsets@[i] == records(e, i as nat).len() as u16,
        records(e, i as nat).len() <= u16::MAX,
    ensures
        record_in_bounds(b.data@, b.offsets@[i] as int),
        record_key(b.data@, b.offsets@[i] as int) == e[i].0,
        record_value(b.data@, b.offsets@[i] as int) == e[i].1,
        b.entries()[i] == e[i],
{
    let data = b.data@;
    lemma_records_len(e, e.len());
    let pre = records(e, i as nat);
    assert(b.offsets@[i] == pre.len());
    assert(0 < e[i].0.len() <= u16::MAX);
    assert(entry_record(e, i).len() == 4 + e[i].0.len() + e[i].1.len());
    assert(records(e, (i + 1) as nat) == pre + entry_record(e, i));
    assert(records(e, (i + 1) as nat).len() <= data.len());
    assert(data.take((pre.len() + entry_record(e, i).len()) as int) == pre + entry_record(e, i));
    lemma_record_reads(data, pre, e[i].0, e[i].1);
}

/// Each record is at least five bytes long: a non-empty key and two lengths.
proof fn lemma_records_min_len(e: Seq<KvEntry>, n: nat)
    requires
        n <= e.len(),
        entries_fit(e),
    ensures
        records(e, n).len() >= 5 * n,
    decreases n,
{
    if n > 0 {
        lemma_records_min_len(e, (n - 1) as nat);
        assert(0 < e[n - 1].0.len());
    }
}

/// The block that `build` returns holds exactly the builder's entries, when every
/// record starts within `u16` range.
proof fn lemma_built_block(e: Seq<KvEntry>, b: Block)
    requires
        0 < e.len(),
        entries_fit(e),
        offsets_fit(e),
        b.data@ == records(e, e.len()),
        b.offsets@.len() == e.len(),
        forall|i: int| 0 <= i < e.len() ==> #[trigger] b.offsets@[i] == records(e, i as nat).len() as u16,
        b.first_key@ == e[0].0,
    ensures
        b.wf(),
        b.anchored(),
        b.entries() == e,
{
    let data = b.data@;
    assert forall|i: int| 0 <= i < b.offsets@.len() implies {
        &&& #[trigger] record_in_bounds(data, b.offsets@[i] as int)
        &&& record_key(data, b.offsets@[i] as int).len() > 0
    } by {
        assert(b.offsets@[i] == records(e, i as nat).len() as u16);
        assert(records(e, i as nat).len() <= u16::MAX);
        lemma_built_entry(e, b, i);
    }
    assert forall|i: int| 0 <= i < e.len() implies #[trigger] b.entries()[i] == e[i] by {
        assert(b.offsets@[i] == records(e, i as nat).len() as u16);
        assert(records(e, i as nat).len() <= u16::MAX);
        lemma_built_entry(e, b, i);
    }
    assert(b.entries() =~= e);
    assert(records(e, 0).len() <= u16::MAX);
    lemma_built_entry(e, b, 0);
    assert(b.offsets@[0] == 0);
    let last = e.len() - 1;
    assert(records(e, last as nat).len() <= u16::MAX);
    lemma_records_min_len(e, last as nat);
    assert(e.len() <= u16::MAX);
}

} // verus!
