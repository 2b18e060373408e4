//! A block: the smallest unit of reading and caching, a run of sorted
//! key-value records followed by their offsets and their count.
//!
//! Encoded layout: `data | offset (u16) * n | n (u16)`, all little-endian.
//! Each record in `data` is `key_len (u16) | key | value_len (u16) | value`.
pub mod builder;
pub mod iterator;

use vstd::prelude::*;
use crate::codec::{
    bytes_from_vec, bytes_seq, get_u16_le, lemma_le16_roundtrip, le16, put_slice, put_u16_le, u16_at,
    u16_from_le,
};
use bytes::Bytes;
use crate::key::KvEntry;

pub use builder::BlockBuilder;
pub use iterator::BlockIterator;

verus! {

/// Length of the key of the record that starts at `start`.
pub open spec fn rec_key_len(d: Seq<u8>, start: int) -> nat {
    u16_at(d, start)
}

/// Position of the value length of the record that starts at `start`.
pub open spec fn rec_value_len_pos(d: Seq<u8>, start: int) -> int {
    start + 2 + rec_key_len(d, start)
}

/// Length of the value of the record that starts at `start`.
pub open spec fn rec_value_len(d: Seq<u8>, start: int) -> nat {
    u16_at(d, rec_value_len_pos(d, start))
}

/// Position of the value of the record that starts at `start`.
pub open spec fn rec_value_start(d: Seq<u8>, start: int) -> int {
    rec_value_len_pos(d, start) + 2
}

/// Position just past the record that starts at `start`.
pub open spec fn rec_end(d: Seq<u8>, start: int) -> int {
    rec_value_start(d, start) + rec_value_len(d, start)
}

/// The record that starts at `start` lies inside `d`.
pub open spec fn record_in_bounds(d: Seq<u8>, start: int) -> bool {
    &&& 0 <= start
    &&& start + 2 <= d.len()
    &&& rec_value_start(d, start) <= d.len()
    &&& rec_end(d, start) <= d.len()
}

/// The key of the record that starts at `start`.
pub open spec fn record_key(d: Seq<u8>, start: int) -> Seq<u8> {
    d.subrange(start + 2, start + 2 + rec_key_len(d, start))
}

/// The value of the record that starts at `start`.
pub open spec fn record_value(d: Seq<u8>, start: int) -> Seq<u8> {
    d.subrange(rec_value_start(d, start), rec_end(d, start))
}

/// The entries that a data section and its offsets stand for, in offset order.
pub open spec fn block_entries_of(data: Seq<u8>, offsets: Seq<u16>) -> Seq<KvEntry> {
    Seq::new(
        offsets.len(),
        |i: int| (record_key(data, offsets[i] as int), record_value(data, offsets[i] as int)),
    )
}

/// The entries that an encoded block holds.
pub open spec fn decoded_entries(s: Seq<u8>) -> Seq<KvEntry> {
    block_entries_of(decoded_data(s), decoded_offsets(s))
}

/// The bytes of a sequence of offsets, each little-endian.
pub open spec fn offsets_bytes(offs: Seq<u16>) -> Seq<u8>
    decreases offs.len(),
{
    if offs.len() == 0 {
        Seq::empty()
    } else {
        offsets_bytes(offs.drop_last()) + le16(offs.last())
    }
}

/// A block is the smallest unit of read and caching in LSM tree. It is a collection of sorted key-value pairs.
pub struct Block {
    pub data: Vec<u8>,
    pub offsets: Vec<u16>,
    /// The key of the block's first entry.
    pub first_key: Vec<u8>,
}

impl Block {
    /// Every offset points at a record that lies in the data section and has a
    /// non-empty key.
    pub open spec fn wf(&self) -> bool {
        forall|i: int|
            0 <= i < self.offsets@.len() ==> {
                &&& #[trigger] record_in_bounds(self.data@, self.offsets@[i] as int)
                &&& record_key(self.data@, self.offsets@[i] as int).len() > 0
            }
    }

    /// The entries of the block, in offset order.
    pub open spec fn entries(&self) -> Seq<KvEntry> {
        block_entries_of(self.data@, self.offsets@)
    }

    /// The encoded form of the block.
    pub open spec fn encoded(&self) -> Seq<u8> {
        self.data@ + offsets_bytes(self.offsets@) + le16(self.offsets@.len() as u16)
    }

    /// The block as the builder leaves it: between one and `u16::MAX` entries, and
    /// the first key is the key of the first record.
    pub open spec fn anchored(&self) -> bool {
        let e0 = self.offsets@[0] as int;
        &&& 1 <= self.offsets@.len() <= u16::MAX
        &&& e0 + 2 <= self.data@.len()
        &&& e0 + 2 + rec_key_len(self.data@, e0) <= self.data@.len()
        &&& record_key(self.data@, e0) == self.first_key@
    }

    /// Whether every offset points at a record that lies in the data section and has a
    /// non-empty key: what iterating the block needs.
    pub fn is_wf(&self) -> (r: bool)
        ensures
            r == self.wf(),
    {
        let len = self.data.len();
        let mut i: usize = 0;
        while i < self.offsets.len()
            invariant
                i <= self.offsets@.len(),
                len == self.data@.len(),
                forall|j: int|
                    0 <= j < i ==> {
                        &&& #[trigger] record_in_bounds(self.data@, self.offsets@[j] as int)
                        &&& record_key(self.data@, self.offsets@[j] as int).len() > 0
                    },
            decreases self.offsets.len() - i,
        {
            let start = self.offsets[i] as usize;
            let ghost d = self.data@;
            let ghost st = start as int;
            assert(self.offsets@[i as int] as int == st);
            if start + 2 > len {
                assert(!record_in_bounds(d, st));
                return false;
            }
            let key_len = get_u16_le(self.data.as_slice(), start) as usize;
            if start + 2 + key_len + 2 > len {
                assert(!record_in_bounds(d, st));
                return false;
            }
            let value_len = get_u16_le(self.data.as_slice(), start + 2 + key_len) as usize;
            if start + 4 + key_len + value_len > len {
                assert(!record_in_bounds(d, st));
                return false;
            }
            assert(rec_key_len(d, st) == key_len);
            assert(rec_value_len(d, st) == value_len);
            assert(record_in_bounds(d, st));
            assert(record_key(d, st).len() == key_len);
            if key_len == 0 {
                return false;
            }
            assert forall|j: int| 0 <= j < i + 1 implies {
                &&& #[trigger] record_in_bounds(self.data@, self.offsets@[j] as int)
                &&& record_key(self.data@, self.offsets@[j] as int).len() > 0
            } by {
                if j == i {
                    assert(self.offsets@[j] as int == st);
                }
            }
            i = i + 1;
        }
        true
    }

    /// Encode the block: data section, then every offset, then the number of entries.
    pub fn encode(&self) -> (r: Bytes)
        ensures
            bytes_seq(r) == self.encoded(),
    {
        let n = self.offsets.len();
        let capacity = self.data.len().saturating_add(n).saturating_add(n).saturating_add(2);
        let mut buf: Vec<u8> = Vec::with_capacity(capacity);
        put_slice(&mut buf, self.data.as_slice());
        let mut i: usize = 0;
        while i < self.offsets.len()
            invariant
                i <= self.offsets@.len(),
                buf@ == self.data@ + offsets_bytes(self.offsets@.take(i as int)),
            decreases self.offsets.len() - i,
        {
            put_u16_le(&mut buf, self.offsets[i]);
            assert(self.offsets@.take(i + 1).drop_last() =~= self.offsets@.take(i as int));
            i = i + 1;
        }
        assert(self.offsets@.take(i as int) =~= self.offsets@);
        put_u16_le(&mut buf, self.offsets.len() as u16);
        bytes_from_vec(buf)
    }

    /// Decode from the data layout, transform the input `data` to a single `Block`
    ///
    /// The decoder reads the trailing count, the offsets, and the first record's key:
    /// `decodable` says that these lie inside the input.
    pub fn decode(data: &[u8]) -> (r: Self)
        requires
            decodable(data@),
        ensures
            r.data@ == decoded_data(data@),
            r.offsets@ == decoded_offsets(data@),
            r.first_key@ == decoded_first_key(data@),
    {
        // num_of_elements occupies the last 2 bytes.
        let num_of_elements = get_u16_le(data, data.len() - 2) as usize;
        // The offset section (2 bytes per entry) sits just before num_of_elements.
        let offsets_end = data.len() - 2;
        let offsets_start = offsets_end - num_of_elements * 2;
        let mut offsets: Vec<u16> = Vec::new();
        let mut i: usize = 0;
        while i < num_of_elements
            invariant
                i <= num_of_elements,
                num_of_elements == decoded_count(data@),
                offsets_start == decoded_offsets_start(data@),
                offsets_start + 2 * num_of_elements + 2 == data@.len(),
                offsets@ == decoded_offsets(data@).take(i as int),
            decreases num_of_elements - i,
        {
            assert(offsets_start + 2 * i + 2 <= data.len());
            let off = get_u16_le(data, offsets_start + 2 * i);
            offsets.push(off);
            assert(offsets@ =~= decoded_offsets(data@).take(i + 1));
            i = i + 1;
        }
        assert(offsets@ =~= decoded_offsets(data@));
        // Everything before the offset section is the data section.
        let data_section = slice_prefix(data, offsets_start);
        // The first key is the key of entry 0's record.
        let entry0 = offsets[0] as usize;
        let key_len = u16_from_le(data_section[entry0], data_section[entry0 + 1]) as usize;
        let mut first_key: Vec<u8> = Vec::new();
        first_key.extend_from_slice(slice_range(data_section.as_slice(), entry0 + 2, entry0 + 2 + key_len));
        assert(first_key@ =~= decoded_first_key(data@));
        Self { data: data_section, offsets, first_key }
    }
}

/// The entry count stored at the end of an encoded block.
pub open spec fn decoded_count(s: Seq<u8>) -> nat {
    u16_at(s, s.len() - 2)
}

/// Where the offset section of an encoded block starts.
pub open spec fn decoded_offsets_start(s: Seq<u8>) -> int {
    s.len() - 2 - 2 * decoded_count(s)
}

/// The offsets that an encoded block holds.
pub open spec fn decoded_offsets(s: Seq<u8>) -> Seq<u16> {
    Seq::new(decoded_count(s), |i: int| u16_at(s, decoded_offsets_start(s) + 2 * i) as u16)
}

/// The data section of an encoded block.
pub open spec fn decoded_data(s: Seq<u8>) -> Seq<u8> {
    s.take(decoded_offsets_start(s))
}

/// The key of the first record of an encoded block.
pub open spec fn decoded_first_key(s: Seq<u8>) -> Seq<u8> {
    let e0 = u16_at(s, decoded_offsets_start(s)) as int;
    s.subrange(e0 + 2, e0 + 2 + u16_at(s, e0))
}

/// What `Block::decode` reads lies inside the input: the count, the offsets, and
/// the first record's key length and key.
pub open spec fn decodable(s: Seq<u8>) -> bool {
    let start = decoded_offsets_start(s);
    let e0 = u16_at(s, start) as int;
    &&& s.len() >= 2
    &&& decoded_count(s) >= 1
    &&& start >= 0
    &&& e0 + 2 <= start
    &&& e0 + 2 + u16_at(s, e0) <= start
}

/// Whether `Block::decode` can read `data`: the count, the offsets and the first
/// record's key all lie inside it.
pub fn block_decodable(data: &[u8]) -> (r: bool)
    ensures
        r == decodable(data@),
{
    let len = data.len();
    if len < 2 {
        return false;
    }
    let count = get_u16_le(data, len - 2) as usize;
    if count == 0 || 2 * count > len - 2 {
        return false;
    }
    let start = len - 2 - 2 * count;
    let e0 = get_u16_le(data, start) as usize;
    if e0 + 2 > start {
        return false;
    }
    let key_len = get_u16_le(data, e0) as usize;
    e0 + 2 + key_len <= start
}

/// The first `n` bytes of `data`, copied.
fn slice_prefix(data: &[u8], n: usize) -> (r: Vec<u8>)
    requires
        n <= data@.len(),
    ensures
        r@ == data@.take(n as int),
{
    let mut r: Vec<u8> = Vec::new();
    r.extend_from_slice(slice_range(data, 0, n));
    assert(r@ =~= data@.take(n as int));
    r
}

/// The bytes of `data` from `lo` up to `hi`.
pub fn slice_range(data: &[u8], lo: usize, hi: usize) -> (r: &[u8])
    requires
        lo <= hi <= data@.len(),
    ensures
        r@ == data@.subrange(lo as int, hi as int),
{
    vstd::slice::slice_subrange(data, lo, hi)
}

proof fn lemma_offsets_bytes(offs: Seq<u16>)
    ensures
        offsets_bytes(offs).len() == 2 * offs.len(),
        forall|i: int|
            0 <= i < offs.len() ==> u16_at(offsets_bytes(offs), 2 * i) == #[trigger] offs[i],
    decreases offs.len(),
{
    if offs.len() > 0 {
        let init = offs.drop_last();
        lemma_offsets_bytes(init);
        lemma_le16_roundtrip(offsets_bytes(init), offs.last(), Seq::empty());
        assert(offsets_bytes(init) + le16(offs.last()) =~= offsets_bytes(init) + le16(
            offs.last(),
        ) + Seq::<u8>::empty());
        assert forall|i: int| 0 <= i < offs.len() implies u16_at(offsets_bytes(offs), 2 * i)
            == #[trigger] offs[i] by {
            if i < offs.len() - 1 {
                assert(init[i] == offs[i]);
                assert(offsets_bytes(offs)[2 * i] == offsets_bytes(init)[2 * i]);
                assert(offsets_bytes(offs)[2 * i + 1] == offsets_bytes(init)[2 * i + 1]);
            }
        }
    }
}

/// Decoding an encoded block gives back the block, for every block that the
/// builder produces (`anchored`).
pub proof fn lemma_decode_encode(b: Block)
    requires
        b.anchored(),
    ensures
        decodable(b.encoded()),
        decoded_data(b.encoded()) == b.data@,
        decoded_offsets(b.encoded()) == b.offsets@,
        decoded_first_key(b.encoded()) == b.first_key@,
{
    let s = b.encoded();
    let d = b.data@;
    let ob = offsets_bytes(b.offsets@);
    let n = b.offsets@.len();
    lemma_offsets_bytes(b.offsets@);
    lemma_le16_roundtrip(d + ob, n as u16, Seq::empty());
    assert(s =~= d + ob + le16(n as u16) + Seq::<u8>::empty());
    assert(decoded_count(s) == n);
    assert(decoded_offsets_start(s) == d.len());
    assert forall|i: int| 0 <= i < n implies #[trigger] decoded_offsets(s)[i] == b.offsets@[i] by {
        assert(s[d.len() + 2 * i] == ob[2 * i]);
        assert(s[d.len() + 2 * i + 1] == ob[2 * i + 1]);
    }
    assert(decoded_offsets(s) =~= b.offsets@);
    assert(decoded_data(s) =~= d);
    let e0 = b.offsets@[0] as int;
    assert(u16_at(s, d.len() as int) == e0) by {
        assert(s[d.len() as int] == ob[0]);
        assert(s[d.len() + 1int] == ob[1]);
    }
    assert(u16_at(s, e0) == rec_key_len(d, e0));
    assert(decoded_first_key(s) =~= b.first_key@);
}

/// A block read back from its encoding holds the same entries: decoding the
/// encoding of a block the builder produced gives a well-formed block with the
/// entries that were added.
pub proof fn lemma_decoded_block_entries(b: Block, d: Block)
    requires
        b.wf(),
        b.anchored(),
        d.data@ == decoded_data(b.encoded()),
        d.offsets@ == decoded_offsets(b.encoded()),
        d.first_key@ == decoded_first_key(b.encoded()),
    ensures
        d.wf(),
        d.entries() == b.entries(),
        decoded_entries(b.encoded()) == b.entries(),
{
    lemma_decode_encode(b);
    assert(d.entries() =~= b.entries());
}

/// The encoding of a block the builder produced decodes to the block's entries.
pub proof fn lemma_encoded_entries(b: Block)
    requires
        b.wf(),
        b.anchored(),
    ensures
        decodable(b.encoded()),
        decoded_entries(b.encoded()) == b.entries(),
{
    lemma_decode_encode(b);
    assert(decoded_entries(b.encoded()) =~= b.entries());
}

} // verus!
