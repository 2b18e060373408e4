//! The sorted string table: encoded blocks, then the block metadata, then the
//! bloom filter, each section followed by the little-endian `u32` offset at
//! which it starts.
pub mod builder;

use vstd::prelude::*;

use crate::block::slice_range;
use crate::codec::{
    get_u16_le, get_u32_le, le16, le32, lemma_le16_roundtrip, lemma_le32_roundtrip, put_slice,
    put_u16_le, put_u32_le, u16_at, u32_at,
};
use crate::key::{key_le, lemma_key_order, KvEntry};

pub use builder::SsTableBuilder;

verus! {

/// Encoded width of a block offset on disk, and of the section offsets in the footer.
pub const OFFSET_ENCODED_LEN: usize = 4;

/// Encoded width of every length prefix.
pub const LENGTH_ENCODED_LEN: usize = 2;

/// Fixed encoded overhead of one `BlockMeta` record:
/// offset (u32) + first_key_len (u16) + last_key_len (u16).
pub const BLOCK_META_ENTRY_OVERHEAD: usize = 8;

/// A block's metadata as the specifications see it: offset, first key, last key.
pub type MetaView = (nat, Seq<u8>, Seq<u8>);

#[derive(Clone, Debug)]
pub struct BlockMeta {
    /// Offset of this data block.
    pub offset: usize,
    /// The first key of the data block.
    pub first_key: Vec<u8>,
    /// The last key of the data block.
    pub last_key: Vec<u8>,
}

impl View for BlockMeta {
    type V = MetaView;

    open spec fn view(&self) -> MetaView {
        (self.offset as nat, self.first_key@, self.last_key@)
    }
}

/// The views of a sequence of block metadata.
pub open spec fn meta_views(ms: Seq<BlockMeta>) -> Seq<MetaView> {
    Seq::new(ms.len(), |i: int| ms[i]@)
}

/// The record of one block's metadata:
/// `offset (u32) | first_key_len (u16) | first_key | last_key_len (u16) | last_key`.
pub open spec fn meta_record(m: MetaView) -> Seq<u8> {
    le32(m.0 as u32) + le16(m.1.len() as u16) + m.1 + le16(m.2.len() as u16) + m.2
}

/// The records of a sequence of block metadata, in order.
pub open spec fn meta_records(ms: Seq<MetaView>) -> Seq<u8>
    decreases ms.len(),
{
    if ms.len() == 0 {
        Seq::empty()
    } else {
        meta_record(ms[0]) + meta_records(ms.drop_first())
    }
}

/// The metadata section: the number of records (u32), then the records.
pub open spec fn encoded_metas(ms: Seq<MetaView>) -> Seq<u8> {
    le32(ms.len() as u32) + meta_records(ms)
}

/// Every field of the metadata fits its encoded width.
pub open spec fn metas_fit(ms: Seq<MetaView>) -> bool {
    &&& ms.len() <= u32::MAX
    &&& forall|i: int|
        0 <= i < ms.len() ==> {
            &&& (#[trigger] ms[i]).0 <= u32::MAX
            &&& ms[i].1.len() <= u16::MAX
            &&& ms[i].2.len() <= u16::MAX
        }
}

/// Length of the first key of the metadata record at `pos`.
pub open spec fn meta_fk_len(s: Seq<u8>, pos: int) -> nat {
    u16_at(s, pos + 4)
}

/// Length of the last key of the metadata record at `pos`.
pub open spec fn meta_lk_len(s: Seq<u8>, pos: int) -> nat {
    u16_at(s, pos + 6 + meta_fk_len(s, pos))
}

/// Position just past the metadata record at `pos`.
pub open spec fn meta_end(s: Seq<u8>, pos: int) -> int {
    pos + 8 + meta_fk_len(s, pos) + meta_lk_len(s, pos)
}

/// The metadata record at `pos` lies inside `s`.
pub open spec fn meta_in_bounds(s: Seq<u8>, pos: int) -> bool {
    &&& 0 <= pos
    &&& pos + 6 <= s.len()
    &&& pos + 8 + meta_fk_len(s, pos) <= s.len()
    &&& meta_end(s, pos) <= s.len()
}

/// The metadata that the record at `pos` holds.
pub open spec fn meta_at(s: Seq<u8>, pos: int) -> MetaView {
    (
        u32_at(s, pos),
        s.subrange(pos + 6, pos + 6 + meta_fk_len(s, pos)),
        s.subrange(pos + 8 + meta_fk_len(s, pos), meta_end(s, pos)),
    )
}

/// The `cnt` metadata records that start at `pos`, or `None` when they run past the end.
pub open spec fn parse_metas(s: Seq<u8>, pos: int, cnt: nat) -> Option<Seq<MetaView>>
    decreases cnt,
{
    if cnt == 0 {
        Some(Seq::empty())
    } else if !meta_in_bounds(s, pos) {
        None
    } else {
        match parse_metas(s, meta_end(s, pos), (cnt - 1) as nat) {
            Some(rest) => Some(seq![meta_at(s, pos)] + rest),
            None => None,
        }
    }
}

/// The metadata that a metadata section holds, or `None` when it is cut short.
pub open spec fn decoded_metas(s: Seq<u8>) -> Option<Seq<MetaView>> {
    if s.len() < 4 {
        None
    } else {
        parse_metas(s, 4, u32_at(s, 0))
    }
}

impl BlockMeta {
    /// Encode block meta to a buffer.
    pub fn encode_block_meta(block_meta: &[BlockMeta], buf: &mut Vec<u8>)
        ensures
            final(buf)@ == old(buf)@ + encoded_metas(meta_views(block_meta@)),
    {
        // Reserve exact space up front: these buffers can be large.
        let mut estimated: usize = OFFSET_ENCODED_LEN;
        let mut j: usize = 0;
        while j < block_meta.len()
            invariant
                j <= block_meta@.len(),
            decreases block_meta.len() - j,
        {
            let meta = &block_meta[j];
            estimated = estimated.saturating_add(BLOCK_META_ENTRY_OVERHEAD).saturating_add(
                meta.first_key.len(),
            ).saturating_add(meta.last_key.len());
            j = j + 1;
        }
        buf.reserve(estimated);
        let ghost start = buf@;
        let ghost ms = meta_views(block_meta@);
        put_u32_le(buf, block_meta.len() as u32);
        let mut i: usize = 0;
        while i < block_meta.len()
            invariant
                i <= block_meta@.len(),
                ms == meta_views(block_meta@),
                buf@ == start + le32(block_meta@.len() as u32) + meta_records(ms.take(i as int)),
            decreases block_meta.len() - i,
        {
            let meta = &block_meta[i];
            let ghost before = buf@;
            put_u32_le(buf, meta.offset as u32);
            put_u16_le(buf, meta.first_key.len() as u16);
            put_slice(buf, meta.first_key.as_slice());
            put_u16_le(buf, meta.last_key.len() as u16);
            put_slice(buf, meta.last_key.as_slice());
            proof {
                assert(ms[i as int] == meta@);
                assert(buf@ =~= before + meta_record(ms[i as int]));
                lemma_meta_records_push(ms.take(i as int), ms[i as int]);
                assert(ms.take(i as int).push(ms[i as int]) =~= ms.take(i + 1));
            }
            i = i + 1;
        }
        proof {
            assert(ms.take(i as int) =~= ms);
            assert(ms.len() == block_meta@.len());
        }
    }

    /// Decode block meta from a buffer.
    pub fn decode_block_meta(buf: &[u8]) -> (r: Vec<BlockMeta>)
        requires
            decoded_metas(buf@) is Some,
        ensures
            meta_views(r@) == decoded_metas(buf@).unwrap(),
    {
        let num_of_blocks = get_u32_le(buf, 0) as usize;
        let ghost all = decoded_metas(buf@).unwrap();
        let mut metas: Vec<BlockMeta> = Vec::with_capacity(num_of_blocks);
        let mut pos: usize = 4;
        let mut i: usize = 0;
        let blen = buf.len();
        while i < num_of_blocks
            invariant
                blen == buf@.len(),
                i <= num_of_blocks,
                num_of_blocks == u32_at(buf@, 0),
                parse_metas(buf@, pos as int, (num_of_blocks - i) as nat) is Some,
                all == meta_views(metas@) + parse_metas(buf@, pos as int, (num_of_blocks - i) as nat).unwrap(),
                pos <= buf@.len(),
            decreases num_of_blocks - i,
        {
            let ghost tail = parse_metas(buf@, pos as int, (num_of_blocks - i) as nat).unwrap();
            let ghost next = parse_metas(buf@, meta_end(buf@, pos as int), (num_of_blocks - i - 1) as nat).unwrap();
            assert(meta_in_bounds(buf@, pos as int));
            assert(tail == seq![meta_at(buf@, pos as int)] + next);
            let offset = get_u32_le(buf, pos) as usize;
            let first_key_len = get_u16_le(buf, pos + 4) as usize;
            let mut first_key: Vec<u8> = Vec::new();
            first_key.extend_from_slice(slice_range(buf, pos + 6, pos + 6 + first_key_len));
            let last_key_len = get_u16_le(buf, pos + 6 + first_key_len) as usize;
            let mut last_key: Vec<u8> = Vec::new();
            let lk_start = pos + 8 + first_key_len;
            last_key.extend_from_slice(slice_range(buf, lk_start, lk_start + last_key_len));
            let m = BlockMeta { offset, first_key, last_key };
            assert(m@ == meta_at(buf@, pos as int));
            let ghost before = metas@;
            metas.push(m);
            proof {
                assert(meta_views(metas@) =~= meta_views(before).push(m@));
                assert(all =~= meta_views(metas@) + next);
            }
            pos = lk_start + last_key_len;
            i = i + 1;
        }
        proof {
            assert(all =~= meta_views(metas@));
        }
        metas
    }
}

proof fn lemma_meta_records_push(ms: Seq<MetaView>, m: MetaView)
    ensures
        meta_records(ms.push(m)) == meta_records(ms) + meta_record(m),
    decreases ms.len(),
{
    if ms.len() == 0 {
        assert(ms.push(m).drop_first() =~= Seq::<MetaView>::empty());
        assert(meta_records(ms.push(m).drop_first()) == Seq::<u8>::empty());
        assert(ms.push(m)[0] == m);
        assert(meta_records(ms) == Seq::<u8>::empty());
        assert(meta_records(ms.push(m)) =~= meta_records(ms) + meta_record(m));
    } else {
        lemma_meta_records_push(ms.drop_first(), m);
        assert(ms.push(m).drop_first() =~= ms.drop_first().push(m));
        assert(meta_records(ms.push(m)) =~= meta_records(ms) + meta_record(m));
    }
}

proof fn lemma_meta_record_reads(s: Seq<u8>, p: int, m: MetaView)
    requires
        m.0 <= u32::MAX,
        m.1.len() <= u16::MAX,
        m.2.len() <= u16::MAX,
        0 <= p,
        p + meta_record(m).len() <= s.len(),
        s.subrange(p, p + meta_record(m).len()) == meta_record(m),
    ensures
        meta_in_bounds(s, p),
        meta_at(s, p) == m,
        meta_end(s, p) == p + meta_record(m).len(),
{
    let rec = meta_record(m);
    let l1 = m.1.len() as int;
    let l2 = m.2.len() as int;
    assert(rec.len() == 8 + l1 + l2);
    assert forall|j: int| 0 <= j < rec.len() implies s[p + j] == #[trigger] rec[j] by {
        assert(s.subrange(p, p + rec.len())[j] == s[p + j]);
    }
    let t1 = le16(m.1.len() as u16) + m.1 + le16(m.2.len() as u16) + m.2;
    lemma_le32_roundtrip(Seq::empty(), m.0 as u32, t1);
    assert(rec =~= Seq::<u8>::empty() + le32(m.0 as u32) + t1);
    assert(s[p] == rec[0] && s[p + 1] == rec[1] && s[p + 2] == rec[2] && s[p + 3] == rec[3]);
    assert(u32_at(s, p) == m.0);
    let t2 = m.1 + le16(m.2.len() as u16) + m.2;
    lemma_le16_roundtrip(le32(m.0 as u32), m.1.len() as u16, t2);
    assert(rec =~= le32(m.0 as u32) + le16(m.1.len() as u16) + t2);
    assert(s[p + 4] == rec[4] && s[p + 5] == rec[5]);
    assert(meta_fk_len(s, p) == l1);
    let pre3 = le32(m.0 as u32) + le16(m.1.len() as u16) + m.1;
    lemma_le16_roundtrip(pre3, m.2.len() as u16, m.2);
    assert(rec =~= pre3 + le16(m.2.len() as u16) + m.2);
    assert(s[p + 6 + l1] == rec[6 + l1] && s[p + 7 + l1] == rec[7 + l1]);
    assert(meta_lk_len(s, p) == l2);
    assert(s.subrange(p + 6, p + 6 + l1) =~= m.1) by {
        assert forall|j: int| 0 <= j < l1 implies #[trigger] s.subrange(p + 6, p + 6 + l1)[j] == m.1[j] by {
            assert(rec[6 + j] == m.1[j]);
        }
    }
    assert(s.subrange(p + 8 + l1, p + 8 + l1 + l2) =~= m.2) by {
        assert forall|j: int| 0 <= j < l2 implies #[trigger] s.subrange(p + 8 + l1, p + 8 + l1 + l2)[j] == m.2[j] by {
            assert(rec[8 + l1 + j] == m.2[j]);
        }
    }
}

proof fn lemma_metas_fit_rest(ms: Seq<MetaView>)
    requires
        metas_fit(ms),
        ms.len() > 0,
    ensures
        metas_fit(ms.drop_first()),
        ms[0].0 <= u32::MAX,
        ms[0].1.len() <= u16::MAX,
        ms[0].2.len() <= u16::MAX,
{
    let rest = ms.drop_first();
    assert forall|i: int| 0 <= i < rest.len() implies {
        &&& (#[trigger] rest[i]).0 <= u32::MAX
        &&& rest[i].1.len() <= u16::MAX
        &&& rest[i].2.len() <= u16::MAX
    } by {
        assert(rest[i] == ms[i + 1]);
    }
}

/// Parsing the metadata records back, wherever they stand, gives the metadata.
proof fn lemma_parse_meta_records(s: Seq<u8>, p: int, ms: Seq<MetaView>)
    requires
        metas_fit(ms),
        0 <= p,
        p + meta_records(ms).len() <= s.len(),
        s.subrange(p, p + meta_records(ms).len()) == meta_records(ms),
    ensures
        parse_metas(s, p, ms.len()) == Some(ms),
    decreases ms.len(),
{
    if ms.len() > 0 {
        let m = ms[0];
        let rest = ms.drop_first();
        lemma_metas_fit_rest(ms);
        let rec = meta_record(m);
        let rr = meta_records(rest);
        assert(meta_records(ms) == rec + rr);
        let whole = s.subrange(p, p + rec.len() + rr.len());
        assert(s.subrange(p, p + rec.len()) =~= rec) by {
            assert forall|j: int| 0 <= j < rec.len() implies #[trigger] s.subrange(p, p + rec.len())[j] == rec[j] by {
                assert(whole[j] == (rec + rr)[j]);
            }
        }
        assert(s.subrange(p + rec.len(), p + rec.len() + rr.len()) =~= rr) by {
            assert forall|j: int| 0 <= j < rr.len() implies #[trigger] s.subrange(p + rec.len(), p + rec.len() + rr.len())[j] == rr[j] by {
                assert(whole[rec.len() + j] == (rec + rr)[rec.len() + j]);
            }
        }
        lemma_meta_record_reads(s, p, m);
        lemma_parse_meta_records(s, p + rec.len(), rest);
        assert(ms =~= seq![m] + rest);
    }
}

/// Decoding encoded block metadata gives back the metadata, when every field fits
/// its encoded width.
pub proof fn lemma_decode_encode_metas(ms: Seq<MetaView>)
    requires
        metas_fit(ms),
    ensures
        decoded_metas(encoded_metas(ms)) == Some(ms),
{
    let s = encoded_metas(ms);
    lemma_le32_roundtrip(Seq::empty(), ms.len() as u32, meta_records(ms));
    assert(s =~= Seq::<u8>::empty() + le32(ms.len() as u32) + meta_records(ms));
    assert(s.subrange(4, 4 + meta_records(ms).len() as int) =~= meta_records(ms));
    lemma_parse_meta_records(s, 4, ms);
}

/// Find the block that may contain `key`: the last block whose first key is not
/// greater than `key`, or the first block when there is none.
pub fn find_block_idx(block_meta: &[BlockMeta], key: &[u8]) -> (r: usize)
    ensures
        first_keys_sorted(block_meta@) ==> {
            let p = count_first_keys_le(block_meta@, key@);
            r == (if p == 0 { 0 } else { p - 1 })
        },
        r <= block_meta@.len(),
{
    let ghost sorted = first_keys_sorted(block_meta@);
    let mut low: usize = 0;
    let mut high: usize = block_meta.len();
    while low < high
        invariant
            low <= high <= block_meta@.len(),
            sorted == first_keys_sorted(block_meta@),
            sorted ==> forall|i: int| 0 <= i < low ==> key_le(#[trigger] block_meta@[i].first_key@, key@),
            sorted ==> forall|i: int| high <= i < block_meta@.len() ==> !key_le(#[trigger] block_meta@[i].first_key@, key@),
        decreases high - low,
    {
        let mid = low + (high - low) / 2;
        let le = crate::key::compare_keys(block_meta[mid].first_key.as_slice(), key)
            != crate::key::KeyOrder::Greater;
        if le {
            proof {
                if sorted {
                    assert forall|i: int| 0 <= i < mid + 1 implies key_le(#[trigger] block_meta@[i].first_key@, key@) by {
                        assert(key_le(block_meta@[i].first_key@, block_meta@[mid as int].first_key@));
                        crate::key::lemma_key_order(block_meta@[i].first_key@, block_meta@[mid as int].first_key@, key@);
                    }
                }
            }
            low = mid + 1;
        } else {
            proof {
                if sorted {
                    assert forall|i: int| mid <= i < block_meta@.len() implies !key_le(#[trigger] block_meta@[i].first_key@, key@) by {
                        assert(key_le(block_meta@[mid as int].first_key@, block_meta@[i].first_key@));
                        crate::key::lemma_key_order(block_meta@[mid as int].first_key@, block_meta@[i].first_key@, key@);
                    }
                }
            }
            high = mid;
        }
    }
    proof {
        if sorted {
            lemma_count_first_keys_le(block_meta@, key@, low as int);
        }
    }
    low.saturating_sub(1)
}

/// The first keys of the blocks never decrease.
pub open spec fn first_keys_sorted(ms: Seq<BlockMeta>) -> bool {
    forall|i: int, j: int|
        0 <= i <= j < ms.len() ==> key_le(#[trigger] ms[i].first_key@, #[trigger] ms[j].first_key@)
}

/// How many blocks have a first key not greater than `key`.
pub open spec fn count_first_keys_le(ms: Seq<BlockMeta>, key: Seq<u8>) -> nat
    decreases ms.len(),
{
    if ms.len() == 0 {
        0
    } else {
        count_first_keys_le(ms.drop_last(), key) + if key_le(ms.last().first_key@, key) {
            1nat
        } else {
            0nat
        }
    }
}

proof fn lemma_count_first_keys_le(ms: Seq<BlockMeta>, key: Seq<u8>, p: int)
    requires
        0 <= p <= ms.len(),
        forall|i: int| 0 <= i < p ==> key_le(#[trigger] ms[i].first_key@, key),
        forall|i: int| p <= i < ms.len() ==> !key_le(#[trigger] ms[i].first_key@, key),
    ensures
        count_first_keys_le(ms, key) == p,
    decreases ms.len(),
{
    if ms.len() > 0 {
        let init = ms.drop_last();
        if p == ms.len() {
            lemma_count_first_keys_le(init, key, p - 1);
            assert(key_le(ms[ms.len() - 1].first_key@, key));
        } else {
            assert forall|i: int| p <= i < init.len() implies !key_le(#[trigger] init[i].first_key@, key) by {
                assert(init[i] == ms[i]);
            }
            lemma_count_first_keys_le(init, key, p);
            assert(!key_le(ms[ms.len() - 1].first_key@, key));
        }
    }
}

/// The block ranges of a table in order: each block's first key is not above its
/// last key, and no block's last key is above a later block's first key.
pub open spec fn metas_ordered(ms: Seq<BlockMeta>) -> bool {
    &&& forall|i: int| 0 <= i < ms.len() ==> key_le((#[trigger] ms[i]).first_key@, ms[i].last_key@)
    &&& forall|i: int, j: int|
        0 <= i < j < ms.len() ==> key_le(#[trigger] ms[i].last_key@, #[trigger] ms[j].first_key@)
}

/// With sorted first keys, the blocks whose first key is not above `key` are
/// exactly the first `count_first_keys_le` ones.
proof fn lemma_first_keys_partition(ms: Seq<BlockMeta>, key: Seq<u8>)
    requires
        first_keys_sorted(ms),
    ensures
        count_first_keys_le(ms, key) <= ms.len(),
        forall|i: int| 0 <= i < count_first_keys_le(ms, key) ==> key_le(#[trigger] ms[i].first_key@, key),
        forall|i: int|
            count_first_keys_le(ms, key) <= i < ms.len() ==> !key_le(#[trigger] ms[i].first_key@, key),
    decreases ms.len(),
{
    if ms.len() > 0 {
        let init = ms.drop_last();
        let n = ms.len() - 1;
        assert forall|i: int, j: int| 0 <= i <= j < init.len() implies key_le(
            #[trigger] init[i].first_key@,
            #[trigger] init[j].first_key@,
        ) by {
            assert(init[i] == ms[i] && init[j] == ms[j]);
        }
        lemma_first_keys_partition(init, key);
        let c = count_first_keys_le(init, key);
        if key_le(ms[n].first_key@, key) {
            assert forall|i: int| 0 <= i < ms.len() implies key_le(#[trigger] ms[i].first_key@, key) by {
                assert(key_le(ms[i].first_key@, ms[n].first_key@));
                lemma_key_order(ms[i].first_key@, ms[n].first_key@, key);
            }
            if c < init.len() {
                assert(init[c as int] == ms[c as int]);
                assert(key_le(ms[c as int].first_key@, key));
            }
        } else {
            assert forall|i: int| 0 <= i < c implies key_le(#[trigger] ms[i].first_key@, key) by {
                assert(init[i] == ms[i]);
            }
            assert forall|i: int| c <= i < ms.len() implies !key_le(#[trigger] ms[i].first_key@, key) by {
                if i < n {
                    assert(init[i] == ms[i]);
                }
            }
        }
    }
}

/// The block that `find_block_idx` picks covers `key` whenever some block does:
/// when `key` lies between a block's first and last key, it also lies between the
/// first and last key of the block found, for block ranges in table order.
pub proof fn lemma_find_block_covers(ms: Seq<BlockMeta>, key: Seq<u8>, j: int)
    requires
        metas_ordered(ms),
        0 <= j < ms.len(),
        key_le(ms[j].first_key@, key),
        key_le(key, ms[j].last_key@),
    ensures
        first_keys_sorted(ms),
        ({
            let p = count_first_keys_le(ms, key);
            let r = if p == 0 { 0 } else { p - 1 };
            &&& 0 <= r < ms.len()
            &&& key_le(ms[r].first_key@, key)
            &&& key_le(key, ms[r].last_key@)
        }),
{
    assert forall|a: int, b: int| 0 <= a <= b < ms.len() implies key_le(
        #[trigger] ms[a].first_key@,
        #[trigger] ms[b].first_key@,
    ) by {
        if a < b {
            assert(key_le(ms[a].first_key@, ms[a].last_key@));
            assert(key_le(ms[a].last_key@, ms[b].first_key@));
            lemma_key_order(ms[a].first_key@, ms[a].last_key@, ms[b].first_key@);
        }
    }
    lemma_first_keys_partition(ms, key);
    let p = count_first_keys_le(ms, key);
    assert(j < p);
    let r = p - 1;
    assert(key_le(ms[r].first_key@, key));
    if r > j {
        assert(key_le(ms[j].last_key@, ms[r].first_key@));
        lemma_key_order(key, ms[j].last_key@, ms[r].first_key@);
        lemma_key_order(ms[r].first_key@, key, key);
        assert(ms[r].first_key@ == key);
        assert(key_le(ms[r].first_key@, ms[r].last_key@));
    }
}

/// The bytes of a table: the encoded blocks, the metadata section, the metadata
/// offset (u32), the bloom filter, and the bloom filter's offset (u32).
pub open spec fn sst_image(blocks: Seq<u8>, metas: Seq<MetaView>, bloom: Seq<u8>) -> Seq<u8> {
    let meta_sec = encoded_metas(metas);
    let bloom_offset = blocks.len() + meta_sec.len() + 4;
    blocks + meta_sec + le32(blocks.len() as u32) + bloom + le32(bloom_offset as u32)
}

/// Where the bloom filter of a table image starts, as its footer says.
pub open spec fn layout_bloom_offset(s: Seq<u8>) -> nat {
    u32_at(s, s.len() - 4)
}

/// Where the metadata section of a table image starts, as its footer says.
pub open spec fn layout_meta_offset(s: Seq<u8>) -> nat {
    u32_at(s, layout_bloom_offset(s) - 4)
}

/// The metadata section of a table image.
pub open spec fn layout_meta_section(s: Seq<u8>) -> Seq<u8> {
    s.subrange(layout_meta_offset(s) as int, layout_bloom_offset(s) - 4)
}

/// The bloom filter bytes of a table image.
pub open spec fn layout_bloom(s: Seq<u8>) -> Seq<u8> {
    s.subrange(layout_bloom_offset(s) as int, s.len() - 4)
}

/// The footer of a table image points inside it, and its metadata section decodes
/// to at least one block.
pub open spec fn layout_decodable(s: Seq<u8>) -> bool {
    &&& s.len() >= 4
    &&& 4 <= layout_bloom_offset(s) <= s.len() - 4
    &&& layout_meta_offset(s) <= layout_bloom_offset(s) - 4
    &&& decoded_metas(layout_meta_section(s)) is Some
    &&& decoded_metas(layout_meta_section(s)).unwrap().len() > 0
}

/// Where block `i` of a table ends: at the next block, or at the metadata for the last one.
pub open spec fn block_end(metas: Seq<MetaView>, meta_offset: nat, i: int) -> nat {
    if i + 1 < metas.len() {
        metas[i + 1].0
    } else {
        meta_offset
    }
}

/// The sections of a table file that reading it needs.
pub struct SsTableLayout {
    /// The meta blocks that hold info for data blocks.
    pub block_meta: Vec<BlockMeta>,
    /// The offset that indicates the start point of meta blocks in the file.
    pub block_meta_offset: usize,
    /// Where the bloom filter starts; it ends four bytes before the end of the file.
    pub bloom_offset: usize,
    pub first_key: Vec<u8>,
    pub last_key: Vec<u8>,
}

/// Whether a metadata section decodes: its count and every record lie inside it.
pub fn metas_decodable(buf: &[u8]) -> (r: bool)
    ensures
        r == (decoded_metas(buf@) is Some),
{
    let len = buf.len();
    if len < 4 {
        return false;
    }
    let count = get_u32_le(buf, 0) as usize;
    let ghost total = u32_at(buf@, 0);
    let mut pos: usize = 4;
    let mut i: usize = 0;
    while i < count
        invariant
            i <= count,
            count == total,
            len == buf@.len(),
            pos <= len,
            decoded_metas(buf@) == parse_metas(buf@, 4, total) ,
            (parse_metas(buf@, 4, total) is Some) == (parse_metas(buf@, pos as int, (count - i) as nat) is Some),
        decreases count - i,
    {
        if len - pos < 6 {
            return false;
        }
        let fk_len = get_u16_le(buf, pos + 4) as usize;
        if len - pos - 6 < fk_len + 2 {
            return false;
        }
        let lk_len = get_u16_le(buf, pos + 6 + fk_len) as usize;
        if len - pos - 8 - fk_len < lk_len {
            return false;
        }
        assert(meta_in_bounds(buf@, pos as int));
        pos = pos + 8 + fk_len + lk_len;
        i = i + 1;
    }
    true
}

/// Whether a table file's footer points inside it and its metadata section decodes
/// to at least one block: what `decode_sst_layout` needs.
pub fn sst_layout_decodable(file: &[u8]) -> (r: bool)
    ensures
        r == layout_decodable(file@),
{
    let len = file.len();
    if len < 4 {
        return false;
    }
    let bloom_offset = get_u32_le(file, len - 4) as usize;
    if bloom_offset < 4 || bloom_offset > len - 4 {
        return false;
    }
    let meta_offset = get_u32_le(file, bloom_offset - 4) as usize;
    if meta_offset > bloom_offset - 4 {
        return false;
    }
    let section = slice_range(file, meta_offset, bloom_offset - 4);
    if !metas_decodable(section) {
        return false;
    }
    let count = get_u32_le(section, 0);
    proof {
        if count > 0 {
            assert(meta_in_bounds(section@, 4));
        }
    }
    count > 0
}

/// Decode the footer and the metadata of a table file.
pub fn decode_sst_layout(file: &[u8]) -> (r: SsTableLayout)
    requires
        layout_decodable(file@),
    ensures
        meta_views(r.block_meta@) == decoded_metas(layout_meta_section(file@)).unwrap(),
        r.block_meta_offset == layout_meta_offset(file@),
        r.bloom_offset == layout_bloom_offset(file@),
        r.first_key@ == r.block_meta@[0].first_key@,
        r.last_key@ == r.block_meta@.last().last_key@,
{
    let len = file.len();
    // Footer: the last u32 is the bloom filter offset; the meta
    // offset is stored in the u32 immediately before the bloom bytes.
    let bloom_offset = get_u32_le(file, len - OFFSET_ENCODED_LEN) as usize;
    let meta_offset = get_u32_le(file, bloom_offset - OFFSET_ENCODED_LEN) as usize;
    let raw_meta = slice_range(file, meta_offset, bloom_offset - OFFSET_ENCODED_LEN);
    let block_meta = BlockMeta::decode_block_meta(raw_meta);
    proof {
        assert(block_meta@.len() == meta_views(block_meta@).len());
    }
    let mut first_key: Vec<u8> = Vec::new();
    first_key.extend_from_slice(block_meta[0].first_key.as_slice());
    let mut last_key: Vec<u8> = Vec::new();
    last_key.extend_from_slice(block_meta[block_meta.len() - 1].last_key.as_slice());
    SsTableLayout {
        block_meta,
        block_meta_offset: meta_offset,
        bloom_offset,
        first_key,
        last_key,
    }
}

/// The byte range of block `block_idx` in a table file: from its offset to the next
/// block's offset, or to the metadata offset for the last block.
pub fn block_range(block_meta: &[BlockMeta], block_meta_offset: usize, block_idx: usize) -> (r: (usize, usize))
    requires
        block_idx < block_meta@.len(),
    ensures
        r.0 == block_meta@[block_idx as int].offset,
        r.1 == block_end(meta_views(block_meta@), block_meta_offset as nat, block_idx as int),
{
    let offset = block_meta[block_idx].offset;
    let offset_end = if block_idx == block_meta.len() - 1 {
        block_meta_offset
    } else {
        block_meta[block_idx + 1].offset
    };
    (offset, offset_end)
}

proof fn lemma_meta_records_len(ms: Seq<MetaView>)
    ensures
        meta_records(ms).len() >= 8 * ms.len(),
    decreases ms.len(),
{
    if ms.len() > 0 {
        lemma_meta_records_len(ms.drop_first());
    }
}

/// Reading a table image back: its footer leads to the metadata that was written,
/// to the start of the metadata section, and to the bloom filter bytes, for every
/// image that fits the `u32` offsets.
#[verifier::spinoff_prover]
#[verifier::rlimit(40)]
pub proof fn lemma_layout_roundtrip(blocks: Seq<u8>, metas: Seq<MetaView>, bloom: Seq<u8>)
    requires
        metas.len() > 0,
        forall|i: int|
            0 <= i < metas.len() ==> {
                &&& (#[trigger] metas[i]).0 <= blocks.len()
                &&& metas[i].1.len() <= u16::MAX
                &&& metas[i].2.len() <= u16::MAX
            },
        sst_image(blocks, metas, bloom).len() <= u32::MAX,
    ensures
        layout_decodable(sst_image(blocks, metas, bloom)),
        decoded_metas(layout_meta_section(sst_image(blocks, metas, bloom))) == Some(metas),
        layout_meta_offset(sst_image(blocks, metas, bloom)) == blocks.len(),
        layout_bloom(sst_image(blocks, metas, bloom)) == bloom,
{
    let s = sst_image(blocks, metas, bloom);
    let ms = encoded_metas(metas);
    lemma_meta_records_len(metas);
    assert(metas_fit(metas));
    let bo = blocks.len() + ms.len() + 4;
    lemma_le32_roundtrip(blocks + ms + le32(blocks.len() as u32) + bloom, bo as u32, Seq::empty());
    assert(s =~= blocks + ms + le32(blocks.len() as u32) + bloom + le32(bo as u32) + Seq::<u8>::empty());
    assert(layout_bloom_offset(s) == bo);
    lemma_le32_roundtrip(blocks + ms, blocks.len() as u32, bloom + le32(bo as u32));
    assert(s =~= blocks + ms + le32(blocks.len() as u32) + (bloom + le32(bo as u32)));
    assert(layout_meta_offset(s) == blocks.len());
    assert(layout_meta_section(s) =~= ms);
    lemma_decode_encode_metas(metas);
    assert(layout_bloom(s) =~= bloom);
}

} // verus!
