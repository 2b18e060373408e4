use vstd::prelude::*;

use super::{
    block_end, decoded_metas, metas_ordered, layout_bloom, layout_decodable, layout_meta_offset,
    layout_meta_section, lemma_layout_roundtrip, sst_image, BlockMeta, MetaView, meta_views,
};
use crate::block::builder::{encoded_size_of, entries_fit, offsets_fit};
use crate::block::{decodable, decoded_entries, lemma_encoded_entries, Block, BlockBuilder};
use crate::codec::{bytes_as_slice, get_u32_le, put_slice, put_u32_le, u32_at};
use crate::key::{key_le, keys_sorted, KvEntry};

verus! {

/// The 32-bit farmhash fingerprint of a byte string: stable across platforms and
/// library versions, a function of the bytes alone.
pub uninterp spec fn fingerprint32(key: Seq<u8>) -> u32;

/// The keys on which `farmhash::fingerprint32` finishes without an arithmetic
/// overflow. Its code adds a few words of the key with unchecked `+`, which panics
/// in a build that checks overflow: for keys of 5 to 12 bytes, the length plus the
/// first word, five times the length plus the last word, and 9 plus the word at 0
/// or 4; for keys of 13 to 24 bytes, the wrapped product of the middle word and
/// the constant `0xcc9e2d51`, plus the length. Other lengths use wrapping
/// arithmetic throughout.
pub open spec fn fingerprint_safe(key: Seq<u8>) -> bool {
    let n = key.len();
    if 5 <= n <= 12 {
        &&& u32_at(key, 0) + n <= u32::MAX
        &&& u32_at(key, n - 4) + 5 * n <= u32::MAX
        &&& u32_at(key, if n >= 8 { 4int } else { 0int }) + 9 <= u32::MAX
    } else if 13 <= n <= 24 {
        (u32_at(key, (n / 2) as int) * 0xcc9e2d51) % 0x1_0000_0000 + n <= u32::MAX
    } else {
        true
    }
}

/// Whether `farmhash::fingerprint32` finishes on `key` without an arithmetic overflow.
pub fn is_fingerprint_safe(key: &[u8]) -> (r: bool)
    ensures
        r == fingerprint_safe(key@),
{
    let n = key.len();
    if 5 <= n && n <= 12 {
        let w0 = get_u32_le(key, 0) as u64;
        let wl = get_u32_le(key, n - 4) as u64;
        let wm = get_u32_le(key, if n >= 8 { 4 } else { 0 }) as u64;
        w0 + (n as u64) <= 0xffff_ffff && wl + 5 * (n as u64) <= 0xffff_ffff && wm + 9 <= 0xffff_ffff
    } else if 13 <= n && n <= 24 {
        let d = get_u32_le(key, n / 2) as u64;
        assert(d * 0xcc9e2d51 <= 0xffff_ffff * 0xcc9e2d51) by (nonlinear_arith)
            requires
                d <= 0xffff_ffff,
        ;
        (d * 0xcc9e2d51) % 0x1_0000_0000 + (n as u64) <= 0xffff_ffff
    } else {
        true
    }
}

/// `farmhash::fingerprint32`: the fingerprint of `key`, for keys on which its
/// unchecked additions do not overflow.
#[verifier::external_body]
fn key_fingerprint(key: &[u8]) -> (r: u32)
    requires
        fingerprint_safe(key@),
    ensures
        r == fingerprint32(key@),
{
    farmhash::fingerprint32(key)
}

/// The encodings of the first `n` blocks, one after the other.
pub open spec fn blocks_bytes(blocks: Seq<Block>, n: nat) -> Seq<u8>
    decreases n,
{
    if n == 0 {
        Seq::empty()
    } else {
        blocks_bytes(blocks, (n - 1) as nat) + blocks[n - 1].encoded()
    }
}

/// The entries of the first `n` groups, one group after the other.
pub open spec fn flatten_entries(groups: Seq<Seq<KvEntry>>, n: nat) -> Seq<KvEntry>
    decreases n,
{
    if n == 0 {
        Seq::empty()
    } else {
        flatten_entries(groups, (n - 1) as nat) + groups[n - 1]
    }
}

/// The fingerprints of the keys of `es`, in order.
pub open spec fn key_fingerprints(es: Seq<KvEntry>) -> Seq<u32> {
    Seq::new(es.len(), |i: int| fingerprint32(es[i].0))
}

/// The cut blocks agree with their entries and their metadata: each holds at
/// least one entry, its metadata gives its offset in the data and its first and
/// last keys, and, when every record of the block starts within `u16` range, the
/// block holds exactly its entries.
pub open spec fn blocks_consistent(
    bs: Seq<Block>,
    gs: Seq<Seq<KvEntry>>,
    meta: Seq<BlockMeta>,
) -> bool {
    forall|i: int|
        0 <= i < gs.len() ==> {
            &&& (#[trigger] gs[i]).len() > 0
            &&& entries_fit(gs[i])
            &&& meta[i].offset == blocks_bytes(bs, i as nat).len()
            &&& meta[i].first_key@ == gs[i][0].0
            &&& meta[i].last_key@ == gs[i].last().0
            &&& (offsets_fit(gs[i]) ==> bs[i].wf() && bs[i].anchored() && bs[i].entries() == gs[i])
        }
}

/// The metadata names the first and last key of each block of entries, and every
/// block starts before the metadata section.
pub open spec fn metas_describe(gs: Seq<Seq<KvEntry>>, metas: Seq<MetaView>, meta_offset: nat) -> bool {
    &&& metas.len() == gs.len()
    &&& forall|i: int|
        0 <= i < gs.len() ==> {
            &&& (#[trigger] metas[i]).1 == gs[i][0].0
            &&& metas[i].2 == gs[i].last().0
            &&& metas[i].0 <= meta_offset
        }
}

/// When the image fits the `u32` offsets, its footer leads back to the metadata,
/// to the start of the metadata section, and to the bloom filter.
pub open spec fn footer_reads_back(metas: Seq<MetaView>, meta_offset: nat, image: Seq<u8>, bloom: Seq<u8>) -> bool {
    image.len() <= u32::MAX ==> {
        &&& layout_decodable(image)
        &&& decoded_metas(layout_meta_section(image)) == Some(metas)
        &&& layout_meta_offset(image) == meta_offset
        &&& layout_bloom(image) == bloom
    }
}

/// Each block's byte range, from its offset to the next block's (or to the
/// metadata for the last one), decodes to the entries of that block, for every
/// block whose records all start within `u16` range.
pub open spec fn blocks_read_back(gs: Seq<Seq<KvEntry>>, metas: Seq<MetaView>, meta_offset: nat, image: Seq<u8>) -> bool {
    forall|i: int|
        0 <= i < gs.len() && offsets_fit(gs[i]) ==> {
            let lo = (#[trigger] metas[i]).0 as int;
            let hi = block_end(metas, meta_offset, i) as int;
            &&& lo <= hi <= meta_offset
            &&& decodable(image.subrange(lo, hi))
            &&& decoded_entries(image.subrange(lo, hi)) == gs[i]
        }
}

/// What reading back a table image gives: the metadata (`metas`, with the metadata
/// section at `meta_offset`) describes the blocks of entries `gs`; the image is
/// the blocks, then the metadata, the bloom filter `bloom` and the footer; the
/// footer leads back; and each block whose records start within `u16` range
/// decodes to its entries (every block, for a target block size of at most 64 KiB).
pub open spec fn table_reads_back(
    gs: Seq<Seq<KvEntry>>,
    metas: Seq<MetaView>,
    meta_offset: nat,
    image: Seq<u8>,
    bloom: Seq<u8>,
) -> bool {
    &&& metas_describe(gs, metas, meta_offset)
    &&& meta_offset <= image.len()
    &&& image == sst_image(image.take(meta_offset as int), metas, bloom)
    &&& footer_reads_back(metas, meta_offset, image, bloom)
    &&& blocks_read_back(gs, metas, meta_offset, image)
}

/// A table laid out by the builder: the bytes to write to its file, and the
/// metadata the table keeps in memory.
pub struct EncodedSsTable {
    /// The table's bytes: blocks, metadata, metadata offset, bloom filter, bloom offset.
    pub data: Vec<u8>,
    /// The meta blocks that hold info for data blocks.
    pub block_meta: Vec<BlockMeta>,
    /// The offset that indicates the start point of meta blocks in `data`.
    pub block_meta_offset: usize,
    pub first_key: Vec<u8>,
    pub last_key: Vec<u8>,
}

/// Builds an SSTable from key-value pairs.
pub struct SsTableBuilder {
    builder: BlockBuilder,
    first_key: Vec<u8>,
    last_key: Vec<u8>,
    data: Vec<u8>,
    pub(crate) meta: Vec<BlockMeta>,
    block_size: usize,
    /// One 32-bit hash per key added, in add order — input to the bloom filter.
    key_hashes: Vec<u32>,
    /// The blocks cut so far.
    blocks: Ghost<Seq<Block>>,
    /// The entries of each block cut so far.
    groups: Ghost<Seq<Seq<KvEntry>>>,
}

impl SsTableBuilder {
    /// Every entry added so far, in order.
    pub closed spec fn view(&self) -> Seq<KvEntry> {
        flatten_entries(self.groups@, self.groups@.len()) + self.builder@
    }

    /// The entries of each block that has been cut, in order.
    pub closed spec fn cut_groups(&self) -> Seq<Seq<KvEntry>> {
        self.groups@
    }

    /// The entries of the block being filled.
    pub closed spec fn pending(&self) -> Seq<KvEntry> {
        self.builder@
    }

    /// The blocks that have been cut.
    pub closed spec fn cut_blocks(&self) -> Seq<Block> {
        self.blocks@
    }

    /// The target block size given at creation.
    pub closed spec fn target_block_size(&self) -> nat {
        self.block_size as nat
    }

    /// The encoded blocks cut so far.
    pub closed spec fn data_view(&self) -> Seq<u8> {
        self.data@
    }

    /// The metadata of the blocks cut so far.
    pub closed spec fn meta_view(&self) -> Seq<MetaView> {
        meta_views(self.meta@)
    }

    /// The key fingerprints gathered so far.
    pub closed spec fn hashes(&self) -> Seq<u32> {
        self.key_hashes@
    }

    /// The builder is consistent and every key added has its fingerprint.
    pub closed spec fn wf(&self) -> bool {
        &&& self.layout_wf()
        &&& self.key_hashes@ == key_fingerprints(self.view())
        &&& (self.groups@.len() > 0 ==> self.builder@.len() > 0)
    }

    /// The cut blocks, their encodings and their metadata agree with the entries added.
    pub closed spec fn layout_wf(&self) -> bool {
        let bs = self.blocks@;
        let gs = self.groups@;
        let all = self.view();
        &&& self.builder.wf()
        &&& self.builder.target_size() == self.block_size
        &&& bs.len() == gs.len()
        &&& self.meta@.len() == gs.len()
        &&& self.data@ == blocks_bytes(bs, bs.len())
        &&& blocks_consistent(bs, gs, self.meta@)
        &&& (self.builder@.len() > 0 ==> self.first_key@ == self.builder@[0].0)
        &&& (self.builder@.len() == 0 ==> self.first_key@.len() == 0)
        &&& (all.len() > 0 ==> self.last_key@ == all.last().0)
        &&& (all.len() == 0 ==> gs.len() == 0)
        &&& keys_sorted(all)
    }

    /// Create a builder based on target block size.
    pub fn new(block_size: usize) -> (r: Self)
        ensures
            r.wf(),
            r@ == Seq::<KvEntry>::empty(),
            r.target_block_size() == block_size,
            r.data_view().len() == 0,
    {
        let r = Self {
            builder: BlockBuilder::new(block_size),
            first_key: Vec::new(),
            last_key: Vec::new(),
            data: Vec::new(),
            meta: Vec::new(),
            block_size,
            key_hashes: Vec::new(),
            blocks: Ghost(Seq::empty()),
            groups: Ghost(Seq::empty()),
        };
        proof {
            assert(r@ =~= Seq::<KvEntry>::empty());
            assert(r.key_hashes@ =~= key_fingerprints(r@));
        }
        r
    }

    /// Cut the current block: encode it into `data` and record its meta.
    ///
    /// The meta's `offset` is the length of `data` BEFORE appending — exactly
    /// where this block's bytes land in the final file.
    fn finish_block(&mut self)
        requires
            old(self).layout_wf(),
            old(self).pending().len() > 0,
        ensures
            final(self).layout_wf(),
            final(self).hashes() == old(self).hashes(),
            final(self)@ == old(self)@,
            final(self).pending().len() == 0,
            final(self).cut_groups() == old(self).cut_groups().push(old(self).pending()),
            final(self).target_block_size() == old(self).target_block_size(),
            old(self).data_view().len() < final(self).data_view().len(),
            old(self).data_view() == final(self).data_view().take(old(self).data_view().len() as int),
            final(self).cut_blocks().len() == old(self).cut_blocks().len() + 1,
            final(self).cut_blocks().drop_last() == old(self).cut_blocks(),
            final(self).data_view() == old(self).data_view() + final(self).cut_blocks().last().encoded(),
    {
        let ghost old_all = self.view();
        let ghost old_data = self.data@;
        let ghost group = self.builder@;
        proof {
            self.builder.lemma_entries_fit();
            assert(old_all.last() == group.last());
        }
        let mut builder = BlockBuilder::new(self.block_size);
        std::mem::swap(&mut builder, &mut self.builder);
        let block = builder.build();
        let ghost gb = block;
        let mut first_key: Vec<u8> = Vec::new();
        first_key.extend_from_slice(self.first_key.as_slice());
        let mut last_key: Vec<u8> = Vec::new();
        last_key.extend_from_slice(self.last_key.as_slice());
        self.meta.push(BlockMeta { offset: self.data.len(), first_key, last_key });
        let encoded = block.encode();
        self.data.extend_from_slice(bytes_as_slice(&encoded));
        assert(old_data =~= self.data@.take(old_data.len() as int));
        assert(self.data@ =~= old_data + gb.encoded());
        assert(self.data@.len() == old_data.len() + gb.encoded().len());
        self.first_key.clear();
        let ghost old_bs = self.blocks@;
        let ghost old_gs = self.groups@;
        self.blocks = Ghost(old_bs.push(gb));
        self.groups = Ghost(old_gs.push(group));
        proof {
            let bs = self.blocks@;
            let gs = self.groups@;
            let n = old_gs.len();
            assert(flatten_entries(gs, gs.len()) == flatten_entries(gs, n) + group);
            lemma_flatten_push(old_gs, group);
            lemma_blocks_bytes_push(old_bs, gb);
            assert(self.view() =~= old_all);
            assert(group.last() == old_all.last());
            assert forall|i: int| 0 <= i < gs.len() implies {
                &&& (#[trigger] gs[i]).len() > 0
                &&& entries_fit(gs[i])
                &&& self.meta@[i].offset == blocks_bytes(bs, i as nat).len()
                &&& self.meta@[i].first_key@ == gs[i][0].0
                &&& self.meta@[i].last_key@ == gs[i].last().0
                &&& (offsets_fit(gs[i]) ==> bs[i].wf() && bs[i].anchored() && bs[i].entries() == gs[i])
            } by {
                if i < n {
                    assert(gs[i] == old_gs[i]);
                    assert(bs[i] == old_bs[i]);
                    assert(self.meta@[i] == old(self).meta@[i]);
                } else {
                    assert(gs[i] == group);
                    assert(bs[i] == gb);
                }
            }
            assert(self.builder@.len() == 0);
            let all = self.view();
            assert(self.builder.wf());
            assert(self.builder.target_size() == self.block_size);
            assert(self.data@ == blocks_bytes(bs, bs.len()));
            assert(self.builder@.len() == 0 ==> self.first_key@.len() == 0);
            assert(all.len() > 0 ==> self.last_key@ == all.last().0);
            assert(all.len() == 0 ==> gs.len() == 0);
            assert(keys_sorted(all));
        }
    }

    /// Adds a key-value pair to SSTable.
    ///
    /// Keys come in sorted order; when the current block is full it is cut and the
    /// pair starts a new block.
    pub fn add(&mut self, key: &[u8], value: &[u8])
        requires
            old(self).wf(),
            0 < key@.len() <= u16::MAX,
            value@.len() <= u16::MAX,
            old(self)@.len() > 0 ==> key_le(old(self)@.last().0, key@),
            fingerprint_safe(key@),
        ensures
            final(self).wf(),
            final(self)@ == old(self)@.push((key@, value@)),
            final(self).target_block_size() == old(self).target_block_size(),
            final(self).hashes() == old(self).hashes().push(fingerprint32(key@)),
            old(self).data_view() == final(self).data_view().take(old(self).data_view().len() as int),
            old(self).data_view().len() <= final(self).data_view().len(),
            ({
                let cut = old(self).pending().len() > 0 && encoded_size_of(old(self).pending()) + 6
                    + key@.len() + value@.len() > old(self).target_block_size();
                &&& cut ==> final(self).cut_blocks().len() == old(self).cut_blocks().len() + 1
                    && final(self).cut_blocks().drop_last() == old(self).cut_blocks()
                    && final(self).cut_groups() == old(self).cut_groups().push(old(self).pending())
                    && final(self).data_view() == old(self).data_view()
                    + final(self).cut_blocks().last().encoded()
                &&& !cut ==> final(self).cut_blocks() == old(self).cut_blocks()
                    && final(self).cut_groups() == old(self).cut_groups()
                    && final(self).data_view() == old(self).data_view()
            }),
    {
        let ghost old_all = self.view();
        // Hash now so build can construct the bloom filter with no second pass.
        let h = key_fingerprint(key);
        self.key_hashes.push(h);
        let ghost old_pending = self.builder@;
        proof {
            self.builder.lemma_entries_fit();
            if old_pending.len() > 0 {
                assert(0 < old_pending[0].0.len());
            }
        }
        if self.builder.add(key, value) {
            if self.first_key.len() == 0 {
                self.first_key.extend_from_slice(key);
                assert(old_pending.len() == 0);
                assert(self.builder@[0] == old_pending.push((key@, value@))[0]);
            } else {
                assert(old_pending.len() > 0);
                assert(self.builder@[0] == old_pending[0]);
            }
        } else {
            // Current block is full. Cut it, then place the key in a fresh
            // block — always succeeds (fresh-block first-entry carve-out).
            self.finish_block();
            let added = self.builder.add(key, value);
            assert(added);
            self.first_key.extend_from_slice(key);
        }
        self.last_key.clear();
        self.last_key.extend_from_slice(key);
        proof {
            let gs = self.groups@;
            let all = self.view();
            assert(all =~= old_all.push((key@, value@)));
            assert(self.key_hashes@ =~= key_fingerprints(all));
            let bs = self.blocks@;
            assert(self.builder.wf());
            assert(self.builder.target_size() == self.block_size);
            assert(self.data@ == blocks_bytes(bs, bs.len()));
            assert(self.builder@.len() > 0 ==> self.first_key@ == self.builder@[0].0);
            assert(self.builder@.len() == 0 ==> self.first_key@.len() == 0);
            assert(all.len() > 0 ==> self.last_key@ == all.last().0);
            assert(all.len() == 0 ==> gs.len() == 0);
            assert(bs.len() == gs.len());
            assert(self.meta@.len() == gs.len());
            assert(forall|i: int| 0 <= i < gs.len() ==> (#[trigger] gs[i]).len() > 0);
            assert(forall|i: int| 0 <= i < gs.len() ==> entries_fit(#[trigger] gs[i]));
            assert(forall|i: int| 0 <= i < gs.len() && (#[trigger] gs[i]).len() > 0 ==> self.meta@[i].offset == blocks_bytes(bs, i as nat).len());
            assert(forall|i: int| 0 <= i < gs.len() && (#[trigger] gs[i]).len() > 0 ==> (offsets_fit(gs[i]) ==> bs[i].wf() && bs[i].anchored() && bs[i].entries() == gs[i]));
            assert(forall|i: int| 0 <= i < gs.len() ==> self.meta@[i].first_key@ == (#[trigger] gs[i])[0].0);
            assert(forall|i: int| 0 <= i < gs.len() ==> self.meta@[i].last_key@ == (#[trigger] gs[i]).last().0);
            assert(keys_sorted(all)) by {
                assert forall|i: int, j: int| 0 <= i <= j < all.len() implies key_le(#[trigger] all[i].0, #[trigger] all[j].0) by {
                    if j == all.len() - 1 && i < j {
                        assert(key_le(old_all[i].0, old_all.last().0));
                        crate::key::lemma_key_order(all[i].0, old_all.last().0, key@);
                    } else if i < j {
                        assert(all[i] == old_all[i]);
                        assert(all[j] == old_all[j]);
                    }
                }
            }
            assert(self.layout_wf());
        }
    }

    /// The entries of each block the table holds once built: the blocks cut so far,
    /// then the pending block if it holds anything.
    pub closed spec fn final_groups(&self) -> Seq<Seq<KvEntry>> {
        if self.builder@.len() > 0 {
            self.groups@.push(self.builder@)
        } else {
            self.groups@
        }
    }

    /// The fingerprint of every key added, in order: what the bloom filter is built from.
    pub fn key_hashes(&self) -> (r: &[u32])
        requires
            self.wf(),
        ensures
            r@ == self.hashes(),
            r@ == key_fingerprints(self@),
    {
        self.key_hashes.as_slice()
    }

    /// Lays the table out: cuts the last block, then appends the block metadata, its
    /// offset, the encoded bloom filter and its offset.
    ///
    /// Reading it back, each block's byte range (from its offset to the next
    /// block's, or to the metadata for the last) decodes to the entries of that
    /// block whenever the block's records start within `u16` range (always so for a
    /// target block size of at most 64 KiB), and the blocks in order hold every
    /// entry added; the footer leads back when the table fits the `u32` offsets. The
    /// first block starts at offset 0 and the block offsets strictly increase.
    #[verifier::spinoff_prover]
    #[verifier::rlimit(60)]
    pub fn build(self, bloom: &[u8]) -> (r: EncodedSsTable)
        requires
            self.wf(),
            self@.len() > 0,
        ensures
            self.final_groups().len() > 0,
            flatten_entries(self.final_groups(), self.final_groups().len()) == self@,
            r.first_key@ == self.final_groups()[0][0].0,
            r.last_key@ == self.final_groups().last().last().0,
            metas_ordered(r.block_meta@),
            table_reads_back(
                self.final_groups(),
                meta_views(r.block_meta@),
                r.block_meta_offset as nat,
                r.data@,
                bloom@,
            ),
            r.block_meta@[0].offset == 0,
            forall|i: int| 0 <= i < self.final_groups().len() ==> (#[trigger] self.final_groups()[i]).len() > 0,
            forall|i: int|
                0 <= i < r.block_meta@.len() ==> #[trigger] r.block_meta@[i].offset < r.block_meta_offset,
            forall|i: int, j: int|
                0 <= i < j < r.block_meta@.len() ==> #[trigger] r.block_meta@[i].offset
                    < #[trigger] r.block_meta@[j].offset,
    {
        let ghost gs = self.final_groups();
        let ghost all = self@;
        let mut this = self;
        this.finish_block();
        let ghost bs = this.blocks@;
        proof {
            assert(this.groups@ == gs);
            assert(flatten_entries(gs, gs.len()) =~= all);
            assert forall|i: int| 0 <= i < gs.len() implies {
                &&& (#[trigger] gs[i]).len() > 0
                &&& this.meta@[i].first_key@ == gs[i][0].0
                &&& this.meta@[i].last_key@ == gs[i].last().0
            } by {
                assert(blocks_consistent(bs, gs, this.meta@));
            }
            lemma_metas_ordered(gs, this.meta@);
        }
        let mut buf = this.data;
        // Footer: metadata | meta_offset | bloom | bloom_offset.
        let meta_offset = buf.len();
        BlockMeta::encode_block_meta(this.meta.as_slice(), &mut buf);
        put_u32_le(&mut buf, meta_offset as u32);
        let bloom_offset = buf.len();
        put_slice(&mut buf, bloom);
        put_u32_le(&mut buf, bloom_offset as u32);
        let mut first_key: Vec<u8> = Vec::new();
        first_key.extend_from_slice(this.meta[0].first_key.as_slice());
        let n = this.meta.len();
        let mut last_key: Vec<u8> = Vec::new();
        last_key.extend_from_slice(this.meta[n - 1].last_key.as_slice());
        let r = EncodedSsTable {
            data: buf,
            block_meta: this.meta,
            block_meta_offset: meta_offset,
            first_key,
            last_key,
        };
        proof {
            let data = blocks_bytes(bs, bs.len());
            assert(r.data@ =~= sst_image(data, meta_views(r.block_meta@), bloom@));
            assert(r.block_meta@[0]@ == meta_views(r.block_meta@)[0]);
            lemma_table_reads_back(bs, gs, r.block_meta@, bloom@, r.data@);
            lemma_block_offsets(bs, gs, r.block_meta@);
        }
        r
    }

    /// Get the estimated size of the SSTable.
    ///
    /// Since the data blocks contain much more data than meta blocks, just return the size of data
    /// blocks here.
    pub fn estimated_size(&self) -> (r: usize)
        requires
            self.wf(),
        ensures
            r == self.data_view().len(),
    {
        self.data.len()
    }
}

/// Block `i` of a table image: its range lies in the data section and decodes to
/// the block's entries.
proof fn lemma_image_block(
    bs: Seq<Block>,
    meta: Seq<BlockMeta>,
    data: Seq<u8>,
    image: Seq<u8>,
    i: int,
)
    requires
        0 <= i < bs.len(),
        meta.len() == bs.len(),
        data == blocks_bytes(bs, bs.len()),
        image.take(data.len() as int) == data,
        data.len() <= image.len(),
        meta[i].offset == blocks_bytes(bs, i as nat).len(),
        i + 1 < bs.len() ==> meta[i + 1].offset == blocks_bytes(bs, (i + 1) as nat).len(),
        bs[i].wf(),
        bs[i].anchored(),
    ensures
        ({
            let lo = meta_views(meta)[i].0 as int;
            let hi = block_end(meta_views(meta), data.len(), i) as int;
            &&& lo <= hi <= data.len()
            &&& decodable(image.subrange(lo, hi))
            &&& decoded_entries(image.subrange(lo, hi)) == bs[i].entries()
        }),
{
    let metas = meta_views(meta);
    lemma_blocks_bytes_split(bs, bs.len(), i);
    let lo = blocks_bytes(bs, i as nat).len() as int;
    let hi = blocks_bytes(bs, (i + 1) as nat).len() as int;
    assert(metas[i] == meta[i]@);
    if i + 1 < bs.len() {
        assert(metas[i + 1] == meta[i + 1]@);
    }
    assert(block_end(metas, data.len(), i) == hi);
    assert(image.subrange(lo, hi) =~= data.subrange(lo, hi)) by {
        assert forall|j: int| 0 <= j < hi - lo implies #[trigger] image.subrange(lo, hi)[j]
            == data.subrange(lo, hi)[j] by {
            assert(image.take(data.len() as int)[lo + j] == image[lo + j]);
        }
    }
    lemma_encoded_entries(bs[i]);
}

proof fn lemma_image_prefix(data: Seq<u8>, metas: Seq<MetaView>, bloom: Seq<u8>)
    ensures
        sst_image(data, metas, bloom).take(data.len() as int) == data,
        data.len() <= sst_image(data, metas, bloom).len(),
{
    assert(sst_image(data, metas, bloom).take(data.len() as int) =~= data);
}

proof fn lemma_table_metas(bs: Seq<Block>, gs: Seq<Seq<KvEntry>>, meta: Seq<BlockMeta>)
    requires
        bs.len() == gs.len(),
        meta.len() == gs.len(),
        blocks_consistent(bs, gs, meta),
    ensures
        metas_describe(gs, meta_views(meta), blocks_bytes(bs, bs.len()).len()),
        forall|i: int|
            0 <= i < gs.len() ==> {
                &&& (#[trigger] meta_views(meta)[i]).0 <= blocks_bytes(bs, bs.len()).len()
                &&& meta_views(meta)[i].1.len() <= u16::MAX
                &&& meta_views(meta)[i].2.len() <= u16::MAX
            },
{
    let metas = meta_views(meta);
    assert forall|i: int| 0 <= i < gs.len() implies {
        &&& (#[trigger] metas[i]).1 == gs[i][0].0
        &&& metas[i].2 == gs[i].last().0
        &&& metas[i].0 <= blocks_bytes(bs, bs.len()).len()
        &&& metas[i].1.len() <= u16::MAX
        &&& metas[i].2.len() <= u16::MAX
    } by {
        assert(gs[i].len() > 0);
        lemma_blocks_bytes_split(bs, bs.len(), i);
        assert(metas[i] == meta[i]@);
        assert(entries_fit(gs[i]));
        assert(0 < gs[i][0].0.len() <= u16::MAX);
        assert(0 < gs[i][gs[i].len() - 1].0.len() <= u16::MAX);
    }
}

proof fn lemma_table_blocks(
    bs: Seq<Block>,
    gs: Seq<Seq<KvEntry>>,
    meta: Seq<BlockMeta>,
    image: Seq<u8>,
)
    requires
        bs.len() == gs.len(),
        meta.len() == gs.len(),
        blocks_consistent(bs, gs, meta),
        image.take(blocks_bytes(bs, bs.len()).len() as int) == blocks_bytes(bs, bs.len()),
        blocks_bytes(bs, bs.len()).len() <= image.len(),
    ensures
        blocks_read_back(gs, meta_views(meta), blocks_bytes(bs, bs.len()).len(), image),
{
    let data = blocks_bytes(bs, bs.len());
    let metas = meta_views(meta);
    assert forall|i: int| 0 <= i < gs.len() && offsets_fit(gs[i]) implies {
        let lo = (#[trigger] metas[i]).0 as int;
        let hi = block_end(metas, data.len(), i) as int;
        &&& lo <= hi <= data.len()
        &&& decodable(image.subrange(lo, hi))
        &&& decoded_entries(image.subrange(lo, hi)) == gs[i]
    } by {
        assert(gs[i].len() > 0);
        if i + 1 < gs.len() {
            assert(gs[i + 1].len() > 0);
        }
        lemma_image_block(bs, meta, data, image, i);
    }
}

proof fn lemma_table_reads_back(
    bs: Seq<Block>,
    gs: Seq<Seq<KvEntry>>,
    meta: Seq<BlockMeta>,
    bloom: Seq<u8>,
    image: Seq<u8>,
)
    requires
        gs.len() > 0,
        bs.len() == gs.len(),
        meta.len() == gs.len(),
        blocks_consistent(bs, gs, meta),
        image == sst_image(blocks_bytes(bs, bs.len()), meta_views(meta), bloom),
    ensures
        table_reads_back(gs, meta_views(meta), blocks_bytes(bs, bs.len()).len(), image, bloom),
{
    let metas = meta_views(meta);
    let data = blocks_bytes(bs, bs.len());
    lemma_image_prefix(data, metas, bloom);
    lemma_table_metas(bs, gs, meta);
    if image.len() <= u32::MAX {
        lemma_layout_roundtrip(data, metas, bloom);
    }
    lemma_table_blocks(bs, gs, meta, image);
}

proof fn lemma_blocks_bytes_split(bs: Seq<Block>, n: nat, i: int)
    requires
        0 <= i < n <= bs.len(),
    ensures
        blocks_bytes(bs, i as nat).len() <= blocks_bytes(bs, (i + 1) as nat).len() <= blocks_bytes(bs, n).len(),
        blocks_bytes(bs, n).subrange(
            blocks_bytes(bs, i as nat).len() as int,
            blocks_bytes(bs, (i + 1) as nat).len() as int,
        ) == bs[i].encoded(),
    decreases n,
{
    let lo = blocks_bytes(bs, i as nat).len() as int;
    let hi = blocks_bytes(bs, (i + 1) as nat).len() as int;
    if n == i + 1 {
        assert(blocks_bytes(bs, n) == blocks_bytes(bs, i as nat) + bs[i].encoded());
        assert(blocks_bytes(bs, n).subrange(lo, hi) =~= bs[i].encoded());
    } else {
        lemma_blocks_bytes_split(bs, (n - 1) as nat, i);
        let p = blocks_bytes(bs, (n - 1) as nat);
        assert(blocks_bytes(bs, n) == p + bs[n - 1].encoded());
        assert(blocks_bytes(bs, n).subrange(lo, hi) =~= p.subrange(lo, hi));
    }
}

proof fn lemma_flatten_push(gs: Seq<Seq<KvEntry>>, g: Seq<KvEntry>)
    ensures
        flatten_entries(gs.push(g), gs.len() + 1) == flatten_entries(gs, gs.len()) + g,
        forall|i: nat| i <= gs.len() ==> #[trigger] flatten_entries(gs.push(g), i) == flatten_entries(gs, i),
{
    lemma_flatten_prefix(gs, gs.push(g), gs.len());
    assert(gs.push(g)[gs.len() as int] == g);
    assert forall|i: nat| i <= gs.len() implies #[trigger] flatten_entries(gs.push(g), i) == flatten_entries(gs, i) by {
        lemma_flatten_prefix(gs, gs.push(g), i);
    }
}

proof fn lemma_flatten_prefix(a: Seq<Seq<KvEntry>>, b: Seq<Seq<KvEntry>>, i: nat)
    requires
        i <= a.len(),
        i <= b.len(),
        forall|j: int| 0 <= j < i ==> a[j] == b[j],
    ensures
        flatten_entries(a, i) == flatten_entries(b, i),
    decreases i,
{
    if i > 0 {
        lemma_flatten_prefix(a, b, (i - 1) as nat);
    }
}

proof fn lemma_blocks_bytes_push(bs: Seq<Block>, b: Block)
    ensures
        blocks_bytes(bs.push(b), bs.len() + 1) == blocks_bytes(bs, bs.len()) + b.encoded(),
        forall|i: nat| i <= bs.len() ==> #[trigger] blocks_bytes(bs.push(b), i) == blocks_bytes(bs, i),
{
    lemma_blocks_bytes_prefix(bs, bs.push(b), bs.len());
    assert(bs.push(b)[bs.len() as int] == b);
    assert forall|i: nat| i <= bs.len() implies #[trigger] blocks_bytes(bs.push(b), i) == blocks_bytes(bs, i) by {
        lemma_blocks_bytes_prefix(bs, bs.push(b), i);
    }
}

proof fn lemma_blocks_bytes_prefix(a: Seq<Block>, b: Seq<Block>, i: nat)
    requires
        i <= a.len(),
        i <= b.len(),
        forall|j: int| 0 <= j < i ==> a[j] == b[j],
    ensures
        blocks_bytes(a, i) == blocks_bytes(b, i),
    decreases i,
{
    if i > 0 {
        lemma_blocks_bytes_prefix(a, b, (i - 1) as nat);
    }
}

} // verus!

verus! {

/// When every entry of the first `n` groups has a key not above `x`, so has every
/// entry of each of those groups.
proof fn lemma_flatten_bounded(gs: Seq<Seq<KvEntry>>, n: nat, x: Seq<u8>)
    requires
        n <= gs.len(),
        forall|t: int|
            0 <= t < flatten_entries(gs, n).len() ==> key_le(#[trigger] flatten_entries(gs, n)[t].0, x),
    ensures
        forall|i: int, k: int| 0 <= i < n && 0 <= k < gs[i].len() ==> key_le(#[trigger] gs[i][k].0, x),
    decreases n,
{
    if n > 0 {
        let a = flatten_entries(gs, (n - 1) as nat);
        let b = gs[n - 1];
        assert(flatten_entries(gs, n) == a + b);
        assert forall|t: int| 0 <= t < a.len() implies key_le(#[trigger] a[t].0, x) by {
            assert(flatten_entries(gs, n)[t] == a[t]);
        }
        lemma_flatten_bounded(gs, (n - 1) as nat, x);
        assert forall|i: int, k: int| 0 <= i < n && 0 <= k < gs[i].len() implies key_le(#[trigger] gs[i][k].0, x) by {
            if i == n - 1 {
                assert(flatten_entries(gs, n)[a.len() + k] == b[k]);
            }
        }
    }
}

/// When the entries of the first `n` groups, one group after the other, are in key
/// order and no group is empty, the groups' key ranges are in order: each group's
/// first key is not above its last, and no group's last key is above a later
/// group's first key.
proof fn lemma_groups_ordered(gs: Seq<Seq<KvEntry>>, n: nat)
    requires
        n <= gs.len(),
        keys_sorted(flatten_entries(gs, n)),
        forall|i: int| 0 <= i < n ==> (#[trigger] gs[i]).len() > 0,
    ensures
        forall|i: int| 0 <= i < n ==> key_le((#[trigger] gs[i])[0].0, gs[i].last().0),
        forall|i: int, j: int|
            0 <= i < j < n ==> key_le((#[trigger] gs[i]).last().0, (#[trigger] gs[j])[0].0),
    decreases n,
{
    if n > 0 {
        let f = flatten_entries(gs, n);
        let a = flatten_entries(gs, (n - 1) as nat);
        let b = gs[n - 1];
        assert(f == a + b);
        assert forall|i: int, j: int| 0 <= i <= j < a.len() implies key_le(#[trigger] a[i].0, #[trigger] a[j].0) by {
            assert(f[i] == a[i] && f[j] == a[j]);
        }
        lemma_groups_ordered(gs, (n - 1) as nat);
        assert(f[a.len() as int] == b[0]);
        assert(f[a.len() + b.len() - 1] == b.last());
        assert forall|t: int| 0 <= t < a.len() implies key_le(#[trigger] a[t].0, b[0].0) by {
            assert(f[t] == a[t]);
        }
        lemma_flatten_bounded(gs, (n - 1) as nat, b[0].0);
        assert forall|i: int, j: int| 0 <= i < j < n implies key_le((#[trigger] gs[i]).last().0, (#[trigger] gs[j])[0].0) by {
            if j == n - 1 {
                assert(gs[i].last() == gs[i][gs[i].len() - 1]);
            }
        }
    }
}

/// The metadata of blocks cut from sorted entries is in table order.
proof fn lemma_metas_ordered(gs: Seq<Seq<KvEntry>>, meta: Seq<BlockMeta>)
    requires
        meta.len() == gs.len(),
        keys_sorted(flatten_entries(gs, gs.len())),
        forall|i: int|
            0 <= i < gs.len() ==> {
                &&& (#[trigger] gs[i]).len() > 0
                &&& meta[i].first_key@ == gs[i][0].0
                &&& meta[i].last_key@ == gs[i].last().0
            },
    ensures
        metas_ordered(meta),
{
    lemma_groups_ordered(gs, gs.len());
    assert forall|i: int| 0 <= i < meta.len() implies key_le((#[trigger] meta[i]).first_key@, meta[i].last_key@) by {
        assert(gs[i].len() > 0);
    }
    assert forall|i: int, j: int| 0 <= i < j < meta.len() implies key_le(#[trigger] meta[i].last_key@, #[trigger] meta[j].first_key@) by {
        assert(gs[i].len() > 0 && gs[j].len() > 0);
    }
}

/// Each encoded block takes at least two bytes, so the blocks' start positions
/// strictly increase.
proof fn lemma_blocks_bytes_grow(bs: Seq<Block>, i: nat, j: nat)
    requires
        i < j <= bs.len(),
    ensures
        blocks_bytes(bs, i).len() < blocks_bytes(bs, j).len(),
    decreases j,
{
    assert(bs[j - 1].encoded().len() >= 2);
    if i < j - 1 {
        lemma_blocks_bytes_grow(bs, i, (j - 1) as nat);
    }
}

/// The metadata of the cut blocks starts at offset 0 and its offsets strictly increase.
proof fn lemma_block_offsets(bs: Seq<Block>, gs: Seq<Seq<KvEntry>>, meta: Seq<BlockMeta>)
    requires
        gs.len() > 0,
        bs.len() == gs.len(),
        meta.len() == gs.len(),
        blocks_consistent(bs, gs, meta),
    ensures
        meta[0].offset == 0,
        forall|i: int, j: int| 0 <= i < j < meta.len() ==> #[trigger] meta[i].offset < #[trigger] meta[j].offset,
        forall|i: int| 0 <= i < meta.len() ==> #[trigger] meta[i].offset < blocks_bytes(bs, bs.len()).len(),
        forall|i: int| 0 <= i < gs.len() ==> (#[trigger] gs[i]).len() > 0,
{
    assert(gs[0].len() > 0);
    assert forall|i: int| 0 <= i < meta.len() implies #[trigger] meta[i].offset < blocks_bytes(bs, bs.len()).len() by {
        assert(gs[i].len() > 0);
        lemma_blocks_bytes_grow(bs, i as nat, bs.len());
    }
    assert forall|i: int, j: int| 0 <= i < j < meta.len() implies #[trigger] meta[i].offset < #[trigger] meta[j].offset by {
        assert(gs[i].len() > 0 && gs[j].len() > 0);
        lemma_blocks_bytes_grow(bs, i as nat, j as nat);
    }
}

} // verus!
