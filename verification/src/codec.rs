//! Little-endian integers in byte strings, written and read through the
//! `bytes` crate's `BufMut` and `Buf` traits, and the `Bytes` buffers that
//! encoded blocks are handed out in.
use vstd::prelude::*;

verus! {

/// `bytes::Bytes`: a shared, immutable byte buffer.
#[verifier::external_type_specification]
#[verifier::external_body]
pub struct ExBytes(bytes::Bytes);

/// The bytes that a `Bytes` buffer holds, in order.
pub uninterp spec fn bytes_seq(b: bytes::Bytes) -> Seq<u8>;

/// `Clone` for `Bytes`: the clone shares the buffer, so it holds the same bytes.
pub assume_specification[<bytes::Bytes as Clone>::clone](b: &bytes::Bytes) -> (r: bytes::Bytes)
    ensures
        bytes_seq(r) == bytes_seq(*b),
;

/// `Bytes::from(Vec<u8>)`: the buffer takes over the vector's bytes as they are.
#[verifier::external_body]
pub(crate) fn bytes_from_vec(v: Vec<u8>) -> (r: bytes::Bytes)
    ensures
        bytes_seq(r) == v@,
{
    bytes::Bytes::from(v)
}

/// `Bytes::copy_from_slice`: a new buffer holding a copy of the slice's bytes.
#[verifier::external_body]
pub(crate) fn bytes_copy_from_slice(data: &[u8]) -> (r: bytes::Bytes)
    ensures
        bytes_seq(r) == data@,
{
    bytes::Bytes::copy_from_slice(data)
}

/// `Bytes` seen as a slice (its `Deref`): the bytes the buffer holds.
#[verifier::external_body]
pub(crate) fn bytes_as_slice(b: &bytes::Bytes) -> (r: &[u8])
    ensures
        r@ == bytes_seq(*b),
{
    b.as_ref()
}

/// The two little-endian bytes of `n`.
pub open spec fn le16(n: u16) -> Seq<u8> {
    seq![(n % 256) as u8, (n / 256) as u8]
}

/// The four little-endian bytes of `n`.
pub open spec fn le32(n: u32) -> Seq<u8> {
    seq![(n % 256) as u8, ((n / 256) % 256) as u8, ((n / 65536) % 256) as u8, (n / 16777216) as u8]
}

/// The little-endian 16-bit number stored at `pos` in `s`.
pub open spec fn u16_at(s: Seq<u8>, pos: int) -> nat {
    (s[pos] as nat) + 256 * (s[pos + 1] as nat)
}

/// The little-endian 32-bit number stored at `pos` in `s`.
pub open spec fn u32_at(s: Seq<u8>, pos: int) -> nat {
    (s[pos] as nat) + 256 * (s[pos + 1] as nat) + 65536 * (s[pos + 2] as nat) + 16777216 * (
    s[pos + 3] as nat)
}

/// Reading back what `le16` wrote gives the number, wherever it stands.
pub proof fn lemma_le16_roundtrip(pre: Seq<u8>, n: u16, post: Seq<u8>)
    ensures
        u16_at(pre + le16(n) + post, pre.len() as int) == n,
        (pre + le16(n) + post).len() == pre.len() + 2 + post.len(),
{
    let s = pre + le16(n) + post;
    assert(s[pre.len() as int] == (n % 256) as u8);
    assert(s[pre.len() + 1int] == (n / 256) as u8);
}

/// Reading back what `le32` wrote gives the number, wherever it stands.
pub proof fn lemma_le32_roundtrip(pre: Seq<u8>, n: u32, post: Seq<u8>)
    ensures
        u32_at(pre + le32(n) + post, pre.len() as int) == n,
        (pre + le32(n) + post).len() == pre.len() + 4 + post.len(),
{
    let s = pre + le32(n) + post;
    assert(s[pre.len() as int] == (n % 256) as u8);
    assert(s[pre.len() + 1int] == ((n / 256) % 256) as u8);
    assert(s[pre.len() + 2int] == ((n / 65536) % 256) as u8);
    assert(s[pre.len() + 3int] == (n / 16777216) as u8);
}

/// `BufMut::put_u16_le` on a `Vec<u8>`: appends the two little-endian bytes of `n`.
#[verifier::external_body]
pub(crate) fn put_u16_le(buf: &mut Vec<u8>, n: u16)
    ensures
        final(buf)@ == old(buf)@ + le16(n),
{
    bytes::BufMut::put_u16_le(buf, n)
}

/// `BufMut::put_u32_le` on a `Vec<u8>`: appends the four little-endian bytes of `n`.
#[verifier::external_body]
pub(crate) fn put_u32_le(buf: &mut Vec<u8>, n: u32)
    ensures
        final(buf)@ == old(buf)@ + le32(n),
{
    bytes::BufMut::put_u32_le(buf, n)
}

/// `BufMut::put_slice` on a `Vec<u8>`: appends the bytes of `src`.
#[verifier::external_body]
pub(crate) fn put_slice(buf: &mut Vec<u8>, src: &[u8])
    ensures
        final(buf)@ == old(buf)@ + src@,
{
    bytes::BufMut::put_slice(buf, src)
}

/// `Buf::get_u16_le` on a byte slice: the little-endian 16-bit number at its start.
#[verifier::external_body]
fn read_u16_le(data: &[u8]) -> (r: u16)
    requires
        2 <= data@.len(),
    ensures
        r == u16_at(data@, 0),
{
    let mut rest: &[u8] = data;
    bytes::Buf::get_u16_le(&mut rest)
}

/// `Buf::get_u32_le` on a byte slice: the little-endian 32-bit number at its start.
#[verifier::external_body]
fn read_u32_le(data: &[u8]) -> (r: u32)
    requires
        4 <= data@.len(),
    ensures
        r == u32_at(data@, 0),
{
    let mut rest: &[u8] = data;
    bytes::Buf::get_u32_le(&mut rest)
}

/// The little-endian 16-bit number at `pos` in `data`.
pub(crate) fn get_u16_le(data: &[u8], pos: usize) -> (r: u16)
    requires
        pos + 2 <= data@.len(),
    ensures
        r == u16_at(data@, pos as int),
{
    let rest = vstd::slice::slice_subrange(data, pos, data.len());
    assert(rest@[0] == data@[pos as int] && rest@[1] == data@[pos + 1]);
    read_u16_le(rest)
}

/// The little-endian 32-bit number at `pos` in `data`.
pub(crate) fn get_u32_le(data: &[u8], pos: usize) -> (r: u32)
    requires
        pos + 4 <= data@.len(),
    ensures
        r == u32_at(data@, pos as int),
{
    let rest = vstd::slice::slice_subrange(data, pos, data.len());
    assert(rest@[0] == data@[pos as int] && rest@[1] == data@[pos + 1]);
    assert(rest@[2] == data@[pos + 2] && rest@[3] == data@[pos + 3]);
    read_u32_le(rest)
}

/// The number that two little-endian bytes stand for.
pub fn u16_from_le(lo: u8, hi: u8) -> (r: u16)
    ensures
        r == (lo as nat) + 256 * (hi as nat),
{
    (lo as u16) + (hi as u16) * 256
}

} // verus!
