//! The fixed 80-byte header layout — version(4) | prevBlockHash(32) |
//! merkleRoot(32) | timestamp(4) | difficultyBits(4) | nonce(4), all
//! integers little-endian — and the double-SHA-256 identity hash.

use vstd::prelude::*;
use crate::u256::{compact_to_target, target_val_of_bits, U256};

verus! {

/// What SHA-256 returns on the given bytes; the digest depends on the
/// input alone.
pub uninterp spec fn sha256_of(data: Seq<u8>) -> Seq<u8>;

/// Relies on sha2::Sha256 through `Digest::digest`: the 32-byte SHA-256
/// digest of the input, a pure function of the input bytes.
#[verifier::external_body]
fn sha256(data: &Vec<u8>) -> (r: Vec<u8>)
    ensures
        r@ == sha256_of(data@),
        r@.len() == 32,
{
    <sha2::Sha256 as sha2::Digest>::digest(data.as_slice()).as_slice().to_vec()
}

/// The block identity hash: SHA-256 applied twice to the raw bytes.
pub open spec fn hash256_of(b: Seq<u8>) -> Seq<u8> {
    sha256_of(sha256_of(b))
}

/// Double SHA-256 over the given bytes.
pub fn hash256(b: &Vec<u8>) -> (r: Vec<u8>)
    ensures
        r@ == hash256_of(b@),
        r@.len() == 32,
{
    let first = sha256(b);
    sha256(&first)
}

/// The little-endian 32-bit integer at offset `off`.
pub open spec fn le32_at(h: Seq<u8>, off: int) -> u32
    recommends
        0 <= off,
        off + 4 <= h.len(),
{
    (h[off] + 0x100 * h[off + 1] + 0x10000 * h[off + 2] + 0x1000000 * h[off + 3]) as u32
}

/// The header's timestamp field, at offset 68.
pub open spec fn timestamp_of(h: Seq<u8>) -> u32 {
    le32_at(h, 68)
}

/// The header's compact difficulty-bits field, at offset `72 + at`.
pub open spec fn bits_of(h: Seq<u8>, at: int) -> u32 {
    le32_at(h, 72 + at)
}

/// The difficulty target the header itself declares.
pub open spec fn target_of(h: Seq<u8>) -> nat {
    target_val_of_bits(bits_of(h, 0))
}

/// The parent-hash field, at offset 4.
pub open spec fn prev_hash_of(h: Seq<u8>) -> Seq<u8> {
    h.subrange(4, 36)
}

/// The merkle-root field, at offset 36.
pub open spec fn merkle_root_of(h: Seq<u8>) -> Seq<u8> {
    h.subrange(36, 68)
}

fn read_le32(data: &Vec<u8>, off: usize) -> (r: u32)
    requires
        off + 4 <= data@.len(),
    ensures
        r == le32_at(data@, off as int),
{
    let n = data.len();
    proof {
        assert(off + 4 <= n);
    }
    (data[off] as u32) + 0x100 * (data[off + 1] as u32) + 0x10000 * (data[off + 2] as u32)
        + 0x1000000 * (data[off + 3] as u32)
}

fn copy_range(data: &Vec<u8>, lo: usize, hi: usize) -> (r: Vec<u8>)
    requires
        lo <= hi <= data@.len(),
    ensures
        r@ == data@.subrange(lo as int, hi as int),
{
    let mut out: Vec<u8> = Vec::new();
    let mut i: usize = lo;
    while i < hi
        invariant
            lo <= i <= hi <= data@.len(),
            out@ =~= data@.subrange(lo as int, i as int),
        decreases hi - i,
    {
        out.push(data[i]);
        i += 1;
    }
    proof {
        assert(out@ =~= data@.subrange(lo as int, hi as int));
    }
    out
}

/// The raw little-endian timestamp bytes, offsets 68..72.
pub fn extract_timestamp_le(data: &Vec<u8>) -> (r: Vec<u8>)
    requires
        data@.len() >= 72,
    ensures
        r@ == data@.subrange(68, 72),
{
    copy_range(data, 68, 72)
}

/// The header's timestamp as a number.
pub fn extract_timestamp(data: &Vec<u8>) -> (r: u32)
    requires
        data@.len() >= 72,
    ensures
        r == timestamp_of(data@),
{
    read_le32(data, 68)
}

/// The parent hash the header itself declares.
pub fn extract_prev_hash(data: &Vec<u8>) -> (r: Vec<u8>)
    requires
        data@.len() >= 36,
    ensures
        r@ == prev_hash_of(data@),
        r@.len() == 32,
{
    copy_range(data, 4, 36)
}

/// The merkle root the header commits to.
pub fn extract_merkle_root(data: &Vec<u8>) -> (r: Vec<u8>)
    requires
        data@.len() >= 68,
    ensures
        r@ == merkle_root_of(data@),
        r@.len() == 32,
{
    copy_range(data, 36, 68)
}

/// Decode the difficulty target from the compact bits at offset `72 + at`.
pub fn extract_target_at(header: &Vec<u8>, at: usize) -> (r: U256)
    requires
        at + 76 <= header@.len(),
    ensures
        r.wf(),
        r.val() == target_val_of_bits(bits_of(header@, at as int)),
{
    let n = header.len();
    proof {
        assert(at + 76 <= n);
    }
    let bits = read_le32(header, 72 + at);
    compact_to_target(bits)
}

} // verus!
