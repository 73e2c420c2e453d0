//! The log-bloom short-circuit.
//!
//! Every ledger block carries a 2048-bit bloom filter over the addresses
//! and topics of its logs: an item sets the three bits picked out by the
//! first three byte pairs of its Keccak-256 digest, each pair taken modulo
//! 2048 and counted from the high end of the filter.  When a block's bloom
//! lacks the caller contract's address or the tree's identifier topic, the
//! block can hold no relevant event and its logs need not be fetched at
//! all.  Membership may err towards `true` (a bloom filter has false
//! positives), never towards `false`.

use crate::tree_fold::TreeId;
use vstd::prelude::*;

verus! {

/// A ledger account address: 20 bytes.
#[derive(Clone, Debug, PartialEq, Eq)]
pub struct Address {
    pub bytes: Vec<u8>,
}

/// A block's 2048-bit logs bloom: 256 bytes, highest-order bits first.
#[derive(Clone, Debug, PartialEq, Eq)]
pub struct LogsBloom {
    pub bytes: Vec<u8>,
}

/// The Keccak-256 digest of a byte string, a pure function of its input.
pub uninterp spec fn keccak_of(data: Seq<u8>) -> Seq<u8>;

/// Relies on tiny_keccak's Keccak-256: a 32-byte digest that depends on
/// the input bytes alone.
#[verifier::external_body]
fn keccak256(data: &Vec<u8>) -> (r: Vec<u8>)
    ensures
        r@ == keccak_of(data@),
        r@.len() == 32,
{
    let mut hasher = tiny_keccak::Keccak::v256();
    let mut output = [0u8; 32];
    tiny_keccak::Hasher::update(&mut hasher, data.as_slice());
    tiny_keccak::Hasher::finalize(hasher, &mut output);
    output.to_vec()
}

/// Is bit `bit` (counted from the low end of the last byte) set in a
/// 256-byte bloom?
pub open spec fn bloom_bit(b: Seq<u8>, bit: int) -> bool
    recommends
        b.len() == 256,
        0 <= bit < 2048,
{
    ((b[255 - bit / 8] as u32) >> ((bit % 8) as u32)) & 1 == 1
}

/// The bloom bit index picked out by byte pair `k` of a digest: the low
/// eleven bits of the pair.
pub open spec fn bloom_bit_of(h: Seq<u8>, k: int) -> int
    recommends
        h.len() == 32,
        0 <= k < 3,
{
    ((h[2 * k] as int) % 8) * 256 + (h[2 * k + 1] as int)
}

/// An item is (possibly) present in a bloom when all three bits of its
/// digest are set.
pub open spec fn bloom_has_item(b: Seq<u8>, item: Seq<u8>) -> bool {
    let h = keccak_of(item);
    &&& bloom_bit(b, bloom_bit_of(h, 0))
    &&& bloom_bit(b, bloom_bit_of(h, 1))
    &&& bloom_bit(b, bloom_bit_of(h, 2))
}

/// Test one digest bit of a bloom.
fn bloom_bit_set(bloom: &LogsBloom, h: &Vec<u8>, k: usize) -> (r: bool)
    requires
        bloom.bytes@.len() == 256,
        h@.len() == 32,
        k < 3,
    ensures
        r == bloom_bit(bloom.bytes@, bloom_bit_of(h@, k as int)),
{
    let hi = h[2 * k];
    let lo = h[2 * k + 1];
    let bit: usize = ((hi as usize) % 8) * 256 + (lo as usize);
    let byte = bloom.bytes[255 - bit / 8];
    ((byte as u32) >> ((bit % 8) as u32)) & 1 == 1
}

/// Could the bloom's block hold a log mentioning `item`?
pub fn bloom_contains(bloom: &LogsBloom, item: &Vec<u8>) -> (r: bool)
    requires
        bloom.bytes@.len() == 256,
    ensures
        r == bloom_has_item(bloom.bytes@, item@),
{
    let h = keccak256(item);
    bloom_bit_set(bloom, &h, 0) && bloom_bit_set(bloom, &h, 1) && bloom_bit_set(bloom, &h, 2)
}

/// A tree identifier as its 32-byte big-endian log topic.
pub open spec fn topic_of(id: TreeId) -> Seq<u8> {
    Seq::new(32, |j: int| topic_byte(id, j))
}

pub open spec fn limb_of(id: TreeId, k: int) -> u64 {
    if k == 0 {
        id.w0
    } else if k == 1 {
        id.w1
    } else if k == 2 {
        id.w2
    } else {
        id.w3
    }
}

pub open spec fn topic_byte(id: TreeId, j: int) -> u8 {
    ((limb_of(id, j / 8) >> ((56 - 8 * (j % 8)) as u64)) & 0xff) as u8
}

/// Spell an identifier out as the 32-byte big-endian topic it appears as in
/// the ledger's logs.
pub fn topic_bytes(id: &TreeId) -> (r: Vec<u8>)
    ensures
        r@ == topic_of(*id),
{
    let mut r: Vec<u8> = Vec::new();
    let mut j: usize = 0;
    while j < 32
        invariant
            j <= 32,
            r@.len() == j,
            forall|k: int| 0 <= k < j ==> r@[k] == topic_byte(*id, k),
        decreases 32 - j,
    {
        let limb: u64 = if j < 8 {
            id.w0
        } else if j < 16 {
            id.w1
        } else if j < 24 {
            id.w2
        } else {
            id.w3
        };
        let sh: u64 = (56 - 8 * ((j % 8) as u64)) as u64;
        let byte: u8 = ((limb >> sh) & 0xff) as u8;
        proof {
            assert(limb == limb_of(*id, j as int / 8));
            assert(byte == topic_byte(*id, j as int));
        }
        r.push(byte);
        j = j + 1;
    }
    proof {
        assert(r@ =~= topic_of(*id));
    }
    r
}

} // verus!
