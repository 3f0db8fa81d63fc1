use vstd::prelude::*;
use vstd::bytes::{spec_u64_from_le_bytes, u64_from_le_bytes};

verus! {

/// A 256-bit hash, held as four little-endian 64-bit words in digest order.
#[derive(Clone, Copy, Debug, PartialEq, Eq, Structural)]
pub struct H256 {
    pub w0: u64,
    pub w1: u64,
    pub w2: u64,
    pub w3: u64,
}

/// The hash that a 32-byte digest stands for: four little-endian words.
pub open spec fn h256_from_seq(s: Seq<u8>) -> H256 {
    H256 {
        w0: spec_u64_from_le_bytes(s.subrange(0, 8)),
        w1: spec_u64_from_le_bytes(s.subrange(8, 16)),
        w2: spec_u64_from_le_bytes(s.subrange(16, 24)),
        w3: spec_u64_from_le_bytes(s.subrange(24, 32)),
    }
}

/// The 32-byte BLAKE2b digest of `data`, without a key.
pub uninterp spec fn blake2_256_of(data: Seq<u8>) -> Seq<u8>;

/// BLAKE2b-256 of `data` as a hash value.
pub open spec fn spec_blake2_256(data: Seq<u8>) -> H256 {
    h256_from_seq(blake2_256_of(data))
}

/// Relies on blake2_rfc::blake2b::blake2b with output length 32 and an empty
/// key: its result holds exactly 32 bytes, which depend on `data` alone.
#[verifier::external_body]
fn blake2_256_digest(data: &[u8]) -> (r: Vec<u8>)
    ensures
        r@ == blake2_256_of(data@),
        r@.len() == 32,
{
    blake2_rfc::blake2b::blake2b(32, &[], data).as_bytes().to_vec()
}

/// Turns a 32-byte digest into a hash value.
pub fn h256_from_bytes(b: &[u8]) -> (r: H256)
    requires
        b@.len() == 32,
    ensures
        r == h256_from_seq(b@),
{
    let w0 = u64_from_le_bytes(vstd::slice::slice_subrange(b, 0, 8));
    let w1 = u64_from_le_bytes(vstd::slice::slice_subrange(b, 8, 16));
    let w2 = u64_from_le_bytes(vstd::slice::slice_subrange(b, 16, 24));
    let w3 = u64_from_le_bytes(vstd::slice::slice_subrange(b, 24, 32));
    H256 { w0, w1, w2, w3 }
}

/// BLAKE2b-256 of `data`.
pub fn blake2_256(data: &[u8]) -> (r: H256)
    ensures
        r == spec_blake2_256(data@),
{
    let d = blake2_256_digest(data);
    h256_from_bytes(d.as_slice())
}

/// Whether `h` is in `v`.
pub fn contains_hash(v: &Vec<H256>, h: H256) -> (r: bool)
    ensures
        r == v@.contains(h),
{
    let mut i: usize = 0;
    while i < v.len()
        invariant
            i <= v@.len(),
            forall|k: int| 0 <= k < i ==> v@[k] != h,
        decreases v@.len() - i,
    {
        if v[i] == h {
            assert(v@[i as int] == h);
            return true;
        }
        i = i + 1;
    }
    false
}

/// A copy of a byte string.
pub fn copy_bytes(b: &Vec<u8>) -> (r: Vec<u8>)
    ensures
        r@ == b@,
{
    let mut r: Vec<u8> = Vec::new();
    let mut i: usize = 0;
    while i < b.len()
        invariant
            i <= b@.len(),
            r@ == b@.subrange(0, i as int),
        decreases b@.len() - i,
    {
        r.push(b[i]);
        i = i + 1;
        assert(r@ =~= b@.subrange(0, i as int));
    }
    assert(r@ =~= b@);
    r
}

} // verus!
