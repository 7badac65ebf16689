//! Perceptual hashes as bit vectors, and the Hamming distance between them.

use vstd::prelude::*;
use image_hasher::ImageHash;

verus! {

/// The longest hash, in bytes, whose bit count still fits a `u32`.
pub const MAX_HASH_BYTES: usize = 0x1FFF_FFFF;

/// The number of bits that are set in `x`.
pub open spec fn bit_count(x: u8) -> nat
    decreases x,
{
    if x == 0 {
        0
    } else {
        (x % 2) as nat + bit_count(x / 2)
    }
}

/// The number of bits in which the first `n` bytes of `a` and of `b` differ.
pub open spec fn hamming_upto(a: Seq<u8>, b: Seq<u8>, n: int) -> nat
    decreases n,
{
    if n <= 0 {
        0
    } else {
        hamming_upto(a, b, n - 1) + bit_count(a[n - 1] ^ b[n - 1])
    }
}

/// The number of bits in which `a` and `b` differ, over the bytes that both
/// have.
pub open spec fn hamming(a: Seq<u8>, b: Seq<u8>) -> nat {
    hamming_upto(
        a,
        b,
        if a.len() <= b.len() {
            a.len() as int
        } else {
            b.len() as int
        },
    )
}

/// A byte sequence does not differ from itself.
pub proof fn lemma_hamming_self(a: Seq<u8>)
    ensures
        hamming(a, a) == 0,
{
    lemma_hamming_self_upto(a, a.len() as int);
}

proof fn lemma_hamming_self_upto(a: Seq<u8>, n: int)
    requires
        n <= a.len(),
    ensures
        hamming_upto(a, a, n) == 0,
    decreases n,
{
    if n > 0 {
        lemma_hamming_self_upto(a, n - 1);
        let x = a[n - 1];
        assert(x ^ x == 0) by (bit_vector);
    }
}

/// The distance does not depend on the order of its arguments.
pub proof fn lemma_hamming_symmetric(a: Seq<u8>, b: Seq<u8>)
    ensures
        hamming(a, b) == hamming(b, a),
{
    let n = if a.len() <= b.len() {
        a.len() as int
    } else {
        b.len() as int
    };
    lemma_hamming_symmetric_upto(a, b, n);
}

proof fn lemma_hamming_symmetric_upto(a: Seq<u8>, b: Seq<u8>, n: int)
    requires
        n <= a.len(),
        n <= b.len(),
    ensures
        hamming_upto(a, b, n) == hamming_upto(b, a, n),
    decreases n,
{
    if n > 0 {
        lemma_hamming_symmetric_upto(a, b, n - 1);
        let x = a[n - 1];
        let y = b[n - 1];
        assert(x ^ y == y ^ x) by (bit_vector);
    }
}

/// A perceptual hash: the bits of an image's fingerprint, eight to a byte.
pub struct PerceptualHash {
    bytes: Vec<u8>,
}

impl View for PerceptualHash {
    type V = Seq<u8>;

    closed spec fn view(&self) -> Seq<u8> {
        self.bytes@
    }
}

impl Clone for PerceptualHash {
    fn clone(&self) -> (copy: Self)
        ensures
            copy@ == self@,
    {
        proof {
            use_type_invariant(self);
        }
        PerceptualHash { bytes: self.bytes.clone() }
    }
}

/// The Hamming distance as `ImageHash::dist` of image_hasher computes it on
/// two hashes that `ImageHash::from_bytes` built from the given bytes: the
/// bytes are paired from the front and the set bits of each pair's XOR are
/// counted and summed. The bound on the lengths keeps the sum within `u32`.
#[verifier::external_body]
fn hamming_distance(a: &Vec<u8>, b: &Vec<u8>) -> (d: u32)
    requires
        a@.len() <= MAX_HASH_BYTES,
        b@.len() <= MAX_HASH_BYTES,
    ensures
        d == hamming(a@, b@),
{
    let left = ImageHash::<Box<[u8]>>::from_bytes(a.as_slice()).unwrap();
    let right = ImageHash::<Box<[u8]>>::from_bytes(b.as_slice()).unwrap();
    left.dist(&right)
}

impl PerceptualHash {
    #[verifier::type_invariant]
    spec fn bounded(&self) -> bool {
        self.bytes@.len() <= MAX_HASH_BYTES
    }

    /// Takes the bytes of a hash; refuses more than `MAX_HASH_BYTES`.
    pub fn from_bytes(bytes: Vec<u8>) -> (hash: Option<Self>)
        ensures
            bytes@.len() <= MAX_HASH_BYTES ==> hash.is_some() && hash.unwrap()@ == bytes@,
            bytes@.len() > MAX_HASH_BYTES ==> hash.is_none(),
    {
        if bytes.len() <= MAX_HASH_BYTES {
            Some(PerceptualHash { bytes })
        } else {
            None
        }
    }

    pub fn as_bytes(&self) -> (bytes: &Vec<u8>)
        ensures
            bytes@ == self@,
    {
        &self.bytes
    }

    /// The Hamming distance to `other`.
    pub fn dist(&self, other: &Self) -> (d: u32)
        ensures
            d == hamming(self@, other@),
    {
        proof {
            use_type_invariant(self);
            use_type_invariant(other);
        }
        hamming_distance(&self.bytes, &other.bytes)
    }
}

} // verus!
