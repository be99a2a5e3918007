//! 256-bit content digests: the hash values that address Merkle-tree nodes,
//! link blocks together, and carry the proof-of-work target check.

use vstd::prelude::*;
use sha2::Digest;

verus! {

/// The digest that SHA-256 assigns to a byte sequence. The algorithm itself
/// is not modelled; every fact the library proves about digests goes through
/// the contract of `sha256_digest` below.
pub uninterp spec fn sha256_of(data: Seq<u8>) -> Seq<u8>;

/// Relies on `sha2::Sha256::digest`: the 32-byte SHA-256 digest of the input,
/// a function of the input bytes alone.
#[verifier::external_body]
pub(crate) fn sha256_digest(data: &[u8]) -> (r: Vec<u8>)
    ensures
        r@ == sha256_of(data@),
        r@.len() == 32,
{
    sha2::Sha256::digest(data).to_vec()
}

/// A 256-bit digest, compared byte for byte. Serves as a content address for
/// payload data, as a by-value reference to a tree node, and as the value the
/// proof-of-work check inspects bit by bit.
#[derive(Debug)]
pub struct HashValue {
    pub bytes: Vec<u8>,
}

impl View for HashValue {
    type V = Seq<u8>;

    open spec fn view(&self) -> Seq<u8> {
        self.bytes@
    }
}

impl HashValue {
    /// A digest as produced by SHA-256 is exactly 32 bytes wide.
    pub open spec fn wf(self) -> bool {
        self.bytes@.len() == 32
    }

    /// Wraps raw digest bytes. The proof-of-work check indexes into the
    /// digest, so only full-width values are accepted.
    pub fn from_bytes(bytes: Vec<u8>) -> (r: HashValue)
        requires
            bytes@.len() == 32,
        ensures
            r@ == bytes@,
            r.wf(),
    {
        HashValue { bytes }
    }

    /// Byte-for-byte equality with another digest.
    pub fn equals(&self, other: &HashValue) -> (r: bool)
        ensures
            r == (self@ == other@),
    {
        *self == *other
    }
}

impl PartialEq for HashValue {
    fn eq(&self, other: &HashValue) -> (r: bool) {
        let r = self.bytes == other.bytes;
        proof {
            if r {
                assert(self.bytes@ =~= other.bytes@);
            }
        }
        r
    }
}

impl vstd::std_specs::cmp::PartialEqSpecImpl for HashValue {
    open spec fn obeys_eq_spec() -> bool {
        true
    }

    open spec fn eq_spec(&self, other: &HashValue) -> bool {
        self@ == other@
    }
}

impl Clone for HashValue {
    fn clone(&self) -> (r: HashValue)
        ensures
            r@ == self@,
            r.wf() == self.wf(),
    {
        HashValue { bytes: vstd::slice::slice_to_vec(self.bytes.as_slice()) }
    }
}

/// The digest of the given payload bytes: the hash a Merkle leaf carries.
pub fn leaf_hash(data: &Vec<u8>) -> (r: HashValue)
    ensures
        r@ == sha256_of(data@),
        r.wf(),
{
    HashValue { bytes: sha256_digest(data.as_slice()) }
}

/// The digest of the concatenation of two child digests: the hash a Merkle
/// internal node carries.
pub fn node_hash(left: &HashValue, right: &HashValue) -> (r: HashValue)
    ensures
        r@ == sha256_of(left@ + right@),
        r.wf(),
{
    let mut buf: Vec<u8> = Vec::new();
    buf.extend_from_slice(left.bytes.as_slice());
    buf.extend_from_slice(right.bytes.as_slice());
    proof {
        assert(buf@ =~= left@ + right@);
    }
    HashValue { bytes: sha256_digest(buf.as_slice()) }
}

/// The all-zero sentinel digest: the predecessor hash of a chain's first block.
pub open spec fn zero_hash() -> Seq<u8> {
    Seq::new(32, |i: int| 0u8)
}

/// Builds the all-zero sentinel digest.
pub fn initial_hash() -> (r: HashValue)
    ensures
        r@ == zero_hash(),
        r.wf(),
{
    let mut bytes: Vec<u8> = Vec::new();
    let mut i: usize = 0;
    while i < 32
        invariant
            i <= 32,
            bytes@.len() == i,
            forall|j: int| 0 <= j < i ==> bytes@[j] == 0u8,
        decreases 32 - i,
    {
        bytes.push(0u8);
        i = i + 1;
    }
    proof {
        assert(bytes@ =~= zero_hash());
    }
    HashValue { bytes }
}

} // verus!
