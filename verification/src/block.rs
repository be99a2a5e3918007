//! A single block: the hash of its predecessor, a proof-of-work nonce, and
//! one owned Merkle tree holding the payload. The block's own hash depends
//! only on the tree's root digest, so payload may be pruned and restored in
//! place without touching the block's identity.

use vstd::prelude::*;
use crate::hash::{sha256_of, sha256_digest, HashValue};
use crate::merkle_tree::{MerkleTree, TreeView};

verus! {

/// The big-endian bytes of a nonce, as they enter the block hash.
pub open spec fn u64_be_bytes(n: u64) -> Seq<u8> {
    seq![
        ((n >> 56) & 0xff) as u8,
        ((n >> 48) & 0xff) as u8,
        ((n >> 40) & 0xff) as u8,
        ((n >> 32) & 0xff) as u8,
        ((n >> 24) & 0xff) as u8,
        ((n >> 16) & 0xff) as u8,
        ((n >> 8) & 0xff) as u8,
        (n & 0xff) as u8,
    ]
}

/// Writes a nonce big-endian.
fn nonce_bytes(n: u64) -> (r: Vec<u8>)
    ensures
        r@ == u64_be_bytes(n),
{
    proof {
        assert(((n >> 56) & 0xff) < 256) by (bit_vector);
        assert(((n >> 48) & 0xff) < 256) by (bit_vector);
        assert(((n >> 40) & 0xff) < 256) by (bit_vector);
        assert(((n >> 32) & 0xff) < 256) by (bit_vector);
        assert(((n >> 24) & 0xff) < 256) by (bit_vector);
        assert(((n >> 16) & 0xff) < 256) by (bit_vector);
        assert(((n >> 8) & 0xff) < 256) by (bit_vector);
        assert((n & 0xff) < 256) by (bit_vector);
    }
    let mut r: Vec<u8> = Vec::new();
    r.push(((n >> 56) & 0xff) as u8);
    r.push(((n >> 48) & 0xff) as u8);
    r.push(((n >> 40) & 0xff) as u8);
    r.push(((n >> 32) & 0xff) as u8);
    r.push(((n >> 24) & 0xff) as u8);
    r.push(((n >> 16) & 0xff) as u8);
    r.push(((n >> 8) & 0xff) as u8);
    r.push((n & 0xff) as u8);
    proof {
        assert(r@ =~= u64_be_bytes(n));
    }
    r
}

/// The model of a block.
#[verifier::ext_equal]
pub struct BlockView {
    /// The hash of the predecessor block.
    pub prev_hash: Seq<u8>,
    /// The proof-of-work counter.
    pub nonce: u64,
    /// The payload tree.
    pub tree: TreeView,
}

/// The bytes whose digest is a block's hash: the predecessor hash, the nonce
/// big-endian, and the payload tree's root digest — deliberately only the
/// root, so pruning and restoring payload never moves the block's hash.
pub open spec fn block_hash_input(b: BlockView) -> Seq<u8> {
    b.prev_hash + u64_be_bytes(b.nonce) + b.tree.root_hash()
}

/// A block's hash.
pub open spec fn block_hash(b: BlockView) -> Seq<u8> {
    sha256_of(block_hash_input(b))
}

/// Whether a digest starts with at least `zeros` zero bits: the first
/// `zeros / 8` whole bytes are zero, and when `zeros % 8` is not zero, so are
/// the leading `zeros % 8` bits of the next byte.
pub open spec fn leading_zero_bits_ok(h: Seq<u8>, zeros: u8) -> bool {
    let whole = zeros as int / 8;
    let rem = (zeros % 8) as u8;
    &&& forall|i: int| 0 <= i < whole ==> h[i] == 0u8
    &&& (rem == 0 || h[whole] >> ((8 - rem) as u8) == 0u8)
}

/// Whether a block's nonce meets the difficulty `zeros`: its hash starts
/// with at least that many zero bits.
pub open spec fn nonce_ok(b: BlockView, zeros: u8) -> bool {
    leading_zero_bits_ok(block_hash(b), zeros)
}

/// The same block with another nonce: what each step of the mining search
/// tries.
pub open spec fn with_nonce(b: BlockView, m: u64) -> BlockView {
    BlockView { nonce: m, ..b }
}

/// A block is valid when its nonce meets the difficulty and its payload tree
/// verifies.
pub open spec fn block_valid(b: BlockView, zeros: u8) -> bool {
    nonce_ok(b, zeros) && b.tree.hashes_ok()
}

/// One block of the chain. May store all of its payload, parts of it, or
/// none: the tree's digests always remain, so forgotten data can be restored
/// and checked at any time, even against an untrusted source.
#[derive(Debug)]
pub struct Block {
    /// The hash of the block that came before this one. Set at construction
    /// and never changed.
    pub prev_hash: HashValue,
    /// The counter the mining search adjusts until the block's hash meets
    /// the difficulty target.
    pub nonce: u64,
    /// The block's payload.
    pub merkle_tree: MerkleTree,
}

impl View for Block {
    type V = BlockView;

    open spec fn view(&self) -> BlockView {
        BlockView { prev_hash: self.prev_hash@, nonce: self.nonce, tree: self.merkle_tree@ }
    }
}

impl Block {
    /// A new, still unmined block that comes after the block with the given
    /// hash and stores the given tree. The nonce starts at zero; mine with
    /// `calculate_nonce` before appending.
    pub fn new(previous_hash: HashValue, data: MerkleTree) -> (b: Block)
        ensures
            b@ == (BlockView { prev_hash: previous_hash@, nonce: 0u64, tree: data@ }),
    {
        Block { prev_hash: previous_hash, nonce: 0, merkle_tree: data }
    }

    /// This block's hash: the digest of the predecessor hash, the nonce in
    /// big-endian, and the payload tree's root digest. Pure; after a
    /// successful `calculate_nonce` it starts with the required zero bits.
    pub fn calculate_hash(&self) -> (r: HashValue)
        ensures
            r@ == block_hash(self@),
            r.wf(),
    {
        let mut buf: Vec<u8> = Vec::new();
        buf.extend_from_slice(self.prev_hash.bytes.as_slice());
        let nb = nonce_bytes(self.nonce);
        buf.extend_from_slice(nb.as_slice());
        buf.extend_from_slice(self.merkle_tree.get_root_hash().bytes.as_slice());
        proof {
            assert(buf@ =~= block_hash_input(self@));
        }
        HashValue::from_bytes(sha256_digest(buf.as_slice()))
    }

    /// Checks, bit-precisely, that this block's hash starts with at least
    /// `zeros` zero bits: the whole bytes first, then the leading bits of
    /// the one partial byte, if the difficulty is not a multiple of eight.
    pub fn verify_nonce(&self, zeros: u8) -> (r: bool)
        ensures
            r == nonce_ok(self@, zeros),
    {
        let h = self.calculate_hash();
        let whole = (zeros / 8) as usize;
        let rem = zeros % 8;
        let mut i: usize = 0;
        while i < whole
            invariant
                i <= whole,
                whole == zeros as int / 8,
                h@ == block_hash(self@),
                h@.len() == 32,
                forall|j: int| 0 <= j < i ==> h@[j] == 0u8,
            decreases whole - i,
        {
            if h.bytes[i] != 0 {
                return false;
            }
            i = i + 1;
        }
        if rem == 0 {
            return true;
        }
        let partial = h.bytes[whole];
        (partial >> (8 - rem)) == 0
    }

    /// Mines this block: starting from the current nonce — an interrupted
    /// search can resume — increments until the block's hash meets the
    /// difficulty, and returns the nonce found. Unbounded in the worst case.
    /// Exhausting the whole nonce space without a hit returns `None` and is
    /// fatal for this tree at this difficulty: the counter never silently
    /// wraps.
    pub fn calculate_nonce(&mut self, zeros: u8) -> (r: Option<u64>)
        ensures
            final(self)@.prev_hash == old(self)@.prev_hash,
            final(self)@.tree == old(self)@.tree,
            final(self)@.nonce >= old(self)@.nonce,
            r matches Some(n) ==> {
                &&& final(self)@.nonce == n
                &&& nonce_ok(final(self)@, zeros)
                &&& forall|m: u64|
                    old(self)@.nonce <= m < n ==> !nonce_ok(
                        #[trigger] with_nonce(final(self)@, m),
                        zeros,
                    )
            },
            r is None ==> forall|m: u64|
                m >= old(self)@.nonce ==> !nonce_ok(#[trigger] with_nonce(final(self)@, m), zeros),
    {
        loop
            invariant
                self@.prev_hash == old(self)@.prev_hash,
                self@.tree == old(self)@.tree,
                self@.nonce >= old(self)@.nonce,
                forall|m: u64|
                    old(self)@.nonce <= m < self@.nonce ==> !nonce_ok(
                        #[trigger] with_nonce(self@, m),
                        zeros,
                    ),
            decreases u64::MAX - self.nonce,
        {
            if self.verify_nonce(zeros) {
                return Some(self.nonce);
            }
            if self.nonce == u64::MAX {
                proof {
                    assert(with_nonce(self@, u64::MAX) =~= self@);
                }
                return None;
            }
            let ghost prev = self@;
            self.nonce = self.nonce + 1;
            proof {
                assert forall|m: u64|
                    old(self)@.nonce <= m < self@.nonce implies !nonce_ok(
                        with_nonce(self@, m),
                        zeros,
                    ) by {
                    assert(with_nonce(self@, m) =~= with_nonce(prev, m));
                    if m == prev.nonce {
                        assert(with_nonce(prev, m) =~= prev);
                    }
                }
            }
        }
    }

    /// Whether this block's payload tree verifies.
    pub fn verify_merkle_tree(&self) -> (r: bool)
        ensures
            r == self@.tree.hashes_ok(),
    {
        self.merkle_tree.verify()
    }

    /// Whether this block is valid on its own: the nonce meets the
    /// difficulty and the payload tree verifies.
    pub fn verify(&self, zeros: u8) -> (r: bool)
        ensures
            r == block_valid(self@, zeros),
    {
        self.verify_nonce(zeros) && self.verify_merkle_tree()
    }

    /// Drops this block's payload storage down to the tree's root digest.
    /// The data can be restored at any later time with
    /// `restore_merkle_tree`; the block's hash does not move.
    pub fn clear_merkle_tree(&mut self)
        ensures
            final(self)@.prev_hash == old(self)@.prev_hash,
            final(self)@.nonce == old(self)@.nonce,
            final(self)@.tree == (TreeView::Leaf {
                hash: old(self)@.tree.root_hash(),
                data: None::<Seq<u8>>,
            }),
            final(self)@.tree.root_hash() == old(self)@.tree.root_hash(),
            block_hash(final(self)@) == block_hash(old(self)@),
    {
        self.merkle_tree.shrink_to_minimum();
    }

    /// Replaces this block's tree with one from an outside — possibly
    /// unreliable — source, but only after checking it: the candidate must
    /// verify and carry the same root digest as the tree it replaces.
    /// Otherwise nothing is restored and the block is unchanged.
    pub fn restore_merkle_tree(&mut self, mtree: MerkleTree) -> (r: bool)
        ensures
            r == (mtree@.hashes_ok() && mtree@.root_hash() == old(self)@.tree.root_hash()),
            r ==> final(self)@ == (BlockView { tree: mtree@, ..old(self)@ }),
            !r ==> final(self)@ == old(self)@,
            block_hash(final(self)@) == block_hash(old(self)@),
    {
        if mtree.verify() && mtree.get_root_hash().equals(self.merkle_tree.get_root_hash()) {
            self.merkle_tree = mtree;
            true
        } else {
            false
        }
    }
}

impl Clone for Block {
    fn clone(&self) -> (r: Block)
        ensures
            r@ == self@,
    {
        Block {
            prev_hash: self.prev_hash.clone(),
            nonce: self.nonce,
            merkle_tree: self.merkle_tree.clone(),
        }
    }
}

} // verus!
