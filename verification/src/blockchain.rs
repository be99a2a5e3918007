//! The chain itself: an append-only sequence of blocks, each naming the
//! recomputed hash of its predecessor, starting from an all-zero sentinel.
//! Appending demands exclusive access (`&mut self`), which is the
//! single-writer discipline the append path needs: two writers racing to
//! extend the same tip must not both succeed. Mining, by contrast, takes no
//! access to the chain at all and runs on a free-standing block.

use vstd::prelude::*;
use crate::hash::{zero_hash, initial_hash, HashValue};
use crate::block::{Block, BlockView, block_hash, block_valid, nonce_ok, with_nonce};
use crate::merkle_tree::MerkleTree;

verus! {

/// The hash the next block must name as its predecessor: the recomputed hash
/// of the last block, or the all-zero sentinel while the chain is empty.
pub open spec fn tip_hash_spec(c: Seq<BlockView>) -> Seq<u8> {
    if c.len() == 0 {
        zero_hash()
    } else {
        block_hash(c[c.len() - 1])
    }
}

/// One link of the chain holds: block `i` names its predecessor's recomputed
/// hash — the sentinel for the first block — and is valid on its own.
pub open spec fn chain_link_ok(c: Seq<BlockView>, i: int, zeros: u8) -> bool {
    &&& c[i].prev_hash == (if i == 0 {
        zero_hash()
    } else {
        block_hash(c[i - 1])
    })
    &&& block_valid(c[i], zeros)
}

/// The whole chain is consistent at difficulty `zeros`: every link holds.
/// Nothing is cached; each predecessor hash is recomputed at verification
/// time.
pub open spec fn chain_valid(c: Seq<BlockView>, zeros: u8) -> bool {
    forall|i: int| 0 <= i < c.len() ==> #[trigger] chain_link_ok(c, i, zeros)
}

/// A chain of blocks, each storing a tree of payload items. Appending goes
/// through `&mut self`: at most one writer at a time can run the
/// check-and-push, which is exactly the mutual exclusion the tip needs.
pub struct Blockchain {
    /// The blocks, oldest first.
    pub blocks: Vec<Block>,
    /// The difficulty: how many leading zero bits every block's hash must
    /// show. A configuration value fixed when the chain is created, so
    /// different chains can run at different difficulties.
    pub zeros: u8,
}

impl View for Blockchain {
    type V = Seq<BlockView>;

    open spec fn view(&self) -> Seq<BlockView> {
        Seq::new(self.blocks@.len(), |i: int| self.blocks@[i]@)
    }
}

impl Blockchain {
    /// A new, empty chain at the given difficulty.
    pub fn new(zeros: u8) -> (r: Blockchain)
        ensures
            r@ == Seq::<BlockView>::empty(),
            r.zeros == zeros,
    {
        let r = Blockchain { blocks: Vec::new(), zeros };
        proof {
            assert(r@ =~= Seq::<BlockView>::empty());
        }
        r
    }

    /// The number of blocks in this chain.
    pub fn length(&self) -> (r: usize)
        ensures
            r == self@.len(),
    {
        self.blocks.len()
    }

    /// The hash of the latest block, recomputed — or the all-zero sentinel
    /// while the chain is empty. This is what the next block's `prev_hash`
    /// must equal.
    pub fn hash_of_last_block(&self) -> (r: HashValue)
        ensures
            r@ == tip_hash_spec(self@),
            r.wf(),
    {
        if self.blocks.len() == 0 {
            initial_hash()
        } else {
            self.blocks[self.blocks.len() - 1].calculate_hash()
        }
    }

    /// Walks the chain oldest-first, carrying the expected predecessor hash
    /// from the sentinel onward: every block must name that hash and pass its
    /// own combined check (proof of work and Merkle tree). False on the first
    /// inconsistency.
    pub fn verify(&self) -> (r: bool)
        ensures
            r == chain_valid(self@, self.zeros),
    {
        let ghost c = self@;
        let mut previous_hash = initial_hash();
        let mut i: usize = 0;
        while i < self.blocks.len()
            invariant
                i <= self.blocks@.len(),
                c == self@,
                c.len() == self.blocks@.len(),
                previous_hash@ == (if i == 0 {
                    zero_hash()
                } else {
                    block_hash(c[i - 1])
                }),
                forall|j: int| 0 <= j < i ==> #[trigger] chain_link_ok(c, j, self.zeros),
            decreases self.blocks@.len() - i,
        {
            let block = &self.blocks[i];
            let valid_link_to_prev_block = block.prev_hash.equals(&previous_hash);
            let valid_block = block.verify(self.zeros);
            if !valid_link_to_prev_block || !valid_block {
                proof {
                    assert(!chain_link_ok(c, i as int, self.zeros));
                }
                return false;
            }
            previous_hash = block.calculate_hash();
            i = i + 1;
        }
        true
    }

    /// The append path: accepts the block only if it passes its own combined
    /// check and names the current tip's recomputed hash; then pushes it.
    /// On rejection the chain is untouched. The whole check-and-push runs
    /// under this method's exclusive borrow and nothing more: mining never
    /// happens here.
    pub fn append_block(&mut self, block: Block) -> (r: bool)
        ensures
            r == (block_valid(block@, old(self).zeros) && block@.prev_hash == tip_hash_spec(
                old(self)@,
            )),
            r ==> final(self)@ == old(self)@.push(block@),
            !r ==> final(self)@ == old(self)@,
            final(self).zeros == old(self).zeros,
            chain_valid(old(self)@, old(self).zeros) ==> chain_valid(
                final(self)@,
                final(self).zeros,
            ),
    {
        proof {
            if chain_valid(self@, self.zeros) && block_valid(block@, self.zeros) && block@.prev_hash
                == tip_hash_spec(self@) {
                lemma_append_keeps_chain_valid(self@, block@, self.zeros);
            }
        }
        let valid_block = block.verify(self.zeros);
        let tip = self.hash_of_last_block();
        let valid_link_to_prev_block = block.prev_hash.equals(&tip);
        if valid_block && valid_link_to_prev_block {
            proof {
                let ghost bv = block@;
                assert(self@.push(bv) =~= Seq::new(
                    self.blocks@.len() + 1,
                    |i: int| self.blocks@.push(block)[i]@,
                ));
            }
            self.blocks.push(block);
            true
        } else {
            false
        }
    }

    /// Builds a block over the given tree at the current tip, mines it, and
    /// then attempts the append; the mined block is returned either way, so
    /// it can be announced. Exclusive access makes the append certain here;
    /// where writers race through a shared lock instead, the tip can move
    /// between mining and appending, and the caller must re-mine against the
    /// new tip and try again. A result is owed on every call but one: `None`
    /// comes only when no nonce in the whole u64 space meets the target for
    /// this tip and tree — nonce-space exhaustion, fatal for this tree at
    /// this difficulty.
    pub fn append_data(&mut self, mtree: MerkleTree) -> (r: Option<Block>)
        ensures
            final(self).zeros == old(self).zeros,
            r matches Some(b) ==> {
                &&& b@.prev_hash == tip_hash_spec(old(self)@)
                &&& nonce_ok(b@, old(self).zeros)
                &&& b@.tree == mtree@
                &&& mtree@.hashes_ok() ==> final(self)@ == old(self)@.push(b@)
                &&& !mtree@.hashes_ok() ==> final(self)@ == old(self)@
            },
            r is None ==> final(self)@ == old(self)@,
            r is None ==> forall|m: u64|
                !nonce_ok(
                    #[trigger] with_nonce(
                        (BlockView {
                            prev_hash: tip_hash_spec(old(self)@),
                            nonce: 0u64,
                            tree: mtree@,
                        }),
                        m,
                    ),
                    old(self).zeros,
                ),
            chain_valid(old(self)@, old(self).zeros) ==> chain_valid(
                final(self)@,
                final(self).zeros,
            ),
    {
        let ghost unmined = BlockView {
            prev_hash: tip_hash_spec(self@),
            nonce: 0u64,
            tree: mtree@,
        };
        let tip = self.hash_of_last_block();
        let mut new_block = Block::new(tip, mtree);
        match new_block.calculate_nonce(self.zeros) {
            Some(_) => {
                let announced = new_block.clone();
                self.append_block(new_block);
                Some(announced)
            },
            None => {
                proof {
                    assert forall|m: u64| !nonce_ok(
                        #[trigger] with_nonce(unmined, m),
                        self.zeros,
                    ) by {
                        assert(with_nonce(new_block@, m) =~= with_nonce(unmined, m));
                    }
                }
                None
            },
        }
    }
}

/// Appending a valid block that names the current tip keeps the whole chain
/// consistent.
pub proof fn lemma_append_keeps_chain_valid(c: Seq<BlockView>, b: BlockView, zeros: u8)
    requires
        chain_valid(c, zeros),
        block_valid(b, zeros),
        b.prev_hash == tip_hash_spec(c),
    ensures
        chain_valid(c.push(b), zeros),
{
    let c2 = c.push(b);
    assert forall|i: int| 0 <= i < c2.len() implies #[trigger] chain_link_ok(c2, i, zeros) by {
        if i < c.len() {
            assert(chain_link_ok(c, i, zeros));
        }
    }
}

/// Tampering with an interior block so that its recomputed hash moves — as
/// any change of its stored nonce or of its tree's root does, short of a
/// digest collision — breaks the chain: the successor still names the old
/// hash, and verification fails.
pub proof fn lemma_tampered_interior_block_breaks_chain(
    c: Seq<BlockView>,
    c2: Seq<BlockView>,
    i: int,
    zeros: u8,
)
    requires
        chain_valid(c, zeros),
        c2.len() == c.len(),
        0 <= i < c.len() - 1,
        forall|j: int| 0 <= j < c.len() && j != i ==> c2[j] == c[j],
        block_hash(c2[i]) != block_hash(c[i]),
    ensures
        !chain_valid(c2, zeros),
{
    assert(chain_link_ok(c, i + 1, zeros));
    assert(!chain_link_ok(c2, i + 1, zeros));
}

/// Tampering with any block's stored tree data so that the tree no longer
/// verifies — the digests stay, the payload moved — makes the whole chain
/// fail verification.
pub proof fn lemma_tampered_tree_breaks_chain(
    c: Seq<BlockView>,
    c2: Seq<BlockView>,
    i: int,
    zeros: u8,
)
    requires
        chain_valid(c, zeros),
        c2.len() == c.len(),
        0 <= i < c.len(),
        !c2[i].tree.hashes_ok(),
    ensures
        !chain_valid(c2, zeros),
{
    assert(!chain_link_ok(c2, i, zeros));
}

} // verus!
