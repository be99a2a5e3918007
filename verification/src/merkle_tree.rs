//! The Merkle tree that stores a block's payload: an ordered binary tree in
//! which every leaf carries the digest of one payload item and every internal
//! node carries the digest of its children's digests. Payload data can be
//! forgotten (the digest stays) and later restored, even from an untrusted
//! source, because every restoration is checked against the retained digests.

use vstd::prelude::*;
use crate::hash::{sha256_of, leaf_hash, node_hash, HashValue};

verus! {

/// Why a tree could not be built.
#[derive(Debug, PartialEq, Eq, Structural)]
pub enum TreeError {
    /// A tree must hold at least one payload item.
    EmptyPayloadSequence,
}

/// The mathematical model of a Merkle tree: the same shape as the executable
/// tree, with every hash as a byte sequence and every payload as the bytes it
/// serializes to.
#[verifier::ext_equal]
pub enum TreeView {
    /// An internal node: a digest and two children.
    Node { hash: Seq<u8>, left: Box<TreeView>, right: Box<TreeView> },
    /// A leaf: a digest and the payload it addresses, if still stored.
    Leaf { hash: Seq<u8>, data: Option<Seq<u8>> },
}

impl TreeView {
    /// The digest at the root of this (sub)tree.
    pub open spec fn root_hash(self) -> Seq<u8> {
        match self {
            TreeView::Node { hash, .. } => hash,
            TreeView::Leaf { hash, .. } => hash,
        }
    }

    /// Every digest is full SHA-256 width.
    pub open spec fn wf(self) -> bool
        decreases self,
    {
        match self {
            TreeView::Node { hash, left, right } => {
                hash.len() == 32 && left.wf() && right.wf()
            },
            TreeView::Leaf { hash, .. } => hash.len() == 32,
        }
    }

    /// Every stored hash matches what it should be: a present leaf's hash is
    /// the digest of its payload, an internal node's hash is the digest of its
    /// children's hashes. A leaf whose payload is absent cannot be disproven
    /// and counts as valid.
    pub open spec fn hashes_ok(self) -> bool
        decreases self,
    {
        match self {
            TreeView::Node { hash, left, right } => {
                &&& hash == sha256_of(left.root_hash() + right.root_hash())
                &&& left.hashes_ok()
                &&& right.hashes_ok()
            },
            TreeView::Leaf { hash, data } => {
                match data {
                    Some(d) => hash == sha256_of(d),
                    None => true,
                }
            },
        }
    }

    /// The payload items still present, left to right.
    pub open spec fn stored(self) -> Seq<Seq<u8>>
        decreases self,
    {
        match self {
            TreeView::Node { left, right, .. } => left.stored() + right.stored(),
            TreeView::Leaf { data: Some(d), .. } => seq![d],
            TreeView::Leaf { data: None, .. } => Seq::empty(),
        }
    }

    /// Whether some node of this (sub)tree carries the digest `h`.
    pub open spec fn contains_hash(self, h: Seq<u8>) -> bool
        decreases self,
    {
        match self {
            TreeView::Node { hash, left, right } => {
                hash == h || left.contains_hash(h) || right.contains_hash(h)
            },
            TreeView::Leaf { hash, .. } => hash == h,
        }
    }

    /// Whether some leaf still holds exactly the payload `x`.
    pub open spec fn has_present_leaf(self, x: Seq<u8>) -> bool
        decreases self,
    {
        match self {
            TreeView::Node { left, right, .. } => {
                left.has_present_leaf(x) || right.has_present_leaf(x)
            },
            TreeView::Leaf { data: Some(d), .. } => d == x,
            TreeView::Leaf { data: None, .. } => false,
        }
    }

    /// Whether some pruned leaf carries the digest `h`.
    pub open spec fn has_absent_leaf(self, h: Seq<u8>) -> bool
        decreases self,
    {
        match self {
            TreeView::Node { left, right, .. } => {
                left.has_absent_leaf(h) || right.has_absent_leaf(h)
            },
            TreeView::Leaf { hash, data: None } => hash == h,
            TreeView::Leaf { data: Some(_), .. } => false,
        }
    }

    /// The tree after forgetting the leftmost leaf that still holds `x`:
    /// its payload is cleared, its digest stays.
    pub open spec fn forget_leaf_spec(self, x: Seq<u8>) -> TreeView
        decreases self,
    {
        match self {
            TreeView::Node { hash, left, right } => {
                if left.has_present_leaf(x) {
                    TreeView::Node { hash, left: Box::new(left.forget_leaf_spec(x)), right }
                } else if right.has_present_leaf(x) {
                    TreeView::Node { hash, left, right: Box::new(right.forget_leaf_spec(x)) }
                } else {
                    self
                }
            },
            TreeView::Leaf { hash, data: Some(d) } => {
                if d == x {
                    TreeView::Leaf { hash, data: None }
                } else {
                    self
                }
            },
            TreeView::Leaf { data: None, .. } => self,
        }
    }

    /// Whether `restore_element(x)` has a leaf to land on: one whose digest is
    /// the digest of `x` and whose payload is absent or already exactly `x`.
    pub open spec fn has_restorable_leaf(self, x: Seq<u8>) -> bool
        decreases self,
    {
        match self {
            TreeView::Node { left, right, .. } => {
                left.has_restorable_leaf(x) || right.has_restorable_leaf(x)
            },
            TreeView::Leaf { hash, data } => {
                hash == sha256_of(x) && (data is None || data == Some(x))
            },
        }
    }

    /// The tree after restoring `x` into the leftmost leaf it can land on.
    pub open spec fn restore_element_spec(self, x: Seq<u8>) -> TreeView
        decreases self,
    {
        match self {
            TreeView::Node { hash, left, right } => {
                if left.has_restorable_leaf(x) {
                    TreeView::Node { hash, left: Box::new(left.restore_element_spec(x)), right }
                } else if right.has_restorable_leaf(x) {
                    TreeView::Node { hash, left, right: Box::new(right.restore_element_spec(x)) }
                } else {
                    self
                }
            },
            TreeView::Leaf { hash, data } => {
                if hash == sha256_of(x) && (data is None || data == Some(x)) {
                    TreeView::Leaf { hash, data: Some(x) }
                } else {
                    self
                }
            },
        }
    }

    /// The tree after clearing every leaf's payload: shape and digests stay.
    pub open spec fn forget_all_spec(self) -> TreeView
        decreases self,
    {
        match self {
            TreeView::Node { hash, left, right } => TreeView::Node {
                hash,
                left: Box::new(left.forget_all_spec()),
                right: Box::new(right.forget_all_spec()),
            },
            TreeView::Leaf { hash, .. } => TreeView::Leaf { hash, data: None },
        }
    }

    /// The tree after collapsing the first node (depth-first, root first,
    /// left before right) whose digest is `h` into a single pruned leaf.
    pub open spec fn forget_subtree_spec(self, h: Seq<u8>) -> TreeView
        decreases self,
    {
        if self.root_hash() == h {
            TreeView::Leaf { hash: self.root_hash(), data: None }
        } else {
            match self {
                TreeView::Node { hash, left, right } => {
                    if left.contains_hash(h) {
                        TreeView::Node { hash, left: Box::new(left.forget_subtree_spec(h)), right }
                    } else if right.contains_hash(h) {
                        TreeView::Node { hash, left, right: Box::new(right.forget_subtree_spec(h)) }
                    } else {
                        self
                    }
                },
                TreeView::Leaf { .. } => self,
            }
        }
    }

    /// The tree after wholesale replacement of the first node whose digest
    /// equals the candidate's root digest. The candidate is adopted as it is:
    /// this can drop payload that the replaced node still stored.
    pub open spec fn insert_subtree_spec(self, s: TreeView) -> TreeView
        decreases self,
    {
        if self.root_hash() == s.root_hash() {
            s
        } else {
            match self {
                TreeView::Node { hash, left, right } => {
                    if left.root_hash() == s.root_hash() {
                        TreeView::Node { hash, left: Box::new(s), right }
                    } else if right.root_hash() == s.root_hash() {
                        TreeView::Node { hash, left, right: Box::new(s) }
                    } else if left.contains_hash(s.root_hash()) {
                        TreeView::Node { hash, left: Box::new(left.insert_subtree_spec(s)), right }
                    } else if right.contains_hash(s.root_hash()) {
                        TreeView::Node { hash, left, right: Box::new(right.insert_subtree_spec(s)) }
                    } else {
                        self
                    }
                },
                TreeView::Leaf { .. } => self,
            }
        }
    }

    /// The lossless merge of a candidate into this node, which the caller has
    /// matched by digest. A leaf that still holds payload keeps it; a pruned
    /// leaf adopts the candidate wholesale, growing back into its shape; two
    /// internal nodes merge their children pairwise, and only where the
    /// children's digests agree.
    pub open spec fn merge_spec(self, c: TreeView) -> TreeView
        decreases self,
    {
        match self {
            TreeView::Leaf { data: Some(_), .. } => self,
            TreeView::Leaf { data: None, .. } => c,
            TreeView::Node { hash, left, right } => {
                match c {
                    TreeView::Leaf { .. } => TreeView::Node { hash, left, right },
                    TreeView::Node { left: cl, right: cr, .. } => TreeView::Node {
                        hash,
                        left: if left.root_hash() == cl.root_hash() {
                            Box::new(left.merge_spec(*cl))
                        } else {
                            left
                        },
                        right: if right.root_hash() == cr.root_hash() {
                            Box::new(right.merge_spec(*cr))
                        } else {
                            right
                        },
                    },
                }
            },
        }
    }

    /// The tree after the lossless restoration of a candidate subtree: the
    /// first node whose digest equals the candidate's root digest is merged
    /// with it; nothing else is touched.
    pub open spec fn restore_subtree_spec(self, c: TreeView) -> TreeView
        decreases self,
    {
        if self.root_hash() == c.root_hash() {
            self.merge_spec(c)
        } else {
            match self {
                TreeView::Node { hash, left, right } => {
                    if left.contains_hash(c.root_hash()) {
                        TreeView::Node { hash, left: Box::new(left.restore_subtree_spec(c)), right }
                    } else if right.contains_hash(c.root_hash()) {
                        TreeView::Node { hash, left, right: Box::new(right.restore_subtree_spec(c)) }
                    } else {
                        self
                    }
                },
                TreeView::Leaf { .. } => self,
            }
        }
    }
}

/// The tree a construction from `items` yields: one leaf for a single item;
/// otherwise a node over the first half (split at the floor of the midpoint)
/// and the second half. Two different orders of the same items generally hash
/// differently: the order is part of what the root digest commits to.
pub open spec fn new_spec(items: Seq<Seq<u8>>) -> TreeView
    decreases items.len(),
{
    if items.len() <= 1 {
        TreeView::Leaf { hash: sha256_of(items[0]), data: Some(items[0]) }
    } else {
        let mid = items.len() as int / 2;
        let l = new_spec(items.subrange(0, mid));
        let r = new_spec(items.subrange(mid, items.len() as int));
        TreeView::Node {
            hash: sha256_of(l.root_hash() + r.root_hash()),
            left: Box::new(l),
            right: Box::new(r),
        }
    }
}

/// Every tree contains its own root digest.
pub proof fn lemma_contains_own_root(t: TreeView)
    ensures
        t.contains_hash(t.root_hash()),
{
    match t {
        TreeView::Node { .. } => {},
        TreeView::Leaf { .. } => {},
    }
}

/// The byte sequences a list of payload vectors stands for.
pub open spec fn bytes_view(s: Seq<Vec<u8>>) -> Seq<Seq<u8>> {
    Seq::new(s.len(), |i: int| s[i]@)
}

/// A block's payload store. Each node owns its subtree exclusively; the shape
/// is fixed at construction and changes only when a whole subtree is collapsed
/// into one pruned leaf or a pruned leaf is regrown from a matching candidate.
#[derive(Debug)]
pub enum MerkleTree {
    /// An internal node: the digest of its children's digests, and the two
    /// children.
    Node { hash: HashValue, left: Box<MerkleTree>, right: Box<MerkleTree> },
    /// A leaf: the digest of one payload item, and the item itself while it is
    /// still stored. Once computed a leaf's digest never changes; forgetting
    /// clears the payload, not the digest.
    Leaf { hash: HashValue, data: Option<Vec<u8>> },
}

/// The model a tree stands for.
pub open spec fn tree_view(t: MerkleTree) -> TreeView
    decreases t,
{
    match t {
        MerkleTree::Node { hash, left, right } => TreeView::Node {
            hash: hash@,
            left: Box::new(tree_view(*left)),
            right: Box::new(tree_view(*right)),
        },
        MerkleTree::Leaf { hash, data } => TreeView::Leaf {
            hash: hash@,
            data: match data {
                Some(d) => Some(d@),
                None => None,
            },
        },
    }
}

impl View for MerkleTree {
    type V = TreeView;

    open spec fn view(&self) -> TreeView {
        tree_view(*self)
    }
}

impl MerkleTree {
    /// Builds a tree over the given payload items, splitting at the floor of
    /// the midpoint and recursing down to one leaf per item. Rejects an empty
    /// sequence; nothing can be added or changed later, only forgotten and
    /// restored.
    pub fn new(items: &[Vec<u8>]) -> (r: Result<MerkleTree, TreeError>)
        ensures
            r is Err <==> items@.len() == 0,
            items@.len() == 0 <==> r == Err::<MerkleTree, TreeError>(TreeError::EmptyPayloadSequence),
            r matches Ok(t) ==> t@ == new_spec(bytes_view(items@)) && t@.wf(),
            r matches Ok(t) ==> t@.hashes_ok() && t@.stored() == bytes_view(items@),
    {
        if items.len() == 0 {
            Err(TreeError::EmptyPayloadSequence)
        } else {
            proof {
                lemma_new_tree_valid(bytes_view(items@));
            }
            Ok(Self::build(items))
        }
    }

    /// The recursive construction behind `new`.
    fn build(items: &[Vec<u8>]) -> (t: MerkleTree)
        requires
            items@.len() >= 1,
        ensures
            t@ == new_spec(bytes_view(items@)),
            t@.wf(),
        decreases items@.len(),
    {
        if items.len() == 1 {
            let item = vstd::slice::slice_index_get(items, 0);
            let payload = vstd::slice::slice_to_vec(item.as_slice());
            let h = leaf_hash(&payload);
            let t = MerkleTree::Leaf { hash: h, data: Some(payload) };
            proof {
                assert(t@ =~= new_spec(bytes_view(items@)));
            }
            t
        } else {
            let mid = items.len() / 2;
            let left = Self::build(vstd::slice::slice_subrange(items, 0, mid));
            let right = Self::build(vstd::slice::slice_subrange(items, mid, items.len()));
            let h = node_hash(left.get_root_hash(), right.get_root_hash());
            let t = MerkleTree::Node { hash: h, left: Box::new(left), right: Box::new(right) };
            proof {
                let iv = bytes_view(items@);
                assert(bytes_view(items@.subrange(0, mid as int)) =~= iv.subrange(0, mid as int));
                assert(bytes_view(items@.subrange(mid as int, items@.len() as int))
                    =~= iv.subrange(mid as int, iv.len() as int));
                assert(t@ =~= new_spec(iv));
            }
            t
        }
    }

    /// The digest at the root of this tree.
    pub fn get_root_hash(&self) -> (r: &HashValue)
        ensures
            r@ == self@.root_hash(),
    {
        match self {
            MerkleTree::Node { hash, .. } => hash,
            MerkleTree::Leaf { hash, .. } => hash,
        }
    }

    /// Recomputes every derivable digest and compares it to the stored one:
    /// a present leaf against the digest of its payload, an internal node
    /// against the digest of its children's digests. False as soon as any
    /// node disagrees; a pruned leaf is vacuously valid.
    pub fn verify(&self) -> (r: bool)
        ensures
            r == self@.hashes_ok(),
        decreases self,
    {
        match self {
            MerkleTree::Leaf { data: None, .. } => true,
            MerkleTree::Leaf { hash, data: Some(d) } => {
                let expected = leaf_hash(d);
                hash.equals(&expected)
            },
            MerkleTree::Node { hash, left, right } => {
                let expected = node_hash(left.get_root_hash(), right.get_root_hash());
                hash.equals(&expected) && left.verify() && right.verify()
            },
        }
    }

    /// The payload items still stored, left to right. After forgetting, this
    /// may be less than what the tree was built from.
    pub fn get_currently_stored_data(&self) -> (r: Vec<Vec<u8>>)
        ensures
            bytes_view(r@) == self@.stored(),
        decreases self,
    {
        match self {
            MerkleTree::Leaf { data: None, .. } => {
                let r: Vec<Vec<u8>> = Vec::new();
                proof {
                    assert(bytes_view(r@) =~= self@.stored());
                }
                r
            },
            MerkleTree::Leaf { data: Some(d), .. } => {
                let mut r: Vec<Vec<u8>> = Vec::new();
                r.push(vstd::slice::slice_to_vec(d.as_slice()));
                proof {
                    assert(bytes_view(r@) =~= self@.stored());
                }
                r
            },
            MerkleTree::Node { left, right, .. } => {
                let mut r = left.get_currently_stored_data();
                let mut rest = right.get_currently_stored_data();
                proof {
                    assert(bytes_view(r@ + rest@) =~= bytes_view(r@) + bytes_view(rest@));
                }
                r.append(&mut rest);
                r
            },
        }
    }

    /// Whether any node of this tree carries the digest `search_hash`.
    pub fn contains_hash(&self, search_hash: &HashValue) -> (r: bool)
        ensures
            r == self@.contains_hash(search_hash@),
        decreases self,
    {
        match self {
            MerkleTree::Leaf { hash, .. } => hash.equals(search_hash),
            MerkleTree::Node { hash, left, right } => {
                hash.equals(search_hash) || left.contains_hash(search_hash)
                    || right.contains_hash(search_hash)
            },
        }
    }

    /// Collapses this tree into a single pruned leaf that carries the
    /// unchanged root digest: the smallest form that still lets every later
    /// restoration be checked. Works on any subtree reference, not only the
    /// overall root.
    pub fn shrink_to_minimum(&mut self)
        ensures
            final(self)@ == (TreeView::Leaf { hash: old(self)@.root_hash(), data: None::<Seq<u8>> }),
            final(self)@.root_hash() == old(self)@.root_hash(),
            final(self)@.hashes_ok(),
            final(self)@.stored() == Seq::<Seq<u8>>::empty(),
            old(self)@.wf() ==> final(self)@.wf(),
    {
        let h = self.get_root_hash().clone();
        *self = MerkleTree::Leaf { hash: h, data: None };
    }

    /// Forgets the leftmost leaf whose present payload equals `element`:
    /// clears the payload, keeps the digest. False when no leaf still holds
    /// that payload.
    pub fn forget_leaf(&mut self, element: &Vec<u8>) -> (r: bool)
        ensures
            r == old(self)@.has_present_leaf(element@),
            final(self)@ == old(self)@.forget_leaf_spec(element@),
            !r ==> final(self)@ == old(self)@,
            final(self)@.root_hash() == old(self)@.root_hash(),
            old(self)@.hashes_ok() ==> final(self)@.hashes_ok(),
            old(self)@.wf() ==> final(self)@.wf(),
        decreases *old(self),
    {
        match self {
            MerkleTree::Leaf { data, .. } => {
                let found = match data {
                    Some(d) => bytes_eq(d, element),
                    None => false,
                };
                if found {
                    *data = None;
                    true
                } else {
                    false
                }
            },
            MerkleTree::Node { left, right, .. } => {
                if left.forget_leaf(element) {
                    true
                } else {
                    right.forget_leaf(element)
                }
            },
        }
    }

    /// Restores one payload item: finds the leftmost leaf whose digest is the
    /// digest of `element` and whose payload is absent or already that item,
    /// and fills it. False when no such leaf exists; a larger restoration may
    /// then be needed.
    pub fn restore_element(&mut self, element: &Vec<u8>) -> (r: bool)
        ensures
            r == old(self)@.has_restorable_leaf(element@),
            final(self)@ == old(self)@.restore_element_spec(element@),
            !r ==> final(self)@ == old(self)@,
            final(self)@.root_hash() == old(self)@.root_hash(),
            old(self)@.hashes_ok() ==> final(self)@.hashes_ok(),
            old(self)@.wf() ==> final(self)@.wf(),
    {
        let element_hash = leaf_hash(element);
        self.restore_element_at(element, &element_hash)
    }

    /// The recursive search behind `restore_element`, with the digest of the
    /// element computed once up front.
    fn restore_element_at(&mut self, element: &Vec<u8>, element_hash: &HashValue) -> (r: bool)
        requires
            element_hash@ == sha256_of(element@),
        ensures
            r == old(self)@.has_restorable_leaf(element@),
            final(self)@ == old(self)@.restore_element_spec(element@),
            !r ==> final(self)@ == old(self)@,
            final(self)@.root_hash() == old(self)@.root_hash(),
            old(self)@.hashes_ok() ==> final(self)@.hashes_ok(),
            old(self)@.wf() ==> final(self)@.wf(),
        decreases *old(self),
    {
        match self {
            MerkleTree::Leaf { hash, data } => {
                let landable = hash.equals(element_hash) && match data {
                    Some(d) => bytes_eq(d, element),
                    None => true,
                };
                if landable {
                    *data = Some(vstd::slice::slice_to_vec(element.as_slice()));
                    true
                } else {
                    false
                }
            },
            MerkleTree::Node { left, right, .. } => {
                if left.restore_element_at(element, element_hash) {
                    true
                } else {
                    right.restore_element_at(element, element_hash)
                }
            },
        }
    }

    /// Clears every leaf's payload while keeping the whole shape and every
    /// digest: less severe than `shrink_to_minimum`, since each item can
    /// afterwards be restored individually, in any order.
    pub fn forget_all_leaves(&mut self)
        ensures
            final(self)@ == old(self)@.forget_all_spec(),
            final(self)@.root_hash() == old(self)@.root_hash(),
            final(self)@.stored() == Seq::<Seq<u8>>::empty(),
            old(self)@.hashes_ok() ==> final(self)@.hashes_ok(),
            old(self)@.wf() ==> final(self)@.wf(),
        decreases *old(self),
    {
        match self {
            MerkleTree::Leaf { data, .. } => {
                *data = None;
            },
            MerkleTree::Node { left, right, .. } => {
                left.forget_all_leaves();
                right.forget_all_leaves();
                proof {
                    assert(final(self)@.stored() =~= Seq::<Seq<u8>>::empty());
                }
            },
        }
    }

    /// Collapses the first subtree whose root digest is `h` into a single
    /// pruned leaf carrying that digest. With the tree's own root digest this
    /// is `shrink_to_minimum`. False when no node carries `h`.
    pub fn forget_subtree(&mut self, h: &HashValue) -> (r: bool)
        ensures
            r == old(self)@.contains_hash(h@),
            final(self)@ == old(self)@.forget_subtree_spec(h@),
            !r ==> final(self)@ == old(self)@,
            final(self)@.root_hash() == old(self)@.root_hash(),
            old(self)@.hashes_ok() ==> final(self)@.hashes_ok(),
            old(self)@.wf() ==> final(self)@.wf(),
        decreases *old(self),
    {
        if self.get_root_hash().equals(h) {
            self.shrink_to_minimum();
            true
        } else {
            match self {
                MerkleTree::Leaf { .. } => false,
                MerkleTree::Node { left, right, .. } => {
                    if left.forget_subtree(h) {
                        true
                    } else {
                        right.forget_subtree(h)
                    }
                },
            }
        }
    }
    /// Replaces the first node whose digest equals the candidate's root
    /// digest with the candidate, wholesale and unchecked. The candidate may
    /// carry less payload than the node it replaces: this primitive can lose
    /// data as well as add it. `restore_subtree` is the lossless alternative.
    /// False when no node carries the candidate's root digest; the digests
    /// themselves never change either way.
    pub fn insert_subtree(&mut self, subtree: MerkleTree) -> (r: bool)
        ensures
            r == old(self)@.contains_hash(subtree@.root_hash()),
            final(self)@ == old(self)@.insert_subtree_spec(subtree@),
            !r ==> final(self)@ == old(self)@,
            final(self)@.root_hash() == old(self)@.root_hash(),
            old(self)@.hashes_ok() && subtree@.hashes_ok() ==> final(self)@.hashes_ok(),
            old(self)@.wf() && subtree@.wf() ==> final(self)@.wf(),
        decreases *old(self),
    {
        if self.get_root_hash().equals(subtree.get_root_hash()) {
            proof {
                lemma_contains_own_root(self@);
            }
            *self = subtree;
            return true;
        }
        match self {
            MerkleTree::Leaf { .. } => false,
            MerkleTree::Node { left, right, .. } => {
                if left.get_root_hash().equals(subtree.get_root_hash()) {
                    proof {
                        lemma_contains_own_root(left@);
                    }
                    *left = Box::new(subtree);
                    true
                } else if right.get_root_hash().equals(subtree.get_root_hash()) {
                    proof {
                        lemma_contains_own_root(right@);
                    }
                    *right = Box::new(subtree);
                    true
                } else if left.contains_hash(subtree.get_root_hash()) {
                    left.insert_subtree(subtree)
                } else if right.contains_hash(subtree.get_root_hash()) {
                    right.insert_subtree(subtree)
                } else {
                    false
                }
            },
        }
    }

    /// Restores a candidate subtree losslessly: finds the first node whose
    /// digest equals the candidate's root digest and merges the candidate
    /// into it, keeping every payload item already present and adopting what
    /// the candidate has and this tree lacks. A pruned leaf grows back into
    /// the candidate's shape. Never stores fewer items than before. False
    /// when the candidate's root digest occurs nowhere in this tree; a larger
    /// candidate may then be needed. The candidate is not checked for
    /// validity: verify a tree from an untrusted source first.
    pub fn restore_subtree(&mut self, subtree: MerkleTree) -> (r: bool)
        ensures
            r == old(self)@.contains_hash(subtree@.root_hash()),
            final(self)@ == old(self)@.restore_subtree_spec(subtree@),
            !r ==> final(self)@ == old(self)@,
            final(self)@.root_hash() == old(self)@.root_hash(),
            final(self)@.stored().len() >= old(self)@.stored().len(),
            old(self)@.hashes_ok() && subtree@.hashes_ok() ==> final(self)@.hashes_ok(),
            old(self)@.wf() && subtree@.wf() ==> final(self)@.wf(),
        decreases *old(self),
    {
        if self.get_root_hash().equals(subtree.get_root_hash()) {
            proof {
                lemma_contains_own_root(self@);
            }
            self.merge_from(subtree);
            return true;
        }
        match self {
            MerkleTree::Leaf { .. } => false,
            MerkleTree::Node { left, right, .. } => {
                if left.contains_hash(subtree.get_root_hash()) {
                    left.restore_subtree(subtree)
                } else if right.contains_hash(subtree.get_root_hash()) {
                    right.restore_subtree(subtree)
                } else {
                    false
                }
            },
        }
    }

    /// The merge behind `restore_subtree`, applied at a node the caller has
    /// matched by digest: present payload is kept, a pruned leaf adopts the
    /// candidate, two internal nodes merge children pairwise where the
    /// children's digests agree.
    fn merge_from(&mut self, candidate: MerkleTree)
        ensures
            final(self)@ == old(self)@.merge_spec(candidate@),
            final(self)@.stored().len() >= old(self)@.stored().len(),
            old(self)@.root_hash() == candidate@.root_hash()
                ==> final(self)@.root_hash() == old(self)@.root_hash(),
            old(self)@.hashes_ok() && candidate@.hashes_ok() ==> final(self)@.hashes_ok(),
            old(self)@.wf() && candidate@.wf() ==> final(self)@.wf(),
        decreases *old(self),
    {
        match self {
            MerkleTree::Leaf { data: Some(_), .. } => {},
            MerkleTree::Leaf { data: None, .. } => {
                *self = candidate;
            },
            MerkleTree::Node { left, right, .. } => {
                match candidate {
                    MerkleTree::Leaf { .. } => {},
                    MerkleTree::Node { left: cl, right: cr, .. } => {
                        if left.get_root_hash().equals(cl.get_root_hash()) {
                            left.merge_from(*cl);
                        }
                        if right.get_root_hash().equals(cr.get_root_hash()) {
                            right.merge_from(*cr);
                        }
                    },
                }
            },
        }
    }
}

/// A tree built from any non-empty item sequence is valid, stores exactly
/// those items, in order, and has no pruned leaf yet — so forgetting any one
/// stored item and restoring it brings back exactly the original tree (see
/// `lemma_forget_then_restore`).
pub proof fn lemma_new_tree_valid(items: Seq<Seq<u8>>)
    requires
        items.len() >= 1,
    ensures
        new_spec(items).hashes_ok(),
        new_spec(items).stored() == items,
        forall|h: Seq<u8>| !(#[trigger] new_spec(items).has_absent_leaf(h)),
    decreases items.len(),
{
    if items.len() <= 1 {
        assert(new_spec(items).stored() =~= items);
    } else {
        let mid = items.len() as int / 2;
        lemma_new_tree_valid(items.subrange(0, mid));
        lemma_new_tree_valid(items.subrange(mid, items.len() as int));
        assert(items.subrange(0, mid) + items.subrange(mid, items.len() as int) =~= items);
        assert forall|h: Seq<u8>| !(#[trigger] new_spec(items).has_absent_leaf(h)) by {
            assert(!new_spec(items.subrange(0, mid)).has_absent_leaf(h));
            assert(!new_spec(items.subrange(mid, items.len() as int)).has_absent_leaf(h));
        }
    }
}

/// A leaf that `restore_element(x)` could land on is either a leaf still
/// holding `x` or a pruned leaf carrying the digest of `x`: where neither
/// exists, no restoration target exists.
proof fn lemma_no_restorable_leaf(t: TreeView, x: Seq<u8>)
    requires
        !t.has_present_leaf(x),
        !t.has_absent_leaf(sha256_of(x)),
    ensures
        !t.has_restorable_leaf(x),
    decreases t,
{
    match t {
        TreeView::Node { left, right, .. } => {
            lemma_no_restorable_leaf(*left, x);
            lemma_no_restorable_leaf(*right, x);
        },
        TreeView::Leaf { .. } => {},
    }
}

/// Forgetting a stored item and then restoring that same item yields the
/// original tree back — stored data, order and all. This holds of every
/// valid tree in which no pruned leaf already carries the item's digest:
/// such a leaf would capture the restoration in place of the forgotten one.
pub proof fn lemma_forget_then_restore(t: TreeView, x: Seq<u8>)
    requires
        t.hashes_ok(),
        t.has_present_leaf(x),
        !t.has_absent_leaf(sha256_of(x)),
    ensures
        t.forget_leaf_spec(x).has_restorable_leaf(x),
        t.forget_leaf_spec(x).restore_element_spec(x) == t,
        t.forget_leaf_spec(x).restore_element_spec(x).stored() == t.stored(),
    decreases t,
{
    match t {
        TreeView::Node { hash, left, right } => {
            if left.has_present_leaf(x) {
                lemma_forget_then_restore(*left, x);
            } else {
                lemma_forget_then_restore(*right, x);
                lemma_no_restorable_leaf(*left, x);
            }
        },
        TreeView::Leaf { .. } => {},
    }
}

impl Clone for MerkleTree {
    fn clone(&self) -> (r: MerkleTree)
        ensures
            r@ == self@,
        decreases self,
    {
        match self {
            MerkleTree::Leaf { hash, data } => {
                let d = match data {
                    Some(d) => Some(vstd::slice::slice_to_vec(d.as_slice())),
                    None => None,
                };
                MerkleTree::Leaf { hash: hash.clone(), data: d }
            },
            MerkleTree::Node { hash, left, right } => {
                MerkleTree::Node {
                    hash: hash.clone(),
                    left: Box::new((**left).clone()),
                    right: Box::new((**right).clone()),
                }
            },
        }
    }
}

/// Byte-for-byte equality of two payload vectors.
fn bytes_eq(a: &Vec<u8>, b: &Vec<u8>) -> (r: bool)
    ensures
        r == (a@ == b@),
{
    let r = *a == *b;
    proof {
        if r {
            assert(a@ =~= b@);
        }
    }
    r
}

} // verus!
