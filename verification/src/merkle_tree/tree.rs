//! The sparse Merkle tree: cached node hashes over a table of the hashes of
//! empty subtrees.

use crate::merkle_tree::circuits::{rebuilt, rebuilt_root};
use crate::merkle_tree::field::{pair_hash, FieldElement, HashConfig};
pub use crate::merkle_tree::path::usize_to_vec;
use crate::merkle_tree::path::{
    index_fits,
    index_in_range,
    lemma_in_range_iff_shifted_out,
    lemma_shifted_bounded,
    shifted,
    MerkleError,
};
use std::collections::HashMap;
use vstd::arithmetic::power2::{lemma2_to64, lemma_pow2_pos, lemma_pow2_unfold, pow2};
use vstd::prelude::*;

verus! {

broadcast use vstd::std_specs::hash::group_hash_axioms;

/// Can be a leaf of a Merkle tree.
pub trait Leafable: Sized + Copy {
    /// The value that stands for an empty leaf.
    spec fn spec_empty_leaf() -> Self;

    /// The hash of the value.
    spec fn spec_hash(&self) -> FieldElement;

    /// The value that stands for an empty leaf.
    fn empty_leaf() -> (leaf: Self)
        ensures
            leaf == Self::spec_empty_leaf(),
    ;

    /// The hash of the value.
    fn hash(&self) -> (digest: FieldElement)
        ensures
            digest == self.spec_hash(),
    ;
}

impl Leafable for FieldElement {
    open spec fn spec_empty_leaf() -> Self {
        FieldElement::spec_zero()
    }

    open spec fn spec_hash(&self) -> FieldElement {
        *self
    }

    fn empty_leaf() -> (leaf: Self) {
        FieldElement::zero()
    }

    fn hash(&self) -> (digest: FieldElement) {
        *self
    }
}

/// The hash of an empty subtree with `levels` levels below its root, over the
/// hash `empty` of an empty leaf.
pub open spec fn zero_hash(empty: FieldElement, levels: nat) -> FieldElement
    decreases levels,
{
    if levels == 0 {
        empty
    } else {
        let below = zero_hash(empty, (levels - 1) as nat);
        pair_hash(below, below)
    }
}

/// The hash of the full subtree with `levels` levels below its root, the
/// root at `pos` of its level, over the leaf hashes that `leaf_hash` gives
/// by index.
pub open spec fn subtree_hash(leaf_hash: spec_fn(nat) -> FieldElement, levels: nat, pos: nat)
    -> FieldElement
    decreases levels,
{
    if levels == 0 {
        leaf_hash(pos)
    } else {
        pair_hash(
            subtree_hash(leaf_hash, (levels - 1) as nat, 2 * pos),
            subtree_hash(leaf_hash, (levels - 1) as nat, 2 * pos + 1),
        )
    }
}

/// The key under which the node at `pos` of level `depth` is cached.
pub open spec fn node_key(depth: nat, pos: nat) -> u128 {
    (depth * 0x1_0000_0000_0000_0000 + pos) as u128
}

/// The position of the other child of a node's parent.
pub open spec fn sibling_pos(pos: nat) -> nat {
    if pos % 2 == 1 {
        (pos - 1) as nat
    } else {
        pos + 1
    }
}

fn key_at(depth: usize, pos: usize) -> (key: u128)
    ensures
        key == node_key(depth as nat, pos as nat),
{
    (depth as u128) * 0x1_0000_0000_0000_0000u128 + (pos as u128)
}

/// Different nodes have different keys.
pub proof fn lemma_node_key_injective(d1: nat, p1: nat, d2: nat, p2: nat)
    requires
        d1 <= usize::MAX,
        d2 <= usize::MAX,
        p1 <= usize::MAX,
        p2 <= usize::MAX,
        node_key(d1, p1) == node_key(d2, p2),
    ensures
        d1 == d2,
        p1 == p2,
{
}

/// A sparse Merkle tree of a fixed height. Level 0 is the root and level
/// `height` holds the leaves; the node at `pos` of a level has the nodes at
/// `2 * pos` and `2 * pos + 1` of the next level as its children.
pub struct MerkleTree<V: Leafable> {
    pub(crate) poseidon_constants: HashConfig,
    pub(crate) height: usize,
    pub(crate) node_hashes: HashMap<u128, FieldElement>,
    pub(crate) leaves: HashMap<usize, V>,
    pub(crate) zero_hashes: Vec<FieldElement>,
}

impl<V: Leafable> MerkleTree<V> {
    /// The height of the tree.
    pub closed spec fn spec_height(&self) -> nat {
        self.height as nat
    }

    /// The hash of the subtree rooted at `pos` of level `depth`: the cached
    /// hash, or the hash of an empty subtree of that depth.
    pub closed spec fn node(&self, depth: nat, pos: nat) -> FieldElement {
        if self.node_hashes@.contains_key(node_key(depth, pos)) {
            self.node_hashes@[node_key(depth, pos)]
        } else {
            self.zero_hashes@[depth as int]
        }
    }

    /// The leaf at `index`: the stored value, or the empty leaf.
    pub closed spec fn leaf(&self, index: nat) -> V {
        if self.leaves@.contains_key(index as usize) {
            self.leaves@[index as usize]
        } else {
            V::spec_empty_leaf()
        }
    }

    /// The cache holds a hash for the node at `pos` of level `depth`: the
    /// node lies on the way from a leaf that was set to the root.
    pub closed spec fn cached(&self, depth: nat, pos: nat) -> bool {
        depth <= usize::MAX && pos <= usize::MAX && self.node_hashes@.contains_key(
            node_key(depth, pos),
        )
    }

    /// A value was stored at `index`, be it the empty leaf: a slot that was
    /// set is told apart from one that never was.
    pub closed spec fn stored(&self, index: nat) -> bool {
        index <= usize::MAX && self.leaves@.contains_key(index as usize)
    }

    /// The hash of the leaf at each index.
    pub open spec fn leaf_hashes(&self) -> spec_fn(nat) -> FieldElement {
        |index: nat|
            if index <= usize::MAX {
                self.leaf(index).spec_hash()
            } else {
                V::spec_empty_leaf().spec_hash()
            }
    }

    /// The root of the tree.
    pub open spec fn root(&self) -> FieldElement {
        self.node(0, 0)
    }

    /// The node at `pos` of level `depth` is the hash of its two children.
    pub open spec fn merkle_at(&self, depth: nat, pos: nat) -> bool {
        self.node(depth, pos) == pair_hash(
            self.node(depth + 1, 2 * pos),
            self.node(depth + 1, 2 * pos + 1),
        )
    }

    /// The sibling hashes along the way from the leaf at `index` to the root,
    /// leaf-adjacent first.
    pub open spec fn sibling_path(&self, index: nat) -> Seq<FieldElement> {
        Seq::new(
            self.spec_height(),
            |k: int| self.node((self.spec_height() - k) as nat, sibling_pos(shifted(index, k as nat))),
        )
    }

    /// The table of empty-subtree hashes has one entry for each level.
    pub closed spec fn shaped(&self) -> bool {
        self.zero_hashes@.len() == self.height + 1
    }

    /// The tree's invariant: the table holds the hashes of the empty
    /// subtrees, every inner node is the hash of its children, and every
    /// node of the last level is the hash of the leaf at its position.
    pub closed spec fn wf(&self) -> bool {
        &&& self.shaped()
        &&& forall|d: int|
            0 <= d <= self.height ==> #[trigger] self.zero_hashes@[d] == zero_hash(
                V::spec_empty_leaf().spec_hash(),
                (self.height - d) as nat,
            )
        &&& forall|d: nat, pos: nat|
            d < self.height && 2 * pos + 1 <= usize::MAX ==> #[trigger] self.merkle_at(d, pos)
        &&& forall|index: nat|
            index <= usize::MAX ==> #[trigger] self.node(self.height as nat, index) == self.leaf(
                index,
            ).spec_hash()
    }

    /// A tree of the given height whose leaves are all empty.
    pub fn new(height: usize) -> (tree: Self)
        requires
            height < usize::MAX,
        ensures
            tree.wf(),
            tree.spec_height() == height,
            forall|index: nat| #[trigger] tree.leaf(index) == V::spec_empty_leaf(),
            forall|index: nat| !#[trigger] tree.stored(index),
            forall|d: nat, pos: nat| !#[trigger] tree.cached(d, pos),
            forall|d: nat, pos: nat|
                d <= height ==> #[trigger] tree.node(d, pos) == zero_hash(
                    V::spec_empty_leaf().spec_hash(),
                    (height - d) as nat,
                ),
    {
        let poseidon_constants = HashConfig::new();
        let empty = V::empty_leaf().hash();
        let mut zero_hashes: Vec<FieldElement> = Vec::new();
        let mut i: usize = 0;
        while i <= height
            invariant
                i <= height + 1,
                height < usize::MAX,
                zero_hashes@.len() == i,
                forall|j: int| 0 <= j < i ==> zero_hashes@[j] == empty,
            decreases height + 1 - i,
        {
            zero_hashes.push(empty);
            i += 1;
        }
        let mut d: usize = height;
        while d > 0
            invariant
                d <= height,
                zero_hashes@.len() == height + 1,
                forall|j: int|
                    d <= j <= height ==> #[trigger] zero_hashes@[j] == zero_hash(
                        empty,
                        (height - j) as nat,
                    ),
            decreases d,
        {
            let below = zero_hashes[d];
            let h = poseidon_constants.hash_pair(&below, &below);
            d -= 1;
            zero_hashes.set(d, h);
        }
        let node_hashes: HashMap<u128, FieldElement> = HashMap::new();
        let leaves: HashMap<usize, V> = HashMap::new();
        let tree = MerkleTree { poseidon_constants, height, node_hashes, leaves, zero_hashes };
        proof {
            assert forall|dd: nat, pos: nat|
                dd < height && 2 * pos + 1 <= usize::MAX implies #[trigger] tree.merkle_at(
                dd,
                pos,
            ) by {
                assert(tree.zero_hashes@[dd as int] == zero_hash(empty, (height - dd) as nat));
                assert(tree.zero_hashes@[dd as int + 1] == zero_hash(empty, (height - (dd + 1)) as nat));
            }
        }
        tree
    }

    fn node_hash_at(&self, depth: usize, pos: usize) -> (h: FieldElement)
        requires
            self.shaped(),
            depth <= self.height,
        ensures
            h == self.node(depth as nat, pos as nat),
    {
        let key = key_at(depth, pos);
        match self.node_hashes.get(&key) {
            Some(h) => *h,
            None => self.zero_hashes[depth],
        }
    }

    fn sibling_hash_at(&self, depth: usize, pos: usize) -> (h: FieldElement)
        requires
            self.shaped(),
            depth <= self.height,
        ensures
            h == self.node(depth as nat, sibling_pos(pos as nat)),
    {
        if pos % 2 == 1 {
            self.node_hash_at(depth, pos - 1)
        } else {
            self.node_hash_at(depth, pos + 1)
        }
    }

    /// The hash of the subtree rooted at `pos` of level `depth`.
    pub fn get_node_hash(&self, depth: usize, pos: usize) -> (h: FieldElement)
        requires
            self.wf(),
            depth <= self.spec_height(),
        ensures
            h == self.node(depth as nat, pos as nat),
    {
        self.node_hash_at(depth, pos)
    }

    /// The hash of the sibling of the node at `pos` of level `depth`, which
    /// is not the root.
    pub fn get_sibling_hash(&self, depth: usize, pos: usize) -> (h: FieldElement)
        requires
            self.wf(),
            1 <= depth <= self.spec_height(),
        ensures
            h == self.node(depth as nat, sibling_pos(pos as nat)),
    {
        self.sibling_hash_at(depth, pos)
    }

    /// The root of the tree.
    pub fn get_root(&self) -> (h: FieldElement)
        requires
            self.wf(),
        ensures
            h == self.root(),
    {
        self.node_hash_at(0, 0)
    }

    /// The leaf at `index`, the empty leaf where none was stored.
    pub fn get_leaf(&self, index: usize) -> (leaf: V)
        ensures
            leaf == self.leaf(index as nat),
    {
        match self.leaves.get(&index) {
            Some(leaf) => *leaf,
            None => V::empty_leaf(),
        }
    }

    /// Whether the cache holds a hash for the node at `pos` of level `depth`.
    pub fn is_cached(&self, depth: usize, pos: usize) -> (b: bool)
        ensures
            b == self.cached(depth as nat, pos as nat),
    {
        let key = key_at(depth, pos);
        self.node_hashes.contains_key(&key)
    }

    /// Whether a value was stored at `index`.
    pub fn is_stored(&self, index: usize) -> (b: bool)
        ensures
            b == self.stored(index as nat),
    {
        self.leaves.contains_key(&index)
    }

    /// The height of the tree.
    pub fn height(&self) -> (h: usize)
        ensures
            h == self.spec_height(),
    {
        self.height
    }

    /// `after` is `before` with the leaf at `index` set to `leaf`: a
    /// well-formed tree of the same height in which that leaf is stored,
    /// every other leaf is as it was, and so is every node that does not lie
    /// on the way from that leaf to the root.
    pub open spec fn updated(before: Self, after: Self, index: nat, leaf: V) -> bool {
        &&& after.wf()
        &&& after.spec_height() == before.spec_height()
        &&& after.leaf(index) == leaf
        &&& forall|i: nat| i <= usize::MAX && i != index ==> #[trigger] after.leaf(i) == before.leaf(i)
        &&& forall|i: nat| #[trigger] after.stored(i) == (i == index || before.stored(i))
        &&& forall|d: nat, pos: nat|
            d <= usize::MAX && pos <= usize::MAX ==> #[trigger] after.cached(d, pos) == (
            before.cached(d, pos) || (d <= before.spec_height() && pos == shifted(
                index,
                (before.spec_height() - d) as nat,
            )))
        &&& forall|d: nat, pos: nat|
            d <= before.spec_height() && pos <= usize::MAX && pos != shifted(
                index,
                (before.spec_height() - d) as nat,
            ) ==> #[trigger] after.node(d, pos) == before.node(d, pos)
    }

    proof fn lemma_node_after_insert(
        before: Self,
        after: Self,
        depth: nat,
        pos: nat,
        h: FieldElement,
    )
        requires
            depth <= usize::MAX,
            pos <= usize::MAX,
            after.node_hashes@ == before.node_hashes@.insert(node_key(depth, pos), h),
            after.zero_hashes@ == before.zero_hashes@,
        ensures
            after.node(depth, pos) == h,
            after.cached(depth, pos),
            forall|d: nat, p: nat|
                d <= usize::MAX && p <= usize::MAX && !(d == depth && p == pos)
                    ==> #[trigger] after.node(d, p) == before.node(d, p),
            forall|d: nat, p: nat|
                d <= usize::MAX && p <= usize::MAX && !(d == depth && p == pos)
                    ==> #[trigger] after.cached(d, p) == before.cached(d, p),
    {
        assert forall|d: nat, p: nat|
            d <= usize::MAX && p <= usize::MAX && !(d == depth && p == pos)
                implies #[trigger] after.cached(d, p) == before.cached(d, p) by {
            if node_key(d, p) == node_key(depth, pos) {
                lemma_node_key_injective(d, p, depth, pos);
            }
        }
        assert forall|d: nat, p: nat|
            d <= usize::MAX && p <= usize::MAX && !(d == depth && p == pos)
                implies #[trigger] after.node(d, p) == before.node(d, p) by {
            if node_key(d, p) == node_key(depth, pos) {
                lemma_node_key_injective(d, p, depth, pos);
            }
        }
    }

    /// Sets the leaf at `index` and rehashes the way from it to the root.
    /// Returns the new root, or `InvalidIndex`, with the tree left as it
    /// was, when the index names no leaf.
    pub fn update(&mut self, index: usize, leaf: V) -> (r: Result<FieldElement, MerkleError>)
        requires
            old(self).wf(),
        ensures
            index_in_range(index as nat, old(self).spec_height()) ==> {
                &&& r == Ok::<FieldElement, MerkleError>(final(self).root())
                &&& Self::updated(*old(self), *final(self), index as nat, leaf)
                &&& final(self).sibling_path(index as nat) == old(self).sibling_path(index as nat)
                &&& final(self).root() == rebuilt_root(
                    leaf.spec_hash(),
                    index as nat,
                    old(self).sibling_path(index as nat),
                )
            },
            !index_in_range(index as nat, old(self).spec_height()) ==> {
                &&& r == Err::<FieldElement, MerkleError>(MerkleError::InvalidIndex)
                &&& *final(self) == *old(self)
            },
    {
        if !index_fits(index, self.height) {
            return Err(MerkleError::InvalidIndex);
        }
        let ghost before = *self;
        let ghost top = self.height as nat;
        let mut h = leaf.hash();
        self.leaves.insert(index, leaf);
        let mut depth: usize = self.height;
        let mut pos: usize = index;
        let ghost prev = *self;
        self.node_hashes.insert(key_at(depth, pos), h);
        proof {
            Self::lemma_node_after_insert(prev, *self, depth as nat, pos as nat, h);
        }
        while depth > 0
            invariant
                before.wf(),
                self.height == before.height,
                top == self.height,
                self.zero_hashes@ == before.zero_hashes@,
                self.leaves@ == before.leaves@.insert(index, leaf),
                self.shaped(),
                depth <= self.height,
                pos == shifted(index as nat, (top - depth) as nat),
                h == self.node(depth as nat, pos as nat),
                self.node(top, index as nat) == leaf.spec_hash(),
                forall|d: nat, p: nat|
                    d <= top && p <= usize::MAX && p != shifted(index as nat, (top - d) as nat)
                        ==> #[trigger] self.node(d, p) == before.node(d, p),
                forall|d: nat, p: nat|
                    d < depth && p <= usize::MAX ==> #[trigger] self.node(d, p) == before.node(
                        d,
                        p,
                    ),
                forall|d: nat, p: nat|
                    d <= usize::MAX && p <= usize::MAX ==> #[trigger] self.cached(d, p) == (
                    before.cached(d, p) || (depth <= d <= top && p == shifted(
                        index as nat,
                        (top - d) as nat,
                    ))),
                forall|d: nat, p: nat|
                    depth <= d < top && 2 * p + 1 <= usize::MAX ==> #[trigger] self.merkle_at(
                        d,
                        p,
                    ),
            decreases depth,
        {
            let sibling = self.sibling_hash_at(depth, pos);
            let parent = if pos % 2 == 1 {
                self.poseidon_constants.hash_pair(&sibling, &h)
            } else {
                self.poseidon_constants.hash_pair(&h, &sibling)
            };
            let ghost prev = *self;
            let ghost child_pos = pos as nat;
            depth -= 1;
            pos = pos / 2;
            self.node_hashes.insert(key_at(depth, pos), parent);
            h = parent;
            proof {
                Self::lemma_node_after_insert(prev, *self, depth as nat, pos as nat, parent);
                assert(shifted(index as nat, (top - depth) as nat) == shifted(
                    index as nat,
                    (top - depth - 1) as nat,
                ) / 2);
                assert(self.node(depth as nat + 1, child_pos) == prev.node(
                    depth as nat + 1,
                    child_pos,
                ));
                assert(self.node(depth as nat + 1, sibling_pos(child_pos)) == prev.node(
                    depth as nat + 1,
                    sibling_pos(child_pos),
                ));
                assert(self.merkle_at(depth as nat, pos as nat));
                assert forall|d: nat, p: nat|
                    depth <= d < top && 2 * p + 1 <= usize::MAX implies #[trigger] self.merkle_at(
                    d,
                    p,
                ) by {
                    if d == depth && p == pos {
                    } else if d == depth {
                        assert(before.merkle_at(d, p));
                        assert(self.node(d, p) == prev.node(d, p));
                        assert(self.node(d + 1, 2 * p) == prev.node(d + 1, 2 * p));
                        assert(self.node(d + 1, 2 * p + 1) == prev.node(d + 1, 2 * p + 1));
                        assert(prev.node(d + 1, 2 * p) == before.node(d + 1, 2 * p));
                        assert(prev.node(d + 1, 2 * p + 1) == before.node(d + 1, 2 * p + 1));
                    } else {
                        assert(prev.merkle_at(d, p));
                        assert(self.node(d, p) == prev.node(d, p));
                        assert(self.node(d + 1, 2 * p) == prev.node(d + 1, 2 * p));
                        assert(self.node(d + 1, 2 * p + 1) == prev.node(d + 1, 2 * p + 1));
                    }
                }
            }
        }
        proof {
            lemma_in_range_iff_shifted_out(index as nat, top);
            assert forall|i: nat| i <= usize::MAX implies #[trigger] self.node(top, i)
                == self.leaf(i).spec_hash() by {
                if i != index {
                    assert(self.node(top, i) == before.node(top, i));
                    assert(before.node(top, i) == before.leaf(i).spec_hash());
                }
            }
            assert(self.wf());
            assert(Self::updated(before, *self, index as nat, leaf));
            Self::lemma_update_keeps_siblings(before, *self, index as nat, leaf);
            self.lemma_rebuilt_is_node(index as nat, top);
        }
        Ok(h)
    }

    /// Sets the leaf at `index` to the empty leaf. The slot stays stored:
    /// this is `update` with the empty leaf.
    pub fn remove(&mut self, index: usize) -> (r: Result<FieldElement, MerkleError>)
        requires
            old(self).wf(),
        ensures
            index_in_range(index as nat, old(self).spec_height()) ==> {
                &&& r == Ok::<FieldElement, MerkleError>(final(self).root())
                &&& Self::updated(*old(self), *final(self), index as nat, V::spec_empty_leaf())
                &&& final(self).sibling_path(index as nat) == old(self).sibling_path(index as nat)
                &&& final(self).root() == rebuilt_root(
                    V::spec_empty_leaf().spec_hash(),
                    index as nat,
                    old(self).sibling_path(index as nat),
                )
            },
            !index_in_range(index as nat, old(self).spec_height()) ==> {
                &&& r == Err::<FieldElement, MerkleError>(MerkleError::InvalidIndex)
                &&& *final(self) == *old(self)
            },
    {
        self.update(index, V::empty_leaf())
    }

    /// The sibling hashes along the way from the leaf at `index` to the root,
    /// leaf-adjacent first, or `InvalidIndex` when the index names no leaf.
    pub fn prove(&self, index: usize) -> (r: Result<Vec<FieldElement>, MerkleError>)
        requires
            self.wf(),
        ensures
            index_in_range(index as nat, self.spec_height()) ==> {
                &&& r.is_ok()
                &&& r.unwrap()@ == self.sibling_path(index as nat)
                &&& r.unwrap()@.len() == self.spec_height()
            },
            !index_in_range(index as nat, self.spec_height()) ==> r == Err::<
                Vec<FieldElement>,
                MerkleError,
            >(MerkleError::InvalidIndex),
    {
        if !index_fits(index, self.height) {
            return Err(MerkleError::InvalidIndex);
        }
        let mut siblings: Vec<FieldElement> = Vec::new();
        let mut depth: usize = self.height;
        let mut pos: usize = index;
        while depth > 0
            invariant
                self.shaped(),
                depth <= self.height,
                pos == shifted(index as nat, (self.height - depth) as nat),
                siblings@.len() == self.height - depth,
                forall|k: int|
                    0 <= k < siblings@.len() ==> siblings@[k] == self.node(
                        (self.height - k) as nat,
                        sibling_pos(shifted(index as nat, k as nat)),
                    ),
            decreases depth,
        {
            let sibling = self.sibling_hash_at(depth, pos);
            siblings.push(sibling);
            depth -= 1;
            pos = pos / 2;
        }
        assert(siblings@ =~= self.sibling_path(index as nat));
        Ok(siblings)
    }

    /// Folding the first `k` siblings of a leaf's path into the node of that
    /// leaf gives the node `k` levels above it.
    pub proof fn lemma_rebuilt_is_node(&self, index: nat, k: nat)
        requires
            self.wf(),
            index <= usize::MAX,
            k <= self.spec_height(),
        ensures
            rebuilt(self.node(self.spec_height(), index), index, self.sibling_path(index), k)
                == self.node((self.spec_height() - k) as nat, shifted(index, k)),
        decreases k,
    {
        if k > 0 {
            let j = (k - 1) as nat;
            self.lemma_rebuilt_is_node(index, j);
            lemma_shifted_bounded(index, j);
            let p = shifted(index, j);
            let q = shifted(index, k);
            assert(q == p / 2);
            assert(self.merkle_at((self.spec_height() - k) as nat, q));
            assert(self.sibling_path(index)[j as int] == self.node(
                (self.spec_height() - j) as nat,
                sibling_pos(p),
            ));
        }
    }

    /// A node that is not cached has the hash of an empty subtree of its
    /// depth.
    pub proof fn lemma_uncached_is_zero_hash(&self, depth: nat, pos: nat)
        requires
            self.wf(),
            depth <= self.spec_height(),
            pos <= usize::MAX,
            !self.cached(depth, pos),
        ensures
            self.node(depth, pos) == zero_hash(
                V::spec_empty_leaf().spec_hash(),
                (self.spec_height() - depth) as nat,
            ),
    {
        assert(self.zero_hashes@[depth as int] == zero_hash(
            V::spec_empty_leaf().spec_hash(),
            (self.height - depth) as nat,
        ));
    }

    /// Replacing a leaf changes none of the sibling hashes on its own path.
    pub proof fn lemma_update_keeps_siblings(before: Self, after: Self, index: nat, leaf: V)
        requires
            Self::updated(before, after, index, leaf),
            index <= usize::MAX,
        ensures
            after.sibling_path(index) == before.sibling_path(index),
    {
        let top = before.spec_height();
        assert forall|k: int| 0 <= k < top implies after.sibling_path(index)[k]
            == before.sibling_path(index)[k] by {
            lemma_shifted_bounded(index, k as nat);
            let s = sibling_pos(shifted(index, k as nat));
            assert(after.node((top - k) as nat, s) == before.node((top - k) as nat, s));
        }
        assert(after.sibling_path(index) =~= before.sibling_path(index));
    }

    /// In every well-formed tree, the leaf at an index in range and the
    /// siblings on its path rebuild the root.
    pub proof fn lemma_proof_rebuilds_root(&self, index: nat)
        requires
            self.wf(),
            index_in_range(index, self.spec_height()),
            index <= usize::MAX,
        ensures
            rebuilt_root(self.leaf(index).spec_hash(), index, self.sibling_path(index))
                == self.root(),
    {
        self.lemma_rebuilt_is_node(index, self.spec_height());
        lemma_in_range_iff_shifted_out(index, self.spec_height());
    }

    /// In a tree whose leaves are all empty, the empty leaf and the siblings
    /// of any index in range rebuild the root.
    pub proof fn lemma_empty_tree_consistent(&self, index: nat)
        requires
            self.wf(),
            forall|i: nat| #[trigger] self.leaf(i) == V::spec_empty_leaf(),
            index_in_range(index, self.spec_height()),
            index <= usize::MAX,
        ensures
            rebuilt_root(V::spec_empty_leaf().spec_hash(), index, self.sibling_path(index))
                == self.root(),
    {
        assert(self.leaf(index) == V::spec_empty_leaf());
        self.lemma_proof_rebuilds_root(index);
    }

    /// After a leaf is set, that leaf and the siblings of its index rebuild
    /// the new root.
    pub proof fn lemma_update_consistent(before: Self, after: Self, index: nat, leaf: V)
        requires
            Self::updated(before, after, index, leaf),
            index_in_range(index, before.spec_height()),
            index <= usize::MAX,
        ensures
            rebuilt_root(leaf.spec_hash(), index, after.sibling_path(index)) == after.root(),
    {
        after.lemma_proof_rebuilds_root(index);
    }

    /// In a well-formed tree, the node of a leaf is the hash of that leaf.
    pub proof fn lemma_leaf_node(&self, index: nat)
        requires
            self.wf(),
            index <= usize::MAX,
        ensures
            self.node(self.spec_height(), index) == self.leaf(index).spec_hash(),
    {
    }

    /// In a well-formed tree, every inner node is the hash of its children.
    pub proof fn lemma_inner_node(&self, depth: nat, pos: nat)
        requires
            self.wf(),
            depth < self.spec_height(),
            2 * pos + 1 <= usize::MAX,
        ensures
            self.merkle_at(depth, pos),
    {
    }

    /// After a leaf is set, the node `k` levels above it is what the leaf's
    /// hash and the first `k` siblings, as they were before, rebuild. With
    /// the nodes off the path, which stay, this gives every node.
    pub proof fn lemma_update_path_node(before: Self, after: Self, index: nat, leaf: V, k: nat)
        requires
            Self::updated(before, after, index, leaf),
            index <= usize::MAX,
            k <= before.spec_height(),
        ensures
            after.node((before.spec_height() - k) as nat, shifted(index, k)) == rebuilt(
                leaf.spec_hash(),
                index,
                before.sibling_path(index),
                k,
            ),
    {
        Self::lemma_update_keeps_siblings(before, after, index, leaf);
        after.lemma_rebuilt_is_node(index, k);
        after.lemma_leaf_node(index);
    }

    /// Two well-formed trees of one height that agree at one leaf's node and
    /// at every node off that leaf's way to the root agree at every node,
    /// and so on the siblings of every index.
    pub proof fn lemma_nodes_agree(a: Self, b: Self, index: nat)
        requires
            a.wf(),
            b.wf(),
            a.spec_height() == b.spec_height(),
            index <= usize::MAX,
            a.node(a.spec_height(), index) == b.node(a.spec_height(), index),
            forall|d: nat, pos: nat|
                d <= a.spec_height() && pos <= usize::MAX && pos != shifted(
                    index,
                    (a.spec_height() - d) as nat,
                ) ==> #[trigger] a.node(d, pos) == b.node(d, pos),
        ensures
            forall|d: nat, pos: nat|
                d <= a.spec_height() && pos <= usize::MAX ==> #[trigger] a.node(d, pos) == b.node(
                    d,
                    pos,
                ),
            forall|j: nat| j <= usize::MAX ==> #[trigger] a.sibling_path(j) == b.sibling_path(j),
            a.root() == b.root(),
    {
        let top = a.spec_height();
        assert forall|k: int| 0 <= k < top implies a.sibling_path(index)[k] == b.sibling_path(
            index,
        )[k] by {
            lemma_shifted_bounded(index, k as nat);
            let s = sibling_pos(shifted(index, k as nat));
            assert(a.node((top - k) as nat, s) == b.node((top - k) as nat, s));
        }
        assert(a.sibling_path(index) =~= b.sibling_path(index));
        assert forall|d: nat, pos: nat| d <= top && pos <= usize::MAX implies #[trigger] a.node(
            d,
            pos,
        ) == b.node(d, pos) by {
            if pos == shifted(index, (top - d) as nat) {
                a.lemma_rebuilt_is_node(index, (top - d) as nat);
                b.lemma_rebuilt_is_node(index, (top - d) as nat);
            }
        }
        assert forall|j: nat| j <= usize::MAX implies #[trigger] a.sibling_path(j)
            == b.sibling_path(j) by {
            assert forall|k: int| 0 <= k < top implies a.sibling_path(j)[k] == b.sibling_path(
                j,
            )[k] by {
                lemma_shifted_bounded(j, k as nat);
                let s = sibling_pos(shifted(j, k as nat));
                assert(a.node((top - k) as nat, s) == b.node((top - k) as nat, s));
            }
            assert(a.sibling_path(j) =~= b.sibling_path(j));
        }
        assert(a.node(0, 0) == b.node(0, 0));
    }

    /// Setting the same leaf to the same value a second time leaves the
    /// root, every node, every leaf and the siblings of every index as the
    /// first time left them.
    pub proof fn lemma_update_idempotent(first: Self, second: Self, third: Self, index: nat, leaf: V)
        requires
            first.wf(),
            index <= usize::MAX,
            Self::updated(first, second, index, leaf),
            Self::updated(second, third, index, leaf),
        ensures
            third.root() == second.root(),
            forall|d: nat, pos: nat|
                d <= first.spec_height() && pos <= usize::MAX ==> #[trigger] third.node(d, pos)
                    == second.node(d, pos),
            forall|j: nat| j <= usize::MAX ==> #[trigger] third.leaf(j) == second.leaf(j),
            forall|j: nat|
                j <= usize::MAX ==> #[trigger] third.sibling_path(j) == second.sibling_path(j),
    {
        third.lemma_leaf_node(index);
        second.lemma_leaf_node(index);
        Self::lemma_nodes_agree(third, second, index);
    }

    /// Setting a leaf and then setting it back to a value with the hash it
    /// had, as `remove` does for a leaf that was empty, gives back the root,
    /// every node and the siblings of every index.
    pub proof fn lemma_update_undone(
        first: Self,
        second: Self,
        third: Self,
        index: nat,
        leaf: V,
        back: V,
    )
        requires
            first.wf(),
            index <= usize::MAX,
            Self::updated(first, second, index, leaf),
            Self::updated(second, third, index, back),
            back.spec_hash() == first.leaf(index).spec_hash(),
        ensures
            third.root() == first.root(),
            forall|d: nat, pos: nat|
                d <= first.spec_height() && pos <= usize::MAX ==> #[trigger] third.node(d, pos)
                    == first.node(d, pos),
            forall|j: nat|
                j <= usize::MAX ==> #[trigger] third.sibling_path(j) == first.sibling_path(j),
    {
        let top = first.spec_height();
        third.lemma_leaf_node(index);
        first.lemma_leaf_node(index);
        assert forall|d: nat, pos: nat|
            d <= top && pos <= usize::MAX && pos != shifted(index, (top - d) as nat)
                implies #[trigger] third.node(d, pos) == first.node(d, pos) by {
            assert(second.node(d, pos) == first.node(d, pos));
        }
        Self::lemma_nodes_agree(third, first, index);
    }

    /// In a well-formed tree, a node whose subtree lies within the indices
    /// of the machine's word is the Merkle hash of the leaves below it.
    pub proof fn lemma_node_is_subtree(&self, depth: nat, pos: nat)
        requires
            self.wf(),
            depth <= self.spec_height(),
            (pos + 1) * pow2((self.spec_height() - depth) as nat) <= usize::MAX + 1,
        ensures
            self.node(depth, pos) == subtree_hash(
                self.leaf_hashes(),
                (self.spec_height() - depth) as nat,
                pos,
            ),
        decreases self.spec_height() - depth,
    {
        let levels = (self.spec_height() - depth) as nat;
        let m = usize::MAX as int;
        lemma_pow2_pos(levels);
        if levels == 0 {
            lemma2_to64();
            self.lemma_leaf_node(pos);
        } else {
            let below = (levels - 1) as nat;
            lemma_pow2_unfold(levels);
            lemma_pow2_pos(below);
            let p = pow2(below) as int;
            let q = pos as int;
            assert((2 * q + 2) * p <= m + 1) by (nonlinear_arith)
                requires
                    (q + 1) * (2 * p) <= m + 1,
            ;
            assert((2 * q + 1) * p <= (2 * q + 2) * p) by (nonlinear_arith)
                requires
                    p >= 1,
                    q >= 0,
            ;
            assert(2 * q + 2 <= (2 * q + 2) * p) by (nonlinear_arith)
                requires
                    p >= 1,
                    q >= 0,
            ;
            self.lemma_inner_node(depth, pos);
            self.lemma_node_is_subtree(depth + 1, 2 * pos);
            self.lemma_node_is_subtree(depth + 1, 2 * pos + 1);
        }
    }

    /// In a well-formed tree whose leaves all have an index within the
    /// machine's word, the root is the Merkle root of all leaves.
    pub proof fn lemma_root_is_merkle_root(&self)
        requires
            self.wf(),
            pow2(self.spec_height()) <= usize::MAX + 1,
        ensures
            self.root() == subtree_hash(self.leaf_hashes(), self.spec_height(), 0),
    {
        self.lemma_node_is_subtree(0, 0);
    }

    /// Two updates at different indices give, in either order, the same
    /// leaves and the same hash at every node whose subtree lies within the
    /// indices of the machine's word: the root too, where all leaves do.
    pub proof fn lemma_updates_commute(
        start: Self,
        a1: Self,
        a2: Self,
        b1: Self,
        b2: Self,
        i: nat,
        v: V,
        j: nat,
        w: V,
    )
        requires
            start.wf(),
            i <= usize::MAX,
            j <= usize::MAX,
            i != j,
            Self::updated(start, a1, i, v),
            Self::updated(a1, a2, j, w),
            Self::updated(start, b1, j, w),
            Self::updated(b1, b2, i, v),
        ensures
            forall|k: nat| k <= usize::MAX ==> #[trigger] a2.leaf(k) == b2.leaf(k),
            a2.leaf_hashes() == b2.leaf_hashes(),
            forall|d: nat, pos: nat|
                d <= start.spec_height() && (pos + 1) * pow2((start.spec_height() - d) as nat)
                    <= usize::MAX + 1 ==> #[trigger] a2.node(d, pos) == b2.node(d, pos),
            pow2(start.spec_height()) <= usize::MAX + 1 ==> a2.root() == b2.root(),
    {
        assert forall|k: nat| k <= usize::MAX implies #[trigger] a2.leaf(k) == b2.leaf(k) by {
            if k == i {
                assert(a2.leaf(i) == a1.leaf(i));
            } else if k == j {
                assert(b2.leaf(j) == b1.leaf(j));
            } else {
                assert(a2.leaf(k) == a1.leaf(k));
                assert(a1.leaf(k) == start.leaf(k));
                assert(b2.leaf(k) == b1.leaf(k));
                assert(b1.leaf(k) == start.leaf(k));
            }
        }
        assert forall|k: nat| #[trigger] a2.leaf_hashes()(k) == b2.leaf_hashes()(k) by {
            if k <= usize::MAX {
                assert(a2.leaf(k) == b2.leaf(k));
            }
        }
        assert(a2.leaf_hashes() =~= b2.leaf_hashes());
        assert forall|d: nat, pos: nat|
            d <= start.spec_height() && (pos + 1) * pow2((start.spec_height() - d) as nat)
                <= usize::MAX + 1 implies #[trigger] a2.node(d, pos) == b2.node(d, pos) by {
            a2.lemma_node_is_subtree(d, pos);
            b2.lemma_node_is_subtree(d, pos);
        }
        if pow2(start.spec_height()) <= usize::MAX + 1 {
            a2.lemma_root_is_merkle_root();
            b2.lemma_root_is_merkle_root();
        }
    }
}

} // verus!
