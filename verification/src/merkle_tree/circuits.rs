//! Rebuilding a root from a leaf and its sibling path, and the step that
//! replaces one leaf under a carried root.

use crate::merkle_tree::field::{pair_hash, FieldElement, HashConfig};
use crate::merkle_tree::path::{index_fits, index_in_range, shifted, MerkleError};
use crate::merkle_tree::tree::{Leafable, MerkleTree};
use vstd::prelude::*;

verus! {

/// The hash of a node from one child, that child's sibling and the side the
/// child is on: with `lr_bit` set the child is the right one.
pub open spec fn parent_hash(child: FieldElement, sibling: FieldElement, lr_bit: bool)
    -> FieldElement {
    if lr_bit {
        pair_hash(sibling, child)
    } else {
        pair_hash(child, sibling)
    }
}

/// The hash reached from `value` after the first `k` siblings are folded in,
/// leaf-adjacent sibling first; bit `j` of `index` tells the side at step `j`.
pub open spec fn rebuilt(value: FieldElement, index: nat, siblings: Seq<FieldElement>, k: nat)
    -> FieldElement
    decreases k,
{
    if k == 0 {
        value
    } else {
        parent_hash(
            rebuilt(value, index, siblings, (k - 1) as nat),
            siblings[k - 1],
            shifted(index, (k - 1) as nat) % 2 == 1,
        )
    }
}

/// The root that a leaf value, its index and its sibling path stand for.
pub open spec fn rebuilt_root(value: FieldElement, index: nat, siblings: Seq<FieldElement>)
    -> FieldElement {
    rebuilt(value, index, siblings, siblings.len())
}

/// The two children of a node in order, from one child, its sibling and
/// the side the child is on.
pub fn ordered_pair(child: FieldElement, sibling: FieldElement, lr_bit: bool) -> (pair: (
    FieldElement,
    FieldElement,
))
    ensures
        lr_bit ==> pair == (sibling, child),
        !lr_bit ==> pair == (child, sibling),
{
    if lr_bit {
        (sibling, child)
    } else {
        (child, sibling)
    }
}

/// What one step gives for its three roots: the new root when the root
/// rebuilt from the old value is the root carried in, `RootMismatch`
/// otherwise.
pub open spec fn carried_root(old_root: FieldElement, carried: FieldElement, new_root: FieldElement)
    -> Result<FieldElement, MerkleError> {
    if old_root == carried {
        Ok(new_root)
    } else {
        Err(MerkleError::RootMismatch)
    }
}

fn hash_step(config: &HashConfig, child: FieldElement, sibling: FieldElement, lr_bit: bool) -> (h:
    FieldElement)
    ensures
        h == parent_hash(child, sibling, lr_bit),
{
    let (left, right) = ordered_pair(child, sibling, lr_bit);
    config.hash_pair(&left, &right)
}

fn fold_siblings(
    config: &HashConfig,
    value: FieldElement,
    index: usize,
    siblings: &Vec<FieldElement>,
) -> (root: FieldElement)
    ensures
        root == rebuilt_root(value, index as nat, siblings@),
{
    let mut acc = value;
    let mut rest: usize = index;
    let mut k: usize = 0;
    while k < siblings.len()
        invariant
            k <= siblings@.len(),
            rest == shifted(index as nat, k as nat),
            acc == rebuilt(value, index as nat, siblings@, k as nat),
        decreases siblings@.len() - k,
    {
        acc = hash_step(config, acc, siblings[k], rest % 2 == 1);
        rest = rest / 2;
        k += 1;
    }
    acc
}

/// What rebuilding a root in a tree of the given height gives.
pub open spec fn reconstruction(
    height: nat,
    value: FieldElement,
    index: nat,
    siblings: Seq<FieldElement>,
) -> Result<FieldElement, MerkleError> {
    if siblings.len() != height {
        Err(MerkleError::SiblingLengthMismatch)
    } else if !index_in_range(index, height) {
        Err(MerkleError::InvalidIndex)
    } else {
        Ok(rebuilt_root(value, index, siblings))
    }
}

/// Rebuilds the root of a tree of the given height from a leaf value, the
/// leaf's index and its sibling path, leaf-adjacent sibling first. Nothing is
/// hashed when the number of siblings is not the height or the index names
/// no leaf.
pub fn reconstruct_root(
    config: &HashConfig,
    height: usize,
    value: FieldElement,
    index: usize,
    siblings: &Vec<FieldElement>,
) -> (r: Result<FieldElement, MerkleError>)
    ensures
        r == reconstruction(height as nat, value, index as nat, siblings@),
{
    if siblings.len() != height {
        return Err(MerkleError::SiblingLengthMismatch);
    }
    if !index_fits(index, height) {
        return Err(MerkleError::InvalidIndex);
    }
    Ok(fold_siblings(config, value, index, siblings))
}

/// One level of the way to the root: hashes a child with its sibling.
#[derive(Clone)]
pub struct InternalHashCircuit {
    pub constants: HashConfig,
    pub sibling: FieldElement,
    pub lr_bit: bool,
}

impl InternalHashCircuit {
    /// The number of field elements that the step takes and gives.
    pub fn arity(&self) -> (n: usize)
        ensures
            n == 1,
    {
        1
    }

    /// The parent's hash, from the child's hash in `z`.
    pub fn output(&self, z: &[FieldElement]) -> (out: Vec<FieldElement>)
        requires
            z@.len() == 1,
        ensures
            out@ == seq![parent_hash(z@[0], self.sibling, self.lr_bit)],
    {
        let h = hash_step(&self.constants, z[0], self.sibling, self.lr_bit);
        let mut out: Vec<FieldElement> = Vec::new();
        out.push(h);
        assert(out@ =~= seq![h]);
        out
    }
}

/// What the first `k` of the given hash steps make of `value`, each taking
/// what the one before it gave.
pub open spec fn through_levels(levels: Seq<InternalHashCircuit>, value: FieldElement, k: nat)
    -> FieldElement
    decreases k,
{
    if k == 0 {
        value
    } else {
        parent_hash(
            through_levels(levels, value, (k - 1) as nat),
            levels[k - 1].sibling,
            levels[k - 1].lr_bit,
        )
    }
}

/// The claim that `value` is the leaf at `index` under the given siblings.
#[derive(Clone)]
pub struct MerkleInclusionCircuit {
    pub constants: HashConfig,
    pub siblings: Vec<FieldElement>,
    pub index: usize,
    pub value: FieldElement,
}

impl MerkleInclusionCircuit {
    /// What `output` gives: the number of siblings is the height.
    pub open spec fn spec_output(&self) -> Result<FieldElement, MerkleError> {
        reconstruction(self.siblings@.len(), self.value, self.index as nat, self.siblings@)
    }

    /// `levels` are the hash steps of this claim, leaf-adjacent first: step
    /// `k` has sibling `k`, and bit `k` of the index as its side.
    pub open spec fn has_levels(&self, levels: Seq<InternalHashCircuit>) -> bool {
        &&& levels.len() == self.siblings@.len()
        &&& forall|k: int|
            0 <= k < levels.len() ==> (#[trigger] levels[k]).sibling == self.siblings@[k]
                && levels[k].lr_bit == (shifted(self.index as nat, k as nat) % 2 == 1)
    }

    /// The hash steps from the leaf up to the root, one for each sibling, or
    /// `InvalidIndex` when the index names no leaf of a tree as high as
    /// there are siblings. A constraint system is built by going through
    /// them in order.
    pub fn levels(&self) -> (r: Result<Vec<InternalHashCircuit>, MerkleError>)
        ensures
            index_in_range(self.index as nat, self.siblings@.len()) ==> r.is_ok()
                && self.has_levels(r.unwrap()@),
            !index_in_range(self.index as nat, self.siblings@.len()) ==> r == Err::<
                Vec<InternalHashCircuit>,
                MerkleError,
            >(MerkleError::InvalidIndex),
    {
        if !index_fits(self.index, self.siblings.len()) {
            return Err(MerkleError::InvalidIndex);
        }
        let mut levels: Vec<InternalHashCircuit> = Vec::new();
        let mut rest: usize = self.index;
        let mut k: usize = 0;
        while k < self.siblings.len()
            invariant
                k <= self.siblings@.len(),
                levels@.len() == k,
                rest == shifted(self.index as nat, k as nat),
                forall|j: int|
                    0 <= j < k ==> (#[trigger] levels@[j]).sibling == self.siblings@[j]
                        && levels@[j].lr_bit == (shifted(self.index as nat, j as nat) % 2 == 1),
            decreases self.siblings@.len() - k,
        {
            levels.push(
                InternalHashCircuit {
                    constants: self.constants.clone(),
                    sibling: self.siblings[k],
                    lr_bit: rest % 2 == 1,
                },
            );
            rest = rest / 2;
            k += 1;
        }
        Ok(levels)
    }

    /// Going through the levels of a claim, each step taking what the one
    /// before it gave, rebuilds what the siblings stand for.
    pub proof fn lemma_levels_rebuild(&self, levels: Seq<InternalHashCircuit>, k: nat)
        requires
            self.has_levels(levels),
            k <= levels.len(),
        ensures
            through_levels(levels, self.value, k) == rebuilt(
                self.value,
                self.index as nat,
                self.siblings@,
                k,
            ),
        decreases k,
    {
        if k > 0 {
            self.lemma_levels_rebuild(levels, (k - 1) as nat);
            assert(levels[k - 1].sibling == self.siblings@[k - 1]);
        }
    }

    /// The root that the claim stands for, as the one entry of the result,
    /// or `InvalidIndex` when the index names no leaf of a tree as high as
    /// there are siblings.
    pub fn output(&self) -> (r: Result<Vec<FieldElement>, MerkleError>)
        ensures
            match self.spec_output() {
                Ok(root) => r.is_ok() && r.unwrap()@ == seq![root],
                Err(e) => r == Err::<Vec<FieldElement>, MerkleError>(e),
            },
    {
        match reconstruct_root(
            &self.constants,
            self.siblings.len(),
            self.value,
            self.index,
            &self.siblings,
        ) {
            Ok(root) => {
                let mut out: Vec<FieldElement> = Vec::new();
                out.push(root);
                assert(out@ =~= seq![root]);
                Ok(out)
            },
            Err(e) => Err(e),
        }
    }
}

impl MerkleInclusionCircuit {
    /// The root that the claim stands for in a tree of the given height, as
    /// the one entry of the result: `SiblingLengthMismatch` when the number
    /// of siblings is not that height, `InvalidIndex` when the index names
    /// no leaf, and nothing is hashed in either case.
    pub fn output_at(&self, height: usize) -> (r: Result<Vec<FieldElement>, MerkleError>)
        ensures
            match reconstruction(height as nat, self.value, self.index as nat, self.siblings@) {
                Ok(root) => r.is_ok() && r.unwrap()@ == seq![root],
                Err(e) => r == Err::<Vec<FieldElement>, MerkleError>(e),
            },
    {
        match reconstruct_root(&self.constants, height, self.value, self.index, &self.siblings) {
            Ok(root) => {
                let mut out: Vec<FieldElement> = Vec::new();
                out.push(root);
                assert(out@ =~= seq![root]);
                Ok(out)
            },
            Err(e) => Err(e),
        }
    }
}

/// One step of a chain of updates: the leaf at `index` goes from `old_value`
/// to `new_value` under the given siblings.
#[derive(Clone)]
pub struct MerkleProcessCircuit {
    pub constants: HashConfig,
    pub siblings: Vec<FieldElement>,
    pub index: usize,
    pub old_value: FieldElement,
    pub new_value: FieldElement,
}

impl MerkleProcessCircuit {
    /// What the step gives for the root `carried` into it: `InvalidIndex`
    /// when the index names no leaf, `RootMismatch` when the old value and
    /// the siblings do not rebuild `carried`, else the root rebuilt from
    /// the new value over the same siblings.
    pub open spec fn spec_output(&self, carried: FieldElement) -> Result<
        FieldElement,
        MerkleError,
    > {
        if !index_in_range(self.index as nat, self.siblings@.len()) {
            Err(MerkleError::InvalidIndex)
        } else {
            carried_root(
                rebuilt_root(self.old_value, self.index as nat, self.siblings@),
                carried,
                rebuilt_root(self.new_value, self.index as nat, self.siblings@),
            )
        }
    }

    /// The number of field elements that the step takes and gives.
    pub fn arity(&self) -> (n: usize)
        ensures
            n == 1,
    {
        1
    }

    /// Runs the step on the root carried in, the one entry of `z`, and gives
    /// the root to carry on as the one entry of the result. The index names
    /// a leaf, and the old value and the siblings rebuild the root carried
    /// in: `try_output` tests both.
    pub fn output(&self, z: &[FieldElement]) -> (out: Vec<FieldElement>)
        requires
            z@.len() == 1,
            index_in_range(self.index as nat, self.siblings@.len()),
            rebuilt_root(self.old_value, self.index as nat, self.siblings@) == z@[0],
        ensures
            out@ == seq![rebuilt_root(self.new_value, self.index as nat, self.siblings@)],
            self.spec_output(z@[0]) == Ok::<FieldElement, MerkleError>(out@[0]),
    {
        let new_root = fold_siblings(&self.constants, self.new_value, self.index, &self.siblings);
        let mut out: Vec<FieldElement> = Vec::new();
        out.push(new_root);
        assert(out@ =~= seq![new_root]);
        out
    }

    /// Runs the step on the root carried in, the one entry of `z`, after
    /// testing what `output` asks for: gives `InvalidIndex` when the index
    /// names no leaf, `RootMismatch` when the old value and the siblings do
    /// not rebuild the root carried in, and else what `output` gives.
    pub fn try_output(&self, z: &[FieldElement]) -> (r: Result<Vec<FieldElement>, MerkleError>)
        requires
            z@.len() == 1,
        ensures
            match self.spec_output(z@[0]) {
                Ok(root) => r.is_ok() && r.unwrap()@ == seq![root],
                Err(e) => r == Err::<Vec<FieldElement>, MerkleError>(e),
            },
    {
        if !index_fits(self.index, self.siblings.len()) {
            return Err(MerkleError::InvalidIndex);
        }
        let old_root = fold_siblings(&self.constants, self.old_value, self.index, &self.siblings);
        if old_root == z[0] {
            Ok(self.output(z))
        } else {
            Err(MerkleError::RootMismatch)
        }
    }

    /// As `try_output`, for a tree of the given height: gives
    /// `SiblingLengthMismatch`, before anything else is looked at, when the
    /// number of siblings is not that height.
    pub fn try_output_at(&self, height: usize, z: &[FieldElement]) -> (r: Result<
        Vec<FieldElement>,
        MerkleError,
    >)
        requires
            z@.len() == 1,
        ensures
            self.siblings@.len() != height ==> r == Err::<Vec<FieldElement>, MerkleError>(
                MerkleError::SiblingLengthMismatch,
            ),
            self.siblings@.len() == height ==> match self.spec_output(z@[0]) {
                Ok(root) => r.is_ok() && r.unwrap()@ == seq![root],
                Err(e) => r == Err::<Vec<FieldElement>, MerkleError>(e),
            },
    {
        if self.siblings.len() != height {
            return Err(MerkleError::SiblingLengthMismatch);
        }
        self.try_output(z)
    }
}

/// What a chain of steps gives for the root carried into the first of them:
/// each step takes what the one before it gave, and the first failure ends
/// the chain.
pub open spec fn chain_output(steps: Seq<MerkleProcessCircuit>, carried: FieldElement) -> Result<
    FieldElement,
    MerkleError,
>
    decreases steps.len(),
{
    if steps.len() == 0 {
        Ok(carried)
    } else {
        match chain_output(steps.drop_last(), carried) {
            Ok(mid) => steps.last().spec_output(mid),
            Err(e) => Err(e),
        }
    }
}

/// `step` is the witness of the update that takes `before` to `after`: the
/// siblings are those in `before`, the old value is the hash of the leaf in
/// `before`, the new value is the hash of the leaf that is stored.
pub open spec fn witnesses<V: Leafable>(
    step: MerkleProcessCircuit,
    before: MerkleTree<V>,
    after: MerkleTree<V>,
    leaf: V,
) -> bool {
    &&& before.wf()
    &&& index_in_range(step.index as nat, before.spec_height())
    &&& MerkleTree::updated(before, after, step.index as nat, leaf)
    &&& step.siblings@ == before.sibling_path(step.index as nat)
    &&& step.old_value == before.leaf(step.index as nat).spec_hash()
    &&& step.new_value == leaf.spec_hash()
}

/// A step whose witness was taken from the tree just before an update gives,
/// for the root before the update, the root after it.
pub proof fn lemma_step_follows_update<V: Leafable>(
    step: MerkleProcessCircuit,
    before: MerkleTree<V>,
    after: MerkleTree<V>,
    leaf: V,
)
    requires
        witnesses(step, before, after, leaf),
    ensures
        step.spec_output(before.root()) == Ok::<FieldElement, MerkleError>(after.root()),
{
    let index = step.index as nat;
    before.lemma_proof_rebuilds_root(index);
    MerkleTree::lemma_update_keeps_siblings(before, after, index, leaf);
    after.lemma_proof_rebuilds_root(index);
}

/// A chain of steps whose witnesses were taken just before each of a run of
/// updates gives, after each step, the root that the tree had after that
/// update.
pub proof fn lemma_chain_follows_updates<V: Leafable>(
    steps: Seq<MerkleProcessCircuit>,
    trees: Seq<MerkleTree<V>>,
    leaves: Seq<V>,
    n: nat,
)
    requires
        trees.len() == steps.len() + 1,
        leaves.len() == steps.len(),
        n <= steps.len(),
        forall|i: int|
            0 <= i < steps.len() ==> #[trigger] witnesses(steps[i], trees[i], trees[i + 1], leaves[i]),
    ensures
        chain_output(steps.take(n as int), trees[0].root()) == Ok::<FieldElement, MerkleError>(
            trees[n as int].root(),
        ),
    decreases n,
{
    if n > 0 {
        let m = (n - 1) as nat;
        lemma_chain_follows_updates(steps, trees, leaves, m);
        assert(steps.take(n as int).drop_last() =~= steps.take(m as int));
        assert(steps.take(n as int).last() == steps[m as int]);
        assert(witnesses(steps[m as int], trees[m as int], trees[m as int + 1], leaves[m as int]));
        lemma_step_follows_update(
            steps[m as int],
            trees[m as int],
            trees[m as int + 1],
            leaves[m as int],
        );
    }
}

} // verus!
