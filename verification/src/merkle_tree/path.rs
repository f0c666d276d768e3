//! The bijection between a leaf index and its bit path, root-adjacent bit
//! first.

use vstd::arithmetic::div_mod::{lemma_basic_div, lemma_div_denominator, lemma_small_div_converse};
use vstd::arithmetic::power2::{lemma2_to64, lemma_pow2_pos, lemma_pow2_unfold, pow2};
use vstd::prelude::*;

verus! {

/// Why an operation on a tree or on a sibling path was rejected.
#[derive(Clone, Copy, Debug, PartialEq, Eq, Structural)]
pub enum MerkleError {
    /// The index is not below two to the power of the height.
    InvalidIndex,
    /// The number of siblings is not the height.
    SiblingLengthMismatch,
    /// The root rebuilt from the old value is not the root carried in.
    RootMismatch,
}

impl MerkleError {
    /// A sentence that says what was rejected.
    pub fn message(&self) -> (text: String)
        ensures
            text@ == self.spec_message(),
    {
        match self {
            MerkleError::InvalidIndex => "the index names no leaf of the tree".to_string(),
            MerkleError::SiblingLengthMismatch => {
                "the number of siblings is not the height of the tree".to_string()
            },
            MerkleError::RootMismatch => {
                "the old value and the siblings do not rebuild the carried root".to_string()
            },
        }
    }

    /// The sentence of each error.
    pub open spec fn spec_message(&self) -> Seq<char> {
        match self {
            MerkleError::InvalidIndex => "the index names no leaf of the tree"@,
            MerkleError::SiblingLengthMismatch => {
                "the number of siblings is not the height of the tree"@
            },
            MerkleError::RootMismatch => {
                "the old value and the siblings do not rebuild the carried root"@
            },
        }
    }
}

/// What is left of `x` once its `k` lowest bits are dropped.
pub open spec fn shifted(x: nat, k: nat) -> nat
    decreases k,
{
    if k == 0 {
        x
    } else {
        shifted(x, (k - 1) as nat) / 2
    }
}

/// An index names a leaf of a tree of the given height.
pub open spec fn index_in_range(index: nat, height: nat) -> bool {
    index < pow2(height)
}

/// The path of `index` in a tree of the given height: entry `j` is bit
/// `height - 1 - j` of the index, so the last entry is the lowest bit.
pub open spec fn index_path(index: nat, height: nat) -> Seq<bool> {
    Seq::new(height, |j: int| shifted(index, (height - 1 - j) as nat) % 2 == 1)
}

/// The integer that a path spells, its first entry the highest bit.
pub open spec fn path_value(path: Seq<bool>) -> nat
    decreases path.len(),
{
    if path.len() == 0 {
        0
    } else {
        2 * path_value(path.drop_last()) + if path.last() {
            1nat
        } else {
            0nat
        }
    }
}

/// Dropping `k` bits divides by two to the power of `k`.
pub proof fn lemma_shifted_is_quotient(x: nat, k: nat)
    ensures
        shifted(x, k) == x / pow2(k),
    decreases k,
{
    lemma_pow2_pos(k);
    if k == 0 {
        lemma2_to64();
    } else {
        let j = (k - 1) as nat;
        lemma_shifted_is_quotient(x, j);
        lemma_pow2_pos(j);
        lemma_pow2_unfold(k);
        lemma_div_denominator(x as int, pow2(j) as int, 2);
        assert(pow2(j) * 2 == pow2(k));
    }
}

/// An index is in range exactly when nothing is left of it after `height`
/// bits are dropped.
pub proof fn lemma_in_range_iff_shifted_out(index: nat, height: nat)
    ensures
        index_in_range(index, height) <==> shifted(index, height) == 0,
{
    lemma_shifted_is_quotient(index, height);
    lemma_pow2_pos(height);
    if index < pow2(height) {
        lemma_basic_div(index as int, pow2(height) as int);
    }
    if index / pow2(height) == 0 {
        lemma_small_div_converse(index as int, pow2(height) as int);
    }
}

/// Dropping one bit first and `k` after is dropping `k + 1`.
pub proof fn lemma_shifted_halved(x: nat, k: nat)
    ensures
        shifted(x / 2, k) == shifted(x, k + 1),
    decreases k,
{
    if k > 0 {
        lemma_shifted_halved(x, (k - 1) as nat);
    } else {
        assert(shifted(x, 1) == shifted(x, 0) / 2);
    }
}

/// A path's value is at least the value of each of its prefixes.
pub proof fn lemma_path_value_prefix(path: Seq<bool>, n: int)
    requires
        0 <= n <= path.len(),
    ensures
        path_value(path.take(n)) <= path_value(path),
    decreases path.len(),
{
    if n == path.len() {
        assert(path.take(n) =~= path);
    } else {
        assert(path.drop_last().take(n) =~= path.take(n));
        lemma_path_value_prefix(path.drop_last(), n);
    }
}

/// The path of an index in range spells that index again, for every height.
pub proof fn lemma_path_round_trip(index: nat, height: nat)
    requires
        index_in_range(index, height),
    ensures
        index_path(index, height).len() == height,
        path_value(index_path(index, height)) == index,
    decreases height,
{
    let path = index_path(index, height);
    if height == 0 {
        lemma2_to64();
    } else {
        let h = (height - 1) as nat;
        lemma_pow2_unfold(height);
        assert(index / 2 < pow2(h));
        lemma_path_round_trip(index / 2, h);
        assert forall|j: int| 0 <= j < h implies path.drop_last()[j] == index_path(index / 2, h)[j] by {
            lemma_shifted_halved(index, (h - 1 - j) as nat);
        }
        assert(path.drop_last() =~= index_path(index / 2, h));
        assert(path.last() == (shifted(index, 0) % 2 == 1));
    }
}

/// Every path is the path of the index that it spells, and that index is in
/// range for the path's length.
pub proof fn lemma_value_round_trip(path: Seq<bool>)
    ensures
        index_in_range(path_value(path), path.len()),
        index_path(path_value(path), path.len()) == path,
    decreases path.len(),
{
    let n = path.len();
    let v = path_value(path);
    if n == 0 {
        lemma2_to64();
        assert(index_path(v, n) =~= path);
    } else {
        let h = (n - 1) as nat;
        let init = path.drop_last();
        let w = path_value(init);
        lemma_value_round_trip(init);
        lemma_pow2_unfold(n);
        assert(v / 2 == w);
        assert forall|j: int| 0 <= j < n implies index_path(v, n)[j] == path[j] by {
            if j < h {
                lemma_shifted_halved(v, (h - 1 - j) as nat);
                assert(index_path(w, h)[j] == init[j]);
            } else {
                assert(shifted(v, 0) == v);
            }
        }
        assert(index_path(v, n) =~= path);
    }
}

/// Two indices in range with the same path are the same index.
pub proof fn lemma_index_path_injective(a: nat, b: nat, height: nat)
    requires
        index_in_range(a, height),
        index_in_range(b, height),
        index_path(a, height) == index_path(b, height),
    ensures
        a == b,
{
    lemma_path_round_trip(a, height);
    lemma_path_round_trip(b, height);
}

/// Whether `index` names a leaf of a tree of the given height.
pub fn index_fits(index: usize, height: usize) -> (fits: bool)
    ensures
        fits == index_in_range(index as nat, height as nat),
{
    let mut rest: usize = index;
    let mut k: usize = 0;
    while k < height && rest != 0
        invariant
            k <= height,
            rest == shifted(index as nat, k as nat),
        decreases rest,
    {
        rest = rest / 2;
        k += 1;
    }
    proof {
        if rest == 0 {
            lemma_shifted_stays_zero(index as nat, k as nat, height as nat);
        }
        lemma_in_range_iff_shifted_out(index as nat, height as nat);
    }
    rest == 0
}

/// Dropping bits never makes a number larger.
pub proof fn lemma_shifted_bounded(x: nat, k: nat)
    ensures
        shifted(x, k) <= x,
    decreases k,
{
    if k > 0 {
        lemma_shifted_bounded(x, (k - 1) as nat);
    }
}

/// Once nothing is left, nothing is left after more bits are dropped.
pub proof fn lemma_shifted_stays_zero(x: nat, k: nat, m: nat)
    requires
        k <= m,
        shifted(x, k) == 0,
    ensures
        shifted(x, m) == 0,
    decreases m,
{
    if k < m {
        lemma_shifted_stays_zero(x, k, (m - 1) as nat);
    }
}

/// The path of `index` in a tree of the given height, or `InvalidIndex`
/// when the index names no leaf of such a tree.
pub fn index_to_path(index: usize, height: usize) -> (r: Result<Vec<bool>, MerkleError>)
    ensures
        index_in_range(index as nat, height as nat) ==> r.is_ok() && r.unwrap()@ == index_path(
            index as nat,
            height as nat,
        ),
        !index_in_range(index as nat, height as nat) ==> r == Err::<Vec<bool>, MerkleError>(
            MerkleError::InvalidIndex,
        ),
{
    if index_fits(index, height) {
        Ok(usize_to_vec(index, height))
    } else {
        Err(MerkleError::InvalidIndex)
    }
}

/// The index that a path spells, or `None` when it does not fit the
/// machine's word.
pub fn path_to_index(path: &Vec<bool>) -> (r: Option<usize>)
    ensures
        r.is_some() <==> path_value(path@) <= usize::MAX,
        r.is_some() ==> r.unwrap() == path_value(path@),
{
    let mut acc: usize = 0;
    let mut i: usize = 0;
    while i < path.len()
        invariant
            i <= path.len(),
            acc == path_value(path@.take(i as int)),
        decreases path.len() - i,
    {
        let bit: usize = if path[i] {
            1
        } else {
            0
        };
        proof {
            assert(path@.take(i + 1).drop_last() =~= path@.take(i as int));
            assert(path@.take(i + 1).last() == path@[i as int]);
        }
        if acc > (usize::MAX - bit) / 2 {
            proof {
                lemma_path_value_prefix(path@, i + 1);
            }
            return None;
        }
        acc = 2 * acc + bit;
        i += 1;
    }
    proof {
        assert(path@.take(path@.len() as int) =~= path@);
    }
    Some(acc)
}

/// The path of the index `x` in a tree of height `length`, highest bit
/// first. The index names a leaf of such a tree: nothing is masked away.
pub fn usize_to_vec(x: usize, length: usize) -> (v: Vec<bool>)
    requires
        index_in_range(x as nat, length as nat),
    ensures
        v@ == index_path(x as nat, length as nat),
        v@.len() == length,
        path_value(v@) == x,
{
    proof {
        lemma_path_round_trip(x as nat, length as nat);
    }
    let mut v: Vec<bool> = Vec::new();
    let mut i: usize = 0;
    while i < length
        invariant
            i <= length,
            v@.len() == i,
        decreases length - i,
    {
        v.push(false);
        i += 1;
    }
    let mut rest: usize = x;
    let mut k: usize = 0;
    while k < length
        invariant
            k <= length,
            v@.len() == length,
            rest == shifted(x as nat, k as nat),
            forall|j: int|
                length - k <= j < length ==> v@[j] == (shifted(x as nat, (length - 1 - j) as nat)
                    % 2 == 1),
        decreases length - k,
    {
        v.set(length - 1 - k, rest % 2 == 1);
        rest = rest / 2;
        k += 1;
    }
    assert(v@ =~= index_path(x as nat, length as nat));
    v
}

} // verus!
