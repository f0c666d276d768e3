//! Field elements as plain integers, and the Poseidon pair hash over them.

use ff::PrimeField;
use fil_pasta_curves::Fq;
use generic_array::typenum::U2;
use neptune::poseidon::PoseidonConstants;
use neptune::Poseidon;
use vstd::prelude::*;

verus! {

/// The most significant limb of the field's modulus.
pub const MODULUS_LIMB_3: u64 = 0x4000000000000000;

/// The limb below the most significant one.
pub const MODULUS_LIMB_2: u64 = 0x0;

/// The limb above the least significant one.
pub const MODULUS_LIMB_1: u64 = 0x224698fc0994a8dd;

/// The least significant limb of the field's modulus.
pub const MODULUS_LIMB_0: u64 = 0x8c46eb2100000001;

/// Whether the integer with the little-endian limbs `l0..l3` is below the
/// modulus of the Pallas scalar field.
pub open spec fn limbs_below_modulus(l0: int, l1: int, l2: int, l3: int) -> bool {
    l0 + l1 * 0x1_0000_0000_0000_0000 + l2 * 0x1_0000_0000_0000_0000_0000_0000_0000_0000
        + l3 * 0x1_0000_0000_0000_0000_0000_0000_0000_0000_0000_0000_0000_0000
        < 0x40000000000000000000000000000000224698fc0994a8dd8c46eb2100000001
}

/// An element of the Pallas scalar field, held as the four little-endian
/// limbs of its canonical representative.
#[derive(Clone, Copy, Debug, PartialEq, Eq, Structural)]
pub struct FieldElement {
    l0: u64,
    l1: u64,
    l2: u64,
    l3: u64,
}

impl FieldElement {
    /// The integer that the limbs spell.
    pub closed spec fn value(&self) -> nat {
        (self.l0 + self.l1 * 0x1_0000_0000_0000_0000 + self.l2
            * 0x1_0000_0000_0000_0000_0000_0000_0000_0000 + self.l3
            * 0x1_0000_0000_0000_0000_0000_0000_0000_0000_0000_0000_0000_0000) as nat
    }

    /// The limbs, least significant first.
    pub closed spec fn spec_limbs(&self) -> Seq<u64> {
        seq![self.l0, self.l1, self.l2, self.l3]
    }

    /// The representative is the canonical one: below the modulus.
    pub open spec fn is_canonical(&self) -> bool {
        self.value() < 0x40000000000000000000000000000000224698fc0994a8dd8c46eb2100000001
    }

    /// The additive identity.
    pub open spec fn spec_zero() -> Self {
        Self::of_limbs(0, 0, 0, 0)
    }

    /// The multiplicative identity.
    pub open spec fn spec_one() -> Self {
        Self::of_limbs(1, 0, 0, 0)
    }

    /// What the element with the given limbs is made of.
    pub proof fn lemma_of_limbs(l0: u64, l1: u64, l2: u64, l3: u64)
        ensures
            Self::of_limbs(l0, l1, l2, l3).spec_limbs() == seq![l0, l1, l2, l3],
            Self::of_limbs(l0, l1, l2, l3).value() == l0 + l1 * 0x1_0000_0000_0000_0000 + l2
                * 0x1_0000_0000_0000_0000_0000_0000_0000_0000 + l3
                * 0x1_0000_0000_0000_0000_0000_0000_0000_0000_0000_0000_0000_0000,
            Self::of_limbs(l0, l1, l2, l3).is_canonical() == limbs_below_modulus(
                l0 as int,
                l1 as int,
                l2 as int,
                l3 as int,
            ),
    {
    }

    /// An element is the one with its limbs.
    pub proof fn lemma_limbs_determine(&self)
        ensures
            self.spec_limbs().len() == 4,
            *self == Self::of_limbs(
                self.spec_limbs()[0],
                self.spec_limbs()[1],
                self.spec_limbs()[2],
                self.spec_limbs()[3],
            ),
    {
    }

    /// The additive identity.
    pub fn zero() -> (r: Self)
        ensures
            r == Self::spec_zero(),
            r.value() == 0,
            r.is_canonical(),
    {
        FieldElement { l0: 0, l1: 0, l2: 0, l3: 0 }
    }

    /// The multiplicative identity.
    pub fn one() -> (r: Self)
        ensures
            r == Self::spec_one(),
            r.value() == 1,
            r.is_canonical(),
    {
        FieldElement { l0: 1, l1: 0, l2: 0, l3: 0 }
    }

    /// The element that a small integer denotes.
    pub fn from_u64(x: u64) -> (r: Self)
        ensures
            r == Self::of_limbs(x, 0, 0, 0),
            r.value() == x,
            r.is_canonical(),
    {
        FieldElement { l0: x, l1: 0, l2: 0, l3: 0 }
    }

    /// The element with the given little-endian limbs, if they spell a
    /// canonical representative.
    pub fn from_limbs(limbs: [u64; 4]) -> (r: Option<Self>)
        ensures
            limbs_below_modulus(limbs[0] as int, limbs[1] as int, limbs[2] as int, limbs[3] as int)
                <==> r.is_some(),
            r.is_some() ==> r.unwrap().spec_limbs() == limbs@ && r.unwrap().is_canonical(),
            r.is_some() ==> r.unwrap() == Self::of_limbs(limbs[0], limbs[1], limbs[2], limbs[3]),
    {
        let l0: u64 = limbs[0];
        let l1: u64 = limbs[1];
        let l2: u64 = limbs[2];
        let l3: u64 = limbs[3];
        let below = l3 < MODULUS_LIMB_3 || (l3 == MODULUS_LIMB_3 && (l2 < MODULUS_LIMB_2 || (l2
            == MODULUS_LIMB_2 && (l1 < MODULUS_LIMB_1 || (l1 == MODULUS_LIMB_1 && l0
            < MODULUS_LIMB_0)))));
        if below {
            let r = FieldElement { l0, l1, l2, l3 };
            assert(r.spec_limbs() =~= limbs@);
            Some(r)
        } else {
            None
        }
    }

    /// The element whose limbs are read from thirty-two little-endian bytes.
    pub open spec fn of_bytes(bytes: Seq<u8>) -> Self {
        Self::of_limbs(
            limb_of_bytes(bytes, 0) as u64,
            limb_of_bytes(bytes, 1) as u64,
            limb_of_bytes(bytes, 2) as u64,
            limb_of_bytes(bytes, 3) as u64,
        )
    }

    /// The element with the given limbs.
    pub closed spec fn of_limbs(l0: u64, l1: u64, l2: u64, l3: u64) -> Self {
        FieldElement { l0, l1, l2, l3 }
    }

    fn read_bytes(bytes: &[u8; 32]) -> (r: Self)
        ensures
            r == Self::of_bytes(bytes@),
            r.spec_limbs() == seq![
                limb_of_bytes(bytes@, 0) as u64,
                limb_of_bytes(bytes@, 1) as u64,
                limb_of_bytes(bytes@, 2) as u64,
                limb_of_bytes(bytes@, 3) as u64,
            ],
            bytes_canonical(bytes@) <==> r.is_canonical(),
    {
        let r = FieldElement {
            l0: limb_from_bytes(bytes, 0),
            l1: limb_from_bytes(bytes, 1),
            l2: limb_from_bytes(bytes, 2),
            l3: limb_from_bytes(bytes, 3),
        };
        assert(r.spec_limbs() =~= seq![
            limb_of_bytes(bytes@, 0) as u64,
            limb_of_bytes(bytes@, 1) as u64,
            limb_of_bytes(bytes@, 2) as u64,
            limb_of_bytes(bytes@, 3) as u64,
        ]);
        r
    }

    /// The element that thirty-two little-endian bytes encode, if the
    /// encoding is canonical.
    pub fn from_bytes(bytes: &[u8; 32]) -> (r: Option<Self>)
        ensures
            bytes_canonical(bytes@) <==> r.is_some(),
            r.is_some() ==> r.unwrap() == Self::of_bytes(bytes@) && r.unwrap().is_canonical(),
    {
        let e = Self::read_bytes(bytes);
        Self::from_limbs(e.to_limbs())
    }

    /// The little-endian limbs of the element.
    pub fn to_limbs(&self) -> (r: [u64; 4])
        ensures
            r@ == self.spec_limbs(),
    {
        let r = [self.l0, self.l1, self.l2, self.l3];
        assert(r@ =~= self.spec_limbs());
        r
    }
}

/// The eight bytes from `8 * i` on, read as a little-endian integer.
pub open spec fn limb_of_bytes(bytes: Seq<u8>, i: int) -> int {
    bytes[8 * i] + bytes[8 * i + 1] * 0x100 + bytes[8 * i + 2] * 0x1_0000 + bytes[8 * i + 3]
        * 0x100_0000 + bytes[8 * i + 4] * 0x1_0000_0000 + bytes[8 * i + 5] * 0x100_0000_0000
        + bytes[8 * i + 6] * 0x1_0000_0000_0000 + bytes[8 * i + 7] * 0x100_0000_0000_0000
}

/// Thirty-two bytes that, read as a little-endian integer, are below the
/// modulus: the canonical encoding of a field element.
pub open spec fn bytes_canonical(bytes: Seq<u8>) -> bool {
    &&& bytes.len() == 32
    &&& limbs_below_modulus(
        limb_of_bytes(bytes, 0),
        limb_of_bytes(bytes, 1),
        limb_of_bytes(bytes, 2),
        limb_of_bytes(bytes, 3),
    )
}

/// The canonical encoding of the Poseidon hash of an ordered pair of field
/// elements, each given by its limbs, under the standard-strength constants
/// for arity two.
pub uninterp spec fn poseidon_pair(left: Seq<u64>, right: Seq<u64>) -> Seq<u8>;

/// The hash of an ordered pair of field elements.
pub open spec fn pair_hash(left: FieldElement, right: FieldElement) -> FieldElement {
    FieldElement::of_bytes(poseidon_pair(left.spec_limbs(), right.spec_limbs()))
}

/// The configuration of the pair hash: the Poseidon constants, made once and
/// shared by reference with every function that hashes.
///
/// One is made by [`HashConfig::new`] or copied from another, so every value
/// holds the standard-strength constants for arity two. The constants are a value of
/// `neptune::poseidon::PoseidonConstants`, which the verifier cannot look
/// into: the struct is opaque to it.
#[verifier::external_body]
pub struct HashConfig {
    constants: PoseidonConstants<Fq, U2>,
}

/// Calls `neptune::poseidon::PoseidonConstants::new` for the Pallas scalar
/// field and arity two. Nothing is claimed of the result.
#[verifier::external_body]
fn standard_config() -> (config: HashConfig) {
    HashConfig { constants: PoseidonConstants::new() }
}

/// Calls `neptune::Poseidon::new_with_preimage` on the pair and then
/// `Poseidon::hash`. The limbs go in through `fil_pasta_curves::Fq::from_raw`
/// and the digest comes back through `ff::PrimeField::to_repr`. The contract
/// claims that the bytes are a function of the two elements alone, named
/// [`poseidon_pair`], and that they are a canonical encoding, as `to_repr`
/// gives it. The constants do not appear in the name: every `HashConfig`
/// holds the same ones.
#[verifier::external_body]
fn poseidon_hash_pair(config: &HashConfig, left: [u64; 4], right: [u64; 4]) -> (digest: [u8; 32])
    ensures
        digest@ == poseidon_pair(left@, right@),
        bytes_canonical(digest@),
{
    let l = Fq::from_raw(left);
    let r = Fq::from_raw(right);
    Poseidon::new_with_preimage(&[l, r], &config.constants).hash().to_repr()
}

fn limb_from_bytes(bytes: &[u8; 32], i: usize) -> (limb: u64)
    requires
        i < 4,
    ensures
        limb == limb_of_bytes(bytes@, i as int),
{
    let b: usize = 8 * i;
    (bytes[b] as u64) + (bytes[b + 1] as u64) * 0x100 + (bytes[b + 2] as u64) * 0x1_0000 + (bytes[b
        + 3] as u64) * 0x100_0000 + (bytes[b + 4] as u64) * 0x1_0000_0000 + (bytes[b + 5] as u64)
        * 0x100_0000_0000 + (bytes[b + 6] as u64) * 0x1_0000_0000_0000 + (bytes[b + 7] as u64)
        * 0x100_0000_0000_0000
}

impl Clone for HashConfig {
    /// Calls `Clone::clone` of `neptune::poseidon::PoseidonConstants`.
    /// Nothing is claimed of the copy.
    #[verifier::external_body]
    fn clone(&self) -> (copy: Self) {
        HashConfig { constants: self.constants.clone() }
    }
}

impl HashConfig {
    /// The standard configuration.
    pub fn new() -> (config: Self) {
        standard_config()
    }

    /// The hash of the ordered pair `(left, right)`.
    pub fn hash_pair(&self, left: &FieldElement, right: &FieldElement) -> (digest: FieldElement)
        ensures
            digest == pair_hash(*left, *right),
            digest.is_canonical(),
    {
        let bytes = poseidon_hash_pair(self, left.to_limbs(), right.to_limbs());
        FieldElement::read_bytes(&bytes)
    }
}

} // verus!
