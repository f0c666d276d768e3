use ff::PrimeField;
use generic_array::typenum::U2;
use neptune::poseidon::PoseidonConstants;
use neptune::Poseidon;
use nova_snark_example::merkle_tree::circuits::{ordered_pair, InternalHashCircuit};
use nova_snark_example::merkle_tree::field::{FieldElement, HashConfig};
use nova_snark_example::merkle_tree::tree::Leafable;
use fil_pasta_curves::Fq;

fn limbs_of(x: Fq) -> [u64; 4] {
    let bytes = x.to_repr();
    let mut limbs = [0u64; 4];
    for i in 0..4 {
        let mut chunk = [0u8; 8];
        chunk.copy_from_slice(&bytes[8 * i..8 * i + 8]);
        limbs[i] = u64::from_le_bytes(chunk);
    }
    limbs
}

fn reference_hash(left: Fq, right: Fq) -> [u64; 4] {
    let constants: PoseidonConstants<Fq, U2> = PoseidonConstants::new();
    limbs_of(Poseidon::new_with_preimage(&[left, right], &constants).hash())
}

#[test]
fn zero_and_one_have_the_expected_limbs() {
    assert_eq!(FieldElement::zero().to_limbs(), [0, 0, 0, 0]);
    assert_eq!(FieldElement::one().to_limbs(), [1, 0, 0, 0]);
    assert_eq!(FieldElement::from_u64(77).to_limbs(), [77, 0, 0, 0]);
    assert_eq!(FieldElement::from_u64(0), FieldElement::zero());
    assert_eq!(FieldElement::from_u64(1), FieldElement::one());
}

#[test]
fn from_limbs_accepts_only_canonical_limbs() {
    let modulus = [0x8c46eb2100000001u64, 0x224698fc0994a8dd, 0, 0x4000000000000000];
    assert_eq!(FieldElement::from_limbs(modulus), None);
    let below = [0x8c46eb2100000000u64, 0x224698fc0994a8dd, 0, 0x4000000000000000];
    assert_eq!(FieldElement::from_limbs(below).unwrap().to_limbs(), below);
    let above = [0u64, 0x224698fc0994a8de, 0, 0x4000000000000000];
    assert_eq!(FieldElement::from_limbs(above), None);
    assert_eq!(FieldElement::from_limbs([u64::MAX; 4]), None);
    let high = [u64::MAX, u64::MAX, u64::MAX, 0x3fffffffffffffff];
    assert_eq!(FieldElement::from_limbs(high).unwrap().to_limbs(), high);
    assert_eq!(FieldElement::from_limbs([5, 0, 0, 0]), Some(FieldElement::from_u64(5)));
}

#[test]
fn field_leaf_is_its_own_hash() {
    assert_eq!(<FieldElement as Leafable>::empty_leaf(), FieldElement::zero());
    let x = FieldElement::from_u64(9);
    assert_eq!(Leafable::hash(&x), x);
}

#[test]
fn hash_pair_is_the_poseidon_hash() {
    let config = HashConfig::new();
    let two = FieldElement::from_u64(2);
    let three = FieldElement::from_u64(3);
    let digest = config.hash_pair(&two, &three);
    assert_eq!(digest.to_limbs(), reference_hash(Fq::from(2), Fq::from(3)));
    assert_ne!(digest, two);
    assert_ne!(digest, three);
    let swapped = config.hash_pair(&three, &two);
    assert_eq!(swapped.to_limbs(), reference_hash(Fq::from(3), Fq::from(2)));
    assert_ne!(digest, swapped);
}

#[test]
fn hash_pair_gives_canonical_limbs() {
    let config = HashConfig::new();
    let mut acc = FieldElement::zero();
    for i in 0..20u64 {
        acc = config.hash_pair(&acc, &FieldElement::from_u64(i));
        assert_eq!(FieldElement::from_limbs(acc.to_limbs()), Some(acc));
    }
}

#[test]
fn hash_pair_of_large_elements() {
    let config = HashConfig::new();
    let a = config.hash_pair(&FieldElement::one(), &FieldElement::zero());
    let b = config.hash_pair(&FieldElement::zero(), &FieldElement::one());
    let expected = reference_hash(Fq::from_raw(a.to_limbs()), Fq::from_raw(b.to_limbs()));
    assert_eq!(config.hash_pair(&a, &b).to_limbs(), expected);
}

#[test]
fn ordered_pair_swaps_on_the_right_side() {
    let child = FieldElement::from_u64(10);
    let sibling = FieldElement::from_u64(20);
    assert_eq!(ordered_pair(child, sibling, false), (child, sibling));
    assert_eq!(ordered_pair(child, sibling, true), (sibling, child));
}

#[test]
fn internal_hash_circuit_hashes_in_order() {
    let child = FieldElement::from_u64(4);
    let sibling = FieldElement::from_u64(6);
    let left = InternalHashCircuit { constants: HashConfig::new(), sibling, lr_bit: false };
    assert_eq!(left.arity(), 1);
    let out = left.output(&[child]);
    assert_eq!(out.len(), 1);
    assert_eq!(out[0].to_limbs(), reference_hash(Fq::from(4), Fq::from(6)));
    let right = InternalHashCircuit { constants: HashConfig::new(), sibling, lr_bit: true };
    let out = right.output(&[child]);
    assert_eq!(out, vec![HashConfig::new().hash_pair(&sibling, &child)]);
    assert_eq!(out[0].to_limbs(), reference_hash(Fq::from(6), Fq::from(4)));
}

#[test]
fn from_bytes_reads_little_endian_limbs() {
    let mut bytes = [0u8; 32];
    bytes[0] = 1;
    bytes[1] = 2;
    bytes[8] = 3;
    bytes[23] = 4;
    bytes[31] = 0x3f;
    let e = FieldElement::from_bytes(&bytes).unwrap();
    assert_eq!(e.to_limbs(), [0x0201, 3, 0x0400000000000000, 0x3f00000000000000]);
    let x = Fq::from(123456789u64) * Fq::from(987654321u64) * Fq::from(u64::MAX);
    let e = FieldElement::from_bytes(&x.to_repr()).unwrap();
    assert_eq!(e.to_limbs(), limbs_of(x));
}

#[test]
fn from_bytes_rejects_the_modulus() {
    let modulus = [0x8c46eb2100000001u64, 0x224698fc0994a8dd, 0, 0x4000000000000000];
    let mut bytes = [0u8; 32];
    for i in 0..4 {
        bytes[8 * i..8 * i + 8].copy_from_slice(&modulus[i].to_le_bytes());
    }
    assert_eq!(FieldElement::from_bytes(&bytes), None);
    bytes[0] = 0;
    assert!(FieldElement::from_bytes(&bytes).is_some());
    assert_eq!(FieldElement::from_bytes(&[0xff; 32]), None);
    assert_eq!(FieldElement::from_bytes(&[0; 32]), Some(FieldElement::zero()));
}
