use bellperson::gadgets::boolean::AllocatedBit;
use bellperson::gadgets::num::AllocatedNum;
use bellperson::util_cs::test_cs::TestConstraintSystem;
use bellperson::ConstraintSystem;
use ff::PrimeField;
use fil_pasta_curves::Fq;
use generic_array::typenum::U2;
use neptune::circuit::poseidon_hash;
use neptune::poseidon::PoseidonConstants;
use nova_snark_example::merkle_tree::circuits::MerkleInclusionCircuit;
use nova_snark_example::merkle_tree::field::{FieldElement, HashConfig};
use nova_snark_example::merkle_tree::tree::MerkleTree;

fn scalar(e: &FieldElement) -> Fq {
    Fq::from_raw(e.to_limbs())
}

fn element(x: &Fq) -> FieldElement {
    FieldElement::from_bytes(&x.to_repr()).unwrap()
}

fn constrained_root(circuit: &MerkleInclusionCircuit) -> (FieldElement, bool) {
    let constants: PoseidonConstants<Fq, U2> = PoseidonConstants::new();
    let mut cs = TestConstraintSystem::<Fq>::new();
    let mut acc =
        AllocatedNum::alloc(cs.namespace(|| "allocate value"), || Ok(scalar(&circuit.value)))
            .unwrap();
    for (i, level) in circuit.levels().ok().unwrap().iter().enumerate() {
        let mut cs = cs.namespace(|| format!("calculate parent hash {i}"));
        let sibling =
            AllocatedNum::alloc(cs.namespace(|| "allocate sibling"), || Ok(scalar(&level.sibling)))
                .unwrap();
        let bit =
            AllocatedBit::alloc(cs.namespace(|| "allocate lr_bit"), Some(level.lr_bit)).unwrap();
        let (l, r) = AllocatedNum::conditionally_reverse(
            cs.namespace(|| "reverse children"),
            &acc,
            &sibling,
            &bit.into(),
        )
        .unwrap();
        acc = poseidon_hash(cs.namespace(|| "calculate poseidon"), vec![l, r], &constants).unwrap();
    }
    (element(&acc.get_value().unwrap()), cs.is_satisfied())
}

fn agree_at_height(height: usize) {
    let config = HashConfig::new();
    let random = config.hash_pair(&FieldElement::from_u64(77), &FieldElement::from_u64(99));
    let last = (1usize << height) - 1;
    for index in [0, last / 3, last] {
        for value in [FieldElement::zero(), FieldElement::one(), random] {
            let mut tree: MerkleTree<FieldElement> = MerkleTree::new(height);
            tree.update(last / 2, random).unwrap();
            let root = tree.update(index, value).unwrap();
            let circuit = MerkleInclusionCircuit {
                constants: config.clone(),
                siblings: tree.prove(index).unwrap(),
                index,
                value,
            };
            let (constrained, satisfied) = constrained_root(&circuit);
            assert!(satisfied);
            assert_eq!(circuit.output(), Ok(vec![constrained]));
            assert_eq!(constrained, root);
        }
    }
}

#[test]
fn constrained_agrees_at_height_zero() {
    agree_at_height(0);
}

#[test]
fn constrained_agrees_at_height_one() {
    agree_at_height(1);
}

#[test]
fn constrained_agrees_at_height_four() {
    agree_at_height(4);
}

#[test]
fn constrained_agrees_at_height_sixteen() {
    agree_at_height(16);
}
