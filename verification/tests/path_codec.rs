use nova_snark_example::merkle_tree::path::{
    index_fits, index_to_path, path_to_index, MerkleError,
};
use nova_snark_example::merkle_tree::tree::usize_to_vec;

#[test]
fn usize_to_vec_is_big_endian() {
    assert_eq!(usize_to_vec(5, 4), vec![false, true, false, true]);
    assert_eq!(usize_to_vec(1, 3), vec![false, false, true]);
    assert_eq!(usize_to_vec(6, 3), vec![true, true, false]);
}

#[test]
fn usize_to_vec_of_length_zero_is_empty() {
    assert_eq!(usize_to_vec(0, 0), Vec::<bool>::new());
    assert_eq!(index_to_path(7, 0), Err(MerkleError::InvalidIndex));
}

#[test]
fn an_index_out_of_range_is_not_masked() {
    assert_eq!(index_to_path(5, 2), Err(MerkleError::InvalidIndex));
    assert_eq!(index_to_path(usize::MAX, 1), Err(MerkleError::InvalidIndex));
    assert_eq!(index_to_path(1, 1), Ok(vec![true]));
    assert_eq!(usize_to_vec(1, 2), vec![false, true]);
}

#[test]
fn usize_to_vec_pads_beyond_the_word() {
    let path = usize_to_vec(usize::MAX, 70);
    assert_eq!(path.len(), 70);
    let ones = path.iter().filter(|b| **b).count();
    assert_eq!(ones, usize::BITS as usize);
    assert!(!path[0]);
    assert!(path[69]);
}

#[test]
fn index_fits_at_the_edges() {
    assert!(index_fits(0, 0));
    assert!(!index_fits(1, 0));
    assert!(index_fits(1, 1));
    assert!(!index_fits(2, 1));
    assert!(index_fits(15, 4));
    assert!(!index_fits(16, 4));
    assert!(index_fits(65535, 16));
    assert!(!index_fits(65536, 16));
    assert!(index_fits(usize::MAX, 200));
}

#[test]
fn index_to_path_rejects_an_index_out_of_range() {
    assert_eq!(index_to_path(4, 2), Err(MerkleError::InvalidIndex));
    assert_eq!(index_to_path(1, 0), Err(MerkleError::InvalidIndex));
    assert_eq!(index_to_path(3, 2), Ok(vec![true, true]));
    assert_eq!(index_to_path(2, 2), Ok(vec![true, false]));
    assert_eq!(index_to_path(0, 0), Ok(vec![]));
}

#[test]
fn path_to_index_reads_the_first_bit_as_the_highest() {
    assert_eq!(path_to_index(&vec![]), Some(0));
    assert_eq!(path_to_index(&vec![true, false]), Some(2));
    assert_eq!(path_to_index(&vec![false, true, false, true]), Some(5));
}

#[test]
fn path_to_index_fails_beyond_the_word() {
    let bits = usize::BITS as usize;
    assert_eq!(path_to_index(&vec![true; bits]), Some(usize::MAX));
    assert_eq!(path_to_index(&vec![true; bits + 1]), None);
    let mut padded = vec![false; 5];
    padded.extend(vec![true; bits]);
    assert_eq!(path_to_index(&padded), Some(usize::MAX));
}

#[test]
fn path_round_trip() {
    for height in [0usize, 1, 4, 16] {
        let last = (1usize << height) - 1;
        for index in [0, last / 3, last / 2, last] {
            let path = index_to_path(index, height).unwrap();
            assert_eq!(path.len(), height);
            assert_eq!(path_to_index(&path), Some(index));
        }
    }
}

#[test]
fn path_round_trip_exhaustive_height_five() {
    for index in 0..32usize {
        let path = index_to_path(index, 5).unwrap();
        assert_eq!(path, usize_to_vec(index, 5));
        assert_eq!(path_to_index(&path), Some(index));
    }
}

#[test]
fn each_error_has_its_own_message() {
    let a = MerkleError::InvalidIndex.message();
    let b = MerkleError::SiblingLengthMismatch.message();
    let c = MerkleError::RootMismatch.message();
    assert_eq!(a, "the index names no leaf of the tree");
    assert_eq!(b, "the number of siblings is not the height of the tree");
    assert_eq!(c, "the old value and the siblings do not rebuild the carried root");
}
