use stark_primitives::field::FieldElement;
use stark_primitives::merkle::{verify_decommitment, MerkleError, MerkleTree};

fn elements(values: &[u32]) -> Vec<FieldElement> {
    values.iter().map(|v| FieldElement::new(*v)).collect()
}

fn setup_merkle_tree() -> (MerkleTree, Vec<String>) {
    let data = vec![
        FieldElement::new(1),
        FieldElement::new(2),
        FieldElement::new(3),
        FieldElement::new(4),
    ];
    let tree = MerkleTree::new(data).unwrap();
    let path = tree.get_authentication_path(2).unwrap();
    (tree, path)
}

#[test]
fn test_merkle_tree_valid() {
    let (tree, path) = setup_merkle_tree();
    assert!(verify_decommitment(
        2,
        FieldElement::new(3),
        path,
        tree.root().clone()
    ));
}

#[test]
fn test_merkle_tree_invalid_content() {
    let (tree, path) = setup_merkle_tree();
    assert!(!verify_decommitment(
        2,
        FieldElement::new(4),
        path,
        tree.root().clone()
    ));
}

#[test]
fn test_merkle_tree_invalid_decommitment() {
    let (tree, path) = setup_merkle_tree();
    let mut invalid_path = path.clone();
    invalid_path[0] = "invalid".to_string();
    assert!(!verify_decommitment(
        2,
        FieldElement::new(3),
        invalid_path,
        tree.root().clone()
    ));
}

#[test]
fn four_leaves_scenario() {
    let (tree, path) = setup_merkle_tree();
    assert_eq!(tree.leaves().len(), 4);
    assert_eq!(tree.height(), 2);
    assert_eq!(path.len(), 2);
    let root = tree.root().clone();
    assert!(verify_decommitment(2, FieldElement::new(3), path.clone(), root.clone()));
    assert!(!verify_decommitment(2, FieldElement::new(4), path.clone(), root.clone()));
    let mut bad = path.clone();
    bad[0] = bad[0].replace(|c: char| c == bad[0].chars().next().unwrap(), "g");
    assert!(!verify_decommitment(2, FieldElement::new(3), bad, root));
}

#[test]
fn digests_are_sha256_of_decimal_strings() {
    let (tree, path) = setup_merkle_tree();
    let l1 = sha256::digest("1");
    let l2 = sha256::digest("2");
    let l3 = sha256::digest("3");
    let l4 = sha256::digest("4");
    assert_eq!(
        l1,
        "6b86b273ff34fce19d6b804eff5a3f5747ada4eaa22f1d49c01e52ddb7875b4b"
    );
    let left = sha256::digest(format!("{}{}", l1, l2));
    let right = sha256::digest(format!("{}{}", l3, l4));
    let root = sha256::digest(format!("{}{}", left, right));
    assert_eq!(tree.root(), &root);
    // the path of leaf 2 is the left half's digest, then leaf 3's digest
    assert_eq!(path, vec![left, l4]);
    assert_eq!(
        tree.get_authentication_path(1).unwrap(),
        vec![right, l1]
    );
}

#[test]
fn empty_input_is_refused() {
    assert!(matches!(
        MerkleTree::new(Vec::new()),
        Err(MerkleError::ConstructionError)
    ));
}

#[test]
fn leaf_index_out_of_range_is_refused() {
    let (tree, _) = setup_merkle_tree();
    assert_eq!(
        tree.get_authentication_path(4),
        Err(MerkleError::IndexError)
    );
    assert_eq!(
        tree.get_authentication_path(u32::MAX),
        Err(MerkleError::IndexError)
    );
    assert!(tree.get_authentication_path(3).is_ok());
    let padded = MerkleTree::new(elements(&[1, 2, 3])).unwrap();
    assert!(padded.get_authentication_path(3).is_ok());
    assert_eq!(
        padded.get_authentication_path(4),
        Err(MerkleError::IndexError)
    );
}

#[test]
fn three_elements_are_padded_to_four() {
    let tree = MerkleTree::new(elements(&[7, 8, 9])).unwrap();
    assert_eq!(tree.leaves().len(), 4);
    assert_eq!(tree.height(), 2);
    assert_eq!(tree.leaves()[3], FieldElement::zero());
    assert_eq!(tree.leaves()[0], FieldElement::new(7));
    assert_eq!(tree.leaves()[2], FieldElement::new(9));
    let same = MerkleTree::new(elements(&[7, 8, 9, 0])).unwrap();
    assert_eq!(tree.root(), same.root());
}

#[test]
fn heights_and_sizes() {
    let cases: [(usize, usize, u32); 7] = [
        (1, 1, 0),
        (2, 2, 1),
        (3, 4, 2),
        (4, 4, 2),
        (5, 8, 3),
        (8, 8, 3),
        (9, 16, 4),
    ];
    for &(len, size, height) in cases.iter() {
        let data: Vec<FieldElement> = (0..len as u32).map(FieldElement::new).collect();
        let tree = MerkleTree::new(data).unwrap();
        assert_eq!(tree.leaves().len(), size);
        assert_eq!(tree.height(), height);
    }
}

#[test]
fn single_leaf_tree() {
    let tree = MerkleTree::new(elements(&[42])).unwrap();
    assert_eq!(tree.root(), &sha256::digest("42"));
    let path = tree.get_authentication_path(0).unwrap();
    assert!(path.is_empty());
    assert!(verify_decommitment(0, FieldElement::new(42), path, tree.root().clone()));
    assert!(!verify_decommitment(0, FieldElement::new(41), Vec::new(), tree.root().clone()));
}

#[test]
fn round_trip_for_every_leaf() {
    for len in 1..=9usize {
        let data: Vec<FieldElement> = (0..len as u32).map(|v| FieldElement::new(v * 31 + 5)).collect();
        let tree = MerkleTree::new(data.clone()).unwrap();
        let size = tree.leaves().len() as u32;
        for i in 0..size {
            let value = tree.leaves()[i as usize];
            if (i as usize) < len {
                assert_eq!(value, data[i as usize]);
            } else {
                assert_eq!(value, FieldElement::zero());
            }
            let path = tree.get_authentication_path(i).unwrap();
            assert_eq!(path.len() as u32, tree.height());
            assert!(verify_decommitment(i, value, path, tree.root().clone()));
        }
    }
}

#[test]
fn tampering_is_detected() {
    let data = elements(&[10, 20, 30, 40, 50]);
    let tree = MerkleTree::new(data).unwrap();
    let root = tree.root().clone();
    let path = tree.get_authentication_path(4).unwrap();
    assert_eq!(path.len(), 3);
    assert!(verify_decommitment(4, FieldElement::new(50), path.clone(), root.clone()));
    // another value
    assert!(!verify_decommitment(4, FieldElement::new(51), path.clone(), root.clone()));
    // another index
    assert!(!verify_decommitment(5, FieldElement::new(50), path.clone(), root.clone()));
    // each digest of the path corrupted in turn
    for j in 0..path.len() {
        let mut bad = path.clone();
        bad[j] = sha256::digest("corrupted");
        assert!(!verify_decommitment(4, FieldElement::new(50), bad, root.clone()));
    }
    // another root
    assert!(!verify_decommitment(
        4,
        FieldElement::new(50),
        path.clone(),
        sha256::digest("other")
    ));
    // a path cut short
    let mut short = path.clone();
    short.pop();
    assert!(!verify_decommitment(4, FieldElement::new(50), short, root));
}

#[test]
fn verification_never_fails_on_malformed_input() {
    let long: Vec<String> = (0..40).map(|i| format!("{}", i)).collect();
    assert!(!verify_decommitment(u32::MAX, FieldElement::new(1), long, String::new()));
    assert!(!verify_decommitment(7, FieldElement::new(1), Vec::new(), String::from("x")));
}

#[test]
fn the_leading_bit_of_the_node_number_is_not_replayed() {
    let (tree, path) = setup_merkle_tree();
    // leaf 6 of a 4-leaf tree is node 10, whose two lowest bits are those of node 6
    assert!(verify_decommitment(6, FieldElement::new(3), path, tree.root().clone()));
}
