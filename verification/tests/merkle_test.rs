use nexo_core::merkle::compute_merkle_root;
use sha2::{Digest, Sha256};

fn pair(left: &[u8], right: &[u8]) -> Vec<u8> {
    let mut hasher = Sha256::new();
    hasher.update(left);
    hasher.update(right);
    hasher.finalize().to_vec()
}

#[test]
fn test_merkle_consistency() {
    let leaves: Vec<Vec<u8>> = vec![
        Sha256::digest(b"leaf1").to_vec(),
        Sha256::digest(b"leaf2").to_vec(),
        Sha256::digest(b"leaf3").to_vec(),
    ];

    let root = compute_merkle_root(&leaves);
    assert_eq!(root.len(), 32);

    // Test that adding the same leaves produces the same root
    let root2 = compute_merkle_root(&leaves);
    assert_eq!(root, root2);
}

#[test]
fn test_empty_tree() {
    let root = compute_merkle_root(&[]);
    assert_eq!(root.len(), 32);
    assert_eq!(root, vec![0; 32]);
}

#[test]
fn test_single_leaf() {
    let leaf = b"test leaf".to_vec();
    let root = compute_merkle_root(&[leaf.clone()]);
    assert_eq!(root, leaf);
}

#[test]
fn test_two_leaves() {
    let leaf1 = Sha256::digest(b"leaf1").to_vec();
    let leaf2 = Sha256::digest(b"leaf2").to_vec();

    let expected = {
        let mut hasher = Sha256::new();
        hasher.update(&leaf1);
        hasher.update(&leaf2);
        hasher.finalize().to_vec()
    };

    let root = compute_merkle_root(&[leaf1, leaf2]);
    assert_eq!(root, expected);
}

#[test]
fn three_leaves_carry_the_odd_one() {
    let a = Sha256::digest(b"a").to_vec();
    let b = Sha256::digest(b"b").to_vec();
    let c = Sha256::digest(b"c").to_vec();
    let expected = pair(&pair(&a, &b), &c);
    assert_eq!(compute_merkle_root(&[a, b, c]), expected);
}

#[test]
fn four_and_five_leaves() {
    let l: Vec<Vec<u8>> = (0u8..5).map(|i| Sha256::digest([i]).to_vec()).collect();
    let left = pair(&pair(&l[0], &l[1]), &pair(&l[2], &l[3]));
    assert_eq!(compute_merkle_root(&l[..4]), left);
    assert_eq!(compute_merkle_root(&l), pair(&left, &l[4]));
}

#[test]
fn known_root_of_two_fixed_leaves() {
    // SHA-256 of the bytes 0x00 0x01.
    let root = compute_merkle_root(&[vec![0u8], vec![1u8]]);
    let hex: String = root.iter().map(|b| format!("{:02x}", b)).collect();
    assert_eq!(hex, "b413f47d13ee2fe6c845b2ee141af81de858df4ec549a58b7970bb96645bc8d2");
}

#[test]
fn roots_of_more_than_one_leaf_are_digests() {
    assert_eq!(compute_merkle_root(&[b"x".to_vec(), b"yz".to_vec()]).len(), 32);
    assert_eq!(compute_merkle_root(&[vec![], vec![], vec![1, 2, 3]]).len(), 32);
    assert_eq!(compute_merkle_root(&[vec![1, 2, 3]]).len(), 3);
    let many: Vec<Vec<u8>> = (0u8..9).map(|i| vec![i; i as usize]).collect();
    let mut level = many.clone();
    while level.len() > 1 {
        let mut next = Vec::new();
        for chunk in level.chunks(2) {
            if chunk.len() == 2 {
                next.push(pair(&chunk[0], &chunk[1]));
            } else {
                next.push(chunk[0].clone());
            }
        }
        level = next;
    }
    assert_eq!(compute_merkle_root(&many), level[0]);
}
