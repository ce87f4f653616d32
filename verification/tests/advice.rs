use vm_core::AdviceSet;
use vm_core::Felt;
use vm_core::Word;
use vm_core::advice::AdviceSetError;
use vm_core::advice::MerklePathSet;
use vm_core::advice::MerkleTree;
use vm_core::advice::compute_path_root;

fn word(a: u64, b: u64, c: u64, d: u64) -> Word {
    [Felt::new(a), Felt::new(b), Felt::new(c), Felt::new(d)]
}

fn ints(w: &Word) -> [u64; 4] {
    [w[0].as_int(), w[1].as_int(), w[2].as_int(), w[3].as_int()]
}

fn four_leaves() -> Vec<Word> {
    vec![word(1, 2, 3, 4), word(5, 6, 7, 8), word(9, 10, 11, 12), word(13, 14, 15, 16)]
}

#[test]
fn tree_rejects_bad_leaf_counts() {
    assert_eq!(MerkleTree::new(vec![]).unwrap_err(), AdviceSetError::DepthTooSmall);
    assert_eq!(MerkleTree::new(vec![word(1, 0, 0, 0)]).unwrap_err(), AdviceSetError::DepthTooSmall);
    assert_eq!(
        MerkleTree::new(vec![word(1, 0, 0, 0), word(2, 0, 0, 0), word(3, 0, 0, 0)]).unwrap_err(),
        AdviceSetError::NumLeavesNotPowerOfTwo
    );
}

#[test]
fn tree_root_is_no_leaf() {
    // The root is a real digest: were the merge a pass-through, it would
    // collide with one of the leaves.
    let tree = MerkleTree::new(vec![word(1, 0, 0, 0), word(2, 0, 0, 0)]).unwrap();
    let root = tree.root();
    assert_ne!(ints(&root), ints(&word(1, 0, 0, 0)));
    assert_ne!(ints(&root), ints(&word(2, 0, 0, 0)));
}

#[test]
fn distinct_leaves_give_distinct_roots() {
    let a = MerkleTree::new(vec![word(1, 0, 0, 0), word(2, 0, 0, 0)]).unwrap();
    let b = MerkleTree::new(vec![word(1, 0, 0, 0), word(3, 0, 0, 0)]).unwrap();
    let c = MerkleTree::new(vec![word(1, 0, 0, 0), word(2, 0, 0, 0)]).unwrap();
    assert_ne!(ints(&a.root()), ints(&b.root()));
    assert_eq!(ints(&a.root()), ints(&c.root()));
}

#[test]
fn tree_leaves_are_readable() {
    let set = AdviceSet::MerkleTree(MerkleTree::new(four_leaves()).unwrap());
    assert_eq!(set.depth(), 2);
    for (i, leaf) in four_leaves().iter().enumerate() {
        let got = set.get_leaf(i as u64, 2).unwrap();
        assert_eq!(ints(&got), ints(leaf));
    }
}

#[test]
fn tree_lookup_failures() {
    let set = AdviceSet::MerkleTree(MerkleTree::new(four_leaves()).unwrap());
    assert_eq!(set.get_leaf(0, 3).unwrap_err(), AdviceSetError::InvalidDepth);
    assert_eq!(set.get_leaf(4, 2).unwrap_err(), AdviceSetError::InvalidIndex);
    assert_eq!(set.get_path(0, 1).unwrap_err(), AdviceSetError::InvalidDepth);
    assert_eq!(set.get_path(7, 2).unwrap_err(), AdviceSetError::InvalidIndex);
}

#[test]
fn rehashing_leaf_with_path_reproduces_root() {
    let set = AdviceSet::MerkleTree(MerkleTree::new(four_leaves()).unwrap());
    let root = ints(&set.root());
    for i in 0..4u64 {
        let leaf = set.get_leaf(i, 2).unwrap();
        let path = set.get_path(i, 2).unwrap();
        assert_eq!(path.len(), 2);
        let folded = compute_path_root(&leaf, i, &path);
        assert_eq!(ints(&folded), root);
    }
}

#[test]
fn tree_update_leaf_recommits_the_root() {
    let mut set = AdviceSet::MerkleTree(MerkleTree::new(four_leaves()).unwrap());
    let old_root = ints(&set.root());
    let new_leaf = word(100, 200, 300, 400);

    let new_root = set.update_leaf(1, 2, new_leaf).unwrap();
    assert_eq!(ints(&new_root), ints(&set.root()));
    assert_ne!(ints(&new_root), old_root);

    // the updated leaf is stored, the others are untouched
    assert_eq!(ints(&set.get_leaf(1, 2).unwrap()), ints(&new_leaf));
    assert_eq!(ints(&set.get_leaf(0, 2).unwrap()), ints(&word(1, 2, 3, 4)));
    assert_eq!(ints(&set.get_leaf(2, 2).unwrap()), ints(&word(9, 10, 11, 12)));

    // freshly requested paths verify against the new root
    for i in 0..4u64 {
        let leaf = set.get_leaf(i, 2).unwrap();
        let path = set.get_path(i, 2).unwrap();
        assert_eq!(ints(&compute_path_root(&leaf, i, &path)), ints(&new_root));
    }

    // rebuilding from the updated leaves commits to the same root
    let rebuilt = MerkleTree::new(vec![
        word(1, 2, 3, 4),
        new_leaf,
        word(9, 10, 11, 12),
        word(13, 14, 15, 16),
    ])
    .unwrap();
    assert_eq!(ints(&rebuilt.root()), ints(&new_root));
}

#[test]
fn tree_update_failures_leave_tree_unchanged() {
    let mut set = AdviceSet::MerkleTree(MerkleTree::new(four_leaves()).unwrap());
    let root = ints(&set.root());
    assert_eq!(set.update_leaf(0, 5, word(1, 1, 1, 1)).unwrap_err(), AdviceSetError::InvalidDepth);
    assert_eq!(set.update_leaf(9, 2, word(1, 1, 1, 1)).unwrap_err(), AdviceSetError::InvalidIndex);
    assert_eq!(ints(&set.root()), root);
}

#[test]
fn path_set_depth_bounds() {
    assert_eq!(MerklePathSet::new(0).unwrap_err(), AdviceSetError::DepthTooSmall);
    assert_eq!(MerklePathSet::new(64).unwrap_err(), AdviceSetError::DepthTooBig);
    assert!(MerklePathSet::new(63).is_ok());
}

#[test]
fn path_set_serves_added_paths() {
    // take real paths out of a tree and commit them sparsely
    let tree = AdviceSet::MerkleTree(MerkleTree::new(four_leaves()).unwrap());
    let root = ints(&tree.root());

    let mut ps = MerklePathSet::new(2).unwrap();
    for i in [0u64, 3u64] {
        let leaf = tree.get_leaf(i, 2).unwrap();
        let path = tree.get_path(i, 2).unwrap();
        ps.add_path(i, leaf, path).unwrap();
    }
    assert_eq!(ints(&ps.root()), root);

    let set = AdviceSet::MerklePathSet(ps);
    assert_eq!(set.depth(), 2);
    for i in [0u64, 3u64] {
        let leaf = set.get_leaf(i, 2).unwrap();
        let path = set.get_path(i, 2).unwrap();
        assert_eq!(ints(&leaf), ints(&tree.get_leaf(i, 2).unwrap()));
        assert_eq!(ints(&compute_path_root(&leaf, i, &path)), root);
    }
    // an index with no stored path is not served
    assert_eq!(set.get_leaf(1, 2).unwrap_err(), AdviceSetError::InvalidIndex);
    assert_eq!(set.get_leaf(0, 3).unwrap_err(), AdviceSetError::InvalidDepth);
}

#[test]
fn path_set_rejects_bad_paths() {
    let tree = AdviceSet::MerkleTree(MerkleTree::new(four_leaves()).unwrap());
    let leaf0 = tree.get_leaf(0, 2).unwrap();
    let path0 = tree.get_path(0, 2).unwrap();

    let mut ps = MerklePathSet::new(2).unwrap();
    // wrong path length
    assert_eq!(
        ps.add_path(0, leaf0, vec![word(0, 0, 0, 0)]).unwrap_err(),
        AdviceSetError::InvalidPath
    );
    // index out of range for depth 2
    assert_eq!(ps.add_path(4, leaf0, path0.clone()).unwrap_err(), AdviceSetError::InvalidIndex);

    ps.add_path(0, leaf0, path0.clone()).unwrap();
    // an index may be supplied only once
    assert_eq!(ps.add_path(0, leaf0, path0).unwrap_err(), AdviceSetError::DuplicateIndex);
    // a path that folds to a different root is rejected
    let leaf1 = tree.get_leaf(1, 2).unwrap();
    assert_eq!(
        ps.add_path(1, leaf1, vec![word(0, 0, 0, 0), word(0, 0, 0, 0)]).unwrap_err(),
        AdviceSetError::InvalidPath
    );
}

#[test]
fn path_set_does_not_support_updates() {
    let tree = AdviceSet::MerkleTree(MerkleTree::new(four_leaves()).unwrap());
    let mut ps = MerklePathSet::new(2).unwrap();
    ps.add_path(0, tree.get_leaf(0, 2).unwrap(), tree.get_path(0, 2).unwrap()).unwrap();
    let mut set = AdviceSet::MerklePathSet(ps);
    assert_eq!(
        set.update_leaf(0, 2, word(1, 1, 1, 1)).unwrap_err(),
        AdviceSetError::UpdateNotSupported
    );
}
