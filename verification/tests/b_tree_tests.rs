use playground::b_tree::{BTree, BTreeNode, TraverseResult};

fn all_keys(tree: &BTree<i32>) -> Vec<i32> {
    let r = tree.traverse();
    let mut keys = Vec::new();
    for level in r.levels.iter() {
        for node in level.iter() {
            keys.extend(node.iter().cloned());
        }
    }
    keys.sort();
    keys
}

fn demo_tree() -> BTree<i32> {
    let mut btree = BTree::new(2);
    for x in 0..10 {
        btree.insert(x);
    }
    btree
}

#[test]
fn new_tree_is_empty() {
    let tree: BTree<i32> = BTree::new(2);
    assert_eq!(tree.get_ref(1), None);
    assert!(tree.traverse().levels.is_empty());
}

#[test]
fn inserted_keys_are_found() {
    let tree = demo_tree();
    for x in 0..10 {
        assert_eq!(tree.get_ref(x), Some(&x));
    }
    assert_eq!(tree.get_ref(10), None);
    assert_eq!(tree.get_ref(-1), None);
}

#[test]
fn levels_after_ten_inserts() {
    let tree = demo_tree();
    let r = tree.traverse();
    assert_eq!(
        r.levels,
        vec![
            vec![vec![3]],
            vec![vec![1], vec![5, 7]],
            vec![vec![0], vec![2], vec![4], vec![6], vec![8, 9]],
        ]
    );
}

#[test]
fn levels_after_removing_smallest() {
    let mut tree = demo_tree();
    tree.remove(0);
    let r = tree.traverse();
    assert_eq!(
        r.levels,
        vec![
            vec![vec![5]],
            vec![vec![3], vec![7]],
            vec![vec![1, 2], vec![4], vec![6], vec![8, 9]],
        ]
    );
    assert_eq!(tree.get_ref(0), None);
    for x in 1..10 {
        assert_eq!(tree.get_ref(x), Some(&x));
    }
}

#[test]
fn removing_absent_key_changes_nothing() {
    let mut tree = demo_tree();
    let before = tree.traverse().levels;
    tree.remove(42);
    assert_eq!(tree.traverse().levels, before);
    let mut empty: BTree<i32> = BTree::new(3);
    empty.remove(1);
    assert!(empty.traverse().levels.is_empty());
}

#[test]
fn duplicates_are_kept_and_removed_one_at_a_time() {
    let mut tree = BTree::new(2);
    for _ in 0..5 {
        tree.insert(7);
    }
    tree.insert(3);
    assert_eq!(all_keys(&tree), vec![3, 7, 7, 7, 7, 7]);
    tree.remove(7);
    assert_eq!(all_keys(&tree), vec![3, 7, 7, 7, 7]);
    assert_eq!(tree.get_ref(7), Some(&7));
    for _ in 0..4 {
        tree.remove(7);
    }
    assert_eq!(all_keys(&tree), vec![3]);
    assert_eq!(tree.get_ref(7), None);
}

#[test]
fn insert_then_remove_round_trip() {
    let mut tree = demo_tree();
    let before = all_keys(&tree);
    tree.insert(100);
    tree.remove(100);
    assert_eq!(all_keys(&tree), before);
}

#[test]
fn removing_everything_empties_the_tree() {
    let mut tree = BTree::new(2);
    for x in 0..50 {
        tree.insert(x);
    }
    for x in 0..50 {
        tree.remove(x);
        assert_eq!(tree.get_ref(x), None);
    }
    assert!(tree.traverse().levels.is_empty());
}

#[test]
fn matches_a_reference_multiset_under_many_operations() {
    for order in 2..5 {
        let mut tree = BTree::new(order);
        let mut reference: Vec<i32> = Vec::new();
        let mut seed: u64 = 7 + order as u64;
        for _ in 0..600 {
            seed = seed.wrapping_mul(6364136223846793005).wrapping_add(1442695040888963407);
            let key = ((seed >> 33) % 40) as i32;
            if (seed >> 20) % 3 == 0 {
                tree.remove(key);
                if let Some(pos) = reference.iter().position(|&k| k == key) {
                    reference.remove(pos);
                }
            } else {
                tree.insert(key);
                reference.push(key);
            }
            assert_eq!(tree.get_ref(key).is_some(), reference.contains(&key));
        }
        reference.sort();
        assert_eq!(all_keys(&tree), reference);
        // every node but the root holds between order - 1 and 2 * order - 1 keys
        let r = tree.traverse();
        for (d, level) in r.levels.iter().enumerate() {
            for node in level.iter() {
                assert!(node.len() <= 2 * order - 1);
                if d > 0 {
                    assert!(node.len() >= order - 1);
                }
                for w in node.windows(2) {
                    assert!(w[0] <= w[1]);
                }
            }
        }
    }
}

#[test]
fn larger_order_tree() {
    let mut tree = BTree::new(3);
    for x in (0..30).rev() {
        tree.insert(x);
    }
    assert_eq!(all_keys(&tree), (0..30).collect::<Vec<i32>>());
    for x in (0..30).step_by(2) {
        tree.remove(x);
    }
    assert_eq!(all_keys(&tree), (0..30).filter(|x| x % 2 == 1).collect::<Vec<i32>>());
}

#[test]
fn node_new_is_empty() {
    let node: BTreeNode<i32> = BTreeNode::new(2, true);
    let _ = node;
}

#[test]
fn traverse_result_insert() {
    let mut r: TraverseResult<i32> = TraverseResult::new();
    assert!(r.levels.is_empty());
    r.insert(1, vec![1]);
    assert!(r.levels.is_empty());
    r.insert(0, vec![1, 2]);
    assert_eq!(r.levels, vec![vec![vec![1, 2]]]);
    r.insert(0, vec![3]);
    assert_eq!(r.levels, vec![vec![vec![1, 2], vec![3]]]);
    r.insert(1, vec![4]);
    assert_eq!(r.levels, vec![vec![vec![1, 2], vec![3]], vec![vec![4]]]);
    r.insert(5, vec![9]);
    assert_eq!(r.levels.len(), 2);
}

#[test]
fn first_insert_makes_a_single_node() {
    let mut tree: BTree<i32> = BTree::new(3);
    tree.insert(7);
    assert_eq!(tree.traverse().levels, vec![vec![vec![7]]]);
}
