use sstable::avl::AVLTree;

#[test]
fn valid_tree() {
    let first_pair = ("qw", "first");
    let second_pair = ("q", "second");
    let third_pair = ("qwe", "third");
    let fourth_pair = ("qwer", "fourth");
    let fifth_pair = ("qwert", "fifth");

    let mut tree = AVLTree::new();
    tree.set(first_pair.0, first_pair.1);
    let root = tree.root.as_ref().unwrap();
    assert_eq!(root.key, first_pair.0);
    assert_eq!(root.value, first_pair.1);
    assert_eq!(root.height, 1);

    // Value should be inserted to the left
    tree.set(second_pair.0, second_pair.1);
    let root = tree.root.as_ref().unwrap();
    let root_left = root.left.as_ref().unwrap();
    assert_eq!(root_left.key, second_pair.0);
    assert_eq!(root_left.value, second_pair.1);
    assert_eq!(root.height, 2);

    // Value should be inserted to the right
    tree.set(third_pair.0, third_pair.1);
    let root = tree.root.as_ref().unwrap();
    let root_right = root.right.as_ref().unwrap();
    assert_eq!(root_right.key, third_pair.0);
    assert_eq!(root_right.value, third_pair.1);
    assert_eq!(root.height, 2);

    // ReBalance...
    tree.set(fourth_pair.0, fourth_pair.1);
    tree.set(fifth_pair.0, fifth_pair.1);
    let root = tree.root.as_ref().unwrap();
    assert_eq!(root.key, first_pair.0);
    assert_eq!(root.height, 3);

    assert_eq!(root.left.as_ref().unwrap().key, second_pair.0);
    assert_eq!(root.left.as_ref().unwrap().height, 1);

    let root_right = root.right.as_ref().unwrap();
    assert_eq!(root_right.key, fourth_pair.0);
    assert_eq!(root_right.height, 2);

    let root_right_left = root_right.left.as_ref().unwrap();
    assert_eq!(root_right_left.key, third_pair.0);
    assert_eq!(root_right_left.height, 1);

    let root_right_right = root_right.right.as_ref().unwrap();
    assert_eq!(root_right_right.key, fifth_pair.0);
    assert_eq!(root_right_right.height, 1);

    // Get 
    assert_eq!(tree.get(first_pair.0).unwrap().value, first_pair.1);
    assert_eq!(tree.get(second_pair.0).unwrap().value, second_pair.1);
    assert_eq!(tree.get(third_pair.0).unwrap().value, third_pair.1);
    assert_eq!(tree.get(fourth_pair.0).unwrap().value, fourth_pair.1);
    assert_eq!(tree.get(fifth_pair.0).unwrap().value, fifth_pair.1);
    
    // Unset with left and right node
    tree.unset(fourth_pair.0);
    let root = tree.root.as_ref().unwrap();
    assert_eq!(root.key, first_pair.0);
    assert_eq!(root.height, 3);

    assert_eq!(root.left.as_ref().unwrap().key, second_pair.0);
    assert_eq!(root.left.as_ref().unwrap().height, 1);

    let root_right = root.right.as_ref().unwrap();
    assert_eq!(root_right.key, third_pair.0);
    assert_eq!(root_right.height, 2);
    
    let root_right_right = root_right.right.as_ref().unwrap();
    assert_eq!(root_right_right.key, fifth_pair.0);
    assert_eq!(root_right_right.height, 1);

    // Unset with right node
    tree.unset(third_pair.0);
    let root = tree.root.as_ref().unwrap();
    assert_eq!(root.key, first_pair.0);
    assert_eq!(root.height, 2);

    assert_eq!(root.left.as_ref().unwrap().key, second_pair.0);
    assert_eq!(root.left.as_ref().unwrap().height, 1);

    let root_right = root.right.as_ref().unwrap();
    assert_eq!(root_right.key, fifth_pair.0);
    assert_eq!(root_right.height, 1);
    
    // Unset with left node
    tree.unset(second_pair.0);
    let root = tree.root.as_ref().unwrap();
    assert_eq!(root.key, first_pair.0);
    assert_eq!(root.height, 2);
    
    let root_right = root.right.as_ref().unwrap();
    assert_eq!(root_right.key, fifth_pair.0);
    assert_eq!(root_right.height, 1);
}
fn skewed_tree() -> AVLTree {
    let mut tree = AVLTree::new();
    for (k, v) in [("qw", "first"), ("q", "second"), ("qwe", "third"), ("qwer", "fourth"), ("qwert", "fifth")] {
        tree.set(k, v);
    }
    tree
}

fn assert_balanced(node: &Option<Box<sstable::avl::AVLNode>>) -> i32 {
    match node {
        None => 0,
        Some(n) => {
            let hl = assert_balanced(&n.left);
            let hr = assert_balanced(&n.right);
            assert!((hl - hr).abs() <= 1);
            assert_eq!(n.height, 1 + hl.max(hr));
            if let Some(l) = &n.left {
                assert!(l.key < n.key);
            }
            if let Some(r) = &n.right {
                assert!(r.key > n.key);
            }
            n.height
        }
    }
}

#[test]
fn skewed_inserts_heights() {
    let tree = skewed_tree();
    let root = tree.root.as_ref().unwrap();
    assert_eq!(root.key, "qw");
    assert_eq!(root.height, 3);
    let left = root.left.as_ref().unwrap();
    assert_eq!(left.key, "q");
    assert_eq!(left.height, 1);
    let right = root.right.as_ref().unwrap();
    assert_eq!(right.key, "qwer");
    assert_eq!(right.height, 2);
    assert_eq!(right.left.as_ref().unwrap().key, "qwe");
    assert_eq!(right.left.as_ref().unwrap().height, 1);
    assert_eq!(right.right.as_ref().unwrap().key, "qwert");
    assert_eq!(right.right.as_ref().unwrap().height, 1);
    assert_balanced(&tree.root);
}

#[test]
fn overwrite_keeps_one_node() {
    let mut tree = AVLTree::new();
    tree.set("a", "1");
    tree.set("a", "2");
    assert_eq!(tree.get("a").unwrap().value, "2");
    assert_eq!(tree.len(), 1);
    let root = tree.root.as_ref().unwrap();
    assert!(root.left.is_none() && root.right.is_none());
}

#[test]
fn set_twice_same_value_single_node() {
    let mut tree = AVLTree::new();
    tree.set("k", "v");
    tree.set("k", "v");
    assert_eq!(tree.len(), 1);
    assert_eq!(tree.get("k").unwrap().value, "v");
}

#[test]
fn delete_with_two_children() {
    let mut tree = skewed_tree();
    tree.unset("qwer");
    let root = tree.root.as_ref().unwrap();
    let right = root.right.as_ref().unwrap();
    assert_eq!(right.key, "qwe");
    assert_eq!(right.right.as_ref().unwrap().key, "qwert");
    assert!(right.left.is_none());
    assert_balanced(&tree.root);
    assert!(tree.get("qwer").is_none());
    assert_eq!(tree.len(), 4);
}

#[test]
fn set_then_unset_is_absent() {
    let mut tree = AVLTree::new();
    tree.set("x", "1");
    tree.unset("x");
    assert!(tree.get("x").is_none());
    tree.unset("missing");
    assert_eq!(tree.len(), 0);
}

#[test]
fn many_operations_stay_balanced() {
    let mut tree = AVLTree::new();
    let mut state: u64 = 12345;
    let mut model = std::collections::BTreeMap::new();
    for step in 0..2000u32 {
        state = state.wrapping_mul(6364136223846793005).wrapping_add(1442695040888963407);
        let key = format!("k{}", (state >> 33) % 300);
        if step % 3 == 2 {
            tree.unset(&key);
            model.remove(&key);
        } else {
            let value = format!("v{}", step);
            tree.set(&key, &value);
            model.insert(key.clone(), value);
        }
        assert_balanced(&tree.root);
    }
    assert_eq!(tree.len(), model.len());
    for (k, v) in &model {
        assert_eq!(&tree.get(k).unwrap().value, v);
    }
    let listed = tree.in_order();
    let expected: Vec<(String, String)> = model.into_iter().collect();
    assert_eq!(listed, expected);
}

#[test]
fn in_order_is_ascending() {
    let tree = skewed_tree();
    let keys: Vec<String> = tree.in_order().into_iter().map(|(k, _)| k).collect();
    assert_eq!(keys, vec!["q", "qw", "qwe", "qwer", "qwert"]);
}

#[test]
fn clear_empties() {
    let mut tree = skewed_tree();
    tree.clear();
    assert!(tree.root.is_none());
    assert!(tree.get("qw").is_none());
    assert_eq!(tree.len(), 0);
    assert_eq!(tree.footprint(), 0);
}

#[test]
fn footprint_counts_keys_and_values() {
    let mut tree = AVLTree::new();
    tree.set("ab", "cde");
    let node = std::mem::size_of::<sstable::avl::AVLNode>();
    assert_eq!(tree.footprint(), node + 5);
    tree.set("x", "");
    assert_eq!(tree.footprint(), 2 * node + 6);
    assert!(tree.flush_due(node));
    assert!(!tree.flush_due(2 * node + 6));
}

#[test]
fn node_new_has_height_one() {
    let n = sstable::avl::AVLNode::new("k", "v", None, None);
    assert_eq!(n.height, 1);
    assert_eq!(n.key, "k");
    assert_eq!(n.value, "v");
}

#[test]
fn singleton_starts_empty() {
    let s = sstable::avl::AVLTreeSingleton::new();
    let tree = s.get_instance().read().unwrap();
    assert!(tree.root.is_none());
}

fn dump(node: &Option<Box<sstable::avl::AVLNode>>, out: &mut Vec<(String, String, i32, usize)>, depth: usize) {
    if let Some(n) = node {
        out.push((n.key.clone(), n.value.clone(), n.height, depth));
        dump(&n.left, out, depth + 1);
        out.push((String::new(), String::new(), 0, depth));
        dump(&n.right, out, depth + 1);
    }
}

fn shape(tree: &AVLTree) -> Vec<(String, String, i32, usize)> {
    let mut out = Vec::new();
    dump(&tree.root, &mut out, 0);
    out
}

#[test]
fn overwrite_keeps_structure() {
    let mut tree = skewed_tree();
    let before = shape(&tree);
    tree.set("qwe", "changed");
    let after = shape(&tree);
    assert_eq!(before.len(), after.len());
    for (b, a) in before.iter().zip(after.iter()) {
        assert_eq!((&b.0, b.2, b.3), (&a.0, a.2, a.3));
        if b.0 != "qwe" {
            assert_eq!(b.1, a.1);
        }
    }
    assert_eq!(tree.get("qwe").unwrap().value, "changed");
    let once = shape(&tree);
    tree.set("qwe", "changed");
    assert_eq!(shape(&tree), once);
}

#[test]
fn unset_absent_changes_nothing() {
    let mut tree = skewed_tree();
    let before = shape(&tree);
    tree.unset("zzz");
    tree.unset("a");
    tree.unset("qwx");
    assert_eq!(shape(&tree), before);
    assert_eq!(tree.len(), 5);
}
