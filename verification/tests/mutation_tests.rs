use abr::abr::ABR;
use abr::node::Node;

fn tree_of(keys: &[u64]) -> ABR<u64, u64> {
    let mut t = ABR::new();
    for &k in keys {
        t.insert(k, k * 10);
    }
    t
}

fn drained_keys(tree: &ABR<u64, u64>) -> Vec<u64> {
    let mut out = Vec::new();
    if tree.root.is_some() {
        let mut it = tree.iter();
        while let Some(n) = it.next() {
            out.push(n.key);
        }
    }
    out
}

#[test]
fn insert_idempotent() {
    let mut t: ABR<u64, &str> = ABR::new();
    t.insert(5, "first");
    t.insert(3, "left");
    let before = t.length;
    let old = t.insert(5, "second");
    assert_eq!(old, Some("first"));
    assert_eq!(t.length, before);
    assert_eq!(*t.get(5).unwrap(), "second");
}

#[test]
fn remove_two_child_node() {
    let mut t = tree_of(&[6, 4, 8, 2, 5, 7, 10]);
    // the root has two children; it is replaced by its in-order successor
    let removed = t.remove(&6);
    assert_eq!(removed, Some(60));
    assert_eq!(t.length, 6);
    assert_eq!(drained_keys(&t), vec![2, 4, 5, 7, 8, 10]);
}

#[test]
fn remove_missing_key_is_noop() {
    let mut t = tree_of(&[6, 4, 8]);
    assert_eq!(t.remove(&42), None);
    assert_eq!(t.length, 3);
    assert_eq!(drained_keys(&t), vec![4, 6, 8]);
}

#[test]
fn remove_leaf_and_single_child() {
    let mut t = tree_of(&[6, 4, 8, 2]);
    assert_eq!(t.remove(&2), Some(20));
    // 4 now has no left child and no right child; give it one and splice
    t.insert(5, 50);
    assert_eq!(t.remove(&4), Some(40));
    assert_eq!(drained_keys(&t), vec![5, 6, 8]);
}

#[test]
fn remove_all_keys() {
    let keys = [6u64, 4, 8, 2, 5, 7, 10];
    let mut t = tree_of(&keys);
    for k in keys {
        assert_eq!(t.remove(&k), Some(k * 10));
    }
    assert_eq!(t.length, 0);
    assert!(t.is_empty());
    assert!(t.root.is_none());
}

#[test]
fn get_min_is_leftmost() {
    let t = tree_of(&[6, 4, 8, 2, 5, 7, 10]);
    let slot = Node::get_min(&t.root);
    assert_eq!(slot.as_ref().unwrap().key, 2);
}

#[test]
fn get_node_finds_subtree() {
    let t = tree_of(&[6, 4, 8, 2, 5, 7, 10]);
    let slot = Node::get_node(&t.root, &4);
    let node = slot.as_ref().unwrap();
    assert_eq!(node.key, 4);
    assert_eq!(node.value, 40);
    assert!(node.has_left_child());
    assert!(node.has_right_child());
    assert_eq!(node.nb_children(), 2);
    assert!(!node.is_leaf());
}

#[test]
fn string_keys_order() {
    let mut t: ABR<&str, u32> = ABR::new();
    for (k, v) in [("pear", 1u32), ("apple", 2), ("quince", 3), ("banana", 4), ("fig", 5)] {
        t.insert(k, v);
    }
    let mut it = t.iter();
    let mut keys = Vec::new();
    while let Some(n) = it.next() {
        keys.push(n.key);
    }
    assert_eq!(keys, vec!["apple", "banana", "fig", "pear", "quince"]);
}

#[test]
fn owned_string_keys() {
    let mut t: ABR<String, u32> = ABR::new();
    t.insert(String::from("beta"), 2);
    t.insert(String::from("alpha"), 1);
    t.insert(String::from("gamma"), 3);
    assert!(t.contains_key(String::from("alpha")));
    assert!(!t.contains_key(String::from("delta")));
    assert_eq!(*t.get(String::from("gamma")).unwrap(), 3);
}
