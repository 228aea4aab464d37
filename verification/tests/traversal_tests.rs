use abr::abr::ABR;
use abr::abr_parallel_iterator::ABRParallelIterator;

fn tree_of(keys: &[u64]) -> ABR<u64, ()> {
    let mut t = ABR::new();
    for &k in keys {
        t.insert(k, ());
    }
    t
}

fn drain_keys(tree: &ABR<u64, ()>) -> Vec<u64> {
    let mut out = Vec::new();
    let mut it = tree.iter();
    while let Some(n) = it.next() {
        out.push(n.key);
    }
    out
}

fn drain_split(it: ABRParallelIterator<'_, u64, ()>, depth: usize, out: &mut Vec<u64>) {
    if depth == 0 || it.base_length().unwrap() < 2 {
        let mut s = it.to_sequential();
        while let Some(n) = s.next() {
            out.push(n.key);
        }
    } else {
        let (left, right) = it.divide_at(0);
        drain_split(left, depth - 1, out);
        drain_split(right, depth - 1, out);
    }
}

#[test]
fn sequential_scenario() {
    let tree = tree_of(&[5, 3, 7, 1, 4, 2, 6]);
    assert_eq!(drain_keys(&tree), vec![1, 2, 3, 4, 5, 6, 7]);
}

#[test]
fn split_once_scenario() {
    let tree = tree_of(&[6, 4, 8, 2, 5, 7, 10]);
    let par = ABRParallelIterator::new(&tree);
    let (left, right) = par.divide_at(0);
    let mut keys = Vec::new();
    let mut l = left.to_sequential();
    while let Some(n) = l.next() {
        keys.push(n.key);
    }
    let mut r = right.to_sequential();
    while let Some(n) = r.next() {
        keys.push(n.key);
    }
    assert_eq!(keys, drain_keys(&tree));
    assert_eq!(keys, vec![2, 4, 5, 6, 7, 8, 10]);
}

#[test]
fn single_node_estimate() {
    let tree = tree_of(&[42]);
    let par = ABRParallelIterator::new(&tree);
    // the one ready node gives estimate 1; splitting such a traversal is a
    // contract violation, since nothing pending could be handed off
    assert_eq!(par.base_length(), Some(1));
}

#[test]
fn estimate_formula() {
    // descent from the root leaves [2] ready and [4, 6] pending, and the
    // back-most pending ancestor still owns an unexplored right subtree
    let tree = tree_of(&[6, 4, 8, 2, 5, 7, 10]);
    let par = ABRParallelIterator::new(&tree);
    assert_eq!(par.base_length(), Some(4));
}

#[test]
fn ascending_many_keys() {
    let keys = [13u64, 1, 20, 7, 4, 18, 2, 9, 16, 25, 3, 11, 6, 22, 5];
    let tree = tree_of(&keys);
    let drained = drain_keys(&tree);
    assert_eq!(drained.len(), keys.len());
    for w in drained.windows(2) {
        assert!(w[0] < w[1]);
    }
    for k in keys {
        assert!(drained.contains(&k));
    }
}

#[test]
fn split_concat_all_depths() {
    let keys = [13u64, 1, 20, 7, 4, 18, 2, 9, 16, 25, 3, 11, 6, 22, 5];
    let tree = tree_of(&keys);
    let sequential = drain_keys(&tree);
    for depth in 0..6 {
        let par = ABRParallelIterator::new(&tree);
        let mut split = Vec::new();
        drain_split(par, depth, &mut split);
        assert_eq!(split, sequential);
    }
}

#[test]
fn split_associativity_scenario() {
    let tree = tree_of(&[50u64, 25, 75, 12, 37, 62, 87, 6, 18, 31, 43]);
    let sequential = drain_keys(&tree);

    // split the whole traversal once, then split its left part again: the
    // three parts drained left to right reproduce the sequence
    let par = ABRParallelIterator::new(&tree);
    let (left, right) = par.divide_at(0);
    let (left_left, left_right) = left.divide_at(0);
    let mut keys = Vec::new();
    for part in [left_left, left_right, right] {
        let mut s = part.to_sequential();
        while let Some(n) = s.next() {
            keys.push(n.key);
        }
    }
    assert_eq!(keys, sequential);
}

#[test]
fn iterator_is_resumable() {
    let tree = tree_of(&[5, 3, 7, 1, 4, 2, 6]);
    let mut it = tree.iter();
    assert_eq!(it.next().unwrap().key, 1);
    assert_eq!(it.next().unwrap().key, 2);
    let mut rest = Vec::new();
    while let Some(n) = it.next() {
        rest.push(n.key);
    }
    assert_eq!(rest, vec![3, 4, 5, 6, 7]);
    assert!(it.next().is_none());
    assert!(it.next().is_none());
}
