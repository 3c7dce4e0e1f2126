use algorithm::data_structures::BinaryIndexedTree;
use algorithm::utils::lowbit;

#[test]
fn lowbit_examples() {
    assert!(lowbit(0) == 0);
    assert!(lowbit(1) == 1);
    assert!(lowbit(2) == 2);
    assert!(lowbit(3) == 1);
    assert!(lowbit(12) == 4);
    assert!(lowbit(36) == 4);
    assert!(lowbit(64) == 64);
    assert!(lowbit(usize::MAX) == 1);
    for x in 1..512usize {
        let l = lowbit(x);
        // a power of two that divides x, with an odd quotient
        assert!(l >= 1);
        assert!(l & (l - 1) == 0);
        assert!(x % l == 0);
        assert!((x / l) % 2 == 1);
    }
}

#[test]
fn constant_tree_prefix_sums() {
    let vec = vec![3; 16];
    let t = BinaryIndexedTree::from(vec);
    for i in 0..16 {
        assert!(t.query_one(i) == 3 * (i as i64 + 1));
    }
}

#[test]
fn range_is_difference_of_prefixes() {
    let vec = vec![4, -1, 0, 7, 7, -9, 2, 30, -5, 1, 1];
    let t = BinaryIndexedTree::from(vec);
    for i in 0..11 {
        assert!(t.query_range(i, i) == 0);
        for j in i..11 {
            assert!(t.query_range(i, j) == t.query_one(j) - t.query_one(i));
        }
    }
    // adjacent ranges compose
    assert!(t.query_range(1, 4) + t.query_range(4, 9) == t.query_range(1, 9));
}

#[test]
fn edit_shifts_prefix_sums() {
    let vec = vec![1, 2, 3, 4, 5, 6, 7, 8, 9, 10];
    let mut t = BinaryIndexedTree::from(vec.clone());
    let before: Vec<i64> = (0..10).map(|i| t.query_one(i)).collect();
    t.edit(7, 5);
    for i in 0..10 {
        if i >= 7 {
            assert!(t.query_one(i) == before[i] + 5);
        } else {
            assert!(t.query_one(i) == before[i]);
        }
    }
    // position 0 belongs to node 0 alone: a delta there moves every prefix
    // sum once, and only once
    let mut t0 = BinaryIndexedTree::from(vec);
    t0.edit(0, 5);
    for i in 0..10 {
        assert!(t0.query_one(i) == before[i] + 5);
    }
}

#[test]
fn edit_then_inverse_restores() {
    let vec = vec![2, -4, 8, -16, 32, -64, 128];
    let mut t = BinaryIndexedTree::from(vec);
    let before: Vec<i64> = (0..7).map(|i| t.query_one(i)).collect();
    t.edit(5, 9);
    t.edit(5, -9);
    for i in 0..7 {
        assert!(t.query_one(i) == before[i]);
    }
}

#[test]
fn empty_tree_is_built_without_fault() {
    let vec: Vec<i64> = Vec::new();
    let _t = BinaryIndexedTree::from(vec);
}

#[test]
fn single_element_tree() {
    let vec = vec![7];
    let mut t = BinaryIndexedTree::from(vec);
    assert!(t.query_one(0) == 7);
    assert!(t.query_range(0, 0) == 0);
    t.edit(0, -3);
    assert!(t.query_one(0) == 4);
}

#[test]
fn negative_values() {
    let vec = vec![5, -3, 2, -1];
    let t = BinaryIndexedTree::from(vec);
    assert!(t.query_one(0) == 5);
    assert!(t.query_one(1) == 2);
    assert!(t.query_one(2) == 4);
    assert!(t.query_one(3) == 3);
    assert!(t.query_range(1, 3) == 1);
}

#[test]
fn documented_example() {
    let vec = vec![2; 10];
    let mut t = BinaryIndexedTree::from(vec);
    t.edit(0, 2);
    assert!(t.query_one(0) == 4);
    t.edit(0, -2);
    assert!(t.query_one(9) == 20);
}
