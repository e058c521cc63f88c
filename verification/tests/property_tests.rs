use toy_aa::node::Node;
use toy_aa::tree::Tree;

// Ten ascending keys, values 'a'..'j': every key finds its value, a key
// one past the end finds nothing, and the balance invariant holds.
#[test]
fn ascending_run_finds_all_and_balances() {
    let mut t: Tree<char> = Tree::new();
    let values = ['a', 'b', 'c', 'd', 'e', 'f', 'g', 'h', 'i', 'j'];
    for (i, v) in values.iter().enumerate() {
        t.insert(i as u64, *v);
    }
    for (i, v) in values.iter().enumerate() {
        assert_eq!(t.find(&(i as u64)), Some(v));
    }
    assert_eq!(t.find(&10u64), None);
    assert!(t.is_aa());
}

// Three keys out of order: the result is an ordered, balanced tree.
#[test]
fn out_of_order_keys_stay_ordered() {
    let mut t: Tree<u64> = Tree::new();
    t.insert('e' as u64, 5);
    t.insert('b' as u64, 88);
    t.insert('d' as u64, 11);
    assert!(t.is_bst());
    assert!(t.is_aa());
}

// An ascending run followed by a smaller key exercises both skew and
// split on the unwind.
#[test]
fn ascending_then_smaller_balances() {
    let mut t: Tree<()> = Tree::new();
    t.insert(7, ());
    t.insert(8, ());
    t.insert(9, ());
    t.insert(6, ());
    assert!(t.is_aa());
}

// Inserting a fresh key returns nothing; inserting a present key
// returns the value it held immediately before the call.
#[test]
fn insert_returns_previous_value() {
    let mut t: Tree<i32> = Tree::new();
    assert_eq!(t.insert(5, 50), None);
    assert_eq!(t.insert(3, 30), None);
    assert_eq!(t.insert(5, 55), Some(50));
    assert_eq!(t.insert(5, 56), Some(55));
    assert_eq!(t.find(&5), Some(&56));
}

// Re-inserting the same (key, value) pair changes neither what find
// returns nor the invariants.
#[test]
fn reinsert_same_pair_is_idempotent() {
    let mut t: Tree<char> = Tree::new();
    t.insert(2, 'x');
    t.insert(9, 'y');
    t.insert(2, 'x');
    assert_eq!(t.find(&2), Some(&'x'));
    assert_eq!(t.find(&9), Some(&'y'));
    assert!(t.is_bst());
    assert!(t.is_aa());
}

// A thousand distinct keys: the root level stays within the
// logarithmic bound 2^level <= size + 1, i.e. level <= 10 in this run.
#[test]
fn root_level_stays_logarithmic() {
    let mut t: Tree<u64> = Tree::new();
    for i in 0u64..1000 {
        t.insert(i, i);
    }
    assert!(t.is_aa());
    let root: Option<&Node<u64>> = t.root_node();
    match root {
        None => panic!("tree with a thousand keys has a root"),
        Some(n) => assert!(n.level <= 10),
    }
}

// The empty tree finds nothing and passes both checkers.
#[test]
fn empty_tree_finds_nothing() {
    let t: Tree<u8> = Tree::new();
    assert_eq!(t.find(&1), None);
    assert!(t.is_bst());
    assert!(t.is_aa());
}

// is_aa checks the four level conditions and nothing else: a lone
// horizontal right link is legal whatever the keys, so a hand-built
// node pair that breaks the search order still passes is_aa while
// is_bst rejects it.
#[test]
fn is_aa_checks_levels_not_order() {
    let right: Node<char> = Node {
        key: 3,
        value: 'r',
        left: None,
        right: None,
        level: 1,
    };
    let n: Node<char> = Node {
        key: 5,
        value: 'n',
        left: None,
        right: Some(Box::new(right)),
        level: 1,
    };
    assert!(n.is_aa());
    assert!(!n.is_bst());
}

// A node whose level claims a missing child pair fails is_aa.
#[test]
fn is_aa_rejects_tall_leaf() {
    let n: Node<u8> = Node {
        key: 9,
        value: 1,
        left: None,
        right: None,
        level: 2,
    };
    assert!(!n.is_aa());
}

// Overwriting a present key rewrites the value in place: the shape,
// keys and levels of every node stay exactly as they were.
#[test]
fn overwrite_keeps_shape_and_levels() {
    let mut t: Tree<char> = Tree::new();
    t.insert(7, 'a');
    t.insert(8, 'b');
    t.insert(9, 'c');
    let (rk, rl, lk, ll, xk, xl) = match t.root_node() {
        Some(n) => match (&n.left, &n.right) {
            (Some(l), Some(r)) => (n.key, n.level, l.key, l.level, r.key, r.level),
            _ => panic!("three keys give a root with two children"),
        },
        None => panic!("tree is not empty"),
    };
    t.insert(9, 'z');
    match t.root_node() {
        Some(n) => match (&n.left, &n.right) {
            (Some(l), Some(r)) => {
                assert_eq!((n.key, n.level), (rk, rl));
                assert_eq!((l.key, l.level), (lk, ll));
                assert_eq!((r.key, r.level), (xk, xl));
                assert_eq!(r.value, 'z');
                assert_eq!(l.value, 'a');
            },
            _ => panic!("shape changed on overwrite"),
        },
        None => panic!("tree is not empty"),
    }
    assert_eq!(t.find(&9), Some(&'z'));
}

// The node layer stands on its own: a single node is a level-1 leaf
// and reports its own extremes.
#[test]
fn single_node_is_a_leaf() {
    let n: Node<char> = Node::new(4, 'q');
    assert_eq!(n.level, 1);
    assert_eq!(*n.max(), 4);
    assert_eq!(*n.min(), 4);
    assert!(n.is_bst());
    assert!(n.is_aa());
    assert_eq!(n.find(&4), Some(&'q'));
    assert_eq!(n.find(&5), None);
}

// Inserting on both flanks of a node keeps extremes and order.
#[test]
fn node_insert_tracks_extremes() {
    let mut n: Node<u8> = Node::new(50, 1);
    assert_eq!(n.insert(20, 2), None);
    assert_eq!(n.insert(80, 3), None);
    assert_eq!(n.insert(20, 4), Some(2));
    assert_eq!(*n.min(), 20);
    assert_eq!(*n.max(), 80);
    assert!(n.is_aa());
    assert!(n.no_red_left_child());
    assert!(n.no_red_right_child());
}
