use toy_aa::tree::Tree;

/// A small deterministic generator so the randomized checks are
/// reproducible: a 64-bit linear congruential step, seeded explicitly.
struct Lcg(u64);

impl Lcg {
    fn new(seed: u64) -> Lcg {
        Lcg(seed)
    }

    fn next_below(&mut self, bound: u64) -> u64 {
        self.0 = self
            .0
            .wrapping_mul(6364136223846793005)
            .wrapping_add(1442695040888963407);
        (self.0 >> 16) % bound
    }
}

#[test]
fn test_find() {
    let mut t = Tree::new();
    assert_eq!(t.find(&1u64), None);
    t.insert(1u64, 'j');
    assert_eq!(t.find(&1u64), Some(&'j'));
}

// testing whether we can find all the things we inserted
#[test]
fn test_insert() {
    let mut t: Tree<u8> = Tree::new();
    for (i, c) in (0u64..10).zip(b'a'..b'z') {
        t.insert(i, c);
    }

    for (ref i, ref c) in (0u64..10).zip(b'a'..b'z') {
        assert_eq!(t.find(i), Some(c));
    }

    assert_eq!(t.find(&10u64), None);
}

fn insert_n_check_aa(n: u64, bound: u64, rng: &mut Lcg) {
    let mut t = Tree::new();

    for _ in 0..n {
        let a = rng.next_below(bound);
        t.insert(a, ());
    }

    assert!(t.is_aa());
}

// testing whether, after inserting 20 random keys, is_aa() returns true
#[test]
fn test_insert_is_aa() {
    let mut rng = Lcg::new(0x5eed_0001);

    for _ in 0..300 {
        insert_n_check_aa(20, 100_000, &mut rng);
    }
}

// testing whether, after inserting 20 random keys, is_aa() returns true,
// but this time some of the keys are repeated
#[test]
fn test_insert_dups_is_aa() {
    let mut rng = Lcg::new(0x5eed_0002);

    for _ in 0..300 {
        insert_n_check_aa(20, 15, &mut rng);
    }
}
