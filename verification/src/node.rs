//! The storage layer of the AA-tree: one node per key, owning its two
//! subtrees, plus the balancing rewrites (`skew`, `split`) and the
//! recursive checkers (`is_bst`, `is_aa`) that validate the structure.

use vstd::prelude::*;

verus! {

/// One node of the tree: a key, its value, the two owned subtrees and
/// the AA level (1 for a leaf; it grows only along left-leaning chains).
pub struct Node<V> {
    pub key: u64,
    pub value: V,
    pub left: Option<Box<Node<V>>>,
    pub right: Option<Box<Node<V>>>,
    pub level: usize,
}

/// The key/value pairs stored under an optional subtree root.
pub open spec fn link_map<V>(link: Option<Box<Node<V>>>) -> Map<u64, V>
    decreases link,
{
    match link {
        None => Map::empty(),
        Some(n) => n.as_map(),
    }
}

impl<V> Node<V> {
    /// The key/value pairs stored in this subtree.
    pub open spec fn as_map(self) -> Map<u64, V>
        decreases self,
    {
        link_map(self.left).union_prefer_right(link_map(self.right)).insert(
            self.key,
            self.value,
        )
    }

    /// The binary-search-tree ordering: every key on the left is
    /// strictly below this node's key, every key on the right strictly
    /// above, recursively.
    pub open spec fn bst_ordered(self) -> bool
        decreases self,
    {
        &&& (forall|k: u64| link_map(self.left).dom().contains(k) ==> k < self.key)
        &&& (forall|k: u64| link_map(self.right).dom().contains(k) ==> k > self.key)
        &&& (match self.left {
            None => true,
            Some(l) => l.bst_ordered(),
        })
        &&& (match self.right {
            None => true,
            Some(r) => r.bst_ordered(),
        })
    }

    /// The four AA balance conditions, at every node: a node with no
    /// children sits at level 1; a left child sits exactly one level
    /// below its parent; a right child sits at the parent's level or
    /// one below; and when a right child shares the parent's level,
    /// its own right child does not also share it. This is what
    /// `is_aa` checks.
    pub open spec fn aa_conditions(self) -> bool
        decreases self,
    {
        &&& ((self.left is None && self.right is None) ==> self.level == 1)
        &&& (match self.left {
            None => true,
            Some(l) => l.aa_conditions() && l.level + 1 == self.level,
        })
        &&& (match self.right {
            None => true,
            Some(r) => {
                &&& r.aa_conditions()
                &&& (r.level == self.level || r.level + 1 == self.level)
                &&& (r.level == self.level ==> (match r.right {
                    None => true,
                    Some(rr) => rr.level != self.level,
                }))
            },
        })
    }

    /// The level discipline that insertion maintains. It strengthens
    /// the four checked conditions in one point: a node missing either
    /// child — not only both — sits at level 1, which is how levels
    /// behave in every tree grown from a leaf; see
    /// `lemma_aa_leveled_implies_conditions`.
    pub open spec fn aa_leveled(self) -> bool
        decreases self,
    {
        &&& ((self.left is None || self.right is None) ==> self.level == 1)
        &&& (match self.left {
            None => true,
            Some(l) => l.aa_leveled() && l.level + 1 == self.level,
        })
        &&& (match self.right {
            None => true,
            Some(r) => {
                &&& r.aa_leveled()
                &&& (r.level == self.level || r.level + 1 == self.level)
                &&& (r.level == self.level ==> (match r.right {
                    None => true,
                    Some(rr) => rr.level + 1 == r.level,
                }))
            },
        })
    }

    /// Whether `skew` will rotate: the left child shares this node's
    /// level (an illegal left horizontal link).
    pub open spec fn skew_applies(self) -> bool {
        match self.left {
            None => false,
            Some(l) => l.level == self.level,
        }
    }

    /// Whether `split` will rotate: the right child's right child
    /// shares this node's level (two right horizontal links in a row).
    pub open spec fn split_applies(self) -> bool {
        match self.right {
            None => false,
            Some(r) => match r.right {
                None => false,
                Some(rr) => rr.level == self.level,
            },
        }
    }

    /// `other` is this subtree with exactly the entry for `key` —
    /// which lies on the search path — rewritten to `value`: the same
    /// shape, the same keys and levels everywhere, every other stored
    /// value unchanged. This is what an insert of a present key does:
    /// it overwrites in place and never reshapes.
    pub open spec fn updated_in_place(self, other: Node<V>, key: u64, value: V) -> bool
        decreases self,
    {
        &&& other.key == self.key
        &&& other.level == self.level
        &&& (if self.key == key {
            &&& other.value == value
            &&& other.left == self.left
            &&& other.right == self.right
        } else if key < self.key {
            &&& other.value == self.value
            &&& other.right == self.right
            &&& self.left is Some
            &&& other.left is Some
            &&& self.left.unwrap().updated_in_place(*other.left.unwrap(), key, value)
        } else {
            &&& other.value == self.value
            &&& other.left == self.left
            &&& self.right is Some
            &&& other.right is Some
            &&& self.right.unwrap().updated_in_place(*other.right.unwrap(), key, value)
        })
    }

    /// The key reached by always walking right from this node.
    pub open spec fn max_key(self) -> u64
        decreases self,
    {
        match self.right {
            None => self.key,
            Some(r) => r.max_key(),
        }
    }

    /// The key reached by always walking left from this node.
    pub open spec fn min_key(self) -> u64
        decreases self,
    {
        match self.left {
            None => self.key,
            Some(l) => l.min_key(),
        }
    }

    /// The number of nodes in this subtree.
    pub open spec fn size(self) -> nat
        decreases self,
    {
        1 + (match self.left {
            None => 0nat,
            Some(l) => l.size(),
        }) + (match self.right {
            None => 0nat,
            Some(r) => r.size(),
        })
    }

    /// The number of nodes on the longest path from this node down to
    /// a leaf, this node included.
    pub open spec fn height(self) -> nat
        decreases self,
    {
        let lh: nat = match self.left {
            None => 0nat,
            Some(l) => l.height(),
        };
        let rh: nat = match self.right {
            None => 0nat,
            Some(r) => r.height(),
        };
        1 + (if lh >= rh {
            lh
        } else {
            rh
        })
    }

    pub fn new(key: u64, value: V) -> (n: Node<V>)
        ensures
            n.key == key,
            n.value == value,
            n.left is None,
            n.right is None,
            n.level == 1,
            n.as_map() == Map::<u64, V>::empty().insert(key, value),
            n.bst_ordered(),
            n.aa_leveled(),
    {
        let n = Node { key, value, left: None, right: None, level: 1 };
        proof {
            assert(n.as_map() =~= Map::<u64, V>::empty().insert(key, value));
        }
        n
    }

    pub fn find(&self, key: &u64) -> (r: Option<&V>)
        requires
            self.bst_ordered(),
        ensures
            match r {
                Some(v) => self.as_map().dom().contains(*key) && *v == self.as_map()[*key],
                None => !self.as_map().dom().contains(*key),
            },
        decreases self,
    {
        if *key == self.key {
            Some(&self.value)
        } else if *key < self.key {
            proof {
                assert(!link_map(self.right).dom().contains(*key));
            }
            match &self.left {
                None => None,
                Some(b) => b.find(key),
            }
        } else {
            proof {
                assert(!link_map(self.left).dom().contains(*key));
            }
            match &self.right {
                None => None,
                Some(b) => b.find(key),
            }
        }
    }

    /// Whether the search-order invariant holds of this subtree.
    pub fn is_bst(&self) -> (r: bool)
        ensures
            r == self.bst_ordered(),
        decreases self,
    {
        let left_ok: bool = match &self.left {
            None => true,
            Some(n) => {
                let sub = n.is_bst();
                if sub {
                    proof {
                        lemma_extreme_keys_present(**n);
                        lemma_key_range(**n);
                    }
                    *n.max() < self.key
                } else {
                    false
                }
            },
        };
        let right_ok: bool = match &self.right {
            None => true,
            Some(n) => {
                let sub = n.is_bst();
                if sub {
                    proof {
                        lemma_extreme_keys_present(**n);
                        lemma_key_range(**n);
                    }
                    *n.min() > self.key
                } else {
                    false
                }
            },
        };
        proof {
            let this = *self;
            if left_ok && right_ok {
                match this.left {
                    None => {},
                    Some(l) => {
                        assert forall|k: u64|
                            link_map(self.left).dom().contains(k) implies k < self.key by {
                            assert(l.as_map().dom().contains(k));
                            assert(k <= l.max_key());
                        }
                    },
                }
                match this.right {
                    None => {},
                    Some(rc) => {
                        assert forall|k: u64|
                            link_map(self.right).dom().contains(k) implies k > self.key by {
                            assert(rc.as_map().dom().contains(k));
                            assert(k >= rc.min_key());
                        }
                    },
                }
                assert(self.bst_ordered());
            } else if self.bst_ordered() {
                match this.left {
                    None => {},
                    Some(l) => {
                        assert(link_map(self.left).dom().contains(l.max_key()));
                        assert(l.max_key() < self.key);
                    },
                }
                match this.right {
                    None => {},
                    Some(rc) => {
                        assert(link_map(self.right).dom().contains(rc.min_key()));
                        assert(rc.min_key() > self.key);
                    },
                }
                assert(false);
            }
        }
        left_ok && right_ok
    }

    pub fn no_red_left_child(&self) -> (r: bool)
        ensures
            r == (match self.left {
                None => true,
                Some(l) => l.level + 1 == self.level,
            }),
    {
        match &self.left {
            None => true,
            Some(n) => self.level > 0 && n.level == self.level - 1,
        }
    }

    pub fn no_red_right_child(&self) -> (r: bool)
        ensures
            r == (match self.right {
                None => true,
                Some(rc) => rc.level + 1 == self.level,
            }),
    {
        match &self.right {
            None => true,
            Some(n) => self.level > 0 && n.level == self.level - 1,
        }
    }

    /// Whether the four AA balance conditions hold at every node of
    /// this subtree; the search order is `is_bst`'s concern, not this
    /// checker's.
    pub fn is_aa(&self) -> (r: bool)
        ensures
            r == self.aa_conditions(),
        decreases self,
    {
        let lvl = self.level;

        let mut r = !(self.left.is_none() && self.right.is_none() && self.level != 1);
        r = r && (match &self.left {
            None => true,
            Some(n) => n.is_aa(),
        });
        r = r && self.no_red_left_child();
        r = r && (match &self.right {
            None => true,
            Some(n) => {
                n.is_aa() && (n.level == lvl || (lvl > 0 && n.level == lvl - 1)) && (n.level
                    != lvl || (match &n.right {
                    None => true,
                    Some(rr) => rr.level != lvl,
                }))
            },
        });
        r
    }

    /// Remove an illegal left horizontal link by rotating right: the
    /// left child becomes the subtree root and this node becomes its
    /// right child. Levels are unchanged; a no-op otherwise.
    pub fn skew(&mut self)
        ensures
            !old(self).skew_applies() ==> *final(self) == *old(self),
            old(self).skew_applies() ==> ({
                let a = *old(self);
                let l = a.left.unwrap();
                let s = *final(self);
                &&& s.key == l.key
                &&& s.value == l.value
                &&& s.level == l.level
                &&& s.left == l.left
                &&& s.right is Some
                &&& s.right.unwrap().key == a.key
                &&& s.right.unwrap().value == a.value
                &&& s.right.unwrap().level == a.level
                &&& s.right.unwrap().left == l.right
                &&& s.right.unwrap().right == a.right
            }),
            old(self).bst_ordered() ==> final(self).bst_ordered(),
            old(self).bst_ordered() ==> final(self).as_map() =~= old(self).as_map(),
    {
        let do_it = match &self.left {
            None => false,
            Some(l) => l.level == self.level,
        };
        if do_it {
            let mut save = self.left.take().unwrap();
            core::mem::swap(&mut self.left, &mut save.right);
            core::mem::swap(self, &mut *save);
            self.right = Some(save);
            proof {
                let a = *old(self);
                let l = a.left.unwrap();
                let s = *self;
                let ap = s.right.unwrap();
                if a.bst_ordered() {
                    lemma_as_map_facts(a);
                    lemma_as_map_facts(*l);
                    lemma_as_map_facts(s);
                    lemma_as_map_facts(*ap);
                    assert(a.bst_ordered());
                    assert(l.bst_ordered());
                    assert(a.as_map().dom().contains(l.key));
                    assert(l.key < a.key);
                    assert forall|k: u64|
                        link_map(ap.right).dom().contains(k) implies k > ap.key by {}
                    assert forall|k: u64|
                        link_map(ap.left).dom().contains(k) implies k < ap.key by {
                        assert(l.as_map().dom().contains(k));
                    }
                    assert(ap.bst_ordered());
                    assert forall|k: u64|
                        link_map(s.right).dom().contains(k) implies k > s.key by {
                        if k != ap.key {
                            if link_map(ap.left).dom().contains(k) {
                                assert(l.as_map().dom().contains(k));
                            } else {
                                assert(link_map(ap.right).dom().contains(k));
                                assert(a.as_map().dom().contains(k));
                                assert(k > a.key);
                            }
                        }
                    }
                    assert(s.bst_ordered());
                    assert forall|k: u64|
                        a.as_map().dom().contains(k) implies s.as_map().dom().contains(k)
                        && s.as_map()[k] == a.as_map()[k] by {
                        if k == a.key {
                            assert(s.as_map().dom().contains(ap.key));
                            assert(s.as_map()[ap.key] == ap.value);
                        } else if link_map(a.right).dom().contains(k) {
                            assert(k > a.key);
                            assert(ap.as_map().dom().contains(k));
                            assert(ap.as_map()[k] == link_map(a.right)[k]);
                            assert(s.as_map()[k] == ap.as_map()[k]);
                        } else {
                            assert(l.as_map().dom().contains(k));
                            assert(k < a.key);
                            if k == l.key {
                                assert(s.as_map()[k] == l.value);
                                assert(a.as_map()[k] == l.as_map()[k]);
                            } else if link_map(l.right).dom().contains(k) {
                                assert(k > l.key);
                                assert(ap.as_map().dom().contains(k));
                                assert(ap.as_map()[k] == link_map(l.right)[k]);
                                assert(s.as_map()[k] == ap.as_map()[k]);
                                assert(a.as_map()[k] == l.as_map()[k]);
                                assert(l.as_map()[k] == link_map(l.right)[k]);
                            } else {
                                assert(link_map(l.left).dom().contains(k));
                                assert(k < l.key);
                                assert(!link_map(s.right).dom().contains(k));
                                assert(s.as_map()[k] == link_map(l.left)[k]);
                                assert(a.as_map()[k] == l.as_map()[k]);
                                assert(l.as_map()[k] == link_map(l.left)[k]);
                            }
                        }
                    }
                    assert forall|k: u64|
                        s.as_map().dom().contains(k) implies a.as_map().dom().contains(k) by {
                        if k != s.key {
                            if link_map(s.left).dom().contains(k) {
                                assert(l.as_map().dom().contains(k));
                            } else {
                                assert(ap.as_map().dom().contains(k));
                                if k != ap.key {
                                    if link_map(ap.left).dom().contains(k) {
                                        assert(l.as_map().dom().contains(k));
                                    } else {
                                        assert(link_map(ap.right).dom().contains(k));
                                    }
                                }
                            }
                        } else {
                            assert(l.as_map().dom().contains(l.key));
                        }
                    }
                    assert(s.as_map() =~= a.as_map());
                }
            }
        }
    }

    /// Remove two consecutive right horizontal links by rotating left:
    /// the right child becomes the subtree root, one level higher, and
    /// this node becomes its left child. A no-op otherwise.
    pub fn split(&mut self)
        requires
            old(self).split_applies() ==> old(self).right.unwrap().level < usize::MAX,
        ensures
            !old(self).split_applies() ==> *final(self) == *old(self),
            old(self).split_applies() ==> ({
                let a = *old(self);
                let b = a.right.unwrap();
                let s = *final(self);
                &&& s.key == b.key
                &&& s.value == b.value
                &&& s.level == b.level + 1
                &&& s.right == b.right
                &&& s.left is Some
                &&& s.left.unwrap().key == a.key
                &&& s.left.unwrap().value == a.value
                &&& s.left.unwrap().level == a.level
                &&& s.left.unwrap().left == a.left
                &&& s.left.unwrap().right == b.left
            }),
            old(self).bst_ordered() ==> final(self).bst_ordered(),
            old(self).bst_ordered() ==> final(self).as_map() =~= old(self).as_map(),
    {
        let do_it = match &self.right {
            None => false,
            Some(b) => match &b.right {
                None => false,
                Some(c) => c.level == self.level,
            },
        };
        if do_it {
            let mut save = self.right.take().unwrap();
            core::mem::swap(&mut self.right, &mut save.left);
            save.level = save.level + 1;
            core::mem::swap(self, &mut *save);
            self.left = Some(save);
            proof {
                let a = *old(self);
                let b = a.right.unwrap();
                let s = *self;
                let ap = s.left.unwrap();
                if a.bst_ordered() {
                    lemma_as_map_facts(a);
                    lemma_as_map_facts(*b);
                    lemma_as_map_facts(s);
                    lemma_as_map_facts(*ap);
                    assert(a.bst_ordered());
                    assert(b.bst_ordered());
                    assert(a.as_map().dom().contains(b.key));
                    assert(b.key > a.key);
                    assert forall|k: u64|
                        link_map(ap.left).dom().contains(k) implies k < ap.key by {}
                    assert forall|k: u64|
                        link_map(ap.right).dom().contains(k) implies k > ap.key by {
                        assert(b.as_map().dom().contains(k));
                    }
                    assert(ap.bst_ordered());
                    assert forall|k: u64|
                        link_map(s.left).dom().contains(k) implies k < s.key by {
                        if k != ap.key {
                            if link_map(ap.right).dom().contains(k) {
                                assert(b.as_map().dom().contains(k));
                                assert(k < b.key);
                            } else {
                                assert(link_map(ap.left).dom().contains(k));
                                assert(a.as_map().dom().contains(k));
                                assert(k < a.key);
                            }
                        }
                    }
                    assert forall|k: u64|
                        link_map(s.right).dom().contains(k) implies k > s.key by {
                        assert(b.as_map().dom().contains(k));
                    }
                    assert(s.bst_ordered());
                    assert forall|k: u64|
                        a.as_map().dom().contains(k) implies s.as_map().dom().contains(k)
                        && s.as_map()[k] == a.as_map()[k] by {
                        if k == a.key {
                            assert(s.as_map().dom().contains(ap.key));
                            assert(ap.as_map()[ap.key] == ap.value);
                            assert(!link_map(s.right).dom().contains(k));
                            assert(s.as_map()[k] == ap.as_map()[k]);
                        } else if link_map(a.left).dom().contains(k) {
                            assert(k < a.key);
                            assert(ap.as_map().dom().contains(k));
                            assert(ap.as_map()[k] == link_map(a.left)[k]);
                            assert(!link_map(s.right).dom().contains(k));
                            assert(s.as_map()[k] == ap.as_map()[k]);
                            assert(a.as_map()[k] == link_map(a.left)[k]);
                        } else {
                            assert(b.as_map().dom().contains(k));
                            assert(k > a.key);
                            assert(a.as_map()[k] == b.as_map()[k]);
                            if k == b.key {
                                assert(s.as_map()[k] == b.value);
                                assert(b.as_map()[k] == b.value);
                            } else if link_map(b.right).dom().contains(k) {
                                assert(k > b.key);
                                assert(s.as_map()[k] == link_map(b.right)[k]);
                                assert(b.as_map()[k] == link_map(b.right)[k]);
                            } else {
                                assert(link_map(b.left).dom().contains(k));
                                assert(k < b.key);
                                assert(ap.as_map().dom().contains(k));
                                assert(ap.as_map()[k] == link_map(b.left)[k]);
                                assert(!link_map(s.right).dom().contains(k));
                                assert(s.as_map()[k] == ap.as_map()[k]);
                                assert(b.as_map()[k] == link_map(b.left)[k]);
                            }
                        }
                    }
                    assert forall|k: u64|
                        s.as_map().dom().contains(k) implies a.as_map().dom().contains(k) by {
                        if k != s.key {
                            if link_map(s.right).dom().contains(k) {
                                assert(b.as_map().dom().contains(k));
                            } else {
                                assert(ap.as_map().dom().contains(k));
                                if k != ap.key {
                                    if link_map(ap.right).dom().contains(k) {
                                        assert(b.as_map().dom().contains(k));
                                    } else {
                                        assert(link_map(ap.left).dom().contains(k));
                                    }
                                }
                            }
                        } else {
                            assert(b.as_map().dom().contains(b.key));
                        }
                    }
                    assert(s.as_map() =~= a.as_map());
                }
            }
        }
    }

    /// Insert `key -> value` in this subtree: overwrite in place when
    /// the key is present, otherwise hang a fresh level-1 leaf at the
    /// point the search falls off, then repair the levels with `skew`
    /// and `split` on the way back up. Returns the value the key held
    /// before, if any. The subtree keeps both invariants; its level
    /// grows by at most one, and only when its root already carried a
    /// level-sharing right child.
    pub fn insert(&mut self, key: u64, value: V) -> (prev: Option<V>)
        requires
            old(self).bst_ordered(),
            old(self).aa_leveled(),
            old(self).level < usize::MAX,
        ensures
            final(self).bst_ordered(),
            final(self).aa_leveled(),
            final(self).as_map() =~= old(self).as_map().insert(key, value),
            prev == (if old(self).as_map().dom().contains(key) {
                Some(old(self).as_map()[key])
            } else {
                None::<V>
            }),
            old(self).as_map().dom().contains(key) ==> old(self).updated_in_place(
                *final(self),
                key,
                value,
            ),
            old(self).level <= final(self).level,
            final(self).level <= old(self).level + 1,
            final(self).level == old(self).level + 1 ==> ({
                &&& final(self).right is Some
                &&& final(self).right.unwrap().level + 1 == final(self).level
                &&& old(self).right is Some
                &&& old(self).right.unwrap().level == old(self).level
            }),
        decreases *old(self),
    {
        let ghost a = *old(self);
        if key == self.key {
            self.key = key;
            let mut v = value;
            core::mem::swap(&mut self.value, &mut v);
            proof {
                lemma_as_map_facts(a);
                lemma_as_map_facts(*self);
                assert(a.bst_ordered());
                assert(a.aa_leveled());
                assert(self.bst_ordered());
                assert(self.aa_leveled());
                assert(self.as_map() =~= a.as_map().insert(key, value)) by {
                    assert forall|k: u64|
                        self.as_map().dom().contains(k) == a.as_map().insert(
                            key,
                            value,
                        ).dom().contains(k) && (self.as_map().dom().contains(k)
                            ==> self.as_map()[k] == a.as_map().insert(key, value)[k]) by {
                        if k != key {
                            if link_map(a.right).dom().contains(k) {
                                assert(self.as_map()[k] == link_map(a.right)[k]);
                                assert(a.as_map()[k] == link_map(a.right)[k]);
                            } else if link_map(a.left).dom().contains(k) {
                                assert(self.as_map()[k] == link_map(a.left)[k]);
                                assert(a.as_map()[k] == link_map(a.left)[k]);
                            }
                        }
                    }
                }
                assert(a.updated_in_place(*self, key, value));
            }
            return Some(v);
        }
        let prev: Option<V>;
        if key < self.key {
            match self.left.take() {
                None => {
                    self.left = Some(Box::new(Node::new(key, value)));
                    prev = None;
                },
                Some(mut child) => {
                    proof {
                        assert(a.bst_ordered());
                        assert(a.aa_leveled());
                        lemma_aa_level_pos(*a.left.unwrap());
                    }
                    prev = child.insert(key, value);
                    self.left = Some(child);
                },
            }
        } else {
            match self.right.take() {
                None => {
                    self.right = Some(Box::new(Node::new(key, value)));
                    prev = None;
                },
                Some(mut child) => {
                    proof {
                        assert(a.bst_ordered());
                        assert(a.aa_leveled());
                        lemma_aa_level_pos(*a.right.unwrap());
                    }
                    prev = child.insert(key, value);
                    self.right = Some(child);
                },
            }
        }
        let ghost mid = *self;
        proof {
            lemma_as_map_facts(a);
            assert(a.bst_ordered());
            assert(a.aa_leveled());
            if key < a.key {
                let cnew = *mid.left.unwrap();
                match a.left {
                    None => {
                        assert(link_map(a.left) =~= Map::<u64, V>::empty());
                    },
                    Some(c0) => {
                        assert(link_map(a.left) == c0.as_map());
                    },
                }
                assert(cnew.as_map() == link_map(a.left).insert(key, value));
                lemma_left_update(a, mid, key, value);
                assert(!link_map(a.right).dom().contains(key));
                assert(prev == (if a.as_map().dom().contains(key) {
                    Some(a.as_map()[key])
                } else {
                    None::<V>
                })) by {
                    if link_map(a.left).dom().contains(key) {
                        assert(a.as_map()[key] == link_map(a.left)[key]);
                    }
                }
            } else {
                let cnew = *mid.right.unwrap();
                match a.right {
                    None => {
                        assert(link_map(a.right) =~= Map::<u64, V>::empty());
                    },
                    Some(c0) => {
                        assert(link_map(a.right) == c0.as_map());
                    },
                }
                assert(cnew.as_map() == link_map(a.right).insert(key, value));
                lemma_right_update(a, mid, key, value);
                assert(!link_map(a.left).dom().contains(key));
                assert(prev == (if a.as_map().dom().contains(key) {
                    Some(a.as_map()[key])
                } else {
                    None::<V>
                })) by {
                    if link_map(a.right).dom().contains(key) {
                        assert(a.as_map()[key] == link_map(a.right)[key]);
                    }
                }
            }
        }
        self.skew();
        let ghost sk = *self;
        self.split();
        proof {
            let fin = *self;
            lemma_aa_level_pos(a);
            assert(fin.bst_ordered());
            assert(fin.as_map() == a.as_map().insert(key, value));
            let lvl = a.level;
            if key < a.key {
                let cnew = *mid.left.unwrap();
                assert(cnew.aa_leveled());
                match a.left {
                    None => {
                        // The root was a level-1 leaf (possibly with a
                        // level-1 right child); the new leaf makes a left
                        // horizontal link that skew turns rightward.
                        assert(a.level == 1);
                        assert(mid.skew_applies());
                        let a1 = *sk.right.unwrap();
                        match a.right {
                            None => {
                                assert(a1.aa_leveled());
                                assert(!sk.split_applies());
                                assert(fin == sk);
                                assert(fin.aa_leveled());
                                assert(fin.level == lvl);
                            },
                            Some(r0) => {
                                lemma_aa_level_pos(*r0);
                                assert(r0.level == 1);
                                assert(a1.aa_leveled());
                                assert(sk.split_applies());
                                let ap = *fin.left.unwrap();
                                assert(ap.aa_leveled());
                                assert(fin.aa_leveled());
                                assert(fin.level == lvl + 1);
                            },
                        }
                    },
                    Some(l0box) => {
                        let l0 = *l0box;
                        lemma_aa_level_pos(l0);
                        assert(l0.level + 1 == lvl);
                        assert(lvl >= 2);
                        assert(a.right is Some);
                        let r0 = *a.right.unwrap();
                        assert(r0.aa_leveled());
                        lemma_aa_level_pos(r0);
                        if cnew.level == l0.level {
                            assert(!mid.skew_applies());
                            assert(sk == mid);
                            assert(!sk.split_applies()) by {
                                if r0.level == lvl {
                                    assert(a.split_applies() == mid.split_applies());
                                }
                            }
                            assert(fin == mid);
                            assert(fin.aa_leveled());
                            assert(fin.level == lvl);
                        } else {
                            // The left subtree came back one level higher:
                            // a left horizontal link; skew rotates it away
                            // and split may then promote.
                            assert(cnew.level == lvl);
                            assert(cnew.right is Some);
                            assert(cnew.right.unwrap().level + 1 == cnew.level);
                            assert(cnew.left is Some);
                            assert(cnew.left.unwrap().level + 1 == cnew.level);
                            assert(mid.skew_applies());
                            let a1 = *sk.right.unwrap();
                            assert(a1.level == lvl);
                            assert(a1.left == cnew.right);
                            assert(a1.right == a.right);
                            assert(a1.aa_leveled());
                            if r0.level + 1 == lvl {
                                assert(!sk.split_applies());
                                assert(fin == sk);
                                assert(fin.aa_leveled());
                                assert(fin.level == lvl);
                            } else {
                                assert(r0.level == lvl);
                                assert(sk.split_applies());
                                let ap = *fin.left.unwrap();
                                assert(ap.aa_leveled());
                                assert(fin.right == a1.right);
                                assert(fin.aa_leveled());
                                assert(fin.level == lvl + 1);
                            }
                        }
                    },
                }
            } else {
                let cnew = *mid.right.unwrap();
                assert(cnew.aa_leveled());
                match a.right {
                    None => {
                        assert(a.level == 1);
                        assert(a.left is None) by {
                            if a.left is Some {
                                lemma_aa_level_pos(*a.left.unwrap());
                            }
                        }
                        assert(!mid.skew_applies());
                        assert(sk == mid);
                        assert(!sk.split_applies());
                        assert(fin == mid);
                        assert(fin.aa_leveled());
                        assert(fin.level == lvl);
                    },
                    Some(r0box) => {
                        let r0 = *r0box;
                        assert(r0.aa_leveled());
                        lemma_aa_level_pos(r0);
                        assert(!mid.skew_applies()) by {
                            if a.left is Some {
                                lemma_aa_level_pos(*a.left.unwrap());
                            }
                        }
                        assert(sk == mid);
                        if r0.level + 1 == lvl {
                            // The right child was one level down; it can
                            // come back level-sharing, which is legal.
                            if cnew.level == r0.level {
                                assert(!sk.split_applies());
                                assert(fin == mid);
                                assert(fin.aa_leveled());
                                assert(fin.level == lvl);
                            } else {
                                assert(cnew.level == lvl);
                                assert(cnew.right is Some);
                                assert(cnew.right.unwrap().level + 1 == cnew.level);
                                assert(!sk.split_applies());
                                assert(fin == mid);
                                assert(fin.aa_leveled());
                                assert(fin.level == lvl);
                            }
                        } else {
                            // The right child already shared the root's
                            // level, so it cannot have grown; but it may
                            // now carry a level-sharing right child of its
                            // own, which split repairs by promotion.
                            assert(r0.level == lvl);
                            assert(cnew.level == r0.level) by {
                                if cnew.level == r0.level + 1 {
                                    assert(r0.right is Some);
                                    assert(r0.right.unwrap().level == r0.level);
                                }
                            }
                            match cnew.right {
                                None => {
                                    assert(!sk.split_applies());
                                    assert(fin == mid);
                                    assert(fin.aa_leveled());
                                    assert(fin.level == lvl);
                                },
                                Some(cr) => {
                                    if cr.level == lvl {
                                        assert(sk.split_applies());
                                        let ap = *fin.left.unwrap();
                                        assert(ap.right == cnew.left);
                                        if a.left is Some {
                                            lemma_aa_level_pos(*a.left.unwrap());
                                        }
                                        if cnew.left is Some {
                                            lemma_aa_level_pos(*cnew.left.unwrap());
                                        }
                                        assert(ap.aa_leveled());
                                        assert(fin.aa_leveled());
                                        assert(fin.level == lvl + 1);
                                    } else {
                                        assert(!sk.split_applies());
                                        assert(fin == mid);
                                        assert(fin.aa_leveled());
                                        assert(fin.level == lvl);
                                    }
                                },
                            }
                        }
                    },
                }
            }
            // Overwrite of a present key: the value changed down the
            // search path, no level did, so neither rewrite fires and
            // the shape comes through untouched.
            if a.as_map().dom().contains(key) {
                assert(a.aa_leveled());
                if key < a.key {
                    assert(link_map(a.left).dom().contains(key));
                    let l0 = *a.left.unwrap();
                    let cnew = *mid.left.unwrap();
                    assert(l0.updated_in_place(cnew, key, value));
                    assert(cnew.level == l0.level);
                    assert(l0.level + 1 == a.level);
                    assert(!mid.skew_applies());
                    assert(sk == mid);
                    assert(!sk.split_applies()) by {
                        match a.right {
                            None => {},
                            Some(r0b) => {
                                let r0 = *r0b;
                                assert(r0.aa_leveled());
                                if r0.level != a.level {
                                    assert(r0.level + 1 == a.level);
                                }
                            },
                        }
                    }
                    assert(fin == mid);
                    assert(a.updated_in_place(fin, key, value));
                } else {
                    assert(link_map(a.right).dom().contains(key));
                    let r0 = *a.right.unwrap();
                    let cnew = *mid.right.unwrap();
                    assert(r0.updated_in_place(cnew, key, value));
                    assert(cnew.level == r0.level);
                    assert(!mid.skew_applies()) by {
                        match a.left {
                            None => {},
                            Some(l0b) => {
                                assert((*l0b).level + 1 == a.level);
                            },
                        }
                    }
                    assert(sk == mid);
                    assert(!sk.split_applies()) by {
                        assert(r0.aa_leveled());
                        if r0.key != key && key > r0.key {
                            assert(r0.right is Some && cnew.right is Some);
                            let rr0 = *r0.right.unwrap();
                            let crr = *cnew.right.unwrap();
                            assert(rr0.updated_in_place(crr, key, value));
                            assert(crr.level == rr0.level);
                        } else {
                            assert(cnew.right == r0.right);
                        }
                        if r0.level != a.level {
                            assert(r0.level + 1 == a.level);
                        }
                    }
                    assert(fin == mid);
                    assert(a.updated_in_place(fin, key, value));
                }
            }
        }
        prev
    }

    pub fn max(&self) -> (r: &u64)
        ensures
            *r == self.max_key(),
        decreases self,
    {
        match &self.right {
            None => &self.key,
            Some(n) => n.max(),
        }
    }

    pub fn min(&self) -> (r: &u64)
        ensures
            *r == self.min_key(),
        decreases self,
    {
        match &self.left {
            None => &self.key,
            Some(n) => n.min(),
        }
    }
}

/// Two to the power `e`.
pub open spec fn pow2(e: nat) -> nat
    decreases e,
{
    if e == 0 {
        1
    } else {
        2 * pow2((e - 1) as nat)
    }
}

/// The balance discipline keeps levels logarithmic: a balanced subtree
/// whose root sits at level L holds at least 2^L - 1 nodes.
pub proof fn lemma_level_size_bound<V>(n: Node<V>)
    requires
        n.aa_leveled(),
    ensures
        pow2(n.level as nat) <= n.size() + 1,
    decreases n,
{
    lemma_aa_level_pos(n);
    if n.left is None || n.right is None {
        assert(n.level == 1);
        assert(pow2(1) == 2) by {
            reveal_with_fuel(pow2, 2);
        }
    } else {
        let l = *n.left.unwrap();
        let r = *n.right.unwrap();
        lemma_level_size_bound(l);
        lemma_level_size_bound(r);
        assert(l.level + 1 == n.level);
        assert(pow2(n.level as nat) == 2 * pow2(l.level as nat));
        if r.level == n.level {
            assert(pow2(r.level as nat) == 2 * pow2(l.level as nat));
            assert(pow2(l.level as nat) <= pow2(r.level as nat));
        } else {
            assert(r.level == l.level);
        }
        assert(pow2(l.level as nat) <= r.size() + 1);
        assert(pow2(l.level as nat) <= l.size() + 1);
        assert(n.size() == 1 + l.size() + r.size());
    }
}

/// Levels cap depth: a balanced subtree is at most twice its root
/// level deep, and one step shallower when the root's right link is
/// not level-sharing.
pub proof fn lemma_height_le_levels<V>(n: Node<V>)
    requires
        n.aa_leveled(),
    ensures
        n.height() <= 2 * n.level,
        (match n.right {
            None => true,
            Some(r) => r.level < n.level,
        }) ==> n.height() + 1 <= 2 * n.level,
    decreases n,
{
    lemma_aa_level_pos(n);
    match n.left {
        None => {},
        Some(l) => {
            lemma_height_le_levels(*l);
            lemma_aa_level_pos(*l);
        },
    }
    match n.right {
        None => {},
        Some(r) => {
            lemma_height_le_levels(*r);
            lemma_aa_level_pos(*r);
            if r.level == n.level {
                match r.right {
                    None => {},
                    Some(rr) => {
                        assert(rr.level + 1 == r.level);
                    },
                }
            }
        },
    }
}

/// A search-ordered subtree stores exactly one key per node.
pub proof fn lemma_size_matches_key_count<V>(n: Node<V>)
    requires
        n.bst_ordered(),
    ensures
        n.as_map().dom().finite(),
        n.as_map().dom().len() == n.size(),
    decreases n,
{
    assert(n.bst_ordered());
    let dl = link_map(n.left).dom();
    let dr = link_map(n.right).dom();
    match n.left {
        None => {
            assert(link_map(n.left) =~= Map::<u64, V>::empty());
            assert(dl =~= Set::<u64>::empty());
        },
        Some(l) => {
            lemma_size_matches_key_count(*l);
        },
    }
    match n.right {
        None => {
            assert(link_map(n.right) =~= Map::<u64, V>::empty());
            assert(dr =~= Set::<u64>::empty());
        },
        Some(r) => {
            lemma_size_matches_key_count(*r);
        },
    }
    assert(dl.disjoint(dr));
    vstd::set_lib::lemma_set_disjoint_lens(dl, dr);
    assert(n.as_map().dom() =~= (dl + dr).insert(n.key));
    assert(!(dl + dr).contains(n.key));
}

/// An in-place overwrite that writes the value the key already held
/// changes nothing at all: the subtree comes out literally identical.
pub proof fn lemma_overwrite_same_value_is_identity<V>(a: Node<V>, b: Node<V>, key: u64, value: V)
    requires
        a.bst_ordered(),
        a.updated_in_place(b, key, value),
        a.as_map().dom().contains(key),
        a.as_map()[key] == value,
    ensures
        b == a,
    decreases a,
{
    lemma_as_map_facts(a);
    assert(a.bst_ordered());
    assert(a.updated_in_place(b, key, value));
    if a.key == key {
        assert(a.as_map()[key] == a.value);
    } else if key < a.key {
        assert(!link_map(a.right).dom().contains(key));
        assert(link_map(a.left).dom().contains(key));
        assert(a.as_map()[key] == link_map(a.left)[key]);
        let l0 = *a.left.unwrap();
        let bl = *b.left.unwrap();
        lemma_overwrite_same_value_is_identity(l0, bl, key, value);
        assert(b.left == a.left);
    } else {
        assert(link_map(a.right).dom().contains(key));
        assert(a.as_map()[key] == link_map(a.right)[key]);
        let r0 = *a.right.unwrap();
        let br = *b.right.unwrap();
        lemma_overwrite_same_value_is_identity(r0, br, key, value);
        assert(b.right == a.right);
    }
}

/// The maintained level discipline is the stronger of the two AA
/// statements: every subtree satisfying `aa_leveled` passes the four
/// checked conditions, so `is_aa` answers true on every tree the
/// library builds.
pub proof fn lemma_aa_leveled_implies_conditions<V>(n: Node<V>)
    requires
        n.aa_leveled(),
    ensures
        n.aa_conditions(),
    decreases n,
{
    assert(n.aa_leveled());
    match n.left {
        None => {},
        Some(l) => {
            lemma_aa_leveled_implies_conditions(*l);
        },
    }
    match n.right {
        None => {},
        Some(r) => {
            lemma_aa_leveled_implies_conditions(*r);
        },
    }
}

/// A balanced node sits at level 1 or above.
pub proof fn lemma_aa_level_pos<V>(n: Node<V>)
    requires
        n.aa_leveled(),
    ensures
        n.level >= 1,
{
    if n.left is None || n.right is None {
        assert(n.level == 1);
    } else {
        assert(n.left.unwrap().level + 1 == n.level);
    }
}

/// Replacing the left subtree by one holding its old entries plus one
/// more, with a key below the root's, inserts that entry in the whole.
proof fn lemma_left_update<V>(a: Node<V>, m: Node<V>, key: u64, value: V)
    requires
        a.bst_ordered(),
        key < a.key,
        m.key == a.key,
        m.value == a.value,
        m.right == a.right,
        m.left is Some,
        m.left.unwrap().bst_ordered(),
        m.left.unwrap().as_map() == link_map(a.left).insert(key, value),
    ensures
        m.bst_ordered(),
        m.as_map() =~= a.as_map().insert(key, value),
{
    lemma_as_map_facts(a);
    lemma_as_map_facts(m);
    assert(a.bst_ordered());
    let lnew = *m.left.unwrap();
    lemma_as_map_facts(lnew);
    assert forall|k: u64| link_map(m.left).dom().contains(k) implies k < m.key by {
        if k != key {
            assert(link_map(a.left).dom().contains(k));
        }
    }
    assert(m.bst_ordered());
    assert forall|k: u64|
        m.as_map().dom().contains(k) implies a.as_map().insert(key, value).dom().contains(k)
        && m.as_map()[k] == a.as_map().insert(key, value)[k] by {
        if k == key {
            assert(!link_map(m.right).dom().contains(k));
            assert(m.as_map()[k] == link_map(m.left)[k]);
        } else if k == a.key {
        } else if link_map(a.right).dom().contains(k) {
            assert(m.as_map()[k] == link_map(m.right)[k]);
            assert(a.as_map()[k] == link_map(a.right)[k]);
        } else {
            assert(link_map(m.left).dom().contains(k));
            assert(link_map(a.left).dom().contains(k));
            assert(m.as_map()[k] == link_map(m.left)[k]);
            assert(link_map(m.left)[k] == link_map(a.left)[k]);
            assert(a.as_map()[k] == link_map(a.left)[k]);
        }
    }
    assert forall|k: u64|
        a.as_map().insert(key, value).dom().contains(k) implies m.as_map().dom().contains(
        k,
    ) by {
        if k != key && k != a.key {
            if link_map(a.left).dom().contains(k) {
                assert(link_map(m.left).dom().contains(k));
            } else {
                assert(link_map(a.right).dom().contains(k));
            }
        } else if k == key {
            assert(link_map(m.left).dom().contains(k));
        }
    }
}

/// The mirror image: a right subtree holding its old entries plus one
/// more, with a key above the root's, inserts that entry in the whole.
proof fn lemma_right_update<V>(a: Node<V>, m: Node<V>, key: u64, value: V)
    requires
        a.bst_ordered(),
        key > a.key,
        m.key == a.key,
        m.value == a.value,
        m.left == a.left,
        m.right is Some,
        m.right.unwrap().bst_ordered(),
        m.right.unwrap().as_map() == link_map(a.right).insert(key, value),
    ensures
        m.bst_ordered(),
        m.as_map() =~= a.as_map().insert(key, value),
{
    lemma_as_map_facts(a);
    lemma_as_map_facts(m);
    assert(a.bst_ordered());
    let rnew = *m.right.unwrap();
    lemma_as_map_facts(rnew);
    assert forall|k: u64| link_map(m.right).dom().contains(k) implies k > m.key by {
        if k != key {
            assert(link_map(a.right).dom().contains(k));
        }
    }
    assert(m.bst_ordered());
    assert forall|k: u64|
        m.as_map().dom().contains(k) implies a.as_map().insert(key, value).dom().contains(k)
        && m.as_map()[k] == a.as_map().insert(key, value)[k] by {
        if k == key {
            assert(m.as_map()[k] == link_map(m.right)[k]);
        } else if k == a.key {
        } else if link_map(a.right).dom().contains(k) {
            assert(m.as_map()[k] == link_map(m.right)[k]);
            assert(link_map(m.right)[k] == link_map(a.right)[k]);
            assert(a.as_map()[k] == link_map(a.right)[k]);
        } else {
            assert(link_map(m.left).dom().contains(k));
            assert(!link_map(m.right).dom().contains(k));
            assert(m.as_map()[k] == link_map(m.left)[k]);
            assert(a.as_map()[k] == link_map(a.left)[k]);
        }
    }
    assert forall|k: u64|
        a.as_map().insert(key, value).dom().contains(k) implies m.as_map().dom().contains(
        k,
    ) by {
        if k != key && k != a.key {
            if link_map(a.right).dom().contains(k) {
                assert(link_map(m.right).dom().contains(k));
            }
        } else if k == key {
            assert(link_map(m.right).dom().contains(k));
        }
    }
}

/// How `as_map` decomposes over the root entry and the two subtrees.
pub proof fn lemma_as_map_facts<V>(n: Node<V>)
    ensures
        n.as_map().dom().contains(n.key),
        n.as_map()[n.key] == n.value,
        forall|k: u64| link_map(n.left).dom().contains(k) ==> n.as_map().dom().contains(k),
        forall|k: u64| link_map(n.right).dom().contains(k) ==> n.as_map().dom().contains(k),
        forall|k: u64|
            n.as_map().dom().contains(k) ==> (k == n.key || link_map(n.left).dom().contains(k)
                || link_map(n.right).dom().contains(k)),
        forall|k: u64|
            k != n.key && link_map(n.right).dom().contains(k) ==> n.as_map()[k] == link_map(
                n.right,
            )[k],
        forall|k: u64|
            k != n.key && !link_map(n.right).dom().contains(k) && link_map(
                n.left,
            ).dom().contains(k) ==> n.as_map()[k] == link_map(n.left)[k],
{
}

/// The rightmost and leftmost keys are themselves stored in the subtree.
pub proof fn lemma_extreme_keys_present<V>(n: Node<V>)
    ensures
        n.as_map().dom().contains(n.max_key()),
        n.as_map().dom().contains(n.min_key()),
    decreases n,
{
    match n.right {
        None => {},
        Some(r) => {
            lemma_extreme_keys_present(*r);
        },
    }
    match n.left {
        None => {},
        Some(l) => {
            lemma_extreme_keys_present(*l);
        },
    }
}

/// In an ordered subtree every stored key lies between the leftmost and
/// the rightmost key.
pub proof fn lemma_key_range<V>(n: Node<V>)
    requires
        n.bst_ordered(),
    ensures
        forall|k: u64|
            n.as_map().dom().contains(k) ==> n.min_key() <= k && k <= n.max_key(),
    decreases n,
{
    match n.right {
        None => {},
        Some(r) => {
            lemma_key_range(*r);
            lemma_extreme_keys_present(*r);
        },
    }
    match n.left {
        None => {},
        Some(l) => {
            lemma_key_range(*l);
            lemma_extreme_keys_present(*l);
        },
    }
    match n.left {
        None => {
            assert(n.min_key() == n.key);
        },
        Some(l) => {
            assert(n.min_key() == l.min_key());
            assert(link_map(n.left).dom().contains(l.min_key()));
            assert(l.min_key() < n.key);
        },
    }
    match n.right {
        None => {
            assert(n.max_key() == n.key);
        },
        Some(r) => {
            assert(n.max_key() == r.max_key());
            assert(link_map(n.right).dom().contains(r.max_key()));
            assert(r.max_key() > n.key);
        },
    }
    assert forall|k: u64|
        n.as_map().dom().contains(k) implies n.min_key() <= k && k <= n.max_key() by {
        if k == n.key {
        } else if link_map(n.left).dom().contains(k) {
            assert(k < n.key);
            match n.left {
                None => {},
                Some(l) => {
                    assert(l.min_key() <= k);
                },
            }
        } else {
            assert(link_map(n.right).dom().contains(k));
            assert(k > n.key);
            match n.right {
                None => {},
                Some(r) => {
                    assert(k <= r.max_key());
                },
            }
        }
    }
}

} // verus!
