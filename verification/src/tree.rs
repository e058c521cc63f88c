//! The container layer: a `Tree` owns an optional root `Node` and
//! exposes lookup and insertion; all structural work happens in the
//! node layer.

use vstd::prelude::*;

use crate::node::Node;
use crate::node::link_map;
use crate::node::pow2;
use crate::node::lemma_level_size_bound;
use crate::node::lemma_height_le_levels;
use crate::node::lemma_size_matches_key_count;
use crate::node::lemma_aa_leveled_implies_conditions;

verus! {

/// An ordered key/value store backed by an AA-tree. Empty exactly when
/// the root is absent; never holds sentinel nodes.
pub struct Tree<V> {
    root: Option<Box<Node<V>>>,
}

impl<V> Tree<V> {
    /// The key/value pairs currently stored.
    pub closed spec fn as_map(self) -> Map<u64, V> {
        link_map(self.root)
    }

    /// The search-order invariant alone.
    pub closed spec fn bst_inv(self) -> bool {
        match self.root {
            None => true,
            Some(r) => r.bst_ordered(),
        }
    }

    /// The four AA balance conditions at every node; vacuous on the
    /// empty tree. This is what `is_aa` checks.
    pub closed spec fn aa_conditions(self) -> bool {
        match self.root {
            None => true,
            Some(r) => r.aa_conditions(),
        }
    }

    /// `other` is this tree with exactly the entry for `key` rewritten
    /// to `value`, in place: the same shape, keys and levels, every
    /// other stored value unchanged.
    pub closed spec fn updated_in_place(self, other: Tree<V>, key: u64, value: V) -> bool {
        match (self.root, other.root) {
            (Some(a), Some(b)) => a.updated_in_place(*b, key, value),
            _ => false,
        }
    }

    /// Both structural invariants: search order and AA levels. Holds
    /// of every tree produced by `new` and any sequence of `insert`s.
    pub closed spec fn inv(self) -> bool {
        match self.root {
            None => true,
            Some(r) => r.bst_ordered() && r.aa_leveled(),
        }
    }

    /// The root's level; 0 for the empty tree.
    pub closed spec fn spec_root_level(self) -> nat {
        match self.root {
            None => 0,
            Some(r) => r.level as nat,
        }
    }

    /// The number of nodes held.
    pub closed spec fn spec_size(self) -> nat {
        match self.root {
            None => 0,
            Some(r) => r.size(),
        }
    }

    /// The number of nodes on the longest root-to-leaf path.
    pub closed spec fn spec_height(self) -> nat {
        match self.root {
            None => 0,
            Some(r) => r.height(),
        }
    }

    pub fn new() -> (t: Tree<V>)
        ensures
            t.inv(),
            t@ == Map::<u64, V>::empty(),
            t.spec_root_level() == 0,
    {
        Tree { root: None }
    }

    /// Look the key up; yields the value most recently inserted for it,
    /// and nothing when the key was never inserted.
    pub fn find(&self, key: &u64) -> (r: Option<&V>)
        requires
            self.inv(),
        ensures
            match r {
                Some(v) => self@.dom().contains(*key) && *v == self@[*key],
                None => !self@.dom().contains(*key),
            },
    {
        match &self.root {
            None => None,
            Some(r) => r.find(key),
        }
    }

    /// Insert `key -> value`: stores the pair, overwriting in place
    /// when the key is present, and returns the value the key held
    /// immediately before the call (nothing on a fresh insertion).
    /// Both structural invariants hold afterwards.
    pub fn insert(&mut self, key: u64, value: V) -> (prev: Option<V>)
        requires
            old(self).inv(),
            old(self).spec_root_level() < usize::MAX,
        ensures
            final(self).inv(),
            final(self)@ == old(self)@.insert(key, value),
            prev == (if old(self)@.dom().contains(key) {
                Some(old(self)@[key])
            } else {
                None::<V>
            }),
            final(self).spec_root_level() <= old(self).spec_root_level() + 1,
            old(self)@.dom().contains(key) ==> old(self).updated_in_place(*final(self), key, value),
    {
        match self.root.take() {
            None => {
                self.root = Some(Box::new(Node::new(key, value)));
                proof {
                    assert(self@ =~= old(self)@.insert(key, value));
                }
                None
            },
            Some(mut r) => {
                let p = r.insert(key, value);
                self.root = Some(r);
                p
            },
        }
    }

    /// Whether the search-order invariant holds of the current shape.
    /// True of every tree the library builds.
    pub fn is_bst(&self) -> (r: bool)
        ensures
            r == self.bst_inv(),
            self.inv() ==> r,
    {
        match &self.root {
            None => true,
            Some(r) => r.is_bst(),
        }
    }

    /// Whether the four AA balance conditions hold at every node of
    /// the current shape. True of every tree the library builds.
    pub fn is_aa(&self) -> (r: bool)
        ensures
            r == self.aa_conditions(),
            self.inv() ==> r,
    {
        match &self.root {
            None => true,
            Some(r) => {
                proof {
                    if self.inv() {
                        lemma_aa_leveled_implies_conditions(**r);
                    }
                }
                r.is_aa()
            },
        }
    }

    /// A view of the root node, for diagnostics such as tree printing;
    /// absent exactly when the tree is empty.
    pub fn root_node(&self) -> (r: Option<&Node<V>>)
        ensures
            match r {
                None => self@ == Map::<u64, V>::empty() && self.spec_root_level() == 0,
                Some(n) => {
                    &&& n.as_map() == self@
                    &&& n.level as nat == self.spec_root_level()
                    &&& (self.inv() ==> n.bst_ordered() && n.aa_leveled())
                },
            },
    {
        match &self.root {
            None => {
                proof {
                    assert(self@ =~= Map::<u64, V>::empty());
                }
                None
            },
            Some(r) => Some(&**r),
        }
    }
}

impl<V> View for Tree<V> {
    type V = Map<u64, V>;

    closed spec fn view(&self) -> Map<u64, V> {
        self.as_map()
    }
}

/// The maintained invariant subsumes both checked predicates: on any
/// tree the library builds, `is_bst` and `is_aa` answer true.
pub proof fn lemma_inv_implies_checks<V>(t: Tree<V>)
    requires
        t.inv(),
    ensures
        t.bst_inv(),
        t.aa_conditions(),
{
    match t.root {
        None => {},
        Some(r) => {
            lemma_aa_leveled_implies_conditions(*r);
        },
    }
}

/// The map a sequence of insertions builds up, first to last: exactly
/// what a tree's view becomes when the pairs are fed to `insert` in
/// order, starting from `new` (whose view is the empty map), since
/// `insert` ensures the view becomes `view.insert(key, value)`.
pub open spec fn map_of_inserts<V>(s: Seq<(u64, V)>) -> Map<u64, V>
    decreases s.len(),
{
    if s.len() == 0 {
        Map::empty()
    } else {
        map_of_inserts(s.drop_last()).insert(s.last().0, s.last().1)
    }
}

/// A key that no insertion of the sequence ever mentioned is absent
/// afterwards, so `find` on it yields nothing.
pub proof fn lemma_never_inserted_absent<V>(s: Seq<(u64, V)>, key: u64)
    requires
        forall|i: int| 0 <= i < s.len() ==> (#[trigger] s[i]).0 != key,
    ensures
        !map_of_inserts(s).dom().contains(key),
    decreases s.len(),
{
    if s.len() > 0 {
        lemma_never_inserted_absent(s.drop_last(), key);
        assert(s[s.len() - 1].0 != key);
    }
}

/// A key's most recent insertion wins: if position `i` inserted `key`
/// and no later insertion did, the sequence leaves `key` bound to the
/// value inserted at `i`, so `find` on it yields that value.
pub proof fn lemma_last_insert_wins<V>(s: Seq<(u64, V)>, key: u64, i: int)
    requires
        0 <= i < s.len(),
        s[i].0 == key,
        forall|j: int| i < j < s.len() ==> (#[trigger] s[j]).0 != key,
    ensures
        map_of_inserts(s).dom().contains(key),
        map_of_inserts(s)[key] == s[i].1,
    decreases s.len(),
{
    if i == s.len() - 1 {
    } else {
        assert(s[s.len() - 1].0 != key);
        lemma_last_insert_wins(s.drop_last(), key, i);
    }
}

/// Re-inserting the very pair a key already went to changes nothing:
/// together with the contract of `insert`, inserting `(key, value)`
/// twice leaves the stored map — hence every `find` — exactly as one
/// insertion does, and the structural invariants hold throughout.
pub proof fn lemma_reinsert_same_value_idempotent<V>(m: Map<u64, V>, key: u64, value: V)
    ensures
        m.insert(key, value).insert(key, value) == m.insert(key, value),
{
    assert(m.insert(key, value).insert(key, value) =~= m.insert(key, value));
}

/// The structural half of the same idempotence: when a key already
/// goes to `value`, the in-place overwrite that `insert` performs
/// (its `updated_in_place` ensures) leaves the tree literally
/// unchanged — shape, levels and every entry.
pub proof fn lemma_reinsert_same_pair_fixes_tree<V>(t1: Tree<V>, t2: Tree<V>, key: u64, value: V)
    requires
        t1.inv(),
        t1@.dom().contains(key),
        t1@[key] == value,
        t1.updated_in_place(t2, key, value),
    ensures
        t2 == t1,
{
    match (t1.root, t2.root) {
        (Some(a), Some(b)) => {
            crate::node::lemma_overwrite_same_value_is_identity(*a, *b, key, value);
        },
        _ => {},
    }
}

/// The logarithmic height bound: a balanced tree at root level L holds
/// at least 2^L - 1 nodes, one per stored key, and is at most 2L deep
/// — so both the maximum level and the height grow at most
/// logarithmically in the number of keys.
pub proof fn lemma_height_bound<V>(t: Tree<V>)
    requires
        t.inv(),
    ensures
        pow2(t.spec_root_level()) <= t.spec_size() + 1,
        t.spec_height() <= 2 * t.spec_root_level(),
        t.spec_size() == t@.dom().len(),
        t@.dom().finite(),
{
    match t.root {
        None => {
            assert(t@ =~= Map::<u64, V>::empty());
            assert(t@.dom() =~= Set::<u64>::empty());
        },
        Some(r) => {
            lemma_level_size_bound(*r);
            lemma_height_le_levels(*r);
            lemma_size_matches_key_count(*r);
        },
    }
}

} // verus!
