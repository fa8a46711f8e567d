//! The ordered map: a self-balancing binary search tree under the red-black
//! discipline. Lookups, insertions, deletions and ordered iteration run in
//! logarithmic time; the tree's order and color invariants are part of the
//! type and hold after every operation.

use vstd::prelude::*;

use crate::collections::iter::Iter;
use crate::collections::iter::Values;
use crate::collections::node::NodeRef;
use crate::collections::node::SearchResult;

verus! {

/// An ordered map from `u64` keys to values, kept balanced by red-black
/// rotations and recoloring.
pub struct RBTreeMap<V> {
    pub(crate) root: NodeRef<V>,
    pub(crate) length: usize,
}

impl<V> View for RBTreeMap<V> {
    type V = Map<u64, V>;

    closed spec fn view(&self) -> Map<u64, V> {
        self.root.as_map()
    }
}

impl<V> RBTreeMap<V> {
    /// Every reachable tree keeps the search order, the red-black color and
    /// height disciplines, a black root, and a length equal to its number
    /// of keys.
    #[verifier::type_invariant]
    spec fn wf(self) -> bool {
        &&& self.root.bst()
        &&& self.root.invc()
        &&& self.root.invh()
        &&& !self.root.red()
        &&& self.root.as_map().dom().finite()
        &&& self.length == self.root.as_map().dom().len()
    }

    /// The search order invariant: at every node, all keys in its left
    /// subtree are below its key and all keys in its right subtree above it.
    pub closed spec fn search_ordered(self) -> bool {
        self.root.bst()
    }

    /// The red-black invariants: the root is black, no red node has a red
    /// child, and every path from a node to a missing child crosses the
    /// same number of black nodes.
    pub closed spec fn red_black_ok(self) -> bool {
        &&& !self.root.red()
        &&& self.root.invc()
        &&& self.root.invh()
    }

    /// The pairs of the map in ascending key order.
    pub closed spec fn to_seq(self) -> Seq<(u64, V)> {
        self.root.inorder()
    }

    /// Updating a key twice keeps the second value and returns the first,
    /// and a get-or-insert of an absent key stores the default: the
    /// equivalence that backs the entry pattern, stated over map views.
    pub proof fn lemma_entry_equivalence(m: Map<u64, V>, k: u64, v: V, v1: V, v2: V)
        ensures
            !m.dom().contains(k) ==> m.insert(k, v)[k] == v,
            m.insert(k, v1).dom().contains(k) && m.insert(k, v1)[k] == v1,
            m.insert(k, v1).insert(k, v2)[k] == v2,
    {
    }

    /// Creates an empty map.
    pub fn new() -> (t: Self)
        ensures
            t@ == Map::<u64, V>::empty(),
    {
        let root = NodeRef::none();
        proof {
            assert(Map::<u64, V>::empty().dom() =~= Set::<u64>::empty());
        }
        RBTreeMap { root, length: 0 }
    }

    /// Returns the number of key/value pairs.
    pub fn len(&self) -> (n: usize)
        ensures
            n == self@.dom().len(),
    {
        proof {
            use_type_invariant(self);
        }
        self.length
    }

    /// Returns true iff the map holds no pair.
    pub fn is_empty(&self) -> (r: bool)
        ensures
            r == (self@.dom().len() == 0),
    {
        proof {
            use_type_invariant(self);
        }
        self.length == 0
    }

    /// Returns the value stored under the key, if there is one.
    pub fn get(&self, key: u64) -> (r: Option<&V>)
        ensures
            match r {
                Some(v) => self@.dom().contains(key) && *v == self@[key],
                None => !self@.dom().contains(key),
            },
    {
        proof {
            use_type_invariant(self);
        }
        self.root.lookup(key)
    }

    /// Returns true iff the key is present.
    pub fn contains_key(&self, key: u64) -> (r: bool)
        ensures
            r == self@.dom().contains(key),
    {
        match self.get(key) {
            Some(_) => true,
            None => false,
        }
    }

    /// Returns the stored key and value for the key, if present.
    pub fn get_key_value(&self, key: u64) -> (r: Option<(u64, &V)>)
        ensures
            match r {
                Some(p) => p.0 == key && self@.dom().contains(key) && *p.1 == self@[key],
                None => !self@.dom().contains(key),
            },
    {
        match self.get(key) {
            Some(v) => Some((key, v)),
            None => None,
        }
    }

    /// One search, reporting whether the key is present.
    pub fn search(&self, key: u64) -> (r: SearchResult)
        ensures
            (r is Found) <==> self@.dom().contains(key),
    {
        proof {
            use_type_invariant(self);
        }
        self.root.search(key)
    }

    /// Returns the value stored under the key. Indexing with an absent
    /// key is a caller error, which the precondition rules out.
    pub fn index(&self, key: u64) -> (r: &V)
        requires
            self@.dom().contains(key),
        ensures
            *r == self@[key],
    {
        match self.get(key) {
            Some(v) => v,
            None => vstd::pervasive::unreached(),
        }
    }

    /// Inserts a pair. If the key was present the value is replaced in
    /// place and the old value returned; otherwise the pair is added, the
    /// new node is linked and recolored, and `None` is returned.
    pub fn insert(&mut self, key: u64, value: V) -> (r: Option<V>)
        requires
            old(self)@.dom().len() < usize::MAX,
        ensures
            final(self)@ == old(self)@.insert(key, value),
            r == if old(self)@.dom().contains(key) {
                Some(old(self)@[key])
            } else {
                None::<V>
            },
    {
        proof {
            use_type_invariant(&*self);
        }
        let mut tmp = Self::new();
        core::mem::swap(self, &mut tmp);
        let RBTreeMap { root, length } = tmp;
        let (nr, old_value) = root.ins(key, value);
        let nr = nr.paint_black();
        let new_length = if old_value.is_some() {
            length
        } else {
            length + 1
        };
        *self = RBTreeMap { root: nr, length: new_length };
        old_value
    }

    /// Ensures a value is present under the key: inserts the default when
    /// the key is absent and leaves the map unchanged when it is present.
    pub fn or_insert(&mut self, key: u64, default: V)
        requires
            old(self)@.dom().len() < usize::MAX,
        ensures
            final(self)@ == if old(self)@.dom().contains(key) {
                old(self)@
            } else {
                old(self)@.insert(key, default)
            },
    {
        let found = match self.search(key) {
            SearchResult::Found => true,
            SearchResult::NotFound => false,
        };
        if !found {
            let _ = self.insert(key, default);
        }
    }

    /// Removes a key, returning the stored key and value if the key was
    /// present; the tree is rebalanced to restore the black height.
    pub fn remove_entry(&mut self, key: u64) -> (r: Option<(u64, V)>)
        ensures
            final(self)@ == old(self)@.remove(key),
            r == if old(self)@.dom().contains(key) {
                Some((key, old(self)@[key]))
            } else {
                None::<(u64, V)>
            },
    {
        proof {
            use_type_invariant(&*self);
        }
        let mut tmp = Self::new();
        core::mem::swap(self, &mut tmp);
        let RBTreeMap { root, length } = tmp;
        let (nr, old_value) = root.del(key);
        let nr = nr.paint_black();
        let new_length = if old_value.is_some() {
            length - 1
        } else {
            length
        };
        *self = RBTreeMap { root: nr, length: new_length };
        match old_value {
            Some(v) => Some((key, v)),
            None => None,
        }
    }

    /// Removes a key, returning its value if the key was present.
    pub fn remove(&mut self, key: u64) -> (r: Option<V>)
        ensures
            final(self)@ == old(self)@.remove(key),
            r == if old(self)@.dom().contains(key) {
                Some(old(self)@[key])
            } else {
                None::<V>
            },
    {
        match self.remove_entry(key) {
            Some(p) => Some(p.1),
            None => None,
        }
    }

    /// Returns the least key and its value, or nothing when the map is
    /// empty.
    pub fn first_key_value(&self) -> (r: Option<(u64, &V)>)
        ensures
            match r {
                Some(p) => self@.dom().contains(p.0) && *p.1 == self@[p.0] && forall|e: u64|
                    self@.dom().contains(e) ==> p.0 <= e,
                None => self@.dom().len() == 0,
            },
    {
        proof {
            use_type_invariant(self);
        }
        if self.root.is_none() {
            proof {
                self.root.lemma_parts();
                assert(self@.dom() =~= Set::<u64>::empty());
            }
            None
        } else {
            let p = self.root.min_node();
            Some(p)
        }
    }

    /// Returns the greatest key and its value, or nothing when the map is
    /// empty.
    pub fn last_key_value(&self) -> (r: Option<(u64, &V)>)
        ensures
            match r {
                Some(p) => self@.dom().contains(p.0) && *p.1 == self@[p.0] && forall|e: u64|
                    self@.dom().contains(e) ==> p.0 >= e,
                None => self@.dom().len() == 0,
            },
    {
        proof {
            use_type_invariant(self);
        }
        if self.root.is_none() {
            proof {
                self.root.lemma_parts();
                assert(self@.dom() =~= Set::<u64>::empty());
            }
            None
        } else {
            let p = self.root.max_node();
            Some(p)
        }
    }

    /// Removes and returns the pair with the least key, or nothing when the
    /// map is empty.
    pub fn pop_first(&mut self) -> (r: Option<(u64, V)>)
        ensures
            match r {
                Some(p) => old(self)@.dom().contains(p.0) && p.1 == old(self)@[p.0] && (forall|
                    e: u64,
                |
                    old(self)@.dom().contains(e) ==> p.0 <= e) && final(self)@ == old(
                    self,
                )@.remove(p.0),
                None => old(self)@.dom().len() == 0 && final(self)@ == old(self)@,
            },
    {
        let k = match self.first_key_value() {
            Some(p) => p.0,
            None => {
                return None;
            },
        };
        match self.remove_entry(k) {
            Some(p) => Some(p),
            None => vstd::pervasive::unreached(),
        }
    }

    /// Removes and returns the pair with the greatest key, or nothing when
    /// the map is empty.
    pub fn pop_last(&mut self) -> (r: Option<(u64, V)>)
        ensures
            match r {
                Some(p) => old(self)@.dom().contains(p.0) && p.1 == old(self)@[p.0] && (forall|
                    e: u64,
                |
                    old(self)@.dom().contains(e) ==> p.0 >= e) && final(self)@ == old(
                    self,
                )@.remove(p.0),
                None => old(self)@.dom().len() == 0 && final(self)@ == old(self)@,
            },
    {
        let k = match self.last_key_value() {
            Some(p) => p.0,
            None => {
                return None;
            },
        };
        match self.remove_entry(k) {
            Some(p) => Some(p),
            None => vstd::pervasive::unreached(),
        }
    }

    /// Removes every pair. Handing the whole tree to one owned value lets
    /// it unlink as a unit.
    pub fn clear(&mut self)
        ensures
            final(self)@ == Map::<u64, V>::empty(),
    {
        proof {
            use_type_invariant(&*self);
        }
        let mut tmp = Self::new();
        core::mem::swap(self, &mut tmp);
    }
}

/// The map a sequence of pairs builds up, inserting from first to last;
/// a later pair overwrites an earlier one with the same key.
pub open spec fn map_of_pairs<V>(s: Seq<(u64, V)>) -> Map<u64, V>
    decreases s.len(),
{
    if s.len() == 0 {
        Map::empty()
    } else {
        map_of_pairs(s.drop_last()).insert(s.last().0, s.last().1)
    }
}

impl<V: Copy> RBTreeMap<V> {
    /// Builds a map from a pre-sorted sequence of pairs by inserting them
    /// in order; a later pair wins when keys repeat.
    pub fn bulk_build_from_sorted_iter(pairs: Vec<(u64, V)>) -> (t: Self)
        ensures
            t@ == map_of_pairs(pairs@),
    {
        let mut t = Self::new();
        let n = pairs.len();
        let mut i: usize = 0;
        proof {
            assert(pairs@.take(0) =~= Seq::<(u64, V)>::empty());
        }
        while i < n
            invariant
                n == pairs@.len(),
                i <= n,
                t@ == map_of_pairs(pairs@.take(i as int)),
                t@.dom().len() <= i,
                t@.dom().finite(),
            decreases n - i,
        {
            let p = pairs[i];
            let _ = t.insert(p.0, p.1);
            i = i + 1;
            proof {
                assert(pairs@.take(i as int).drop_last() =~= pairs@.take(i - 1));
                assert(pairs@.take(i as int).last() == p);
            }
        }
        proof {
            assert(pairs@.take(n as int) =~= pairs@);
        }
        t
    }

    /// Returns a structural deep copy: every node's key, value, color and
    /// place in the tree are preserved, so the copy is the same tree value;
    /// the copy and the original are independent afterwards.
    pub fn clone(&self) -> (r: Self)
        ensures
            r == *self,
            r@ == self@,
    {
        proof {
            use_type_invariant(self);
        }
        let root = self.root.deep_copy();
        RBTreeMap { root, length: self.length }
    }

    /// Returns a cursor over the pairs in ascending key order. The
    /// sequence lists exactly the stored map: its keys are strictly
    /// ascending, every listed pair is stored, every stored key is listed,
    /// and its length equals the number of keys.
    pub fn iter(&self) -> (it: Iter<V>)
        ensures
            it@ == self.to_seq(),
            it@.len() == self@.dom().len(),
            forall|i: int, j: int| 0 <= i < j < it@.len() ==> it@[i].0 < it@[j].0,
            forall|i: int|
                0 <= i < it@.len() ==> self@.dom().contains(it@[i].0) && self@[it@[i].0]
                    == it@[i].1,
            forall|e: u64|
                self@.dom().contains(e) ==> exists|i: int|
                    0 <= i < it@.len() && #[trigger] it@[i].0 == e,
    {
        proof {
            use_type_invariant(self);
            self.root.lemma_inorder();
        }
        let mut entries: Vec<(u64, V)> = Vec::new();
        self.root.push_inorder(&mut entries);
        Iter::new(entries)
    }

    /// Returns a cursor over the values in ascending order of their keys.
    pub fn values(&self) -> (vs: Values<V>)
        ensures
            vs@ == self.to_seq(),
    {
        Values::new(self.iter())
    }

    /// Recomputes the color discipline, the black heights and the key
    /// order of the whole tree from scratch and reports whether all hold.
    /// They always do: the result is true for every reachable tree.
    pub fn check(&self) -> (r: bool)
        ensures
            r,
            self.search_ordered(),
            self.red_black_ok(),
    {
        proof {
            use_type_invariant(self);
            self.root.lemma_inorder();
            self.root.lemma_bh_le_size();
        }
        let colors_ok = self.root.check_colors();
        let root_black = !self.root.is_red();
        let heights_ok = match self.root.check_heights() {
            Some(_) => true,
            None => false,
        };
        let mut entries: Vec<(u64, V)> = Vec::new();
        self.root.push_inorder(&mut entries);
        let n = entries.len();
        let mut sorted = true;
        let mut i: usize = 1;
        while i < n
            invariant
                n == entries@.len(),
                1 <= i || n == 0,
                i <= n || n == 0,
                sorted == true,
                forall|a: int, b: int|
                    0 <= a < b < entries@.len() ==> entries@[a].0 < entries@[b].0,
            decreases n - i,
        {
            if entries[i - 1].0 >= entries[i].0 {
                sorted = false;
            }
            i = i + 1;
        }
        colors_ok && root_black && sorted && heights_ok && n == self.len()
    }
}

} // verus!
