//! Red-black tree nodes and the rebalancing engine.
//!
//! A node owns its two children outright, so the link structure is a tree by
//! construction: no dangling or aliased child links can be expressed. Each
//! subtree is modelled by the partial map [`NodeRef::as_map`] from keys to
//! values; the order and color disciplines are the spec predicates
//! [`NodeRef::bst`], [`NodeRef::invc`] and [`NodeRef::invh`].

use vstd::prelude::*;

use crate::collections::mapfacts::keys_above;
use crate::collections::mapfacts::keys_below;
use crate::collections::mapfacts::lemma_fuse_rotate;
use crate::collections::mapfacts::lemma_union_assoc;
use vstd::map_lib::lemma_union_insert_left;
use vstd::map_lib::lemma_union_insert_right;

use crate::collections::flag::Color;

verus! {

/// One node of the tree: a key/value pair, a color, and two owned child links.
pub struct Node<V> {
    pub(crate) key: u64,
    pub(crate) value: V,
    pub(crate) color: Color,
    pub(crate) left: NodeRef<V>,
    pub(crate) right: NodeRef<V>,
}

/// A nullable link to a node. The link owns the node it points to.
pub struct NodeRef<V> {
    pub(crate) node: Option<Box<Node<V>>>,
}

/// Whether a search found the key or stopped at a missing child link.
pub enum SearchResult {
    Found,
    NotFound,
}

impl<V> NodeRef<V> {
    /// The map of key/value pairs stored in this subtree.
    pub closed spec fn as_map(self) -> Map<u64, V>
        decreases self,
    {
        match self.node {
            None => Map::empty(),
            Some(n) => n.left.as_map().union_prefer_right(n.right.as_map()).insert(
                n.key,
                n.value,
            ),
        }
    }

    /// The key/value pairs of this subtree, in ascending key order.
    pub closed spec fn inorder(self) -> Seq<(u64, V)>
        decreases self,
    {
        match self.node {
            None => Seq::empty(),
            Some(n) => n.left.inorder() + seq![(n.key, n.value)] + n.right.inorder(),
        }
    }

    /// True for an empty link.
    pub closed spec fn is_leaf(self) -> bool {
        self.node is None
    }

    /// True when the link points at a red node; an empty link counts as black.
    pub closed spec fn red(self) -> bool {
        match self.node {
            None => false,
            Some(n) => n.color == Color::RED,
        }
    }

    /// The black height: the number of black nodes on the path to the
    /// leftmost missing child.
    pub closed spec fn bh(self) -> nat
        decreases self,
    {
        match self.node {
            None => 0,
            Some(n) => n.left.bh() + if n.color == Color::BLACK {
                1nat
            } else {
                0nat
            },
        }
    }

    /// The color invariant: no red node has a red child.
    pub closed spec fn invc(self) -> bool
        decreases self,
    {
        match self.node {
            None => true,
            Some(n) => n.left.invc() && n.right.invc() && (n.color == Color::RED ==> !n.left.red()
                && !n.right.red()),
        }
    }

    /// The weakened color invariant: both subtrees satisfy the color
    /// invariant, but the node itself may be red with a red child.
    pub closed spec fn invc2(self) -> bool
        decreases self,
    {
        match self.node {
            None => true,
            Some(n) => n.left.invc() && n.right.invc(),
        }
    }

    /// The height invariant: at every node both subtrees have the same
    /// black height.
    pub closed spec fn invh(self) -> bool
        decreases self,
    {
        match self.node {
            None => true,
            Some(n) => n.left.invh() && n.right.invh() && n.left.bh() == n.right.bh(),
        }
    }

    /// The search order invariant: at every node, all keys in the left
    /// subtree are below the node's key and all keys in the right subtree
    /// are above it.
    pub closed spec fn bst(self) -> bool
        decreases self,
    {
        match self.node {
            None => true,
            Some(n) => n.left.bst() && n.right.bst() && keys_below(n.left.as_map(), n.key)
                && keys_above(n.right.as_map(), n.key),
        }
    }

    /// Returns the empty link.
    pub fn none() -> (r: Self)
        ensures
            r.is_leaf(),
            r.as_map() == Map::<u64, V>::empty(),
            r.inorder() == Seq::<(u64, V)>::empty(),
            !r.red(),
            r.bh() == 0,
            r.invc(),
            r.invc2(),
            r.invh(),
            r.bst(),
    {
        NodeRef { node: None }
    }

    /// Returns true iff the link is empty.
    pub fn is_none(&self) -> (r: bool)
        ensures
            r == self.is_leaf(),
    {
        self.node.is_none()
    }

    /// Returns true iff the link points at a node.
    pub fn is_some(&self) -> (r: bool)
        ensures
            r == !self.is_leaf(),
    {
        self.node.is_some()
    }

    /// Returns true iff the link points at a red node.
    pub(crate) fn is_red(&self) -> (r: bool)
        ensures
            r == self.red(),
    {
        match &self.node {
            None => false,
            Some(n) => n.color == Color::RED,
        }
    }

    /// Builds a node from a color, two subtrees and a key/value pair.
    /// Every spec-level attribute of the result follows directly from the
    /// attributes of the parts.
    pub(crate) fn mk(color: Color, left: NodeRef<V>, key: u64, value: V, right: NodeRef<V>) -> (r:
        NodeRef<V>)
        ensures
            r.as_map() == left.as_map().union_prefer_right(right.as_map()).insert(key, value),
            r.inorder() == left.inorder() + seq![(key, value)] + right.inorder(),
            !r.is_leaf(),
            r.red() == (color == Color::RED),
            r.bh() == left.bh() + if color == Color::BLACK {
                1nat
            } else {
                0nat
            },
            r.invc() == (left.invc() && right.invc() && (color == Color::RED ==> !left.red()
                && !right.red())),
            r.invc2() == (left.invc() && right.invc()),
            r.invh() == (left.invh() && right.invh() && left.bh() == right.bh()),
            r.bst() == (left.bst() && right.bst() && keys_below(left.as_map(), key) && keys_above(
                right.as_map(),
                key,
            )),
    {
        NodeRef { node: Some(Box::new(Node { key, value, color, left, right })) }
    }

    /// Exposes one level of every recursive spec attribute of a link, so a
    /// proof about a concrete node shape can name the attributes of its
    /// children directly.
    pub(crate) proof fn lemma_parts(self)
        ensures
            self.is_leaf() <==> (self.node is None),
            (match self.node {
                None => {
                    &&& self.as_map() == Map::<u64, V>::empty()
                    &&& self.inorder() == Seq::<(u64, V)>::empty()
                    &&& !self.red()
                    &&& self.bh() == 0
                    &&& self.invc()
                    &&& self.invc2()
                    &&& self.invh()
                    &&& self.bst()
                },
                Some(n) => {
                    &&& self.as_map() == n.left.as_map().union_prefer_right(
                        n.right.as_map(),
                    ).insert(n.key, n.value)
                    &&& self.inorder() == n.left.inorder() + seq![(n.key, n.value)]
                        + n.right.inorder()
                    &&& self.red() == (n.color == Color::RED)
                    &&& self.bh() == n.left.bh() + if n.color == Color::BLACK {
                        1nat
                    } else {
                        0nat
                    }
                    &&& self.invc() == (n.left.invc() && n.right.invc() && (n.color == Color::RED
                        ==> !n.left.red() && !n.right.red()))
                    &&& self.invc2() == (n.left.invc() && n.right.invc())
                    &&& self.invh() == (n.left.invh() && n.right.invh() && n.left.bh()
                        == n.right.bh())
                    &&& self.bst() == (n.left.bst() && n.right.bst() && keys_below(
                        n.left.as_map(),
                        n.key,
                    ) && keys_above(n.right.as_map(), n.key))
                },
            }),
    {
    }

    /// Descends from this link comparing keys, reporting whether the key is
    /// present in the subtree.
    pub fn search(&self, key: u64) -> (r: SearchResult)
        ensures
            self.bst() ==> ((r is Found) <==> self.as_map().dom().contains(key)),
        decreases self,
    {
        match &self.node {
            None => SearchResult::NotFound,
            Some(n) => {
                if key == n.key {
                    SearchResult::Found
                } else if key < n.key {
                    n.left.search(key)
                } else {
                    n.right.search(key)
                }
            },
        }
    }

    /// Descends from this link comparing keys, returning the stored value
    /// for the key if there is one.
    pub(crate) fn lookup(&self, key: u64) -> (r: Option<&V>)
        requires
            self.bst(),
        ensures
            match r {
                Some(v) => self.as_map().dom().contains(key) && *v == self.as_map()[key],
                None => !self.as_map().dom().contains(key),
            },
        decreases self,
    {
        match &self.node {
            None => None,
            Some(n) => {
                if key == n.key {
                    Some(&n.value)
                } else if key < n.key {
                    n.left.lookup(key)
                } else {
                    n.right.lookup(key)
                }
            },
        }
    }

    /// Repaints the root of this subtree black. Contents and order are
    /// unchanged; a weakened color invariant becomes the full one.
    pub(crate) fn paint_black(self) -> (r: Self)
        ensures
            r.as_map() == self.as_map(),
            r.inorder() == self.inorder(),
            r.bst() == self.bst(),
            !r.red(),
            r.is_leaf() == self.is_leaf(),
            r.invh() == self.invh(),
            self.invc2() ==> r.invc(),
            r.bh() == self.bh() + if self.red() {
                1nat
            } else {
                0nat
            },
    {
        match self.node {
            None => NodeRef { node: None },
            Some(b) => {
                let n = *b;
                Self::mk(Color::BLACK, n.left, n.key, n.value, n.right)
            },
        }
    }

    /// Restores the color invariant above a left child that may carry one
    /// red-red violation after an insertion, producing a black-rooted
    /// balanced node ("double-red adjust", left side).
    #[verifier::spinoff_prover]
    #[verifier::rlimit(100)]
    pub(crate) fn bali_l(l: NodeRef<V>, key: u64, value: V, r: NodeRef<V>) -> (res: NodeRef<V>)
        requires
            l.bst(),
            r.bst(),
            keys_below(l.as_map(), key),
            keys_above(r.as_map(), key),
            l.invc2(),
            r.invc(),
            l.invh(),
            r.invh(),
            l.bh() == r.bh(),
        ensures
            res.as_map() == l.as_map().union_prefer_right(r.as_map()).insert(key, value),
            res.inorder() == l.inorder() + seq![(key, value)] + r.inorder(),
            res.bst(),
            res.invc(),
            res.invh(),
            res.bh() == l.bh() + 1,
            !res.is_leaf(),
    {
        let ghost l0 = l;
        let ghost r0 = r;
        if l.is_red() {
            let lb = l.node.unwrap();
            let ln = *lb;
            let ghost ll0 = ln.left;
            let ghost lr0 = ln.right;
            if ln.left.is_red() {
                let llb = ln.left.node.unwrap();
                let lln = *llb;
                let nl = Self::mk(Color::BLACK, lln.left, lln.key, lln.value, lln.right);
                let nr = Self::mk(Color::BLACK, ln.right, key, value, r);
                let res = Self::mk(Color::RED, nl, ln.key, ln.value, nr);
                proof {
                    l0.lemma_parts();
                    ll0.lemma_parts();
                    assert(nl.as_map() =~= ll0.as_map());
                    assert(nl.inorder() == ll0.inorder());
                    assert(l0.as_map().dom().contains(ln.key));
                    assert(!r0.as_map().dom().contains(ln.key));
                    assert(res.as_map() =~= l0.as_map().union_prefer_right(r0.as_map()).insert(
                        key,
                        value,
                    ));
                    assert(res.inorder() =~= l0.inorder() + seq![(key, value)] + r0.inorder());
                    assert forall|e: u64| nr.as_map().dom().contains(e) implies e > ln.key by {
                        assert(l0.as_map().dom().contains(ln.key));
                    }
                    assert forall|e: u64| lr0.as_map().dom().contains(e) implies e < key by {
                        assert(l0.as_map().dom().contains(e));
                    }
                }
                res
            } else if ln.right.is_red() {
                let lrb = ln.right.node.unwrap();
                let lrn = *lrb;
                let nl = Self::mk(Color::BLACK, ln.left, ln.key, ln.value, lrn.left);
                let nr = Self::mk(Color::BLACK, lrn.right, key, value, r);
                let res = Self::mk(Color::RED, nl, lrn.key, lrn.value, nr);
                proof {
                    l0.lemma_parts();
                    lr0.lemma_parts();
                    assert(lr0.as_map().dom().contains(lrn.key));
                    assert(ln.key < lrn.key);
                    assert(l0.as_map().dom().contains(ln.key));
                    assert(l0.as_map().dom().contains(lrn.key));
                    assert(lrn.key < key);
                    assert(!r0.as_map().dom().contains(ln.key));
                    assert(!r0.as_map().dom().contains(lrn.key));
                    assert forall|e: u64| nl.as_map().dom().contains(e) implies e < lrn.key by {
                        assert(lr0.as_map().dom().contains(lrn.key));
                    }
                    assert forall|e: u64| nr.as_map().dom().contains(e) implies e > lrn.key by {
                        assert(lr0.as_map().dom().contains(lrn.key));
                    }
                    assert forall|e: u64| lrn.left.as_map().dom().contains(e) implies e > ln.key by {
                        assert(lr0.as_map().dom().contains(e));
                    }
                    assert forall|e: u64| lrn.right.as_map().dom().contains(e) implies e < key by {
                        assert(lr0.as_map().dom().contains(e));
                        assert(l0.as_map().dom().contains(e));
                    }
                    assert(res.as_map() =~= l0.as_map().union_prefer_right(r0.as_map()).insert(
                        key,
                        value,
                    ));
                    assert(res.inorder() =~= l0.inorder() + seq![(key, value)] + r0.inorder());
                }
                res
            } else {
                let l2 = Self::mk(Color::RED, ln.left, ln.key, ln.value, ln.right);
                let res = Self::mk(Color::BLACK, l2, key, value, r);
                proof {
                    l0.lemma_parts();
                    assert(l2.as_map() =~= l0.as_map());
                    assert(l2.inorder() == l0.inorder());
                    assert(res.as_map() =~= l0.as_map().union_prefer_right(r0.as_map()).insert(
                        key,
                        value,
                    ));
                }
                res
            }
        } else {
            let res = Self::mk(Color::BLACK, l, key, value, r);
            res
        }
    }

    /// Restores the color invariant above a right child that may carry one
    /// red-red violation after an insertion, producing a black-rooted
    /// balanced node ("double-red adjust", right side).
    #[verifier::spinoff_prover]
    #[verifier::rlimit(100)]
    pub(crate) fn bali_r(l: NodeRef<V>, key: u64, value: V, r: NodeRef<V>) -> (res: NodeRef<V>)
        requires
            l.bst(),
            r.bst(),
            keys_below(l.as_map(), key),
            keys_above(r.as_map(), key),
            l.invc(),
            r.invc2(),
            l.invh(),
            r.invh(),
            l.bh() == r.bh(),
        ensures
            res.as_map() == l.as_map().union_prefer_right(r.as_map()).insert(key, value),
            res.inorder() == l.inorder() + seq![(key, value)] + r.inorder(),
            res.bst(),
            res.invc(),
            res.invh(),
            res.bh() == l.bh() + 1,
            !res.is_leaf(),
    {
        let ghost l0 = l;
        let ghost r0 = r;
        if r.is_red() {
            let rb = r.node.unwrap();
            let rn = *rb;
            let ghost rl0 = rn.left;
            let ghost rr0 = rn.right;
            if rn.right.is_red() {
                let rrb = rn.right.node.unwrap();
                let rrn = *rrb;
                let nl = Self::mk(Color::BLACK, l, key, value, rn.left);
                let nr = Self::mk(Color::BLACK, rrn.left, rrn.key, rrn.value, rrn.right);
                let res = Self::mk(Color::RED, nl, rn.key, rn.value, nr);
                proof {
                    r0.lemma_parts();
                    rr0.lemma_parts();
                    assert(nr.as_map() =~= rr0.as_map());
                    assert(nr.inorder() == rr0.inorder());
                    assert(r0.as_map().dom().contains(rn.key));
                    assert(!l0.as_map().dom().contains(rn.key));
                    assert(res.as_map() =~= l0.as_map().union_prefer_right(r0.as_map()).insert(
                        key,
                        value,
                    ));
                    assert(res.inorder() =~= l0.inorder() + seq![(key, value)] + r0.inorder());
                    assert forall|e: u64| nl.as_map().dom().contains(e) implies e < rn.key by {
                        assert(r0.as_map().dom().contains(rn.key));
                    }
                    assert forall|e: u64| rl0.as_map().dom().contains(e) implies e > key by {
                        assert(r0.as_map().dom().contains(e));
                    }
                }
                res
            } else if rn.left.is_red() {
                let rlb = rn.left.node.unwrap();
                let rln = *rlb;
                let nl = Self::mk(Color::BLACK, l, key, value, rln.left);
                let nr = Self::mk(Color::BLACK, rln.right, rn.key, rn.value, rn.right);
                let res = Self::mk(Color::RED, nl, rln.key, rln.value, nr);
                proof {
                    r0.lemma_parts();
                    rl0.lemma_parts();
                    assert(rl0.as_map().dom().contains(rln.key));
                    assert(rln.key < rn.key);
                    assert(r0.as_map().dom().contains(rn.key));
                    assert(r0.as_map().dom().contains(rln.key));
                    assert(key < rln.key);
                    assert(!l0.as_map().dom().contains(rn.key));
                    assert(!l0.as_map().dom().contains(rln.key));
                    assert forall|e: u64| nl.as_map().dom().contains(e) implies e < rln.key by {
                        assert(rl0.as_map().dom().contains(rln.key));
                    }
                    assert forall|e: u64| nr.as_map().dom().contains(e) implies e > rln.key by {
                        assert(rl0.as_map().dom().contains(rln.key));
                    }
                    assert forall|e: u64| rln.right.as_map().dom().contains(e) implies e < rn.key by {
                        assert(rl0.as_map().dom().contains(e));
                    }
                    assert forall|e: u64| rln.left.as_map().dom().contains(e) implies e > key by {
                        assert(rl0.as_map().dom().contains(e));
                        assert(r0.as_map().dom().contains(e));
                    }
                    assert(res.as_map() =~= l0.as_map().union_prefer_right(r0.as_map()).insert(
                        key,
                        value,
                    ));
                    assert(res.inorder() =~= l0.inorder() + seq![(key, value)] + r0.inorder());
                }
                res
            } else {
                let r2 = Self::mk(Color::RED, rn.left, rn.key, rn.value, rn.right);
                let res = Self::mk(Color::BLACK, l, key, value, r2);
                proof {
                    r0.lemma_parts();
                    assert(r2.as_map() =~= r0.as_map());
                    assert(r2.inorder() == r0.inorder());
                    assert(res.as_map() =~= l0.as_map().union_prefer_right(r0.as_map()).insert(
                        key,
                        value,
                    ));
                }
                res
            }
        } else {
            let res = Self::mk(Color::BLACK, l, key, value, r);
            res
        }
    }

    /// Inserts a key/value pair into this subtree, reporting the value it
    /// replaces if the key was already present. The result satisfies the
    /// weakened color invariant: at most the root itself may be red with one
    /// red child, which the caller repairs.
    pub(crate) fn ins(self, key: u64, value: V) -> (res: (NodeRef<V>, Option<V>))
        requires
            self.bst(),
            self.invc(),
            self.invh(),
        ensures
            res.0.as_map() == self.as_map().insert(key, value),
            res.0.bst(),
            res.0.invh(),
            res.0.bh() == self.bh(),
            res.0.invc2(),
            !self.red() ==> res.0.invc(),
            !res.0.is_leaf(),
            res.1 == if self.as_map().dom().contains(key) {
                Some(self.as_map()[key])
            } else {
                None::<V>
            },
        decreases self,
    {
        let ghost s0 = self;
        match self.node {
            None => {
                let res = Self::mk(Color::RED, Self::none(), key, value, Self::none());
                proof {
                    assert(res.as_map() =~= s0.as_map().insert(key, value));
                }
                (res, None)
            },
            Some(b) => {
                let n = *b;
                let ghost nl0 = n.left;
                let ghost nr0 = n.right;
                if key == n.key {
                    let old_value = n.value;
                    let res = Self::mk(n.color, n.left, key, value, n.right);
                    proof {
                        s0.lemma_parts();
                        assert(res.as_map() =~= s0.as_map().insert(key, value));
                        assert(s0.as_map()[key] == old_value);
                    }
                    (res, Some(old_value))
                } else if key < n.key {
                    let (nl, old_value) = n.left.ins(key, value);
                    proof {
                        s0.lemma_parts();
                        assert forall|e: u64| nl.as_map().dom().contains(e) implies e < n.key by {}
                    }
                    let res = if n.color == Color::BLACK {
                        Self::bali_l(nl, n.key, n.value, n.right)
                    } else {
                        Self::mk(Color::RED, nl, n.key, n.value, n.right)
                    };
                    proof {
                        assert(res.as_map() =~= s0.as_map().insert(key, value));
                        assert(!s0.as_map().dom().contains(key) ==> old_value is None);
                    }
                    (res, old_value)
                } else {
                    let (nr, old_value) = n.right.ins(key, value);
                    proof {
                        s0.lemma_parts();
                        assert forall|e: u64| nr.as_map().dom().contains(e) implies e > n.key by {}
                    }
                    let res = if n.color == Color::BLACK {
                        Self::bali_r(n.left, n.key, n.value, nr)
                    } else {
                        Self::mk(Color::RED, n.left, n.key, n.value, nr)
                    };
                    proof {
                        assert(res.as_map() =~= s0.as_map().insert(key, value));
                        assert(!s0.as_map().dom().contains(key) ==> old_value is None);
                    }
                    (res, old_value)
                }
            },
        }
    }

    /// Repaints the root of this non-empty black-rooted subtree red, giving
    /// up one level of black height.
    pub(crate) fn paint_red(self) -> (r: Self)
        requires
            !self.red(),
            !self.is_leaf(),
        ensures
            r.as_map() == self.as_map(),
            r.bst() == self.bst(),
            r.red(),
            !r.is_leaf(),
            r.invh() == self.invh(),
            r.invc2() == self.invc2(),
            r.bh() + 1 == self.bh(),
    {
        proof {
            self.lemma_parts();
        }
        match self.node {
            Some(b) => {
                let n = *b;
                Self::mk(Color::RED, n.left, n.key, n.value, n.right)
            },
            None => vstd::pervasive::unreached(),
        }
    }

    /// Rebuilds a node whose left subtree is one black level short after a
    /// deletion ("raise", left side). The result recovers the right
    /// subtree's black height; at most the root may be left red with a red
    /// child, and only when the right subtree was red.
    #[verifier::spinoff_prover]
    #[verifier::rlimit(100)]
    pub(crate) fn bald_l(l: NodeRef<V>, key: u64, value: V, r: NodeRef<V>) -> (res: NodeRef<V>)
        requires
            l.bst(),
            r.bst(),
            keys_below(l.as_map(), key),
            keys_above(r.as_map(), key),
            l.invc2(),
            r.invc(),
            l.invh(),
            r.invh(),
            l.bh() + 1 == r.bh(),
        ensures
            res.as_map() == l.as_map().union_prefer_right(r.as_map()).insert(key, value),
            res.bst(),
            res.invh(),
            res.bh() == r.bh(),
            res.invc2(),
            !r.red() ==> res.invc(),
            !res.is_leaf(),
    {
        let ghost l0 = l;
        let ghost r0 = r;
        if l.is_red() {
            let l2 = l.paint_black();
            let res = Self::mk(Color::RED, l2, key, value, r);
            proof {
                l0.lemma_parts();
            }
            res
        } else if !r.is_red() {
            proof {
                l0.lemma_parts();
                r0.lemma_parts();
            }
            let r2 = r.paint_red();
            Self::bali_r(l, key, value, r2)
        } else {
            let rb = r.node.unwrap();
            let rn = *rb;
            let ghost rl0 = rn.left;
            let ghost rr0 = rn.right;
            proof {
                l0.lemma_parts();
                r0.lemma_parts();
                rl0.lemma_parts();
                rr0.lemma_parts();
            }
            let rlb = rn.left.node.unwrap();
            let rln = *rlb;
            let nl = Self::mk(Color::BLACK, l, key, value, rln.left);
            proof {
                assert forall|e: u64| rln.left.as_map().dom().contains(e) implies e > key by {
                    assert(rl0.as_map().dom().contains(e));
                    assert(r0.as_map().dom().contains(e));
                }
            }
            let r4 = rn.right.paint_red();
            proof {
                assert forall|e: u64| rln.right.as_map().dom().contains(e) implies e < rn.key by {
                    assert(rl0.as_map().dom().contains(e));
                }
            }
            let nr = Self::bali_r(rln.right, rn.key, rn.value, r4);
            let res = Self::mk(Color::RED, nl, rln.key, rln.value, nr);
            proof {
                assert(rl0.as_map().dom().contains(rln.key));
                assert(r0.as_map().dom().contains(rln.key));
                assert(r0.as_map().dom().contains(rn.key));
                assert(key < rln.key);
                assert forall|e: u64| nl.as_map().dom().contains(e) implies e < rln.key by {
                    assert(rl0.as_map().dom().contains(rln.key));
                }
                assert forall|e: u64| nr.as_map().dom().contains(e) implies e > rln.key by {
                    assert(rl0.as_map().dom().contains(rln.key));
                }
                assert(res.as_map() =~= l0.as_map().union_prefer_right(r0.as_map()).insert(
                    key,
                    value,
                ));
            }
            res
        }
    }

    /// Rebuilds a node whose right subtree is one black level short after a
    /// deletion ("raise", right side); the mirror of the left-side raise.
    #[verifier::spinoff_prover]
    #[verifier::rlimit(100)]
    pub(crate) fn bald_r(l: NodeRef<V>, key: u64, value: V, r: NodeRef<V>) -> (res: NodeRef<V>)
        requires
            l.bst(),
            r.bst(),
            keys_below(l.as_map(), key),
            keys_above(r.as_map(), key),
            l.invc(),
            r.invc2(),
            l.invh(),
            r.invh(),
            r.bh() + 1 == l.bh(),
        ensures
            res.as_map() == l.as_map().union_prefer_right(r.as_map()).insert(key, value),
            res.bst(),
            res.invh(),
            res.bh() == l.bh(),
            res.invc2(),
            !l.red() ==> res.invc(),
            !res.is_leaf(),
    {
        let ghost l0 = l;
        let ghost r0 = r;
        if r.is_red() {
            let r2 = r.paint_black();
            let res = Self::mk(Color::RED, l, key, value, r2);
            proof {
                r0.lemma_parts();
            }
            res
        } else if !l.is_red() {
            proof {
                l0.lemma_parts();
                r0.lemma_parts();
            }
            let l2 = l.paint_red();
            Self::bali_l(l2, key, value, r)
        } else {
            let lb = l.node.unwrap();
            let ln = *lb;
            let ghost ll0 = ln.left;
            let ghost lr0 = ln.right;
            proof {
                l0.lemma_parts();
                r0.lemma_parts();
                ll0.lemma_parts();
                lr0.lemma_parts();
            }
            let lrb = ln.right.node.unwrap();
            let lrn = *lrb;
            let nr = Self::mk(Color::BLACK, lrn.right, key, value, r);
            proof {
                assert forall|e: u64| lrn.right.as_map().dom().contains(e) implies e < key by {
                    assert(lr0.as_map().dom().contains(e));
                    assert(l0.as_map().dom().contains(e));
                }
            }
            let l4 = ln.left.paint_red();
            proof {
                assert forall|e: u64| lrn.left.as_map().dom().contains(e) implies e > ln.key by {
                    assert(lr0.as_map().dom().contains(e));
                }
            }
            let nl = Self::bali_l(l4, ln.key, ln.value, lrn.left);
            let res = Self::mk(Color::RED, nl, lrn.key, lrn.value, nr);
            proof {
                assert(lr0.as_map().dom().contains(lrn.key));
                assert(l0.as_map().dom().contains(lrn.key));
                assert(l0.as_map().dom().contains(ln.key));
                assert(lrn.key < key);
                assert forall|e: u64| nl.as_map().dom().contains(e) implies e < lrn.key by {
                    assert(lr0.as_map().dom().contains(lrn.key));
                }
                assert forall|e: u64| nr.as_map().dom().contains(e) implies e > lrn.key by {
                    assert(lr0.as_map().dom().contains(lrn.key));
                }
                assert(res.as_map() =~= l0.as_map().union_prefer_right(r0.as_map()).insert(
                    key,
                    value,
                ));
            }
            res
        }
    }

    /// Rebuilds the join of two same-colored nodes whose fused middle came
    /// back red: the middle's root is lifted to the top and the two pivot
    /// pairs become its children, keeping contents, order and heights.
    #[verifier::spinoff_prover]
    #[verifier::rlimit(80)]
    fn fuse_red_join(
        color: Color,
        la: NodeRef<V>,
        ka: u64,
        va: V,
        m: NodeRef<V>,
        d: NodeRef<V>,
        kc: u64,
        vc: V,
        Ghost(bm): Ghost<Map<u64, V>>,
        Ghost(cm): Ghost<Map<u64, V>>,
    ) -> (res: NodeRef<V>)
        requires
            m.red(),
            m.as_map() == bm.union_prefer_right(cm),
            la.bst(),
            m.bst(),
            d.bst(),
            keys_below(la.as_map(), ka),
            keys_above(bm, ka),
            keys_below(bm, kc),
            keys_above(cm, ka),
            keys_below(cm, kc),
            keys_above(d.as_map(), kc),
            ka < kc,
            la.invc(),
            d.invc(),
            m.invc2(),
            color == Color::RED ==> m.invc() && !la.red() && !d.red(),
            la.invh(),
            m.invh(),
            d.invh(),
            la.bh() == m.bh(),
            m.bh() == d.bh(),
        ensures
            res.as_map() == la.as_map().union_prefer_right(bm).insert(ka, va).union_prefer_right(
                cm.union_prefer_right(d.as_map()).insert(kc, vc),
            ),
            res.bst(),
            res.invh(),
            res.bh() == la.bh() + if color == Color::BLACK {
                1nat
            } else {
                0nat
            },
            res.invc2(),
            color == Color::BLACK ==> res.invc(),
            !res.is_leaf(),
    {
        let ghost m0 = m;
        let mb = m.node.unwrap();
        let mn = *mb;
        let ghost ml0 = mn.left;
        let ghost mr0 = mn.right;
        proof {
            m0.lemma_parts();
            assert(m0.as_map().dom().contains(mn.key));
            assert(ka < mn.key && mn.key < kc);
            assert forall|e: u64| ml0.as_map().dom().contains(e) implies ka < e && e < mn.key by {
                assert(m0.as_map().dom().contains(e));
            }
            assert forall|e: u64| mr0.as_map().dom().contains(e) implies mn.key < e && e < kc by {
                assert(m0.as_map().dom().contains(e));
            }
        }
        let nl = Self::mk(color, la, ka, va, mn.left);
        let nr = Self::mk(color, mn.right, kc, vc, d);
        let res = Self::mk(Color::RED, nl, mn.key, mn.value, nr);
        proof {
            assert forall|e: u64| nl.as_map().dom().contains(e) implies e < mn.key by {}
            assert forall|e: u64| nr.as_map().dom().contains(e) implies e > mn.key by {}
            lemma_fuse_rotate(
                la.as_map(),
                ka,
                va,
                bm,
                cm,
                d.as_map(),
                kc,
                vc,
                ml0.as_map(),
                mn.key,
                mn.value,
                mr0.as_map(),
            );
        }
        res
    }

    /// Joins the two subtrees of a deleted node into one subtree holding
    /// the union of their contents; the deleted key `piv` separates the two
    /// sides. Both inputs must have the same black height, which the result
    /// keeps; if both roots were black, the full color invariant holds of
    /// the result.
    #[verifier::spinoff_prover]
    #[verifier::rlimit(100)]
    pub(crate) fn fuse(l: NodeRef<V>, r: NodeRef<V>, Ghost(piv): Ghost<u64>) -> (res: NodeRef<V>)
        requires
            l.bst(),
            r.bst(),
            keys_below(l.as_map(), piv),
            keys_above(r.as_map(), piv),
            l.invc(),
            r.invc(),
            l.invh(),
            r.invh(),
            l.bh() == r.bh(),
        ensures
            res.as_map() == l.as_map().union_prefer_right(r.as_map()),
            res.bst(),
            res.invh(),
            res.bh() == l.bh(),
            res.invc2(),
            (!l.red() && !r.red()) ==> res.invc(),
        decreases l, r,
    {
        let ghost l0 = l;
        let ghost r0 = r;
        if l.is_none() {
            proof {
                l0.lemma_parts();
                assert(l0.as_map().union_prefer_right(r0.as_map()) =~= r0.as_map());
            }
            return r;
        }
        if r.is_none() {
            proof {
                r0.lemma_parts();
                assert(l0.as_map().union_prefer_right(r0.as_map()) =~= l0.as_map());
            }
            return l;
        }
        let l_red = l.is_red();
        let r_red = r.is_red();
        if l_red && !r_red {
            let lb = l.node.unwrap();
            let ln = *lb;
            let ghost lr0 = ln.right;
            proof {
                l0.lemma_parts();
                assert forall|e: u64| lr0.as_map().dom().contains(e) implies e < piv by {
                    assert(l0.as_map().dom().contains(e));
                }
            }
            let m = Self::fuse(ln.right, r, Ghost(piv));
            let res = Self::mk(Color::RED, ln.left, ln.key, ln.value, m);
            proof {
                assert(l0.as_map().dom().contains(ln.key));
                assert forall|e: u64| m.as_map().dom().contains(e) implies e > ln.key by {
                    if !lr0.as_map().dom().contains(e) {
                        assert(r0.as_map().dom().contains(e));
                    }
                }
                assert(!r0.as_map().dom().contains(ln.key));
                lemma_union_insert_left(
                    ln.left.as_map().union_prefer_right(lr0.as_map()),
                    r0.as_map(),
                    ln.key,
                    ln.value,
                );
                lemma_union_assoc(ln.left.as_map(), lr0.as_map(), r0.as_map());
                assert(res.as_map() == l0.as_map().union_prefer_right(r0.as_map()));
            }
            res
        } else if !l_red && r_red {
            let rb = r.node.unwrap();
            let rn = *rb;
            let ghost rl0 = rn.left;
            proof {
                r0.lemma_parts();
                assert forall|e: u64| rl0.as_map().dom().contains(e) implies e > piv by {
                    assert(r0.as_map().dom().contains(e));
                }
            }
            let m = Self::fuse(l, rn.left, Ghost(piv));
            let res = Self::mk(Color::RED, m, rn.key, rn.value, rn.right);
            proof {
                assert(r0.as_map().dom().contains(rn.key));
                assert forall|e: u64| m.as_map().dom().contains(e) implies e < rn.key by {
                    if !l0.as_map().dom().contains(e) {
                        assert(rl0.as_map().dom().contains(e));
                        assert(r0.as_map().dom().contains(e));
                    }
                }
                lemma_union_insert_right(
                    l0.as_map(),
                    rl0.as_map().union_prefer_right(rn.right.as_map()),
                    rn.key,
                    rn.value,
                );
                lemma_union_assoc(l0.as_map(), rl0.as_map(), rn.right.as_map());
                assert(res.as_map() == l0.as_map().union_prefer_right(r0.as_map()));
            }
            res
        } else {
            let lb = l.node.unwrap();
            let ln = *lb;
            let rb = r.node.unwrap();
            let rn = *rb;
            let ghost ll0 = ln.left;
            let ghost lr0 = ln.right;
            let ghost rl0 = rn.left;
            let ghost rr0 = rn.right;
            proof {
                l0.lemma_parts();
                r0.lemma_parts();
                assert(l0.as_map().dom().contains(ln.key));
                assert(r0.as_map().dom().contains(rn.key));
                assert(ln.key < piv && piv <= rn.key);
                assert forall|e: u64| lr0.as_map().dom().contains(e) implies e < piv by {
                    assert(l0.as_map().dom().contains(e));
                }
                assert forall|e: u64| rl0.as_map().dom().contains(e) implies e > piv by {
                    assert(r0.as_map().dom().contains(e));
                }
            }
            let m = Self::fuse(ln.right, rn.left, Ghost(piv));
            let ghost m0 = m;
            if m.is_red() {
                proof {
                    assert forall|e: u64| lr0.as_map().dom().contains(e) implies e < rn.key by {
                        assert(l0.as_map().dom().contains(e));
                    }
                    assert forall|e: u64| rl0.as_map().dom().contains(e) implies e > ln.key by {
                        assert(r0.as_map().dom().contains(e));
                    }
                }
                let color = if l_red {
                    Color::RED
                } else {
                    Color::BLACK
                };
                let res = Self::fuse_red_join(
                    color,
                    ln.left,
                    ln.key,
                    ln.value,
                    m,
                    rn.right,
                    rn.key,
                    rn.value,
                    Ghost(lr0.as_map()),
                    Ghost(rl0.as_map()),
                );
                proof {
                    assert(res.as_map() == l0.as_map().union_prefer_right(r0.as_map()));
                }
                res
            } else if l_red {
                let nr = Self::mk(Color::RED, m, rn.key, rn.value, rn.right);
                let res = Self::mk(Color::RED, ln.left, ln.key, ln.value, nr);
                proof {
                    m0.lemma_parts();
                    assert forall|e: u64| m0.as_map().dom().contains(e) implies ln.key < e
                        && e < rn.key by {
                        if lr0.as_map().dom().contains(e) {
                            assert(l0.as_map().dom().contains(e));
                        } else {
                            assert(rl0.as_map().dom().contains(e));
                            assert(r0.as_map().dom().contains(e));
                        }
                    }
                    assert forall|e: u64| nr.as_map().dom().contains(e) implies e > ln.key by {
                        if rr0.as_map().dom().contains(e) {
                            assert(r0.as_map().dom().contains(e));
                        }
                    }
                    assert(!r0.as_map().dom().contains(ln.key));
                    lemma_union_insert_left(
                        ll0.as_map().union_prefer_right(lr0.as_map()),
                        r0.as_map(),
                        ln.key,
                        ln.value,
                    );
                    lemma_union_insert_right(
                        ll0.as_map().union_prefer_right(lr0.as_map()),
                        rl0.as_map().union_prefer_right(rr0.as_map()),
                        rn.key,
                        rn.value,
                    );
                    lemma_union_assoc(
                        ll0.as_map(),
                        lr0.as_map(),
                        rl0.as_map().union_prefer_right(rr0.as_map()),
                    );
                    lemma_union_assoc(lr0.as_map(), rl0.as_map(), rr0.as_map());
                    lemma_union_insert_right(
                        ll0.as_map(),
                        m0.as_map().union_prefer_right(rr0.as_map()),
                        rn.key,
                        rn.value,
                    );
                    assert(res.as_map() == l0.as_map().union_prefer_right(r0.as_map()));
                }
                res
            } else {
                proof {
                    m0.lemma_parts();
                    assert(m0.invc());
                    assert forall|e: u64| m0.as_map().dom().contains(e) implies ln.key < e
                        && e < rn.key by {
                        if lr0.as_map().dom().contains(e) {
                            assert(l0.as_map().dom().contains(e));
                        } else {
                            assert(rl0.as_map().dom().contains(e));
                            assert(r0.as_map().dom().contains(e));
                        }
                    }
                }
                let nr = Self::mk(Color::BLACK, m, rn.key, rn.value, rn.right);
                proof {
                    assert forall|e: u64| nr.as_map().dom().contains(e) implies e > ln.key by {
                        if rr0.as_map().dom().contains(e) {
                            assert(r0.as_map().dom().contains(e));
                        }
                    }
                }
                let res = Self::bald_l(ln.left, ln.key, ln.value, nr);
                proof {
                    assert(!r0.as_map().dom().contains(ln.key));
                    lemma_union_insert_left(
                        ll0.as_map().union_prefer_right(lr0.as_map()),
                        r0.as_map(),
                        ln.key,
                        ln.value,
                    );
                    lemma_union_insert_right(
                        ll0.as_map().union_prefer_right(lr0.as_map()),
                        rl0.as_map().union_prefer_right(rr0.as_map()),
                        rn.key,
                        rn.value,
                    );
                    lemma_union_assoc(
                        ll0.as_map(),
                        lr0.as_map(),
                        rl0.as_map().union_prefer_right(rr0.as_map()),
                    );
                    lemma_union_assoc(lr0.as_map(), rl0.as_map(), rr0.as_map());
                    lemma_union_insert_right(
                        ll0.as_map(),
                        m0.as_map().union_prefer_right(rr0.as_map()),
                        rn.key,
                        rn.value,
                    );
                    assert(res.as_map() == l0.as_map().union_prefer_right(r0.as_map()));
                }
                res
            }
        }
    }

    /// The black height of an ordered subtree never exceeds its number of
    /// keys: the left spine alone holds that many nodes.
    pub(crate) proof fn lemma_bh_le_size(self)
        requires
            self.bst(),
        ensures
            self.as_map().dom().finite(),
            self.bh() <= self.as_map().dom().len(),
        decreases self,
    {
        broadcast use vstd::map_lib::lemma_union_dom;

        self.lemma_parts();
        match self.node {
            None => {},
            Some(n) => {
                n.left.lemma_bh_le_size();
                n.right.lemma_bh_le_size();
                let ml = n.left.as_map();
                let mr = n.right.as_map();
                assert(ml.dom().disjoint(mr.dom())) by {
                    assert forall|e: u64| !(ml.dom().contains(e) && mr.dom().contains(e)) by {}
                }
                vstd::map_lib::lemma_disjoint_union_size(ml, mr);
                assert(!ml.union_prefer_right(mr).dom().contains(n.key));
            },
        }
    }

    /// Recomputes the black heights of this subtree from scratch: returns
    /// the common black height where every pair of sibling subtrees agrees
    /// on it, and nothing where some pair disagrees or the height outgrows
    /// the counter.
    pub(crate) fn check_heights(&self) -> (r: Option<u128>)
        ensures
            match r {
                Some(h) => self.invh() && h == self.bh(),
                None => !self.invh() || self.bh() > u128::MAX,
            },
        decreases self,
    {
        proof {
            self.lemma_parts();
        }
        match &self.node {
            None => Some(0),
            Some(n) => {
                let hl = n.left.check_heights();
                let hr = n.right.check_heights();
                match (hl, hr) {
                    (Some(a), Some(b)) => {
                        if a == b {
                            if n.color == Color::BLACK {
                                if a == u128::MAX {
                                    None
                                } else {
                                    Some(a + 1)
                                }
                            } else {
                                Some(a)
                            }
                        } else {
                            None
                        }
                    },
                    _ => None,
                }
            },
        }
    }

    /// Recomputes the color invariant of this subtree from scratch:
    /// true iff no red node has a red child.
    pub(crate) fn check_colors(&self) -> (r: bool)
        ensures
            r == self.invc(),
        decreases self,
    {
        proof {
            self.lemma_parts();
        }
        match &self.node {
            None => true,
            Some(n) => {
                let left_ok = n.left.check_colors();
                let right_ok = n.right.check_colors();
                let here_ok = if n.color == Color::RED {
                    !n.left.is_red() && !n.right.is_red()
                } else {
                    true
                };
                left_ok && right_ok && here_ok
            },
        }
    }

    /// Deletes a key from this subtree, reporting the removed value. A
    /// black-rooted subtree gives up one black level; a red-rooted subtree
    /// keeps its height and its full color invariant.
    #[verifier::spinoff_prover]
    #[verifier::rlimit(100)]
    pub(crate) fn del(self, key: u64) -> (res: (NodeRef<V>, Option<V>))
        requires
            self.bst(),
            self.invc(),
            self.invh(),
        ensures
            res.0.as_map() == self.as_map().remove(key),
            res.0.bst(),
            res.0.invh(),
            self.red() ==> res.0.bh() == self.bh() && res.0.invc(),
            !self.red() ==> res.0.invc2(),
            (!self.red() && !self.is_leaf()) ==> res.0.bh() + 1 == self.bh(),
            self.is_leaf() ==> res.0.is_leaf(),
            res.1 == if self.as_map().dom().contains(key) {
                Some(self.as_map()[key])
            } else {
                None::<V>
            },
        decreases self,
    {
        let ghost s0 = self;
        match self.node {
            None => {
                proof {
                    s0.lemma_parts();
                    assert(s0.as_map().remove(key) =~= s0.as_map());
                }
                (Self::none(), None)
            },
            Some(b) => {
                let n = *b;
                let ghost nl0 = n.left;
                let ghost nr0 = n.right;
                proof {
                    s0.lemma_parts();
                }
                if key < n.key {
                    let use_bald = n.left.is_some() && !n.left.is_red();
                    let (nl, old_value) = n.left.del(key);
                    proof {
                        assert forall|e: u64| nl.as_map().dom().contains(e) implies e < n.key by {}
                        assert(!nr0.as_map().dom().contains(key));
                    }
                    let res = if use_bald {
                        Self::bald_l(nl, n.key, n.value, n.right)
                    } else {
                        Self::mk(Color::RED, nl, n.key, n.value, n.right)
                    };
                    proof {
                        assert(res.as_map() =~= s0.as_map().remove(key));
                        assert(!s0.as_map().dom().contains(key) ==> old_value is None);
                    }
                    (res, old_value)
                } else if key > n.key {
                    let use_bald = n.right.is_some() && !n.right.is_red();
                    let (nr, old_value) = n.right.del(key);
                    proof {
                        assert forall|e: u64| nr.as_map().dom().contains(e) implies e > n.key by {}
                        assert(!nl0.as_map().dom().contains(key));
                    }
                    let res = if use_bald {
                        Self::bald_r(n.left, n.key, n.value, nr)
                    } else {
                        Self::mk(Color::RED, n.left, n.key, n.value, nr)
                    };
                    proof {
                        assert(res.as_map() =~= s0.as_map().remove(key));
                        assert(!s0.as_map().dom().contains(key) ==> old_value is None);
                    }
                    (res, old_value)
                } else {
                    let old_value = n.value;
                    proof {
                        assert(!nl0.as_map().dom().contains(key));
                        assert(!nr0.as_map().dom().contains(key));
                        assert(s0.as_map()[key] == old_value);
                    }
                    let res = Self::fuse(n.left, n.right, Ghost(n.key));
                    proof {
                        assert(res.as_map() =~= s0.as_map().remove(key));
                    }
                    (res, Some(old_value))
                }
            },
        }
    }

    /// Returns the least key of this non-empty subtree and its value,
    /// following left child links.
    pub(crate) fn min_node(&self) -> (r: (u64, &V))
        requires
            !self.is_leaf(),
            self.bst(),
        ensures
            self.as_map().dom().contains(r.0),
            *r.1 == self.as_map()[r.0],
            forall|e: u64| self.as_map().dom().contains(e) ==> r.0 <= e,
        decreases self,
    {
        proof {
            self.lemma_parts();
        }
        let n = self.node.as_ref().unwrap();
        if n.left.is_none() {
            proof {
                n.left.lemma_parts();
            }
            (n.key, &n.value)
        } else {
            let r = n.left.min_node();
            proof {
                assert forall|e: u64| self.as_map().dom().contains(e) implies r.0 <= e by {
                    if n.right.as_map().dom().contains(e) {
                        assert(r.0 < n.key);
                    }
                }
            }
            r
        }
    }

    /// Returns the greatest key of this non-empty subtree and its value,
    /// following right child links.
    pub(crate) fn max_node(&self) -> (r: (u64, &V))
        requires
            !self.is_leaf(),
            self.bst(),
        ensures
            self.as_map().dom().contains(r.0),
            *r.1 == self.as_map()[r.0],
            forall|e: u64| self.as_map().dom().contains(e) ==> r.0 >= e,
        decreases self,
    {
        proof {
            self.lemma_parts();
        }
        let n = self.node.as_ref().unwrap();
        if n.right.is_none() {
            proof {
                n.right.lemma_parts();
            }
            (n.key, &n.value)
        } else {
            let r = n.right.max_node();
            proof {
                assert forall|e: u64| self.as_map().dom().contains(e) implies r.0 >= e by {
                    if n.left.as_map().dom().contains(e) {
                        assert(r.0 > n.key);
                    }
                }
            }
            r
        }
    }

    /// In a well-ordered subtree the in-order sequence is strictly
    /// ascending in its keys and lists exactly the pairs of the stored map.
    pub proof fn lemma_inorder(self)
        requires
            self.bst(),
        ensures
            self.as_map().dom().finite(),
            self.inorder().len() == self.as_map().dom().len(),
            forall|i: int, j: int|
                0 <= i < j < self.inorder().len() ==> self.inorder()[i].0 < self.inorder()[j].0,
            forall|i: int|
                0 <= i < self.inorder().len() ==> self.as_map().dom().contains(self.inorder()[i].0)
                    && self.as_map()[self.inorder()[i].0] == self.inorder()[i].1,
            forall|e: u64|
                self.as_map().dom().contains(e) ==> exists|i: int|
                    0 <= i < self.inorder().len() && #[trigger] self.inorder()[i].0 == e,
        decreases self,
    {
        broadcast use vstd::map_lib::lemma_union_dom;

        self.lemma_parts();
        match self.node {
            None => {},
            Some(n) => {
                n.left.lemma_inorder();
                n.right.lemma_inorder();
                let sl = n.left.inorder();
                let sr = n.right.inorder();
                let s = self.inorder();
                let ml = n.left.as_map();
                let mr = n.right.as_map();
                assert(ml.dom().disjoint(mr.dom())) by {
                    assert forall|e: u64| !(ml.dom().contains(e) && mr.dom().contains(e)) by {}
                }
                vstd::map_lib::lemma_disjoint_union_size(ml, mr);
                assert(!ml.union_prefer_right(mr).dom().contains(n.key));
                assert(s.len() == ml.dom().len() + mr.dom().len() + 1);
                assert forall|i: int, j: int| 0 <= i < j < s.len() implies s[i].0 < s[j].0 by {
                    if j < sl.len() {
                    } else if j == sl.len() {
                        assert(ml.dom().contains(sl[i].0));
                    } else {
                        assert(mr.dom().contains(sr[j - sl.len() - 1].0));
                        if i < sl.len() {
                            assert(ml.dom().contains(sl[i].0));
                        } else if i > sl.len() {
                            assert(mr.dom().contains(sr[i - sl.len() - 1].0));
                        }
                    }
                }
                assert forall|i: int|
                    0 <= i < s.len() implies self.as_map().dom().contains(s[i].0)
                        && self.as_map()[s[i].0] == s[i].1 by {
                    if i < sl.len() {
                        assert(ml.dom().contains(sl[i].0));
                        assert(s[i].0 < n.key);
                        assert(!mr.dom().contains(s[i].0));
                    } else if i > sl.len() {
                        assert(mr.dom().contains(sr[i - sl.len() - 1].0));
                        assert(s[i].0 > n.key);
                    }
                }
                assert forall|e: u64| self.as_map().dom().contains(e) implies exists|i: int|
                    0 <= i < s.len() && #[trigger] s[i].0 == e by {
                    if e == n.key {
                        assert(s[sl.len() as int].0 == e);
                    } else if ml.dom().contains(e) {
                        let i = choose|i: int| 0 <= i < sl.len() && #[trigger] sl[i].0 == e;
                        assert(s[i].0 == e);
                    } else {
                        assert(mr.dom().contains(e));
                        let i = choose|i: int| 0 <= i < sr.len() && #[trigger] sr[i].0 == e;
                        assert(s[i + sl.len() + 1].0 == e);
                    }
                }
            },
        }
    }
}

impl<V: Copy> NodeRef<V> {
    /// Builds a structurally identical copy of this subtree: the same key,
    /// value, color and links at every node, so the copy is the same tree
    /// value.
    pub(crate) fn deep_copy(&self) -> (r: NodeRef<V>)
        ensures
            r == *self,
        decreases self,
    {
        match &self.node {
            None => NodeRef { node: None },
            Some(n) => {
                let left = n.left.deep_copy();
                let right = n.right.deep_copy();
                NodeRef {
                    node: Some(
                        Box::new(Node { key: n.key, value: n.value, color: n.color, left, right }),
                    ),
                }
            },
        }
    }

    /// Appends this subtree's pairs to `out` in ascending key order.
    pub(crate) fn push_inorder(&self, out: &mut Vec<(u64, V)>)
        ensures
            final(out)@ == old(out)@ + self.inorder(),
        decreases self,
    {
        proof {
            self.lemma_parts();
        }
        match &self.node {
            None => {
                proof {
                    assert(out@ =~= out@ + self.inorder());
                }
            },
            Some(n) => {
                n.left.push_inorder(out);
                out.push((n.key, n.value));
                n.right.push_inorder(out);
                proof {
                    assert(final(out)@ =~= old(out)@ + self.inorder());
                }
            },
        }
    }
}

} // verus!
