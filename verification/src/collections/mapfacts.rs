//! Facts about partial maps over ordered keys, used by the rebalancing
//! proofs: bound predicates on key sets, and the algebra of right-preferring
//! union and insertion that shows a local rotation keeps a subtree's
//! contents.

use vstd::prelude::*;

use vstd::map_lib::lemma_union_insert_left;
use vstd::map_lib::lemma_union_insert_right;

verus! {

/// True when every key of `m` is strictly below `k`.
pub(crate) open spec fn keys_below<V>(m: Map<u64, V>, k: u64) -> bool {
    forall|e: u64| m.dom().contains(e) ==> e < k
}

/// True when every key of `m` is strictly above `k`.
pub(crate) open spec fn keys_above<V>(m: Map<u64, V>, k: u64) -> bool {
    forall|e: u64| m.dom().contains(e) ==> e > k
}

/// Joining maps right-preferring is associative.
pub(crate) proof fn lemma_union_assoc<V>(m1: Map<u64, V>, m2: Map<u64, V>, m3: Map<u64, V>)
    ensures
        m1.union_prefer_right(m2).union_prefer_right(m3) == m1.union_prefer_right(
            m2.union_prefer_right(m3),
        ),
{
    assert(m1.union_prefer_right(m2).union_prefer_right(m3) =~= m1.union_prefer_right(
        m2.union_prefer_right(m3),
    ));
}

/// Inserting two pairs with distinct keys commutes.
proof fn lemma_insert_comm<V>(m: Map<u64, V>, k1: u64, v1: V, k2: u64, v2: V)
    requires
        k1 != k2,
    ensures
        m.insert(k1, v1).insert(k2, v2) == m.insert(k2, v2).insert(k1, v1),
{
    assert(m.insert(k1, v1).insert(k2, v2) =~= m.insert(k2, v2).insert(k1, v1));
}

/// Joining two subtrees around the root of their fused middle parts gives
/// the same map as joining them directly. The maps `b` and `c` sit between
/// the pivots `ka < kc`; fusing them yields a root pair `km, vm` between
/// middle parts `ml` and `mr`, and regrouping the six fragments around the
/// three pivots in either shape describes one map.
pub(crate) proof fn lemma_fuse_rotate<V>(
    a: Map<u64, V>,
    ka: u64,
    va: V,
    b: Map<u64, V>,
    c: Map<u64, V>,
    d: Map<u64, V>,
    kc: u64,
    vc: V,
    ml: Map<u64, V>,
    km: u64,
    vm: V,
    mr: Map<u64, V>,
)
    requires
        ml.union_prefer_right(mr).insert(km, vm) == b.union_prefer_right(c),
        keys_below(a, ka),
        keys_above(b, ka),
        keys_below(c, kc),
        keys_above(d, kc),
        keys_below(ml, km),
        keys_above(mr, km),
        ka < km,
        km < kc,
        !c.dom().contains(ka),
    ensures
        a.union_prefer_right(ml).insert(ka, va).union_prefer_right(
            mr.union_prefer_right(d).insert(kc, vc),
        ).insert(km, vm) == a.union_prefer_right(b).insert(ka, va).union_prefer_right(
            c.union_prefer_right(d).insert(kc, vc),
        ),
{
    let ab = a.union_prefer_right(b);
    let cd = c.union_prefer_right(d);
    let lm = ab.insert(ka, va);
    let rm = cd.insert(kc, vc);
    let u = ml.union_prefer_right(mr);
    let am = a.union_prefer_right(ml);
    let md = mr.union_prefer_right(d);
    assert(!rm.dom().contains(ka));
    assert(!d.dom().contains(km));
    assert(!mr.dom().contains(ka));
    assert(!md.insert(kc, vc).dom().contains(ka));
    // the direct join, rewritten to a flat base with three pivot inserts
    lemma_union_insert_left(ab, rm, ka, va);
    lemma_union_insert_right(ab, cd, kc, vc);
    lemma_union_assoc(a, b, cd);
    lemma_union_assoc(b, c, d);
    lemma_union_insert_left(u, d, km, vm);
    lemma_union_insert_right(a, u.union_prefer_right(d), km, vm);
    let base = a.union_prefer_right(u.union_prefer_right(d));
    assert(lm.union_prefer_right(rm) == base.insert(km, vm).insert(kc, vc).insert(ka, va));
    // the rotated join, rewritten to the same base with the inserts reordered
    lemma_union_insert_left(am, md.insert(kc, vc), ka, va);
    lemma_union_insert_right(am, md, kc, vc);
    lemma_union_assoc(a, ml, md);
    lemma_union_assoc(ml, mr, d);
    assert(am.insert(ka, va).union_prefer_right(md.insert(kc, vc)).insert(km, vm) == base.insert(
        kc,
        vc,
    ).insert(ka, va).insert(km, vm));
    lemma_insert_comm(base.insert(kc, vc), ka, va, km, vm);
    lemma_insert_comm(base, kc, vc, km, vm);
}

} // verus!
