//! Sums of a weight function over the entries of a finite map, used to
//! reason about how many bytes the records of an index occupy.

use vstd::prelude::*;

verus! {

/// The sum of `w(k, m[k])` over all entries of `m`, or 0 when the domain
/// of `m` is infinite.
pub open spec fn map_sum<V>(m: Map<Seq<u8>, V>, w: spec_fn(Seq<u8>, V) -> int) -> int
    decreases m.dom().len(),
    when m.dom().finite()
    via map_sum_decreases::<V>
{
    if m.dom().finite() && m.dom().len() > 0 {
        let k = m.dom().choose();
        w(k, m[k]) + map_sum(m.remove(k), w)
    } else {
        0
    }
}

#[via_fn]
proof fn map_sum_decreases<V>(m: Map<Seq<u8>, V>, w: spec_fn(Seq<u8>, V) -> int) {
    if m.dom().finite() && m.dom().len() > 0 {
        let k = m.dom().choose();
        assert(m.dom().contains(k));
        assert(m.remove(k).dom().len() < m.dom().len());
    }
}

/// Splitting off any one entry of a finite map splits its sum.
pub proof fn lemma_map_sum_remove<V>(m: Map<Seq<u8>, V>, w: spec_fn(Seq<u8>, V) -> int, k: Seq<u8>)
    requires
        m.dom().finite(),
        m.dom().contains(k),
    ensures
        map_sum(m, w) == w(k, m[k]) + map_sum(m.remove(k), w),
    decreases m.dom().len(),
{
    let k0 = m.dom().choose();
    assert(m.dom().contains(k0));
    if k0 == k {
    } else {
        let m0 = m.remove(k0);
        lemma_map_sum_remove(m0, w, k);
        let mk = m.remove(k);
        lemma_map_sum_remove(mk, w, k0);
        assert(m0.remove(k) =~= mk.remove(k0));
        assert(map_sum(m, w) == w(k0, m[k0]) + map_sum(m0, w));
        assert(map_sum(m0, w) == w(k, m[k]) + map_sum(m0.remove(k), w));
        assert(map_sum(mk, w) == w(k0, m[k0]) + map_sum(mk.remove(k0), w));
    }
}

/// Inserting an entry adds its weight to the sum, less the weight of any
/// entry it replaces.
pub proof fn lemma_map_sum_insert<V>(
    m: Map<Seq<u8>, V>,
    w: spec_fn(Seq<u8>, V) -> int,
    k: Seq<u8>,
    v: V,
)
    requires
        m.dom().finite(),
    ensures
        map_sum(m.insert(k, v), w) == map_sum(m, w) + w(k, v) - (if m.dom().contains(k) {
            w(k, m[k])
        } else {
            0
        }),
    decreases m.dom().len(),
{
    let mi = m.insert(k, v);
    lemma_map_sum_remove(mi, w, k);
    if m.dom().contains(k) {
        lemma_map_sum_remove(m, w, k);
        assert(mi.remove(k) =~= m.remove(k));
    } else {
        assert(mi.remove(k) =~= m);
    }
}

/// Two maps over the same keys whose entries weigh the same have the
/// same sum.
pub proof fn lemma_map_sum_congruent<V1, V2>(
    m1: Map<Seq<u8>, V1>,
    m2: Map<Seq<u8>, V2>,
    w1: spec_fn(Seq<u8>, V1) -> int,
    w2: spec_fn(Seq<u8>, V2) -> int,
)
    requires
        m1.dom().finite(),
        m1.dom() == m2.dom(),
        forall|k: Seq<u8>| #[trigger] m1.dom().contains(k) ==> w1(k, m1[k]) == w2(k, m2[k]),
    ensures
        map_sum(m1, w1) == map_sum(m2, w2),
    decreases m1.dom().len(),
{
    if m1.dom().len() > 0 {
        let k = m1.dom().choose();
        assert(m1.dom().contains(k));
        lemma_map_sum_remove(m1, w1, k);
        lemma_map_sum_remove(m2, w2, k);
        assert(m1.remove(k).dom() =~= m2.remove(k).dom());
        lemma_map_sum_congruent(m1.remove(k), m2.remove(k), w1, w2);
    }
}

} // verus!
