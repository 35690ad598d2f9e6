//! Transitive closure and order construction over `BinaryRelation`.

use vstd::prelude::*;
use crate::binary_relation::{BinaryRelation, reaches, is_path};

verus! {

/// A copy of `rel` closed under transitivity: it holds every edge of `rel`,
/// is transitive, and every edge is witnessed by a path in `rel`.
pub fn transitive_closure(rel: &BinaryRelation) -> (res: BinaryRelation)
    requires
        rel.wf(),
    ensures
        res.wf(),
        res.n == rel.n,
        forall|i: int, j: int| #[trigger] rel.edge(i, j) ==> res.edge(i, j),
        res.transitive(),
        forall|i: int, j: int| #[trigger] res.edge(i, j) ==> reaches(*rel, i, j),
{
    let mut result = rel.clone();
    proof {
        result.lemma_same_words(*rel);
        assert forall|i: int, j: int| #[trigger] result.edge(i, j) implies reaches(*rel, i, j) by {
            crate::binary_relation::lemma_edge_reaches(*rel, i, j);
        }
    }
    let ghost r0 = result;
    result.add_transitive_edges();
    proof {
        assert forall|i: int, j: int| #[trigger] result.edge(i, j) implies reaches(*rel, i, j) by {
            lemma_reaches_same(r0, *rel, i, j);
        }
        assert forall|i: int, j: int| #[trigger] rel.edge(i, j) implies result.edge(i, j) by {
            assert(r0.edge(i, j));
        }
    }
    result
}

/// Paths only depend on the edges of a relation.
pub proof fn lemma_reaches_same(a: BinaryRelation, b: BinaryRelation, i: int, j: int)
    requires
        forall|x: int, y: int| #[trigger] a.edge(x, y) == b.edge(x, y),
        reaches(a, i, j),
    ensures
        reaches(b, i, j),
{
    let p = choose|p: Seq<int>| #[trigger] is_path(a, p) && p[0] == i && p.last() == j;
    assert forall|k: int| 0 <= k < p.len() - 1 implies #[trigger] b.edge(p[k], p[k + 1]) by {
        assert(a.edge(p[k], p[k + 1]));
    }
    assert(is_path(b, p));
}

/// Irreflexive and transitive.
pub fn is_strict_partial_order(rel: &BinaryRelation) -> (res: bool)
    requires
        rel.wf(),
    ensures
        res == (rel.irreflexive() && rel.transitive()),
{
    rel.is_strict_partial_order()
}

/// `i` precedes `j` one-way in the eventually-follows matrix `efg`: both
/// are nodes of `0..n`, distinct, `i -> j` is in `efg` and `j -> i` is not.
pub open spec fn one_way(efg: BinaryRelation, n: int, i: int, j: int) -> bool {
    &&& 0 <= i < n
    &&& 0 <= j < n
    &&& i != j
    &&& efg.edge(i, j)
    &&& !efg.edge(j, i)
}

/// A chain of `one_way` steps.
pub open spec fn is_one_way_path(efg: BinaryRelation, n: int, p: Seq<int>) -> bool {
    &&& p.len() >= 2
    &&& forall|k: int| 0 <= k < p.len() - 1 ==> #[trigger] one_way(efg, n, p[k], p[k + 1])
}

/// The initial order over `0..n`: the transitive closure of the one-way
/// pairs of the eventually-follows matrix.
pub fn generate_initial_order_from_efg(n: usize, efg: &BinaryRelation) -> (res: BinaryRelation)
    requires
        efg.wf(),
        n * ((n + 63) / 64) <= usize::MAX,
    ensures
        res.wf(),
        res.n == n,
        forall|i: int, j: int| one_way(*efg, n as int, i, j) ==> #[trigger] res.edge(i, j),
        res.transitive(),
        forall|i: int, j: int| #[trigger] res.edge(i, j) ==> exists|p: Seq<int>|
            #[trigger] is_one_way_path(*efg, n as int, p) && p[0] == i && p.last() == j,
{
    let mut order = BinaryRelation::new(n);
    for i in 0..n
        invariant
            efg.wf(),
            order.wf(),
            order.n == n,
            forall|a: int, b: int| #[trigger] order.edge(a, b) == (a < i && one_way(*efg, n as int, a, b)),
    {
        for j in 0..n
            invariant
                efg.wf(),
                order.wf(),
                order.n == n,
                0 <= i < n,
                forall|a: int, b: int| #[trigger] order.edge(a, b) == (((a < i) || (a == i && b < j)) && one_way(*efg, n as int, a, b)),
        {
            if i != j && efg.is_edge(i, j) && !efg.is_edge(j, i) {
                order.add_edge(i, j);
            }
        }
    }
    let ghost base = order;
    order.add_transitive_edges();
    proof {
        assert forall|i: int, j: int| #[trigger] order.edge(i, j) implies exists|p: Seq<int>|
            #[trigger] is_one_way_path(*efg, n as int, p) && p[0] == i && p.last() == j by {
            assert(reaches(base, i, j));
            let p = choose|p: Seq<int>| #[trigger] is_path(base, p) && p[0] == i && p.last() == j;
            assert forall|k: int| 0 <= k < p.len() - 1 implies #[trigger] one_way(*efg, n as int, p[k], p[k + 1]) by {
                assert(base.edge(p[k], p[k + 1]));
            }
            assert(is_one_way_path(*efg, n as int, p));
        }
        assert forall|i: int, j: int| one_way(*efg, n as int, i, j) implies #[trigger] order.edge(i, j) by {
            assert(base.edge(i, j));
        }
    }
    order
}

/// Two distinct nodes of `0..n` are ordered (either way) by `order`
/// although `efg` relates them in both directions.
pub open spec fn orders_concurrent_pair(order: BinaryRelation, efg: BinaryRelation, i: int, j: int) -> bool {
    &&& 0 <= i < order.n
    &&& 0 <= j < order.n
    &&& i != j
    &&& efg.edge(i, j)
    &&& efg.edge(j, i)
    &&& (order.edge(i, j) || order.edge(j, i))
}

/// `order` is a strict partial order that orders no pair which `efg`
/// relates in both directions.
pub fn is_valid_order(order: &BinaryRelation, efg: &BinaryRelation) -> (res: bool)
    requires
        order.wf(),
        efg.wf(),
    ensures
        res == (order.irreflexive() && order.transitive() && forall|i: int, j: int|
            !#[trigger] orders_concurrent_pair(*order, *efg, i, j)),
{
    if !order.is_strict_partial_order() {
        return false;
    }
    let n = order.n;
    for i in 0..n
        invariant
            order.wf(),
            efg.wf(),
            n == order.n,
            forall|a: int, b: int| a < i ==> !#[trigger] orders_concurrent_pair(*order, *efg, a, b),
    {
        for j in 0..n
            invariant
                order.wf(),
                efg.wf(),
                n == order.n,
                0 <= i < n,
                forall|a: int, b: int| (a < i || (a == i && b < j)) ==> !#[trigger] orders_concurrent_pair(*order, *efg, a, b),
        {
            if i != j {
                if efg.is_edge(i, j) && efg.is_edge(j, i) {
                    if order.is_edge(i, j) || order.is_edge(j, i) {
                        assert(orders_concurrent_pair(*order, *efg, i as int, j as int));
                        return false;
                    }
                }
            }
        }
    }
    true
}

/// Joins group `max(a, b)` onto the end of group `min(a, b)` and removes
/// it; nothing happens when `a == b`.
pub fn merge_groups(groups: &mut Vec<Vec<usize>>, a: usize, b: usize)
    requires
        a < old(groups)@.len(),
        b < old(groups)@.len(),
    ensures
        a == b ==> final(groups).deep_view() == old(groups).deep_view(),
        a != b ==> {
            let lo = if a < b { a as int } else { b as int };
            let hi = if a < b { b as int } else { a as int };
            final(groups).deep_view() == old(groups).deep_view().remove(hi).update(
                lo,
                old(groups).deep_view()[lo] + old(groups).deep_view()[hi],
            )
        },
{
    if a == b {
        return;
    }
    let (lo, hi) = if a < b {
        (a, b)
    } else {
        (b, a)
    };
    let ghost g0 = groups.deep_view();
    let mut hi_group = groups.remove(hi);
    let mut lo_group = groups.remove(lo);
    lo_group.append(&mut hi_group);
    groups.insert(lo, lo_group);
    proof {
        let expected = g0.remove(hi as int).update(lo as int, g0[lo as int] + g0[hi as int]);
        assert(groups.deep_view().len() == expected.len());
        assert forall|x: int| 0 <= x < expected.len() implies #[trigger] groups.deep_view()[x] == expected[x] by {
        }
        assert(groups.deep_view() =~= expected);
    }
}

/// Every member of cluster `ci` has an `efg` edge to every member of cluster `cj`.
pub open spec fn all_forward(clusters: Seq<Seq<usize>>, efg: BinaryRelation, ci: int, cj: int) -> bool {
    forall|x: int, y: int|
        0 <= x < clusters[ci].len() && 0 <= y < clusters[cj].len() ==> #[trigger] efg.edge(
            clusters[ci][x] as int,
            clusters[cj][y] as int,
        )
}

/// Some member of cluster `cj` has an `efg` edge back to a member of cluster `ci`.
pub open spec fn some_backward(clusters: Seq<Seq<usize>>, efg: BinaryRelation, ci: int, cj: int) -> bool {
    exists|x: int, y: int|
        0 <= x < clusters[ci].len() && 0 <= y < clusters[cj].len() && #[trigger] efg.edge(
            clusters[cj][y] as int,
            clusters[ci][x] as int,
        )
}

/// The order over clusters: `ci -> cj` when every member of `ci` has an
/// `efg` edge to every member of `cj` and no member of `cj` has one back.
pub fn cluster_order_from_efg(clusters: &[Vec<usize>], efg: &BinaryRelation) -> (res: BinaryRelation)
    requires
        efg.wf(),
        clusters@.len() * ((clusters@.len() + 63) / 64) <= usize::MAX,
    ensures
        res.wf(),
        res.n == clusters@.len(),
        forall|ci: int, cj: int| #[trigger] res.edge(ci, cj) == (0 <= ci < clusters@.len() && 0 <= cj
            < clusters@.len() && ci != cj && all_forward(clusters.deep_view(), *efg, ci, cj)
            && !some_backward(clusters.deep_view(), *efg, ci, cj)),
{
    let k = clusters.len();
    let ghost cl = clusters.deep_view();
    let mut order = BinaryRelation::new(k);
    for ci in 0..k
        invariant
            efg.wf(),
            order.wf(),
            order.n == k,
            k == clusters@.len(),
            cl == clusters.deep_view(),
            forall|a: int, b: int| #[trigger] order.edge(a, b) == (0 <= a < ci && 0 <= b < k && a != b
                && all_forward(cl, *efg, a, b) && !some_backward(cl, *efg, a, b)),
    {
        let mut cj: usize = 0;
        while cj < k
            invariant
                efg.wf(),
                order.wf(),
                order.n == k,
                k == clusters@.len(),
                cl == clusters.deep_view(),
                0 <= ci < k,
                cj <= k,
                forall|a: int, b: int| #[trigger] order.edge(a, b) == (((0 <= a < ci && 0 <= b < k) || (a == ci && 0 <= b < cj))
                    && a != b && all_forward(cl, *efg, a, b) && !some_backward(cl, *efg, a, b)),
            decreases k - cj,
        {
            if ci != cj {
                let fwd = check_all_forward(&clusters[ci], &clusters[cj], efg);
                if fwd {
                    let back = check_some_backward(&clusters[ci], &clusters[cj], efg);
                    proof {
                        assert(cl[ci as int] == clusters@[ci as int]@);
                        assert(cl[cj as int] == clusters@[cj as int]@);
                        assert(all_forward(cl, *efg, ci as int, cj as int));
                        assert(back == some_backward(cl, *efg, ci as int, cj as int));
                    }
                    if !back {
                        order.add_edge(ci, cj);
                    }
                }
            }
            proof {
                assert(cl[ci as int] == clusters@[ci as int]@);
                assert(cl[cj as int] == clusters@[cj as int]@);
            }
            cj = cj + 1;
        }
    }
    order
}

fn check_all_forward(src: &Vec<usize>, tgt: &Vec<usize>, efg: &BinaryRelation) -> (res: bool)
    requires
        efg.wf(),
    ensures
        res == forall|x: int, y: int|
            0 <= x < src@.len() && 0 <= y < tgt@.len() ==> #[trigger] efg.edge(src@[x] as int, tgt@[y] as int),
{
    for x in 0..src.len()
        invariant
            efg.wf(),
            forall|a: int, b: int|
                0 <= a < x && 0 <= b < tgt@.len() ==> #[trigger] efg.edge(src@[a] as int, tgt@[b] as int),
    {
        for y in 0..tgt.len()
            invariant
                efg.wf(),
                0 <= x < src@.len(),
                forall|a: int, b: int|
                    ((0 <= a < x && 0 <= b < tgt@.len()) || (a == x && 0 <= b < y)) ==> #[trigger] efg.edge(src@[a] as int, tgt@[b] as int),
        {
            if !efg.is_edge(src[x], tgt[y]) {
                return false;
            }
        }
    }
    true
}

fn check_some_backward(src: &Vec<usize>, tgt: &Vec<usize>, efg: &BinaryRelation) -> (res: bool)
    requires
        efg.wf(),
    ensures
        res == exists|x: int, y: int|
            0 <= x < src@.len() && 0 <= y < tgt@.len() && #[trigger] efg.edge(tgt@[y] as int, src@[x] as int),
{
    for x in 0..src.len()
        invariant
            efg.wf(),
            forall|a: int, b: int|
                0 <= a < x && 0 <= b < tgt@.len() ==> !#[trigger] efg.edge(tgt@[b] as int, src@[a] as int),
    {
        for y in 0..tgt.len()
            invariant
                efg.wf(),
                0 <= x < src@.len(),
                forall|a: int, b: int|
                    ((0 <= a < x && 0 <= b < tgt@.len()) || (a == x && 0 <= b < y)) ==> !#[trigger] efg.edge(tgt@[b] as int, src@[a] as int),
        {
            if efg.is_edge(tgt[y], src[x]) {
                assert(efg.edge(tgt@[y as int] as int, src@[x as int] as int));
                return true;
            }
        }
    }
    false
}

} // verus!
