//! Two builds of the same points are the same tree, node for node.

use crate::bulk::lemma_in_is_before;
use crate::geometry::Point;
use crate::model::Tree;
use crate::octree::{LeafNode, Octree, StemNode};
use vstd::prelude::*;

verus! {

impl Octree {
    /// The number of positions that the leaf at position `l` of `leafs` owns.
    pub open spec fn leaf_len(&self, l: int) -> int {
        self.leafs@[l].end - self.leafs@[l].begin
    }

    /// In the stems `lo..hi` and the leaves `l_lo..l_hi`, the other tree
    /// stores the same stems, and leaves that own as many positions.
    pub open spec fn same_block(&self, other: &Octree, lo: int, hi: int, l_lo: int, l_hi: int) -> bool {
        &&& forall|s: int| lo <= s < hi ==> #[trigger] self.stems@[s] == other.stems@[s]
        &&& forall|l: int| l_lo <= l < l_hi ==> #[trigger] self.leaf_len(l) == other.leaf_len(l)
    }
}

/// Two subtrees that stand for the same tree and are packed from the same
/// positions on are the same, node for node.
pub proof fn lemma_same_subtree(
    a: &Octree,
    ra: u32,
    b: &Octree,
    rb: u32,
    s_lo: int,
    l_lo: int,
    bound_a: int,
    bound_b: int,
)
    requires
        a.linked(),
        b.linked(),
        a.ref_ok(ra, bound_a),
        b.ref_ok(rb, bound_b),
        a.model_at(ra) == b.model_at(rb),
        a.packed(ra, s_lo, l_lo),
        b.packed(rb, s_lo, l_lo),
    ensures
        ra == rb,
        a.stems_in(ra) == b.stems_in(rb),
        a.leaves_in(ra) == b.leaves_in(rb),
        a.same_block(b, s_lo, s_lo + a.stems_in(ra), l_lo, l_lo + a.leaves_in(ra)),
    decreases Octree::rank(ra), 9nat,
{
    if Octree::is_leaf_ref(ra) {
        reveal(Octree::stems_in);
        reveal(Octree::leaves_in);
        assert(a.model_at(ra) is Leaf);
        assert(Octree::is_leaf_ref(rb));
        let la = a.leafs@[l_lo];
        let lb = b.leafs@[l_lo];
        vstd::seq_lib::to_multiset_len(a.indices@.subrange(la.begin as int, la.end as int));
        vstd::seq_lib::to_multiset_len(b.indices@.subrange(lb.begin as int, lb.end as int));
        assert(a.leaf_len(l_lo) == b.leaf_len(l_lo));
    } else {
        assert(a.model_at(ra) is Stem);
        assert(!Octree::is_leaf_ref(rb));
        lemma_same_children(a, ra, b, rb, s_lo, l_lo, 8);
        lemma_in_is_before(a, ra);
        lemma_in_is_before(b, rb);
        assert(ra == rb);
        assert(a.stems@[ra as int].childs_idx@ =~= b.stems@[rb as int].childs_idx@) by {
            assert forall|o: int| 0 <= o < 8 implies a.stems@[ra as int].childs_idx@[o]
                == b.stems@[rb as int].childs_idx@[o] by {
                assert(a.child(ra as int, o) == b.child(rb as int, o));
            }
        }
        assert(a.stems@[ra as int].childs_idx == b.stems@[rb as int].childs_idx) by {
            broadcast use vstd::array::axiom_array_ext_equal;

            assert(a.stems@[ra as int].childs_idx =~= b.stems@[rb as int].childs_idx);
        }
    }
}

/// The subtrees under the first `n` children of two stems that stand for the
/// same tree and are packed from the same positions on are the same, node for
/// node.
pub proof fn lemma_same_children(
    a: &Octree,
    ra: u32,
    b: &Octree,
    rb: u32,
    s_lo: int,
    l_lo: int,
    n: nat,
)
    requires
        a.linked(),
        b.linked(),
        !Octree::is_leaf_ref(ra),
        !Octree::is_leaf_ref(rb),
        ra < a.stems@.len(),
        rb < b.stems@.len(),
        a.model_at(ra) == b.model_at(rb),
        a.packed(ra, s_lo, l_lo),
        b.packed(rb, s_lo, l_lo),
        n <= 8,
    ensures
        forall|o: int| 0 <= o < n ==> #[trigger] a.child(ra as int, o) == b.child(rb as int, o),
        a.stems_before(ra, n) == b.stems_before(rb, n),
        a.leaves_before(ra, n) == b.leaves_before(rb, n),
        a.same_block(
            b,
            s_lo,
            s_lo + a.stems_before(ra, n),
            l_lo,
            l_lo + a.leaves_before(ra, n),
        ),
    decreases Octree::rank(ra), n,
{
    if n > 0 {
        let o = (n - 1) as int;
        lemma_same_children(a, ra, b, rb, s_lo, l_lo, (n - 1) as nat);
        let ca = a.child(ra as int, o);
        let cb = b.child(rb as int, o);
        assert(a.ref_ok(ca, ra as int));
        assert(b.ref_ok(cb, rb as int));
        assert(a.model_at(ra)->children[o] == a.model_at(ca));
        assert(b.model_at(rb)->children[o] == b.model_at(cb));
        let s_at = s_lo + a.stems_before(ra, o as nat);
        let l_at = l_lo + a.leaves_before(ra, o as nat);
        assert(a.packed(ca, s_at, l_at));
        assert(b.packed(cb, s_at, l_at));
        lemma_same_subtree(a, ca, b, cb, s_at, l_at, ra as int, rb as int);
        assert(a.stems_under(ra, o) == a.stems_in(ca) && b.stems_under(rb, o) == b.stems_in(cb)
            && a.leaves_under(ra, o) == a.leaves_in(ca) && b.leaves_under(rb, o) == b.leaves_in(
            cb,
        )) by {
            reveal(Octree::stems_in);
            reveal(Octree::leaves_in);
        }
    }
}

/// Leaves that own as many positions each, and whose ranges lie one after
/// the other from zero on in both trees, own the same ranges.
pub proof fn lemma_same_tiles(a: &Octree, b: &Octree, hi: int, l: int)
    requires
        a.leafs@.len() == b.leafs@.len(),
        a.leaves_tile(0, 0, hi),
        b.leaves_tile(0, 0, hi),
        forall|k: int| 0 <= k < a.leafs@.len() ==> #[trigger] a.leaf_len(k) == b.leaf_len(k),
        0 <= l < a.leafs@.len(),
    ensures
        a.leafs@[l] == b.leafs@[l],
    decreases l,
{
    assert(a.leaf_len(l) == b.leaf_len(l));
    if l > 0 {
        lemma_same_tiles(a, b, hi, l - 1);
        assert(a.leafs@[l - 1].end == a.leafs@[l - 1 + 1].begin);
        assert(b.leafs@[l - 1].end == b.leafs@[l - 1 + 1].begin);
    }
}

/// Determinism: two builds of the same points, to the same depth and with the
/// same bucket, give the same tree: the same bounding cube, the same root,
/// the same stems, the same leaves and the same permutation of the points.
pub proof fn lemma_build_deterministic(
    a: &Octree,
    b: &Octree,
    points: Seq<Point>,
    depth: nat,
    bucket: nat,
)
    requires
        a.is_build_of(points, depth, bucket),
        b.is_build_of(points, depth, bucket),
    ensures
        a.points@ == b.points@,
        a.bounds == b.bounds,
        a.root == b.root,
        a.stems@ == b.stems@,
        a.leafs@ == b.leafs@,
        a.indices@ == b.indices@,
        a.model() == b.model(),
{
    reveal(Octree::laid);
    lemma_same_subtree(
        a,
        a.root,
        b,
        b.root,
        0,
        0,
        a.stems@.len() as int,
        b.stems@.len() as int,
    );
    assert(a.stems@ =~= b.stems@);
    assert forall|l: int| 0 <= l < a.leafs@.len() implies a.leafs@[l] == b.leafs@[l] by {
        lemma_same_tiles(a, b, points.len() as int, l);
    }
    assert(a.leafs@ =~= b.leafs@);
}

} // verus!
