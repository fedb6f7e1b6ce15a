//! Building a tree in one pass: to a fixed depth, or until no leaf holds more
//! than a bucket of points.

use crate::arena::{lemma_frame, lemma_layout_frame};
use crate::geometry::{
    lemma_room_at_root, lemma_room_less, room, Cube, Point, DEN_MAX, MAX_DEPTH,
};
use crate::model::{ideal, in_first, in_octant, Tree};
use crate::octree::{lemma_split_frame, subdivision_of, LeafNode, Octree, StemNode, LEAF_TAG};
use vstd::multiset::Multiset;
use vstd::prelude::*;

verus! {

/// The largest number of nodes, stems and leaves together, that a tree may
/// hold: every leaf reference must fit below the all-ones value.
pub const MAX_NODES: u32 = 0x7fff_ffff;

/// An upper bound on the nodes that a build of `count` points creates when it
/// goes `depth` levels deep and stops at `bucket` points: on each level, at
/// most one stem for every `bucket + 1` points, each with eight children.
#[verifier::opaque]
pub open spec fn budget(count: int, depth: nat, bucket: nat) -> int {
    1 + 8 * depth * (count / (bucket + 1) as int)
}

/// An upper bound on the nodes that the first `o` children of a stem hold
/// when together they cover `width` points and go `depth` levels deep.
#[verifier::opaque]
pub open spec fn spent(o: int, width: int, depth: nat, bucket: nat) -> int {
    o + 8 * depth * (width / (bucket + 1) as int)
}

/// A budget always allows for one node; nothing is spent before the first
/// child.
pub proof fn lemma_budget_base(count: int, depth: nat, bucket: nat)
    requires
        0 <= count,
    ensures
        1 <= budget(count, depth, bucket),
        spent(0, 0, depth, bucket) == 0,
{
    reveal(budget);
    reveal(spent);
    vstd::arithmetic::div_mod::lemma_div_pos_is_pos(count, (bucket + 1) as int);
    assert(0 <= 8 * depth * (count / (bucket + 1) as int)) by (nonlinear_arith)
        requires
            0 <= depth,
            0 <= count / (bucket + 1) as int,
    ;
    assert(0int / (bucket + 1) as int == 0);
    assert(8 * depth * 0 == 0);
}

/// The permutation that a build of positions `begin..end` inside `cube`
/// ends with: the one it starts with where a leaf is made, else the one that
/// the builds of the eight parts of the subdivision leave, one after the
/// other.
pub open spec fn arranged(
    points: Seq<Point>,
    ind: Seq<u32>,
    begin: int,
    end: int,
    cube: Cube,
    depth: nat,
    bucket: nat,
) -> Seq<u32>
    decreases depth, 9nat,
{
    if depth == 0 || end - begin <= bucket {
        ind
    } else {
        let parts = subdivision_of(points, ind, cube, begin, end);
        arranged_parts(points, parts.0, parts.1, cube, depth, bucket, 8)
    }
}

/// The permutation that the builds of the first `n` parts of a subdivision
/// leave, each one level further down.
pub open spec fn arranged_parts(
    points: Seq<Point>,
    ind: Seq<u32>,
    cuts: Seq<int>,
    cube: Cube,
    depth: nat,
    bucket: nat,
    n: nat,
) -> Seq<u32>
    decreases depth, n,
{
    if n == 0 || depth == 0 {
        ind
    } else {
        arranged(
            points,
            arranged_parts(points, ind, cuts, cube, depth, bucket, (n - 1) as nat),
            cuts[n - 1],
            cuts[n as int],
            cube.child(n - 1),
            (depth - 1) as nat,
            bucket,
        )
    }
}

/// The point numbers `0..n`, each once.
pub open spec fn all_ids(n: nat) -> Multiset<u32> {
    Seq::new(n, |i: int| i as u32).to_multiset()
}

impl Octree {
    /// No node lies in the subtrees of two different children of one stem.
    pub open spec fn shaped(&self) -> bool {
        forall|s: u32, o1: int, o2: int|
            s < self.stems@.len() && 0 <= o1 < o2 < 8 ==> (#[trigger] self.nodes_under(
                s,
                o1,
            )).disjoint(#[trigger] self.nodes_under(s, o2))
    }

    /// The subtree under `r` is made of exactly the stems `s_lo..s_hi` and the
    /// leaves `l_lo..l_hi`, and it is the octree, `depth` levels deep with
    /// buckets of `bucket`, of the points that `was` holds at positions
    /// `lo..hi`.
    pub open spec fn built(
        &self,
        was: &Octree,
        r: u32,
        s_lo: int,
        s_hi: int,
        l_lo: int,
        l_hi: int,
        lo: int,
        hi: int,
        cube: Cube,
        depth: nat,
        bucket: nat,
    ) -> bool {
        &&& self.ref_ok(r, self.stems@.len() as int)
        &&& s_lo <= s_hi <= self.stems@.len()
        &&& l_lo <= l_hi <= self.leafs@.len()
        &&& self.nodes_at(r) == Self::block(s_lo, s_hi, l_lo, l_hi)
        &&& self.nodes_at(r).contains(r)
        &&& self.model_at(r) == ideal(self.points@, was.ids(lo, hi), cube, depth, bucket)
        &&& self.model_at(r).population() == hi - lo
        &&& self.roomy(r, cube.den as int)
    }

    /// The subtree under `r` is stored in the stems `s_lo..s_hi` and the
    /// leaves `l_lo..l_hi`, all of them, the way a build stores it.
    #[verifier::opaque]
    pub open spec fn laid(&self, r: u32, s_lo: int, s_hi: int, l_lo: int, l_hi: int) -> bool {
        &&& self.stems_in(r) == s_hi - s_lo
        &&& self.leaves_in(r) == l_hi - l_lo
        &&& self.packed(r, s_lo, l_lo)
    }

    /// The first `n` of `kids` are stored one after the other, child `j` in
    /// the stems `s_cut[j]..s_cut[j + 1]` and the leaves
    /// `l_cut[j]..l_cut[j + 1]`.
    pub open spec fn children_laid(
        &self,
        kids: Seq<u32>,
        n: int,
        s_cut: Seq<int>,
        l_cut: Seq<int>,
    ) -> bool {
        forall|j: int|
            0 <= j < n ==> self.laid(
                #[trigger] kids[j],
                s_cut[j],
                s_cut[j + 1],
                l_cut[j],
                l_cut[j + 1],
            )
    }

    /// The leaves at positions `l_lo..` own ranges inside `lo..hi`.
    pub open spec fn leaves_within(&self, l_lo: int, lo: int, hi: int) -> bool {
        forall|l: int|
            l_lo <= l < self.leafs@.len() ==> lo <= (#[trigger] self.leafs@[l]).begin
                && self.leafs@[l].end <= hi
    }

    /// The leaves at positions `l_lo..` own ranges that lie one after the
    /// other and together make up `lo..hi`; if there is no such leaf, `lo..hi`
    /// is empty.
    pub open spec fn leaves_tile(&self, l_lo: int, lo: int, hi: int) -> bool {
        let l_hi = self.leafs@.len() as int;
        if l_lo >= l_hi {
            lo == hi
        } else {
            &&& self.leafs@[l_lo].begin == lo
            &&& self.leafs@[l_hi - 1].end == hi
            &&& forall|l: int|
                l_lo <= l < l_hi - 1 ==> (#[trigger] self.leafs@[l]).end == self.leafs@[l + 1].begin
        }
    }

    /// Positions `begin..end` are cut at `cuts` into the eight octants of
    /// `cube`, in order.
    pub open spec fn cut_up(&self, begin: int, end: int, cuts: Seq<u32>, cube: Cube) -> bool {
        &&& 0 <= begin <= end <= self.indices@.len()
        &&& cuts.len() == 9
        &&& cuts[0] == begin
        &&& cuts[8] == end
        &&& forall|j: int| 0 <= j < 8 ==> cuts[j] <= #[trigger] cuts[j + 1]
        &&& forall|o: int, i: int|
            #![trigger cuts[o], self.point_at(i)]
            0 <= o < 8 && cuts[o] <= i < cuts[o + 1] ==> cube.octant_of(self.point_at(i)) == o
    }

    /// The first `n` of `kids` are built: child `j` over the part `j` of the
    /// positions that `mid` has cut up, out of the stems `s_cut[j]..s_cut[j + 1]`
    /// and the leaves `l_cut[j]..l_cut[j + 1]`.
    pub open spec fn children_built(
        &self,
        mid: &Octree,
        kids: Seq<u32>,
        n: int,
        s_cut: Seq<int>,
        l_cut: Seq<int>,
        cuts: Seq<u32>,
        cube: Cube,
        depth: nat,
        bucket: nat,
    ) -> bool {
        &&& 0 <= n <= 8
        &&& kids.len() == 8
        &&& cuts.len() == 9
        &&& s_cut.len() == n + 1
        &&& l_cut.len() == n + 1
        &&& s_cut[0] == mid.stems@.len()
        &&& l_cut[0] == mid.leafs@.len()
        &&& forall|j: int|
            0 <= j < n ==> self.built(
                mid,
                #[trigger] kids[j],
                s_cut[j],
                s_cut[j + 1],
                l_cut[j],
                l_cut[j + 1],
                cuts[j] as int,
                cuts[j + 1] as int,
                cube.child(j),
                depth,
                bucket,
            )
    }

    /// The other tree holds the same stems and leaves, the same points, and a
    /// permutation of the same length.
    pub open spec fn same_nodes(&self, other: &Octree) -> bool {
        &&& self.stems == other.stems
        &&& self.leafs == other.leafs
        &&& self.points == other.points
        &&& self.indices@.len() == other.indices@.len()
    }
}

/// A tree whose permutation alone has changed is still linked and shaped.
pub proof fn lemma_same_nodes(was: &Octree, now: &Octree)
    requires
        was.linked(),
        was.shaped(),
        now.same_nodes(was),
    ensures
        now.linked(),
        now.shaped(),
        was.grown_to(now),
{
    assert forall|s: int, o: int| 0 <= s < now.stems@.len() && 0 <= o < 8 implies now.ref_ok(
        #[trigger] now.child(s, o),
        s,
    ) by {
        assert(was.ref_ok(was.child(s, o), s));
    }
    lemma_grown_shaped(was, now);
}

/// What appending a leaf over positions `begin..end` gives: a tree that is
/// still linked and shaped, with the new leaf as the whole subtree.
pub proof fn lemma_leaf_pushed(
    was: &Octree,
    now: &Octree,
    idx: u32,
    begin: int,
    end: int,
    cube: Cube,
    depth: nat,
    bucket: nat,
)
    requires
        was.linked(),
        was.shaped(),
        now.stems == was.stems,
        now.indices == was.indices,
        now.points == was.points,
        0 <= begin <= end <= was.indices@.len(),
        begin <= u32::MAX && end <= u32::MAX,
        now.leafs@ == was.leafs@.push(LeafNode { begin: begin as u32, end: end as u32 }),
        idx == LEAF_TAG + was.leafs@.len(),
        depth == 0 || end - begin <= bucket,
    ensures
        now.linked(),
        now.shaped(),
        was.grown_to(now),
        now.built(
            was,
            idx,
            was.stems@.len() as int,
            now.stems@.len() as int,
            was.leafs@.len() as int,
            now.leafs@.len() as int,
            begin,
            end,
            cube,
            depth,
            bucket,
        ),
        now.leaves_within(was.leafs@.len() as int, begin, end),
        now.leaves_tile(was.leafs@.len() as int, begin, end),
        ideal(was.points@, was.ids(begin, end), cube, depth, bucket).nodes() == 1,
{
    assert(was.grown_to(now));
    assert forall|s: int, o: int| 0 <= s < now.stems@.len() && 0 <= o < 8 implies now.ref_ok(
        #[trigger] now.child(s, o),
        s,
    ) by {
        assert(was.ref_ok(was.child(s, o), s));
    }
    lemma_grown_shaped(was, now);
    vstd::seq_lib::to_multiset_len(was.indices@.subrange(begin, end));
    assert(now.nodes_at(idx) =~= Octree::block(
        was.stems@.len() as int,
        now.stems@.len() as int,
        was.leafs@.len() as int,
        now.leafs@.len() as int,
    ));
}

/// A tree that has grown without a new stem keeps its shape.
pub proof fn lemma_grown_shaped(was: &Octree, now: &Octree)
    requires
        was.linked(),
        was.shaped(),
        was.grown_to(now),
        now.stems@.len() == was.stems@.len(),
    ensures
        now.shaped(),
{
    assert forall|s: u32, o1: int, o2: int|
        s < now.stems@.len() && 0 <= o1 < o2 < 8 implies (#[trigger] now.nodes_under(s, o1)).disjoint(
        #[trigger] now.nodes_under(s, o2),
    ) by {
        lemma_under_frame(was, now, s, o1);
        lemma_under_frame(was, now, s, o2);
        assert(was.nodes_under(s, o1).disjoint(was.nodes_under(s, o2)));
    }
}

/// The nodes under a child of a stem are the same in any tree that has grown
/// from this one.
pub proof fn lemma_under_frame(was: &Octree, now: &Octree, s: u32, o: int)
    requires
        was.linked(),
        was.grown_to(now),
        s < was.stems@.len(),
        0 <= o < 8,
    ensures
        now.nodes_under(s, o) == was.nodes_under(s, o),
        now.child(s as int, o) == was.child(s as int, o),
{
    let c = was.child(s as int, o);
    assert(was.ref_ok(c, s as int));
    assert(was.stems@[s as int] == now.stems@[s as int]);
    lemma_nodes_frame(was, now, c, s as int);
}

/// The nodes of a subtree are the same in any tree that has grown from this
/// one.
pub proof fn lemma_nodes_frame(was: &Octree, now: &Octree, r: u32, bound: int)
    requires
        was.linked(),
        was.grown_to(now),
        was.ref_ok(r, bound),
    ensures
        now.nodes_at(r) == was.nodes_at(r),
        now.ref_ok(r, bound),
    decreases Octree::rank(r),
{
    if !Octree::is_leaf_ref(r) {
        assert(was.stems@[r as int] == now.stems@[r as int]);
        assert forall|o: int| 0 <= o < 8 implies now.nodes_at(#[trigger] was.child(r as int, o))
            == was.nodes_at(was.child(r as int, o)) by {
            let c = was.child(r as int, o);
            assert(was.ref_ok(c, r as int));
            lemma_nodes_frame(was, now, c, r as int);
        }
        assert forall|o: int| 0 <= o < 8 implies was.child(r as int, o) == now.child(r as int, o) by {}
        assert forall|o: int| 0 <= o < 8 implies #[trigger] now.nodes_under(r, o) == was.nodes_under(
            r,
            o,
        ) by {
            assert(was.ref_ok(was.child(r as int, o), r as int));
        }
        assert(now.nodes_at(r) =~= was.nodes_at(r));
    }
}

/// Growing a tree keeps the children that were built, as long as the
/// permutation stays as it was on the ranges of the leaves added since `mid`.
pub proof fn lemma_children_kept(
    mid: &Octree,
    before: &Octree,
    after: &Octree,
    kids: Seq<u32>,
    n: int,
    s_cut: Seq<int>,
    l_cut: Seq<int>,
    cuts: Seq<u32>,
    cube: Cube,
    depth: nat,
    bucket: nat,
)
    requires
        before.linked(),
        before.grown_to(after),
        before.children_built(mid, kids, n, s_cut, l_cut, cuts, cube, depth, bucket),
        forall|l: int|
            mid.leafs@.len() <= l < before.leafs@.len() ==> #[trigger] before.agree_on_leaf(after, l),
    ensures
        after.children_built(mid, kids, n, s_cut, l_cut, cuts, cube, depth, bucket),
        forall|j: int| 0 <= j < n ==> l_cut[j] <= #[trigger] l_cut[j + 1],
        forall|j: int| 0 <= j < n ==> s_cut[j] <= #[trigger] s_cut[j + 1],
        forall|j: int|
            0 <= j < n ==> after.ref_ok(#[trigger] kids[j], before.stems@.len() as int),
{
    assert forall|j: int| 0 <= j < n implies l_cut[j] <= #[trigger] l_cut[j + 1] && s_cut[j]
        <= s_cut[j + 1] by {
        assert(before.built(
            mid,
            kids[j],
            s_cut[j],
            s_cut[j + 1],
            l_cut[j],
            l_cut[j + 1],
            cuts[j] as int,
            cuts[j + 1] as int,
            cube.child(j),
            depth,
            bucket,
        ));
    }
    assert forall|j: int| 0 <= j < n implies s_cut[j] <= #[trigger] s_cut[j + 1] by {
        assert(l_cut[j] <= l_cut[j + 1]);
    }
    assert forall|j: int| 0 <= j < n implies after.built(
        mid,
        #[trigger] kids[j],
        s_cut[j],
        s_cut[j + 1],
        l_cut[j],
        l_cut[j + 1],
        cuts[j] as int,
        cuts[j + 1] as int,
        cube.child(j),
        depth,
        bucket,
    ) && after.ref_ok(kids[j], before.stems@.len() as int) by {
        let k = kids[j];
        lemma_seq_ordered(l_cut, 0, j);
        assert forall|x: u32|
            before.nodes_at(k).contains(x) && Octree::is_leaf_ref(x) && Octree::leaf_index(x)
                < before.leafs@.len() implies before.agree_on_leaf(
            after,
            #[trigger] Octree::leaf_index(x),
        ) by {
            let l = Octree::leaf_index(x);
            assert(l_cut[j] <= l);
        }
        lemma_frame(before, after, k, before.stems@.len() as int);
    }
}

/// A sequence whose neighbours are in order is in order throughout.
pub proof fn lemma_seq_ordered(cut: Seq<int>, i: int, j: int)
    requires
        0 <= i <= j < cut.len(),
        forall|k: int| 0 <= k < cut.len() - 1 ==> cut[k] <= #[trigger] cut[k + 1],
    ensures
        cut[i] <= cut[j],
    decreases j - i,
{
    if i < j {
        lemma_seq_ordered(cut, i, j - 1);
        assert(cut[j - 1] <= cut[j - 1 + 1]);
    }
}

/// After child `o` is built over part `o` of the positions, the first
/// `o + 1` children are built.
pub proof fn lemma_child_added(
    mid: &Octree,
    prev: &Octree,
    now: &Octree,
    kids: Seq<u32>,
    c: u32,
    o: int,
    s_cut: Seq<int>,
    l_cut: Seq<int>,
    cuts: Seq<u32>,
    begin: int,
    end: int,
    cube: Cube,
    depth: nat,
    bucket: nat,
)
    requires
        0 <= o < 8,
        mid.cut_up(begin, end, cuts, cube),
        prev.linked(),
        mid.grown_to(prev),
        prev.children_built(mid, kids, o, s_cut, l_cut, cuts, cube, depth, bucket),
        s_cut[o] == prev.stems@.len(),
        l_cut[o] == prev.leafs@.len(),
        prev.leaves_within(mid.leafs@.len() as int, begin, cuts[o] as int),
        prev.leaves_tile(mid.leafs@.len() as int, begin, cuts[o] as int),
        prev.same_outside(mid, begin, cuts[o] as int),
        prev.range_ok(begin, end),
        prev.ids(begin, end) == mid.ids(begin, end),
        now.linked(),
        prev.grown_to(now),
        now.same_outside(prev, cuts[o] as int, cuts[o + 1] as int),
        now.range_ok(cuts[o] as int, cuts[o + 1] as int),
        now.ids(cuts[o] as int, cuts[o + 1] as int) == prev.ids(cuts[o] as int, cuts[o + 1] as int),
        now.built(
            prev,
            c,
            prev.stems@.len() as int,
            now.stems@.len() as int,
            prev.leafs@.len() as int,
            now.leafs@.len() as int,
            cuts[o] as int,
            cuts[o + 1] as int,
            cube.child(o),
            depth,
            bucket,
        ),
        now.leaves_within(prev.leafs@.len() as int, cuts[o] as int, cuts[o + 1] as int),
        now.leaves_tile(prev.leafs@.len() as int, cuts[o] as int, cuts[o + 1] as int),
        now.leafs@.len() > prev.leafs@.len(),
    ensures
        now.children_built(
            mid,
            kids.update(o, c),
            o + 1,
            s_cut.push(now.stems@.len() as int),
            l_cut.push(now.leafs@.len() as int),
            cuts,
            cube,
            depth,
            bucket,
        ),
        mid.grown_to(now),
        now.leaves_within(mid.leafs@.len() as int, begin, cuts[o + 1] as int),
        now.leaves_tile(mid.leafs@.len() as int, begin, cuts[o + 1] as int),
        now.same_outside(mid, begin, cuts[o + 1] as int),
        now.range_ok(begin, end),
        now.ids(begin, end) == mid.ids(begin, end),
{
    let lo = cuts[o] as int;
    let hi = cuts[o + 1] as int;
    lemma_cuts_ordered(cuts, 0, o);
    lemma_cuts_ordered(cuts, o + 1, 8);
    assert(cuts[o] <= cuts[o + 1]);
    if lo >= hi {
        assert(now.indices@ =~= prev.indices@);
    }
    lemma_split_frame(mid, prev, now, lo, hi, begin, end);
    assert(prev.indices@.subrange(lo, hi) =~= mid.indices@.subrange(lo, hi));
    assert forall|l: int| mid.leafs@.len() <= l < prev.leafs@.len() implies #[trigger] prev.agree_on_leaf(
        now,
        l,
    ) by {
        assert(prev.leafs@[l].end <= lo);
    }
    lemma_children_kept(mid, prev, now, kids, o, s_cut, l_cut, cuts, cube, depth, bucket);
    let kids2 = kids.update(o, c);
    let s2 = s_cut.push(now.stems@.len() as int);
    let l2 = l_cut.push(now.leafs@.len() as int);
    assert forall|j: int| 0 <= j < o + 1 implies now.built(
        mid,
        #[trigger] kids2[j],
        s2[j],
        s2[j + 1],
        l2[j],
        l2[j + 1],
        cuts[j] as int,
        cuts[j + 1] as int,
        cube.child(j),
        depth,
        bucket,
    ) by {
        if j < o {
            assert(kids2[j] == kids[j]);
            assert(now.built(
                mid,
                kids[j],
                s_cut[j],
                s_cut[j + 1],
                l_cut[j],
                l_cut[j + 1],
                cuts[j] as int,
                cuts[j + 1] as int,
                cube.child(j),
                depth,
                bucket,
            ));
        }
    }
    assert forall|l: int| mid.leafs@.len() <= l < now.leafs@.len() implies begin <= (
    #[trigger] now.leafs@[l]).begin && now.leafs@[l].end <= hi by {
        if l < prev.leafs@.len() {
            assert(now.leafs@[l] == prev.leafs@[l]);
        }
    }
    assert(now.leaves_tile(mid.leafs@.len() as int, begin, hi)) by {
        let first = mid.leafs@.len() as int;
        let joint = prev.leafs@.len() as int;
        let last = now.leafs@.len() as int;
        if first < joint {
            assert(now.leafs@[first] == prev.leafs@[first]);
            assert(now.leafs@[joint - 1] == prev.leafs@[joint - 1]);
        }
        assert forall|l: int| first <= l < last - 1 implies (#[trigger] now.leafs@[l]).end
            == now.leafs@[l + 1].begin by {
            if l < joint - 1 {
                assert(now.leafs@[l] == prev.leafs@[l]);
                assert(now.leafs@[l + 1] == prev.leafs@[l + 1]);
                assert(prev.leafs@[l].end == prev.leafs@[l + 1].begin);
            } else if l == joint - 1 {
                assert(now.leafs@[l] == prev.leafs@[l]);
            }
        }
    }
}

/// The stem appended over eight built children leaves the tree linked and
/// shaped.
pub proof fn lemma_stem_sound(
    mid: &Octree,
    last: &Octree,
    now: &Octree,
    r: u32,
    node: StemNode,
    s_cut: Seq<int>,
    l_cut: Seq<int>,
    cuts: Seq<u32>,
    cube: Cube,
    depth: nat,
    bucket: nat,
)
    requires
        last.linked(),
        last.shaped(),
        last.children_built(mid, node.childs_idx@, 8, s_cut, l_cut, cuts, cube, depth, bucket),
        s_cut[8] == last.stems@.len(),
        l_cut[8] == last.leafs@.len(),
        now.stems@ == last.stems@.push(node),
        now.leafs == last.leafs,
        now.indices == last.indices,
        now.points == last.points,
        r == last.stems@.len(),
        r < LEAF_TAG,
    ensures
        now.linked(),
        now.shaped(),
        last.grown_to(now),
        now.children_built(mid, node.childs_idx@, 8, s_cut, l_cut, cuts, cube, depth, bucket),
        forall|j: int| 0 <= j < 8 ==> #[trigger] now.child(r as int, j) == node.childs_idx@[j],
        forall|j: int|
            0 <= j < 8 ==> #[trigger] now.nodes_under(r, j) == Octree::block(
                s_cut[j],
                s_cut[j + 1],
                l_cut[j],
                l_cut[j + 1],
            ),
        forall|j: int| 0 <= j < 8 ==> l_cut[j] <= #[trigger] l_cut[j + 1],
        forall|j: int| 0 <= j < 8 ==> s_cut[j] <= #[trigger] s_cut[j + 1],
{
    let kids = node.childs_idx@;
    assert(last.grown_to(now));
    assert(now.stems@[r as int] == node);
    lemma_children_kept(mid, last, now, kids, 8, s_cut, l_cut, cuts, cube, depth, bucket);
    assert forall|j: int| 0 <= j < 8 implies #[trigger] now.child(r as int, j) == kids[j] by {}
    assert forall|j: int| 0 <= j < 8 implies #[trigger] now.nodes_under(r, j) == Octree::block(
        s_cut[j],
        s_cut[j + 1],
        l_cut[j],
        l_cut[j + 1],
    ) by {
        assert(now.child(r as int, j) == kids[j]);
        assert(now.built(
            mid,
            kids[j],
            s_cut[j],
            s_cut[j + 1],
            l_cut[j],
            l_cut[j + 1],
            cuts[j] as int,
            cuts[j + 1] as int,
            cube.child(j),
            depth,
            bucket,
        ));
        assert(now.ref_ok(kids[j], r as int));
    }
    assert forall|s: int, o: int| 0 <= s < now.stems@.len() && 0 <= o < 8 implies now.ref_ok(
        #[trigger] now.child(s, o),
        s,
    ) by {
        if s < r {
            assert(now.stems@[s] == last.stems@[s]);
            assert(last.ref_ok(last.child(s, o), s));
        } else {
            assert(now.child(r as int, o) == kids[o]);
            assert(now.ref_ok(kids[o], r as int));
        }
    }
    assert forall|s: u32, o1: int, o2: int|
        s < now.stems@.len() && 0 <= o1 < o2 < 8 implies (#[trigger] now.nodes_under(s, o1)).disjoint(
        #[trigger] now.nodes_under(s, o2),
    ) by {
        if s < r {
            lemma_under_frame(last, now, s, o1);
            lemma_under_frame(last, now, s, o2);
            assert(last.nodes_under(s, o1).disjoint(last.nodes_under(s, o2)));
        } else {
            lemma_seq_ordered(s_cut, o1 + 1, o2);
            lemma_seq_ordered(l_cut, o1 + 1, o2);
            assert(s_cut[o1] <= s_cut[o1 + 1] && s_cut[o2] <= s_cut[o2 + 1]);
            assert(l_cut[o1] <= l_cut[o1 + 1] && l_cut[o2] <= l_cut[o2 + 1]);
        }
    }
}

/// The subtree of the stem appended over eight built children is made of the
/// children's nodes and the stem itself.
pub proof fn lemma_stem_nodes(now: &Octree, r: u32, s_cut: Seq<int>, l_cut: Seq<int>)
    requires
        r < now.stems@.len(),
        r < LEAF_TAG,
        s_cut.len() == 9,
        l_cut.len() == 9,
        s_cut[8] == r,
        forall|j: int|
            0 <= j < 8 ==> #[trigger] now.nodes_under(r, j) == Octree::block(
                s_cut[j],
                s_cut[j + 1],
                l_cut[j],
                l_cut[j + 1],
            ),
        forall|j: int| 0 <= j < 8 ==> l_cut[j] <= #[trigger] l_cut[j + 1],
        forall|j: int| 0 <= j < 8 ==> s_cut[j] <= #[trigger] s_cut[j + 1],
    ensures
        now.nodes_at(r) == Octree::block(s_cut[0], r + 1, l_cut[0], l_cut[8]),
        now.nodes_at(r).contains(r),
{
    assert(now.nodes_under(r, 0) == Octree::block(s_cut[0], s_cut[1], l_cut[0], l_cut[1]));
    assert(now.nodes_under(r, 1) == Octree::block(s_cut[1], s_cut[2], l_cut[1], l_cut[2]));
    assert(now.nodes_under(r, 2) == Octree::block(s_cut[2], s_cut[3], l_cut[2], l_cut[3]));
    assert(now.nodes_under(r, 3) == Octree::block(s_cut[3], s_cut[4], l_cut[3], l_cut[4]));
    assert(now.nodes_under(r, 4) == Octree::block(s_cut[4], s_cut[5], l_cut[4], l_cut[5]));
    assert(now.nodes_under(r, 5) == Octree::block(s_cut[5], s_cut[6], l_cut[5], l_cut[6]));
    assert(now.nodes_under(r, 6) == Octree::block(s_cut[6], s_cut[7], l_cut[6], l_cut[7]));
    assert(now.nodes_under(r, 7) == Octree::block(s_cut[7], s_cut[8], l_cut[7], l_cut[8]));
    assert(s_cut[0] <= s_cut[0int + 1] && s_cut[1] <= s_cut[1int + 1] && s_cut[2] <= s_cut[2int + 1]
        && s_cut[3] <= s_cut[3int + 1] && s_cut[4] <= s_cut[4int + 1] && s_cut[5] <= s_cut[5int + 1]
        && s_cut[6] <= s_cut[6int + 1] && s_cut[7] <= s_cut[7int + 1]);
    assert(l_cut[0] <= l_cut[0int + 1] && l_cut[1] <= l_cut[1int + 1] && l_cut[2] <= l_cut[2int + 1]
        && l_cut[3] <= l_cut[3int + 1] && l_cut[4] <= l_cut[4int + 1] && l_cut[5] <= l_cut[5int + 1]
        && l_cut[6] <= l_cut[6int + 1] && l_cut[7] <= l_cut[7int + 1]);
    assert(now.nodes_at(r) =~= Octree::block(s_cut[0], r + 1, l_cut[0], l_cut[8]));
}

/// Children that are built are named by references that are valid.
pub proof fn lemma_children_ok(
    t: &Octree,
    mid: &Octree,
    kids: Seq<u32>,
    n: int,
    s_cut: Seq<int>,
    l_cut: Seq<int>,
    cuts: Seq<u32>,
    cube: Cube,
    depth: nat,
    bucket: nat,
)
    requires
        t.children_built(mid, kids, n, s_cut, l_cut, cuts, cube, depth, bucket),
    ensures
        forall|j: int| 0 <= j < n ==> t.ref_ok(#[trigger] kids[j], t.stems@.len() as int),
{
    assert forall|j: int| 0 <= j < n implies t.ref_ok(#[trigger] kids[j], t.stems@.len() as int) by {
        assert(t.built(
            mid,
            kids[j],
            s_cut[j],
            s_cut[j + 1],
            l_cut[j],
            l_cut[j + 1],
            cuts[j] as int,
            cuts[j + 1] as int,
            cube.child(j),
            depth,
            bucket,
        ));
    }
}

/// A subtree that is the one leaf at the end of the leaves is laid there.
pub proof fn lemma_leaf_laid(now: &Octree, idx: u32, s: int, l: int)
    requires
        idx == LEAF_TAG + l,
        0 <= l,
    ensures
        now.laid(idx, s, s, l, l + 1),
{
    reveal(Octree::laid);
    reveal(Octree::stems_in);
    reveal(Octree::leaves_in);
}

/// Children that are laid stay laid in any tree that has grown from this one.
pub proof fn lemma_laid_kept(
    before: &Octree,
    after: &Octree,
    kids: Seq<u32>,
    n: int,
    s_cut: Seq<int>,
    l_cut: Seq<int>,
)
    requires
        before.linked(),
        before.grown_to(after),
        before.children_laid(kids, n, s_cut, l_cut),
        forall|j: int| 0 <= j < n ==> before.ref_ok(#[trigger] kids[j], before.stems@.len() as int),
    ensures
        after.children_laid(kids, n, s_cut, l_cut),
{
    reveal(Octree::laid);
    assert forall|j: int| 0 <= j < n implies after.laid(
        #[trigger] kids[j],
        s_cut[j],
        s_cut[j + 1],
        l_cut[j],
        l_cut[j + 1],
    ) by {
        assert(before.laid(kids[j], s_cut[j], s_cut[j + 1], l_cut[j], l_cut[j + 1]));
        lemma_layout_frame(before, after, kids[j], before.stems@.len() as int);
    }
}

/// One more child that is laid right after those laid before.
pub proof fn lemma_laid_added(
    now: &Octree,
    kids: Seq<u32>,
    c: u32,
    o: int,
    s_cut: Seq<int>,
    l_cut: Seq<int>,
)
    requires
        0 <= o < 8,
        kids.len() == 8,
        s_cut.len() == o + 1,
        l_cut.len() == o + 1,
        now.children_laid(kids, o, s_cut, l_cut),
        now.laid(c, s_cut[o], now.stems@.len() as int, l_cut[o], now.leafs@.len() as int),
    ensures
        now.children_laid(
            kids.update(o, c),
            o + 1,
            s_cut.push(now.stems@.len() as int),
            l_cut.push(now.leafs@.len() as int),
        ),
{
    let kids2 = kids.update(o, c);
    let s2 = s_cut.push(now.stems@.len() as int);
    let l2 = l_cut.push(now.leafs@.len() as int);
    assert forall|j: int| 0 <= j < o + 1 implies now.laid(
        #[trigger] kids2[j],
        s2[j],
        s2[j + 1],
        l2[j],
        l2[j + 1],
    ) by {
        if j < o {
            assert(now.laid(kids[j], s_cut[j], s_cut[j + 1], l_cut[j], l_cut[j + 1]));
        }
    }
}

/// The stem appended over eight children that are laid one after the other
/// is laid with them: its subtree is stored without a gap, the subtrees of
/// the children in the order of their octants, the stem last.
pub proof fn lemma_stem_laid(
    now: &Octree,
    r: u32,
    node: StemNode,
    s_cut: Seq<int>,
    l_cut: Seq<int>,
)
    requires
        now.children_laid(node.childs_idx@, 8, s_cut, l_cut),
        s_cut.len() == 9,
        l_cut.len() == 9,
        r < now.stems@.len(),
        r < LEAF_TAG,
        s_cut[8] == r,
        now.stems@[r as int] == node,
        forall|j: int| 0 <= j < 8 ==> now.ref_ok(#[trigger] node.childs_idx@[j], r as int),
    ensures
        now.laid(r, s_cut[0], r + 1, l_cut[0], l_cut[8]),
{
    let kids = node.childs_idx@;
    assert forall|j: int| 0 <= j < 8 implies {
        &&& Octree::rank(#[trigger] now.child(r as int, j)) < Octree::rank(r)
        &&& now.stems_in(now.child(r as int, j)) == s_cut[j + 1] - s_cut[j]
        &&& now.leaves_in(now.child(r as int, j)) == l_cut[j + 1] - l_cut[j]
        &&& now.packed(now.child(r as int, j), s_cut[j], l_cut[j])
    } by {
        reveal(Octree::laid);
        assert(now.child(r as int, j) == kids[j]);
        assert(now.ref_ok(kids[j], r as int));
        assert(now.laid(kids[j], s_cut[j], s_cut[j + 1], l_cut[j], l_cut[j + 1]));
    }
    lemma_stem_packed(now, r, s_cut, l_cut);
}

/// A stem whose children are packed one after the other, the last of them
/// right before the stem, is packed with them.
pub proof fn lemma_stem_packed(now: &Octree, r: u32, s_cut: Seq<int>, l_cut: Seq<int>)
    requires
        s_cut.len() == 9,
        l_cut.len() == 9,
        r < now.stems@.len(),
        r < LEAF_TAG,
        s_cut[8] == r,
        forall|j: int|
            0 <= j < 8 ==> {
                &&& Octree::rank(#[trigger] now.child(r as int, j)) < Octree::rank(r)
                &&& now.stems_in(now.child(r as int, j)) == s_cut[j + 1] - s_cut[j]
                &&& now.leaves_in(now.child(r as int, j)) == l_cut[j + 1] - l_cut[j]
                &&& now.packed(now.child(r as int, j), s_cut[j], l_cut[j])
            },
    ensures
        now.laid(r, s_cut[0], r + 1, l_cut[0], l_cut[8]),
{
    lemma_in_is_before(now, r);
    lemma_before_cut(now, r, s_cut, l_cut, 8);
    lemma_children_packed(now, r, s_cut, l_cut);
    reveal(Octree::laid);
}

/// A stem whose children are packed one after the other, the last of them
/// right before the stem, is packed from where the first of them starts.
pub proof fn lemma_children_packed(now: &Octree, r: u32, s_cut: Seq<int>, l_cut: Seq<int>)
    requires
        s_cut.len() == 9,
        l_cut.len() == 9,
        r < now.stems@.len(),
        r < LEAF_TAG,
        r == s_cut[0] + now.stems_in(r) - 1,
        forall|j: int|
            0 <= j < 8 ==> {
                &&& Octree::rank(#[trigger] now.child(r as int, j)) < Octree::rank(r)
                &&& now.stems_in(now.child(r as int, j)) == s_cut[j + 1] - s_cut[j]
                &&& now.leaves_in(now.child(r as int, j)) == l_cut[j + 1] - l_cut[j]
                &&& now.packed(now.child(r as int, j), s_cut[j], l_cut[j])
            },
    ensures
        now.packed(r, s_cut[0], l_cut[0]),
{
    assert forall|o: int| 0 <= o < 8 implies Octree::rank(#[trigger] now.child(r as int, o))
        < Octree::rank(r) && now.packed(
        now.child(r as int, o),
        s_cut[0] + now.stems_before(r, o as nat),
        l_cut[0] + now.leaves_before(r, o as nat),
    ) by {
        lemma_before_cut(now, r, s_cut, l_cut, o as nat);
    }
}

/// A stem holds one stem more than its children do together, and the leaves
/// that they hold.
pub proof fn lemma_in_is_before(now: &Octree, r: u32)
    requires
        r < now.stems@.len(),
        r < LEAF_TAG,
    ensures
        now.stems_in(r) == 1 + now.stems_before(r, 8),
        now.leaves_in(r) == now.leaves_before(r, 8),
{
    reveal(Octree::stems_in);
    reveal(Octree::leaves_in);
    reveal_with_fuel(Octree::stems_before, 9);
    reveal_with_fuel(Octree::leaves_before, 9);
}

/// The numbers of stems and leaves under the first `n` children of a stem are
/// what the arenas have grown by while these children were built.
pub proof fn lemma_before_cut(now: &Octree, r: u32, s_cut: Seq<int>, l_cut: Seq<int>, n: nat)
    requires
        n <= 8,
        s_cut.len() == 9,
        l_cut.len() == 9,
        forall|j: int|
            0 <= j < 8 ==> {
                &&& Octree::rank(#[trigger] now.child(r as int, j)) < Octree::rank(r)
                &&& now.stems_in(now.child(r as int, j)) == s_cut[j + 1] - s_cut[j]
                &&& now.leaves_in(now.child(r as int, j)) == l_cut[j + 1] - l_cut[j]
            },
    ensures
        now.stems_before(r, n) == s_cut[n as int] - s_cut[0],
        now.leaves_before(r, n) == l_cut[n as int] - l_cut[0],
    decreases n,
{
    reveal(Octree::stems_in);
    reveal(Octree::leaves_in);
    if n > 0 {
        lemma_before_cut(now, r, s_cut, l_cut, (n - 1) as nat);
        let c = now.child(r as int, n - 1);
        assert(Octree::rank(c) < Octree::rank(r));
        assert(now.stems_under(r, n - 1) == now.stems_in(c));
        assert(now.leaves_under(r, n - 1) == now.leaves_in(c));
    }
}

/// The stem appended over eight built children stands for the octree of the
/// points of `begin..end`.
pub proof fn lemma_stem_model(
    was: &Octree,
    mid: &Octree,
    now: &Octree,
    r: u32,
    node: StemNode,
    s_cut: Seq<int>,
    l_cut: Seq<int>,
    cuts: Seq<u32>,
    begin: int,
    end: int,
    cube: Cube,
    depth: nat,
    bucket: nat,
)
    requires
        mid.cut_up(begin, end, cuts, cube),
        mid.points == was.points,
        mid.ids(begin, end) == was.ids(begin, end),
        was.indices@.len() == mid.indices@.len(),
        now.points == mid.points,
        now.children_built(
            mid,
            node.childs_idx@,
            8,
            s_cut,
            l_cut,
            cuts,
            cube,
            (depth - 1) as nat,
            bucket,
        ),
        r < now.stems@.len(),
        r < LEAF_TAG,
        now.stems@[r as int] == node,
        forall|j: int| 0 <= j < 8 ==> now.ref_ok(#[trigger] node.childs_idx@[j], r as int),
        depth > 0,
        end - begin > bucket,
        cube.wf(),
        4 * cube.den <= DEN_MAX,
    ensures
        now.model_at(r) == ideal(now.points@, was.ids(begin, end), cube, depth, bucket),
        now.model_at(r).population() == end - begin,
        now.roomy(r, cube.den as int),
{
    let kids = node.childs_idx@;
    let deeper = (depth - 1) as nat;
    vstd::seq_lib::to_multiset_len(was.indices@.subrange(begin, end));
    let whole = was.ids(begin, end);
    let goal = ideal(now.points@, whole, cube, depth, bucket);
    let got = now.model_at(r);
    assert(goal is Stem);
    assert(got is Stem);
    assert forall|o: int| 0 <= o < 8 implies #[trigger] got->children[o] == goal->children[o]
        && got->children[o].population() == cuts[o + 1] - cuts[o] by {
        lemma_cuts_ordered(cuts, 0, o);
        lemma_cuts_ordered(cuts, o + 1, 8);
        assert(cuts[o] <= cuts[o + 1]);
        assert forall|i: int| begin <= i < end && !(cuts[o] <= i < cuts[o + 1]) implies cube.octant_of(
            #[trigger] mid.point_at(i),
        ) != o by {
            let p = interval_of(cuts, i);
            lemma_interval_of(cuts, i);
            assert(cuts[p] <= i < cuts[p + 1]);
        }
        assert forall|i: int| cuts[o] <= i < cuts[o + 1] implies cube.octant_of(
            #[trigger] mid.point_at(i),
        ) == o by {}
        lemma_part(mid, begin, end, cuts[o] as int, cuts[o + 1] as int, cube, o);
        assert(now.child(r as int, o) == kids[o]);
        assert(now.ref_ok(kids[o], r as int));
        assert(now.built(
            mid,
            kids[o],
            s_cut[o],
            s_cut[o + 1],
            l_cut[o],
            l_cut[o + 1],
            cuts[o] as int,
            cuts[o + 1] as int,
            cube.child(o),
            deeper,
            bucket,
        ));
        assert(got->children[o] == now.model_at(kids[o]));
    }
    assert(got->children =~= goal->children);
    assert forall|o: int|
        0 <= o < 8 && Octree::rank(#[trigger] now.child(r as int, o)) < Octree::rank(
            r,
        ) implies now.roomy(now.child(r as int, o), 4 * cube.den) by {
        assert(now.child(r as int, o) == kids[o]);
        assert(now.built(
            mid,
            kids[o],
            s_cut[o],
            s_cut[o + 1],
            l_cut[o],
            l_cut[o + 1],
            cuts[o] as int,
            cuts[o + 1] as int,
            cube.child(o),
            deeper,
            bucket,
        ));
        assert(cube.child(o).den == 4 * cube.den);
    }
    assert(got.population() == end - begin) by {
        lemma_population_eight(got->children);
        assert(got->children[0].population() == cuts[0int + 1] - cuts[0]);
        assert(got->children[1].population() == cuts[1int + 1] - cuts[1]);
        assert(got->children[2].population() == cuts[2int + 1] - cuts[2]);
        assert(got->children[3].population() == cuts[3int + 1] - cuts[3]);
        assert(got->children[4].population() == cuts[4int + 1] - cuts[4]);
        assert(got->children[5].population() == cuts[5int + 1] - cuts[5]);
        assert(got->children[6].population() == cuts[6int + 1] - cuts[6]);
        assert(got->children[7].population() == cuts[7int + 1] - cuts[7]);
    }
}

/// The population of eight children is the sum of their populations.
pub proof fn lemma_population_eight(children: Seq<Tree>)
    requires
        children.len() == 8,
    ensures
        Tree::population_of(children, 8) == children[0].population() + children[1].population()
            + children[2].population() + children[3].population() + children[4].population()
            + children[5].population() + children[6].population() + children[7].population(),
{
    reveal_with_fuel(Tree::population_of, 9);
}

/// The interval of a subdivision that position `i` lies in.
pub open spec fn interval_of(cuts: Seq<u32>, i: int) -> int {
    if i < cuts[1] {
        0
    } else if i < cuts[2] {
        1
    } else if i < cuts[3] {
        2
    } else if i < cuts[4] {
        3
    } else if i < cuts[5] {
        4
    } else if i < cuts[6] {
        5
    } else if i < cuts[7] {
        6
    } else {
        7
    }
}

/// Every position of a subdivided range lies in one of its eight intervals.
pub proof fn lemma_interval_of(cuts: Seq<u32>, i: int)
    requires
        cuts.len() == 9,
        cuts[0] <= i < cuts[8],
    ensures
        0 <= interval_of(cuts, i) < 8,
        cuts[interval_of(cuts, i)] <= i < cuts[interval_of(cuts, i) + 1],
{
}

/// The delimiters of a subdivision grow from left to right.
pub proof fn lemma_cuts_ordered(cuts: Seq<u32>, i: int, j: int)
    requires
        cuts.len() == 9,
        0 <= i <= j <= 8,
        forall|k: int| 0 <= k < 8 ==> cuts[k] <= #[trigger] cuts[k + 1],
    ensures
        cuts[i] <= cuts[j],
    decreases j - i,
{
    if i < j {
        lemma_cuts_ordered(cuts, i, j - 1);
        assert(cuts[j - 1] <= cuts[j - 1 + 1]);
    }
}

/// Room for one more child: what `o` children over `a` points may hold, and
/// one more child over `b` points, stay within what `o + 1` children over
/// all these points may hold.
pub proof fn lemma_spent_step(o: int, a: int, b: int, depth: nat, bucket: nat)
    requires
        0 <= a,
        0 <= b,
    ensures
        spent(o, a, depth, bucket) + budget(b, depth, bucket) <= spent(
            o + 1,
            a + b,
            depth,
            bucket,
        ),
{
    reveal(budget);
    reveal(spent);
    let m = (bucket + 1) as int;
    let k = 8 * depth;
    let x = a / m;
    let y = b / m;
    let z = (a + b) / m;
    lemma_floor_add(a, b, m);
    assert(k * x + k * y <= k * z) by (nonlinear_arith)
        requires
            0 <= k,
            x + y <= z,
    ;
}

/// Once all eight children are built, one node is left of the budget for
/// their stem.
pub proof fn lemma_budget_last(count: int, depth: nat, bucket: nat)
    requires
        depth > 0,
        count > bucket,
    ensures
        spent(8, count, (depth - 1) as nat, bucket) < budget(count, depth, bucket),
{
    reveal(budget);
    reveal(spent);
    let m = (bucket + 1) as int;
    let e = count / m;
    vstd::arithmetic::div_mod::lemma_div_is_ordered(m, count, m);
    vstd::arithmetic::div_mod::lemma_div_basics(m);
    assert(8 * (depth - 1) * e + 8 <= 8 * depth * e) by (nonlinear_arith)
        requires
            1 <= e,
    ;
    assert(8 * ((depth - 1) as nat) * e == 8 * (depth - 1) * e);
}

/// Whole parts add up to no more than the whole part of the sum.
pub proof fn lemma_floor_add(a: int, b: int, m: int)
    requires
        0 <= a,
        0 <= b,
        0 < m,
    ensures
        a / m + b / m <= (a + b) / m,
{
    let x = a / m + b / m;
    vstd::arithmetic::div_mod::lemma_fundamental_div_mod(a, m);
    vstd::arithmetic::div_mod::lemma_fundamental_div_mod(b, m);
    vstd::arithmetic::div_mod::lemma_mod_bound(a, m);
    vstd::arithmetic::div_mod::lemma_mod_bound(b, m);
    assert(m * x == m * (a / m) + m * (b / m)) by (nonlinear_arith)
        requires
            x == a / m + b / m,
    ;
    assert(m * x <= a + b);
    vstd::arithmetic::div_mod::lemma_div_is_ordered(m * x, a + b, m);
    vstd::arithmetic::div_mod::lemma_div_multiples_vanish(x, m);
}

/// A build needs no more nodes than its budget: the octree of the points
/// numbered `ids`, `depth` levels deep with buckets of `bucket`, holds at
/// most `budget(ids.len(), depth, bucket)` nodes.
pub proof fn lemma_budget_covers(
    points: Seq<Point>,
    ids: Multiset<u32>,
    cube: Cube,
    depth: nat,
    bucket: nat,
)
    ensures
        ideal(points, ids, cube, depth, bucket).nodes() <= budget(ids.len() as int, depth, bucket),
    decreases depth, 9nat,
{
    lemma_budget_base(ids.len() as int, depth, bucket);
    if depth > 0 && ids.len() > bucket {
        lemma_children_budget(points, ids, cube, depth, bucket, 8);
        crate::model::lemma_octants_share(points, ids, cube);
        lemma_budget_last(ids.len() as int, depth, bucket);
    }
}

/// The first `n` children of the octree of the points numbered `ids` hold no
/// more nodes than `n` children over their points may.
pub proof fn lemma_children_budget(
    points: Seq<Point>,
    ids: Multiset<u32>,
    cube: Cube,
    depth: nat,
    bucket: nat,
    n: nat,
)
    requires
        depth > 0,
        ids.len() > bucket,
        n <= 8,
    ensures
        Tree::nodes_of(ideal(points, ids, cube, depth, bucket)->children, n) <= spent(
            n as int,
            in_first(points, ids, cube, n) as int,
            (depth - 1) as nat,
            bucket,
        ),
    decreases depth, n,
{
    let deeper = (depth - 1) as nat;
    let kids = ideal(points, ids, cube, depth, bucket)->children;
    if n == 0 {
        lemma_budget_base(0, deeper, bucket);
    } else {
        let part = ids.filter(in_octant(points, cube, n - 1));
        lemma_children_budget(points, ids, cube, depth, bucket, (n - 1) as nat);
        lemma_budget_covers(points, part, cube.child(n - 1), deeper, bucket);
        assert(kids[n - 1] == ideal(points, part, cube.child(n - 1), deeper, bucket));
        lemma_spent_step(
            n - 1,
            in_first(points, ids, cube, (n - 1) as nat) as int,
            part.len() as int,
            deeper,
            bucket,
        );
    }
}

/// The octree of a range that holds more than a bucket of points, with
/// levels left, is a stem over eight children.
pub proof fn lemma_whole_is_stem(
    mid: &Octree,
    begin: int,
    end: int,
    cube: Cube,
    depth: nat,
    bucket: nat,
)
    requires
        0 <= begin <= end <= mid.indices@.len(),
        depth > 0,
        end - begin > bucket,
    ensures
        ideal(mid.points@, mid.ids(begin, end), cube, depth, bucket) is Stem,
        ideal(mid.points@, mid.ids(begin, end), cube, depth, bucket)->children.len() == 8,
        ideal(mid.points@, mid.ids(begin, end), cube, depth, bucket).nodes() == 1 + Tree::nodes_of(
            ideal(mid.points@, mid.ids(begin, end), cube, depth, bucket)->children,
            8,
        ),
{
    vstd::seq_lib::to_multiset_len(mid.indices@.subrange(begin, end));
}

/// Child `o` of the octree of a range that `mid` has cut up is the octree of
/// part `o`, which `prev` still holds as `mid` left it; its nodes come on top
/// of those of the children before it, and all of them are nodes of the
/// eight children together.
pub proof fn lemma_child_nodes(
    mid: &Octree,
    prev: &Octree,
    begin: int,
    end: int,
    cuts: Seq<u32>,
    cube: Cube,
    depth: nat,
    bucket: nat,
    o: int,
)
    requires
        0 <= o < 8,
        mid.cut_up(begin, end, cuts, cube),
        depth > 0,
        end - begin > bucket,
        prev.points@ == mid.points@,
        prev.same_outside(mid, begin, cuts[o] as int),
        end <= prev.indices@.len(),
    ensures
        ideal(
            prev.points@,
            prev.ids(cuts[o] as int, cuts[o + 1] as int),
            cube.child(o),
            (depth - 1) as nat,
            bucket,
        ) == ideal(mid.points@, mid.ids(begin, end), cube, depth, bucket)->children[o],
        Tree::nodes_of(
            ideal(mid.points@, mid.ids(begin, end), cube, depth, bucket)->children,
            (o + 1) as nat,
        ) == Tree::nodes_of(
            ideal(mid.points@, mid.ids(begin, end), cube, depth, bucket)->children,
            o as nat,
        ) + ideal(mid.points@, mid.ids(begin, end), cube, depth, bucket)->children[o].nodes(),
        Tree::nodes_of(
            ideal(mid.points@, mid.ids(begin, end), cube, depth, bucket)->children,
            (o + 1) as nat,
        ) <= Tree::nodes_of(
            ideal(mid.points@, mid.ids(begin, end), cube, depth, bucket)->children,
            8,
        ),
{
    let lo = cuts[o] as int;
    let hi = cuts[o + 1] as int;
    let kids = ideal(mid.points@, mid.ids(begin, end), cube, depth, bucket)->children;
    lemma_whole_is_stem(mid, begin, end, cube, depth, bucket);
    lemma_cuts_ordered(cuts, 0, o);
    lemma_cuts_ordered(cuts, o + 1, 8);
    assert(cuts[o] <= cuts[o + 1]);
    assert forall|i: int| begin <= i < end && !(lo <= i < hi) implies cube.octant_of(
        #[trigger] mid.point_at(i),
    ) != o by {
        let p = interval_of(cuts, i);
        lemma_interval_of(cuts, i);
        assert(cuts[p] <= i < cuts[p + 1]);
    }
    assert forall|i: int| lo <= i < hi implies cube.octant_of(#[trigger] mid.point_at(i)) == o by {}
    lemma_part(mid, begin, end, lo, hi, cube, o);
    assert(prev.indices@.subrange(lo, hi) =~= mid.indices@.subrange(lo, hi));
    crate::model::lemma_nodes_of_grows(kids, (o + 1) as nat, 8);
}

impl Octree {
    /// Builds the subtree of positions `begin..end` inside `cube` and returns
    /// its reference: a leaf if `depth` is used up or the range holds no more
    /// than `bucket_size` points, else a stem over the eight octants, each
    /// built one level further down.
    #[verifier::rlimit(40)]
    pub fn variable_depth_recursive(
        &mut self,
        begin: u32,
        end: u32,
        cube: Cube,
        bucket_size: u32,
        depth: u32,
    ) -> (r: u32)
        requires
            old(self).linked(),
            old(self).shaped(),
            old(self).range_ok(begin as int, end as int),
            cube.wf(),
            room(cube.den as int, depth as nat),
            old(self).stems@.len() + old(self).leafs@.len() + ideal(
                old(self).points@,
                old(self).ids(begin as int, end as int),
                cube,
                depth as nat,
                bucket_size as nat,
            ).nodes() <= MAX_NODES,
        ensures
            final(self).linked(),
            final(self).shaped(),
            old(self).grown_to(final(self)),
            final(self).root == old(self).root,
            final(self).bounds == old(self).bounds,
            final(self).same_outside(old(self), begin as int, end as int),
            final(self).range_ok(begin as int, end as int),
            final(self).ids(begin as int, end as int) == old(self).ids(begin as int, end as int),
            final(self).built(
                old(self),
                r,
                old(self).stems@.len() as int,
                final(self).stems@.len() as int,
                old(self).leafs@.len() as int,
                final(self).leafs@.len() as int,
                begin as int,
                end as int,
                cube,
                depth as nat,
                bucket_size as nat,
            ),
            final(self).leaves_within(old(self).leafs@.len() as int, begin as int, end as int),
            final(self).leaves_tile(old(self).leafs@.len() as int, begin as int, end as int),
            final(self).leafs@.len() > old(self).leafs@.len(),
            final(self).laid(
                r,
                old(self).stems@.len() as int,
                final(self).stems@.len() as int,
                old(self).leafs@.len() as int,
                final(self).leafs@.len() as int,
            ),
            (depth == 0 || end - begin <= bucket_size) ==> final(self).indices@ == old(
                self
            ).indices@,
            final(self).indices@ == arranged(
                old(self).points@,
                old(self).indices@,
                begin as int,
                end as int,
                cube,
                depth as nat,
                bucket_size as nat,
            ),
            final(self).stems@.len() + final(self).leafs@.len() == old(self).stems@.len() + old(
                self,
            ).leafs@.len() + ideal(
                old(self).points@,
                old(self).ids(begin as int, end as int),
                cube,
                depth as nat,
                bucket_size as nat,
            ).nodes(),
        decreases depth,
    {
        if depth == 0 || (end - begin) <= bucket_size {
            let idx: u32 = Self::make_leaf_ref(self.leafs.len() as u32);
            self.leafs.push(LeafNode { begin, end });
            proof {
                lemma_leaf_pushed(
                    old(self),
                    self,
                    idx,
                    begin as int,
                    end as int,
                    cube,
                    depth as nat,
                    bucket_size as nat,
                );
                lemma_leaf_laid(
                    self,
                    idx,
                    old(self).stems@.len() as int,
                    old(self).leafs@.len() as int,
                );
            }
            return idx;
        }
        let ghost bucket = bucket_size as nat;
        let ghost deeper = (depth - 1) as nat;
        let mut sub = self.subdivide(begin, end, cube);
        let ghost mid = *self;
        let ghost cuts = sub.delimiter@;
        let ghost marks = subdivision_of(
            old(self).points@,
            old(self).indices@,
            cube,
            begin as int,
            end as int,
        ).1;
        let ghost whole = ideal(
            old(self).points@,
            old(self).ids(begin as int, end as int),
            cube,
            depth as nat,
            bucket,
        );
        let ghost mut s_cut: Seq<int> = seq![self.stems@.len() as int];
        let ghost mut l_cut: Seq<int> = seq![self.leafs@.len() as int];
        let mut childs: [u32; 8] = [0, 0, 0, 0, 0, 0, 0, 0];
        let mut o: usize = 0;
        proof {
            lemma_same_nodes(old(self), &mid);
            assert(mid.cut_up(begin as int, end as int, cuts, cube)) by {
                assert forall|j: int| 0 <= j < 8 implies cuts[j] <= #[trigger] cuts[j + 1] by {
                    assert(sub.delimiter[j] <= sub.delimiter[j + 1]);
                }
                assert forall|p: int, i: int|
                    #![trigger cuts[p], mid.point_at(i)]
                    0 <= p < 8 && cuts[p] <= i < cuts[p + 1] implies cube.octant_of(
                    mid.point_at(i),
                ) == p by {
                    assert(sub.delimiter[p] <= i < sub.delimiter[p + 1]);
                }
            }
            assert(self.leaves_within(self.leafs@.len() as int, begin as int, begin as int));
            lemma_whole_is_stem(&mid, begin as int, end as int, cube, depth as nat, bucket);
        }
        while o < 8
            invariant
                0 <= o <= 8,
                depth > 0,
                deeper == depth - 1,
                bucket == bucket_size,
                end - begin > bucket,
                cube.wf(),
                room(cube.den as int, depth as nat),
                sub.current == o,
                sub.cube == cube,
                sub.delimiter@ == cuts,
                mid.cut_up(begin as int, end as int, cuts, cube),
                self.linked(),
                self.shaped(),
                mid.grown_to(self),
                self.root == mid.root,
                self.bounds == mid.bounds,
                self.same_outside(&mid, begin as int, cuts[o as int] as int),
                self.range_ok(begin as int, end as int),
                self.ids(begin as int, end as int) == mid.ids(begin as int, end as int),
                self.leaves_within(mid.leafs@.len() as int, begin as int, cuts[o as int] as int),
                self.leaves_tile(mid.leafs@.len() as int, begin as int, cuts[o as int] as int),
                o > 0 ==> self.leafs@.len() > mid.leafs@.len(),
                self.children_built(&mid, childs@, o as int, s_cut, l_cut, cuts, cube, deeper, bucket),
                self.children_laid(childs@, o as int, s_cut, l_cut),
                self.points@ == mid.points@,
                marks.len() == 9,
                forall|j: int| 0 <= j <= 8 ==> #[trigger] cuts[j] == marks[j],
                self.indices@ == arranged_parts(
                    mid.points@,
                    mid.indices@,
                    marks,
                    cube,
                    depth as nat,
                    bucket,
                    o as nat,
                ),
                s_cut[o as int] == self.stems@.len(),
                l_cut[o as int] == self.leafs@.len(),
                whole == ideal(mid.points@, mid.ids(begin as int, end as int), cube, depth as nat, bucket),
                whole is Stem,
                self.stems@.len() + self.leafs@.len() == mid.stems@.len() + mid.leafs@.len()
                    + Tree::nodes_of(whole->children, o as nat),
                mid.stems@.len() + mid.leafs@.len() + 1 + Tree::nodes_of(whole->children, 8)
                    <= MAX_NODES,
            decreases 8 - o,
        {
            let ghost prev = *self;
            let ghost prev_childs = childs@;
            proof {
                assert(cuts[o as int] <= cuts[o + 1]);
                lemma_cuts_ordered(cuts, 0, o as int);
                lemma_cuts_ordered(cuts, o + 1, 8);
                lemma_child_nodes(
                    &mid,
                    self,
                    begin as int,
                    end as int,
                    cuts,
                    cube,
                    depth as nat,
                    bucket,
                    o as int,
                );
                crate::geometry::lemma_cube_nesting(cube, o as int);
                assert(room(4 * cube.den, deeper));
            }
            let space = sub.next().unwrap();
            let c = self.variable_depth_recursive(
                space.begin,
                space.end,
                space.cube,
                bucket_size,
                depth - 1,
            );
            childs[o] = c;
            proof {
                lemma_child_added(
                    &mid,
                    &prev,
                    self,
                    prev_childs,
                    c,
                    o as int,
                    s_cut,
                    l_cut,
                    cuts,
                    begin as int,
                    end as int,
                    cube,
                    deeper,
                    bucket,
                );
                lemma_children_ok(&prev, &mid, prev_childs, o as int, s_cut, l_cut, cuts, cube, deeper, bucket);
                lemma_laid_kept(&prev, self, prev_childs, o as int, s_cut, l_cut);
                lemma_laid_added(self, prev_childs, c, o as int, s_cut, l_cut);
                s_cut = s_cut.push(self.stems@.len() as int);
                l_cut = l_cut.push(self.leafs@.len() as int);
                assert(childs@ =~= prev_childs.update(o as int, c));
            }
            o += 1;
        }
        let node_idx: u32 = self.stems.len() as u32;
        let ghost last = *self;
        let node = StemNode { childs_idx: childs };
        self.stems.push(node);
        proof {
            lemma_stem_sound(&mid, &last, self, node_idx, node, s_cut, l_cut, cuts, cube, deeper, bucket);
            lemma_stem_nodes(self, node_idx, s_cut, l_cut);
            lemma_children_ok(&last, &mid, node.childs_idx@, 8, s_cut, l_cut, cuts, cube, deeper, bucket);
            lemma_laid_kept(&last, self, node.childs_idx@, 8, s_cut, l_cut);
            lemma_stem_laid(self, node_idx, node, s_cut, l_cut);
            lemma_stem_model(
                old(self),
                &mid,
                self,
                node_idx,
                node,
                s_cut,
                l_cut,
                cuts,
                begin as int,
                end as int,
                cube,
                depth as nat,
                bucket,
            );
            assert(self.leaves_within(old(self).leafs@.len() as int, begin as int, end as int));
        }
        node_idx
    }
}

impl Octree {
    /// The tree hangs together: every reference is valid, no node is shared,
    /// every stored node belongs to the tree, the permutation names points
    /// only, and the bounding cube can be subdivided all the way down.
    pub open spec fn wf(&self) -> bool {
        &&& self.linked()
        &&& self.shaped()
        &&& self.ref_ok(self.root, self.stems@.len() as int)
        &&& self.nodes_at(self.root) == Self::block(
            0,
            self.stems@.len() as int,
            0,
            self.leafs@.len() as int,
        )
        &&& self.indices@.len() == self.points@.len()
        &&& self.range_ok(0, self.indices@.len() as int)
        &&& self.stems@.len() + self.leafs@.len() <= MAX_NODES
        &&& self.bounds.wf()
        &&& self.roomy(self.root, self.bounds.den as int)
        &&& self.laid(self.root, 0, self.stems@.len() as int, 0, self.leafs@.len() as int)
        &&& self.leaves_tile(0, 0, self.points@.len() as int)
        &&& self.model().population() == self.points@.len()
    }

    /// The tree is the octree of `points`, `depth` levels deep with buckets of
    /// `bucket`, inside the bounding cube of the points.
    pub open spec fn is_build_of(&self, points: Seq<Point>, depth: nat, bucket: nat) -> bool {
        &&& self.wf()
        &&& self.points@ == points
        &&& self.bounds == Cube::bounding_spec(points)
        &&& self.ids(0, points.len() as int) == all_ids(points.len())
        &&& self.model() == ideal(points, all_ids(points.len()), self.bounds, depth, bucket)
        &&& self.indices@ == arranged(
            points,
            Seq::new(points.len(), |i: int| i as u32),
            0,
            points.len() as int,
            self.bounds,
            depth,
            bucket,
        )
    }

    /// The number of points of the tree: as many as its leaves hold together.
    pub fn len(&self) -> (n: usize)
        requires
            self.wf(),
        ensures
            n == self.points@.len(),
            n == self.model().population(),
    {
        self.points.len()
    }

    /// Whether the octree of `points`, `depth` levels deep at most and with
    /// buckets of `bucket`, can be stored: the points can be numbered, and
    /// the tree holds no more nodes than a tree may hold.
    pub open spec fn buildable(points: Seq<Point>, depth: nat, bucket: nat) -> bool {
        &&& points.len() <= u32::MAX
        &&& ideal(
            points,
            all_ids(points.len()),
            Cube::bounding_spec(points),
            min_nat(depth, MAX_DEPTH as nat),
            bucket,
        ).nodes() <= MAX_NODES
    }

    /// Whether the budget of a build of `n` points, `depth` levels deep at
    /// most and with buckets of `bucket`, stays within the number of nodes
    /// that a tree may hold.
    pub open spec fn within_budget(n: nat, depth: nat, bucket: nat) -> bool {
        n <= MAX_NODES && budget(n as int, min_nat(depth, MAX_DEPTH as nat), bucket) <= MAX_NODES
    }

    /// Whether `n` points can be built into a tree, `depth` levels deep at
    /// most and with buckets of `bucket`, wherever they lie: a test by the
    /// number of the points alone, which says no to some sets of points that
    /// can be built.
    pub fn can_build(n: usize, depth: u32, bucket: u32) -> (b: bool)
        ensures
            b == Self::within_budget(n as nat, depth as nat, bucket as nat),
    {
        if n > MAX_NODES as usize {
            return false;
        }
        let levels: u64 = if depth > MAX_DEPTH {
            MAX_DEPTH as u64
        } else {
            depth as u64
        };
        let per_level: u64 = (n as u64) / (bucket as u64 + 1);
        proof {
            reveal(budget);
            assert(0 <= 8 * levels * per_level <= 8 * 32 * 0x7fff_ffff) by (nonlinear_arith)
                requires
                    0 <= levels <= 32,
                    0 <= per_level <= 0x7fff_ffff,
            ;
            assert(8 * (levels as nat) * ((n as int) / ((bucket as nat) + 1) as int) == 8 * levels
                * per_level);
        }
        1 + 8 * levels * per_level <= MAX_NODES as u64
    }

    /// A tree over `points` with no node yet: the points in the order given,
    /// the identity permutation, and the bounding cube.
    pub fn with_points(points: &[Point]) -> (tree: Octree)
        requires
            points@.len() <= u32::MAX,
        ensures
            tree.root == 0,
            tree.stems@.len() == 0,
            tree.leafs@.len() == 0,
            tree.points@ == points@,
            tree.indices@ == Seq::new(points@.len(), |i: int| i as u32),
            tree.bounds == Cube::bounding_spec(points@),
            tree.bounds.wf(),
    {
        let n: usize = points.len();
        let mut indices: Vec<u32> = Vec::new();
        let mut i: usize = 0;
        while i < n
            invariant
                i <= n,
                n <= u32::MAX,
                indices@ == Seq::new(i as nat, |k: int| k as u32),
            decreases n - i,
        {
            indices.push(i as u32);
            assert(indices@ =~= Seq::new((i + 1) as nat, |k: int| k as u32));
            i += 1;
        }
        Octree {
            root: 0,
            stems: Vec::new(),
            leafs: Vec::new(),
            indices,
            points: vstd::slice::slice_to_vec(points),
            bounds: Cube::bounding(points),
        }
    }

    /// Builds the subtree of positions `begin..end` inside `cube`, `depth`
    /// levels deep at most, and returns its reference: a leaf if `depth` is
    /// zero or the range holds at most one point, else a stem.
    pub fn fixed_depth_recursive(&mut self, begin: u32, end: u32, cube: Cube, depth: u32) -> (r:
        u32)
        requires
            old(self).linked(),
            old(self).shaped(),
            old(self).range_ok(begin as int, end as int),
            cube.wf(),
            room(cube.den as int, depth as nat),
            old(self).stems@.len() + old(self).leafs@.len() + ideal(
                old(self).points@,
                old(self).ids(begin as int, end as int),
                cube,
                depth as nat,
                1,
            ).nodes() <= MAX_NODES,
        ensures
            final(self).linked(),
            final(self).shaped(),
            old(self).grown_to(final(self)),
            final(self).root == old(self).root,
            final(self).bounds == old(self).bounds,
            final(self).same_outside(old(self), begin as int, end as int),
            final(self).range_ok(begin as int, end as int),
            final(self).ids(begin as int, end as int) == old(self).ids(begin as int, end as int),
            final(self).built(
                old(self),
                r,
                old(self).stems@.len() as int,
                final(self).stems@.len() as int,
                old(self).leafs@.len() as int,
                final(self).leafs@.len() as int,
                begin as int,
                end as int,
                cube,
                depth as nat,
                1,
            ),
            final(self).leaves_within(old(self).leafs@.len() as int, begin as int, end as int),
            final(self).leaves_tile(old(self).leafs@.len() as int, begin as int, end as int),
            final(self).leafs@.len() > old(self).leafs@.len(),
            final(self).laid(
                r,
                old(self).stems@.len() as int,
                final(self).stems@.len() as int,
                old(self).leafs@.len() as int,
                final(self).leafs@.len() as int,
            ),
            (depth == 0 || end - begin <= 1) ==> final(self).indices@ == old(self).indices@,
            final(self).indices@ == arranged(
                old(self).points@,
                old(self).indices@,
                begin as int,
                end as int,
                cube,
                depth as nat,
                1,
            ),
            final(self).stems@.len() + final(self).leafs@.len() == old(self).stems@.len() + old(
                self,
            ).leafs@.len() + ideal(
                old(self).points@,
                old(self).ids(begin as int, end as int),
                cube,
                depth as nat,
                1,
            ).nodes(),
    {
        self.variable_depth_recursive(begin, end, cube, 1, depth)
    }

    /// Builds the octree of `points` to at most `depth` levels: a range is
    /// subdivided while levels are left and it holds more than one point.
    /// No tree goes deeper than `MAX_DEPTH` levels.
    pub fn fixed_depth(points: &[Point], depth: u32) -> (tree: Octree)
        requires
            Self::buildable(points@, depth as nat, 1),
        ensures
            tree.is_build_of(points@, min_nat(depth as nat, MAX_DEPTH as nat), 1),
            tree.model() is Leaf ==> tree.indices@ == Seq::new(points@.len(), |i: int| i as u32),
            tree.stems@.len() + tree.leafs@.len() == tree.model().nodes(),
    {
        let levels: u32 = if depth > MAX_DEPTH {
            MAX_DEPTH
        } else {
            depth
        };
        let mut tree = Octree::with_points(points);
        let n: u32 = points.len() as u32;
        let ghost start = tree;
        proof {
            lemma_room_at_root(tree.bounds.den as int);
            lemma_room_less(tree.bounds.den as int, MAX_DEPTH as nat, levels as nat);
            assert(tree.indices@.subrange(0, n as int) =~= tree.indices@);
        }
        let root = tree.fixed_depth_recursive(0, n, tree.bounds, levels);
        let ghost grown = tree;
        tree.root = root;
        proof {
            lemma_rooted(&start, &grown, &tree, levels as nat, 1);
            vstd::seq_lib::to_multiset_len(Seq::new(points@.len(), |i: int| i as u32));
        }
        tree
    }

    /// Builds the octree of `points` with buckets of `bucket_size`: a range is
    /// subdivided while it holds more than `bucket_size` points, down to
    /// `MAX_DEPTH` levels, where points that no subdivision has parted stay
    /// together in one leaf.
    pub fn variable_depth(points: &[Point], bucket_size: u32) -> (tree: Octree)
        requires
            Self::buildable(points@, MAX_DEPTH as nat, bucket_size as nat),
        ensures
            tree.is_build_of(points@, MAX_DEPTH as nat, bucket_size as nat),
            tree.model().within_bucket(bucket_size as nat, MAX_DEPTH as nat),
            tree.model().settled(points@, bucket_size as nat),
            tree.model() is Leaf ==> tree.indices@ == Seq::new(points@.len(), |i: int| i as u32),
            tree.stems@.len() + tree.leafs@.len() == tree.model().nodes(),
    {
        let mut tree = Octree::with_points(points);
        let n: u32 = points.len() as u32;
        let ghost start = tree;
        proof {
            lemma_room_at_root(tree.bounds.den as int);
            assert(tree.indices@.subrange(0, n as int) =~= tree.indices@);
        }
        let root = tree.variable_depth_recursive(0, n, tree.bounds, bucket_size, MAX_DEPTH);
        let ghost grown = tree;
        tree.root = root;
        proof {
            lemma_rooted(&start, &grown, &tree, MAX_DEPTH as nat, bucket_size as nat);
            vstd::seq_lib::to_multiset_len(Seq::new(points@.len(), |i: int| i as u32));
            crate::model::lemma_bucket_bound(
                points@,
                all_ids(points@.len()),
                tree.bounds,
                MAX_DEPTH as nat,
                bucket_size as nat,
            );
            lemma_build_settled(points@, bucket_size as nat);
        }
        tree
    }
}

/// Bucket bound for a build: every leaf of the octree of `points` with
/// buckets of `bucket` holds at most `bucket` points, unless all its points
/// lie at the same place.
pub proof fn lemma_build_settled(points: Seq<Point>, bucket: nat)
    requires
        points.len() <= u32::MAX,
    ensures
        ideal(
            points,
            all_ids(points.len()),
            Cube::bounding_spec(points),
            MAX_DEPTH as nat,
            bucket,
        ).settled(points, bucket),
{
    let cube = Cube::bounding_spec(points);
    let ids = all_ids(points.len());
    let s = Seq::new(points.len(), |i: int| i as u32);
    crate::geometry::lemma_low_le_high(points, 0);
    crate::geometry::lemma_low_le_high(points, 1);
    crate::geometry::lemma_low_le_high(points, 2);
    assert(cube.wf());
    lemma_room_at_root(cube.den as int);
    assert forall|id: u32| ids.contains(id) implies cube.holds(#[trigger] points[id as int]) by {
        vstd::seq_lib::to_multiset_contains(s, id);
        let k = choose|k: int| 0 <= k < s.len() && s[k] == id;
        assert(id == k);
        crate::geometry::lemma_bounding_holds(points, k);
    }
    if points.len() > 0 {
        crate::geometry::lemma_bounding_holds(points, 0);
    } else {
        crate::geometry::lemma_narrow_at_root(cube.size as int, cube.den as int);
    }
    crate::model::lemma_bucket_bound_exact(points, ids, cube, MAX_DEPTH as nat, bucket);
}

/// What the count of the points promises: points whose number passes the
/// test of the budget can be built, wherever they lie.
pub proof fn lemma_budget_suffices(points: Seq<Point>, depth: nat, bucket: nat)
    requires
        Octree::within_budget(points.len(), depth, bucket),
    ensures
        Octree::buildable(points, depth, bucket),
{
    vstd::seq_lib::to_multiset_len(Seq::new(points.len(), |i: int| i as u32));
    lemma_budget_covers(
        points,
        all_ids(points.len()),
        Cube::bounding_spec(points),
        min_nat(depth, MAX_DEPTH as nat),
        bucket,
    );
}

/// The smaller of two numbers.
pub open spec fn min_nat(a: nat, b: nat) -> nat {
    if a <= b {
        a
    } else {
        b
    }
}

/// Making the subtree built over all the points the root of the tree gives
/// the octree of the points.
pub proof fn lemma_rooted(start: &Octree, grown: &Octree, tree: &Octree, depth: nat, bucket: nat)
    requires
        start.stems@.len() == 0,
        start.leafs@.len() == 0,
        start.indices@ == Seq::new(start.points@.len(), |i: int| i as u32),
        start.bounds == Cube::bounding_spec(start.points@),
        start.bounds.wf(),
        start.points@.len() <= u32::MAX,
        grown.linked(),
        grown.shaped(),
        start.grown_to(grown),
        grown.bounds == start.bounds,
        grown.range_ok(0, start.points@.len() as int),
        grown.ids(0, start.points@.len() as int) == start.ids(0, start.points@.len() as int),
        grown.built(
            start,
            tree.root,
            0,
            grown.stems@.len() as int,
            0,
            grown.leafs@.len() as int,
            0,
            start.points@.len() as int,
            start.bounds,
            depth,
            bucket,
        ),
        grown.stems@.len() + grown.leafs@.len() <= MAX_NODES,
        grown.leaves_tile(0, 0, start.points@.len() as int),
        grown.laid(tree.root, 0, grown.stems@.len() as int, 0, grown.leafs@.len() as int),
        grown.indices@ == arranged(
            start.points@,
            start.indices@,
            0,
            start.points@.len() as int,
            start.bounds,
            depth,
            bucket,
        ),
        tree.same_nodes(grown),
        tree.indices == grown.indices,
        tree.bounds == grown.bounds,
    ensures
        tree.is_build_of(start.points@, depth, bucket),
{
    let n = start.points@.len() as int;
    lemma_same_nodes(grown, tree);
    lemma_frame(grown, tree, tree.root, grown.stems@.len() as int);
    assert(tree.laid(tree.root, 0, tree.stems@.len() as int, 0, tree.leafs@.len() as int)) by {
        reveal(Octree::laid);
        lemma_layout_frame(grown, tree, tree.root, grown.stems@.len() as int);
    }
    assert(start.indices@.subrange(0, n) =~= start.indices@);
    assert(tree.indices@.subrange(0, n) =~= grown.indices@.subrange(0, n));
}

/// The positions `lo..hi` of a range whose points fall into octant `o`, while
/// no other point of the range `begin..end` does, hold exactly the points of
/// the range that fall into octant `o`.
pub proof fn lemma_part(t: &Octree, begin: int, end: int, lo: int, hi: int, cube: Cube, o: int)
    requires
        0 <= begin <= lo <= hi <= end <= t.indices@.len(),
        forall|i: int| lo <= i < hi ==> cube.octant_of(#[trigger] t.point_at(i)) == o,
        forall|i: int|
            begin <= i < end && !(lo <= i < hi) ==> cube.octant_of(#[trigger] t.point_at(i)) != o,
    ensures
        t.ids(lo, hi) == t.ids(begin, end).filter(in_octant(t.points@, cube, o)),
{
    broadcast use vstd::multiset::group_multiset_axioms;

    let s = t.indices@;
    let pre = s.subrange(begin, lo);
    let mid = s.subrange(lo, hi);
    let post = s.subrange(hi, end);
    let f = in_octant(t.points@, cube, o);
    assert(s.subrange(begin, end) =~= pre + mid + post);
    vstd::seq_lib::lemma_multiset_commutative(pre, mid);
    vstd::seq_lib::lemma_multiset_commutative(pre + mid, post);
    assert forall|v: u32| t.ids(lo, hi).count(v) == t.ids(begin, end).filter(f).count(v) by {
        vstd::seq_lib::to_multiset_contains(pre, v);
        vstd::seq_lib::to_multiset_contains(mid, v);
        vstd::seq_lib::to_multiset_contains(post, v);
        if f(v) {
            if pre.contains(v) {
                let k = choose|k: int| 0 <= k < pre.len() && pre[k] == v;
                assert(t.point_at(begin + k) == t.points@[v as int]);
            }
            if post.contains(v) {
                let k = choose|k: int| 0 <= k < post.len() && post[k] == v;
                assert(t.point_at(hi + k) == t.points@[v as int]);
            }
        } else {
            if mid.contains(v) {
                let k = choose|k: int| 0 <= k < mid.len() && mid[k] == v;
                assert(t.point_at(lo + k) == t.points@[v as int]);
            }
        }
    }
    assert(t.ids(lo, hi) =~= t.ids(begin, end).filter(f));
}

} // verus!
