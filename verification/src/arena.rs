//! How the node arenas of a built tree hang together: which references are
//! valid, which nodes a subtree consists of, and which mathematical tree it
//! stands for.

use crate::geometry::DEN_MAX;
use crate::model::Tree;
use crate::octree::{Octree, LEAF_TAG};
use vstd::multiset::Multiset;
use vstd::prelude::*;

verus! {

impl Octree {
    /// Whether reference `r` names a leaf.
    pub open spec fn is_leaf_ref(r: u32) -> bool {
        r >= LEAF_TAG
    }

    /// The position in `leafs` that leaf reference `r` names.
    pub open spec fn leaf_index(r: u32) -> int {
        r - LEAF_TAG
    }

    /// The reference to the leaf at position `l` of `leafs`.
    pub open spec fn leaf_ref(l: int) -> u32 {
        (l + LEAF_TAG) as u32
    }

    /// The reference to the leaf at position `l` of `leafs`.
    #[inline]
    pub fn make_leaf_ref(l: u32) -> (r: u32)
        requires
            l < LEAF_TAG,
        ensures
            r == Self::leaf_ref(l as int),
            Self::is_leaf_ref(r),
            Self::leaf_index(r) == l,
    {
        assert(0x8000_0000u32 | l == 0x8000_0000u32 + l) by (bit_vector)
            requires
                l < 0x8000_0000u32,
        ;
        0x8000_0000 | l
    }

    /// Whether reference `r` names a stem.
    #[inline]
    pub fn is_stem(r: u32) -> (b: bool)
        ensures
            b == !Self::is_leaf_ref(r),
    {
        assert((r & 0x8000_0000) == 0 <==> r < 0x8000_0000u32) by (bit_vector);
        (r & 0x8000_0000) == 0
    }

    /// The position in `leafs` that leaf reference `r` names.
    #[inline]
    pub fn leaf_number(r: u32) -> (l: u32)
        requires
            Self::is_leaf_ref(r),
        ensures
            l == Self::leaf_index(r),
    {
        assert(r & 0x7fff_ffff == r - 0x8000_0000u32) by (bit_vector)
            requires
                r >= 0x8000_0000u32,
        ;
        r & 0x7fff_ffff
    }

    /// A measure that every child reference of a linked tree lowers.
    pub open spec fn rank(r: u32) -> nat {
        if Self::is_leaf_ref(r) {
            0
        } else {
            (r + 1) as nat
        }
    }

    /// Child `o` of the stem at position `s`.
    pub open spec fn child(&self, s: int, o: int) -> u32 {
        self.stems@[s].childs_idx[o]
    }

    /// `r` names a leaf that exists, or a stem at a position below `bound`.
    pub open spec fn ref_ok(&self, r: u32, bound: int) -> bool {
        if Self::is_leaf_ref(r) {
            Self::leaf_index(r) < self.leafs@.len()
        } else {
            r < bound && r < self.stems@.len()
        }
    }

    /// Every child of every stem is a leaf that exists or a stem stored
    /// before its parent, and every leaf's range lies within the permutation.
    pub open spec fn linked(&self) -> bool {
        &&& forall|s: int, o: int|
            0 <= s < self.stems@.len() && 0 <= o < 8 ==> self.ref_ok(#[trigger] self.child(s, o), s)
        &&& forall|l: int|
            0 <= l < self.leafs@.len() ==> (#[trigger] self.leafs@[l]).begin <= self.leafs@[l].end
                <= self.indices@.len()
    }

    /// The references of the nodes of the subtree under child `o` of the stem
    /// `r`.
    pub open spec fn nodes_under(&self, r: u32, o: int) -> Set<u32>
        decreases Self::rank(r), 0nat,
    {
        if Self::rank(self.child(r as int, o)) < Self::rank(r) {
            self.nodes_at(self.child(r as int, o))
        } else {
            Set::empty()
        }
    }

    /// The first child of the stem `r` whose subtree holds `x`; 7 if none does.
    pub open spec fn branch_of(&self, r: u32, x: u32) -> int {
        if self.nodes_under(r, 0).contains(x) {
            0
        } else if self.nodes_under(r, 1).contains(x) {
            1
        } else if self.nodes_under(r, 2).contains(x) {
            2
        } else if self.nodes_under(r, 3).contains(x) {
            3
        } else if self.nodes_under(r, 4).contains(x) {
            4
        } else if self.nodes_under(r, 5).contains(x) {
            5
        } else if self.nodes_under(r, 6).contains(x) {
            6
        } else {
            7
        }
    }

    /// The references of the nodes of the subtree under `r`, `r` included.
    pub open spec fn nodes_at(&self, r: u32) -> Set<u32>
        decreases Self::rank(r), 1nat,
    {
        if Self::is_leaf_ref(r) || r >= self.stems@.len() {
            set![r]
        } else {
            set![r].union(self.nodes_under(r, 0)).union(self.nodes_under(r, 1)).union(
                self.nodes_under(r, 2),
            ).union(self.nodes_under(r, 3)).union(self.nodes_under(r, 4)).union(
                self.nodes_under(r, 5),
            ).union(self.nodes_under(r, 6)).union(self.nodes_under(r, 7))
        }
    }

    /// The mathematical tree that the subtree under `r` stands for.
    pub open spec fn model_at(&self, r: u32) -> Tree
        decreases Self::rank(r),
    {
        if Self::is_leaf_ref(r) {
            let l = Self::leaf_index(r);
            if l < self.leafs@.len() {
                Tree::Leaf { ids: self.ids(self.leafs@[l].begin as int, self.leafs@[l].end as int) }
            } else {
                Tree::Leaf { ids: Multiset::empty() }
            }
        } else if r < self.stems@.len() {
            Tree::Stem {
                children: Seq::new(
                    8,
                    |o: int|
                        if 0 <= o < 8 && Self::rank(self.child(r as int, o)) < Self::rank(r) {
                            self.model_at(self.child(r as int, o))
                        } else {
                            Tree::Leaf { ids: Multiset::empty() }
                        },
                ),
            }
        } else {
            Tree::Leaf { ids: Multiset::empty() }
        }
    }

    /// Whether a cube with denominator `den` can be subdivided all the way
    /// down the subtree under `r`.
    pub open spec fn roomy(&self, r: u32, den: int) -> bool
        decreases Self::rank(r),
    {
        Self::is_leaf_ref(r) || r >= self.stems@.len() || (4 * den <= DEN_MAX && forall|o: int|
            0 <= o < 8 && Self::rank(#[trigger] self.child(r as int, o)) < Self::rank(r)
                ==> self.roomy(self.child(r as int, o), 4 * den))
    }

    /// The number of stems in the subtree under child `o` of the stem `r`.
    pub open spec fn stems_under(&self, r: u32, o: int) -> nat
        decreases Self::rank(r), 0nat,
    {
        if Self::rank(self.child(r as int, o)) < Self::rank(r) {
            self.stems_in(self.child(r as int, o))
        } else {
            0
        }
    }

    /// The number of stems in the subtree under `r`.
    #[verifier::opaque]
    pub open spec fn stems_in(&self, r: u32) -> nat
        decreases Self::rank(r), 1nat,
    {
        if Self::is_leaf_ref(r) || r >= self.stems@.len() {
            0
        } else {
            1 + self.stems_under(r, 0) + self.stems_under(r, 1) + self.stems_under(r, 2)
                + self.stems_under(r, 3) + self.stems_under(r, 4) + self.stems_under(r, 5)
                + self.stems_under(r, 6) + self.stems_under(r, 7)
        }
    }

    /// The number of leaves in the subtree under child `o` of the stem `r`.
    pub open spec fn leaves_under(&self, r: u32, o: int) -> nat
        decreases Self::rank(r), 0nat,
    {
        if Self::rank(self.child(r as int, o)) < Self::rank(r) {
            self.leaves_in(self.child(r as int, o))
        } else {
            0
        }
    }

    /// The number of leaves in the subtree under `r`.
    #[verifier::opaque]
    pub open spec fn leaves_in(&self, r: u32) -> nat
        decreases Self::rank(r), 1nat,
    {
        if Self::is_leaf_ref(r) || r >= self.stems@.len() {
            1
        } else {
            self.leaves_under(r, 0) + self.leaves_under(r, 1) + self.leaves_under(r, 2)
                + self.leaves_under(r, 3) + self.leaves_under(r, 4) + self.leaves_under(r, 5)
                + self.leaves_under(r, 6) + self.leaves_under(r, 7)
        }
    }

    /// The number of stems under the first `n` children of the stem `r`.
    pub open spec fn stems_before(&self, r: u32, n: nat) -> nat
        decreases n,
    {
        if n == 0 {
            0
        } else {
            self.stems_before(r, (n - 1) as nat) + self.stems_under(r, n - 1)
        }
    }

    /// The number of leaves under the first `n` children of the stem `r`.
    pub open spec fn leaves_before(&self, r: u32, n: nat) -> nat
        decreases n,
    {
        if n == 0 {
            0
        } else {
            self.leaves_before(r, (n - 1) as nat) + self.leaves_under(r, n - 1)
        }
    }

    /// The subtree under `r` is stored the way a build stores it: from the
    /// stem position `s_lo` and the leaf position `l_lo` on, without a gap,
    /// the subtrees of the children of a stem one after the other, from the
    /// first octant to the last, and then the stem itself.
    pub open spec fn packed(&self, r: u32, s_lo: int, l_lo: int) -> bool
        decreases Self::rank(r),
    {
        if Self::is_leaf_ref(r) {
            Self::leaf_index(r) == l_lo
        } else {
            &&& r < self.stems@.len()
            &&& r == s_lo + self.stems_in(r) - 1
            &&& forall|o: int|
                0 <= o < 8 ==> Self::rank(#[trigger] self.child(r as int, o)) < Self::rank(r)
                    && self.packed(
                    self.child(r as int, o),
                    s_lo + self.stems_before(r, o as nat),
                    l_lo + self.leaves_before(r, o as nat),
                )
        }
    }

    /// The mathematical tree that the whole tree stands for.
    pub open spec fn model(&self) -> Tree {
        self.model_at(self.root)
    }

    /// The nodes stored at stem positions `s_lo..s_hi` and leaf positions
    /// `l_lo..l_hi`.
    pub open spec fn block(s_lo: int, s_hi: int, l_lo: int, l_hi: int) -> Set<u32> {
        Set::new(
            |x: u32|
                if Self::is_leaf_ref(x) {
                    l_lo <= Self::leaf_index(x) < l_hi
                } else {
                    s_lo <= x < s_hi
                },
        )
    }

    /// The other tree holds every node of this one, unchanged, and the same
    /// points.
    pub open spec fn grown_to(&self, other: &Octree) -> bool {
        &&& self.stems@.len() <= other.stems@.len()
        &&& self.leafs@.len() <= other.leafs@.len()
        &&& forall|s: int| 0 <= s < self.stems@.len() ==> #[trigger] self.stems@[s] == other.stems@[s]
        &&& forall|l: int| 0 <= l < self.leafs@.len() ==> #[trigger] self.leafs@[l] == other.leafs@[l]
        &&& self.points == other.points
        &&& self.indices@.len() == other.indices@.len()
    }

    /// The two permutations agree on the range of the leaf at position `l`.
    pub open spec fn agree_on_leaf(&self, other: &Octree, l: int) -> bool {
        forall|i: int|
            self.leafs@[l].begin <= i < self.leafs@[l].end ==> #[trigger] self.indices@[i]
                == other.indices@[i]
    }
}

/// A subtree is the same, node for node and as a mathematical tree, in any
/// tree that has grown from this one and agrees with it on the ranges of the
/// subtree's leaves.
#[verifier::rlimit(40)]
pub proof fn lemma_frame(a: &Octree, b: &Octree, r: u32, bound: int)
    requires
        a.linked(),
        a.ref_ok(r, bound),
        a.grown_to(b),
        forall|x: u32|
            a.nodes_at(r).contains(x) && Octree::is_leaf_ref(x) && Octree::leaf_index(x)
                < a.leafs@.len() ==> a.agree_on_leaf(b, #[trigger] Octree::leaf_index(x)),
    ensures
        b.ref_ok(r, bound),
        b.nodes_at(r) == a.nodes_at(r),
        b.model_at(r) == a.model_at(r),
        forall|den: int| a.roomy(r, den) ==> b.roomy(r, den),
    decreases Octree::rank(r),
{
    if Octree::is_leaf_ref(r) {
        let l = Octree::leaf_index(r);
        assert(a.nodes_at(r).contains(r));
        assert(a.agree_on_leaf(b, l));
        let leaf = a.leafs@[l];
        assert(b.leafs@[l] == leaf);
        assert(a.indices@.subrange(leaf.begin as int, leaf.end as int) =~= b.indices@.subrange(
            leaf.begin as int,
            leaf.end as int,
        ));
    } else {
        assert forall|o: int| 0 <= o < 8 implies b.nodes_at(#[trigger] a.child(r as int, o))
            == a.nodes_at(a.child(r as int, o)) && b.model_at(a.child(r as int, o)) == a.model_at(
            a.child(r as int, o),
        ) by {
            let c = a.child(r as int, o);
            assert(a.ref_ok(c, r as int));
            assert forall|x: u32|
                a.nodes_at(c).contains(x) && Octree::is_leaf_ref(x) && Octree::leaf_index(x)
                    < a.leafs@.len() implies a.agree_on_leaf(b, #[trigger] Octree::leaf_index(x)) by {
                assert(a.nodes_under(r, o).contains(x));
                assert(a.nodes_at(r).contains(x));
            }
            lemma_frame(a, b, c, r as int);
        }
        assert(a.stems@[r as int] == b.stems@[r as int]);
        assert forall|o: int| 0 <= o < 8 implies a.child(r as int, o) == b.child(r as int, o) by {}
        assert forall|o: int| 0 <= o < 8 implies #[trigger] b.nodes_under(r, o) == a.nodes_under(
            r,
            o,
        ) by {
            assert(a.ref_ok(a.child(r as int, o), r as int));
        }
        assert(b.nodes_at(r) =~= a.nodes_at(r));
        assert(b.model_at(r)->children =~= a.model_at(r)->children);
        assert forall|den: int| a.roomy(r, den) implies b.roomy(r, den) by {
            assert forall|o: int|
                0 <= o < 8 && Octree::rank(#[trigger] b.child(r as int, o)) < Octree::rank(
                    r,
                ) implies b.roomy(b.child(r as int, o), 4 * den) by {
                assert(a.child(r as int, o) == b.child(r as int, o));
                assert(a.roomy(a.child(r as int, o), 4 * den));
                assert(a.ref_ok(a.child(r as int, o), r as int));
                lemma_frame(a, b, a.child(r as int, o), r as int);
            }
        }
    }
}

/// A subtree counts the same stems and leaves, and is packed the same way,
/// in any tree that has grown from this one.
#[verifier::rlimit(40)]
pub proof fn lemma_layout_frame(a: &Octree, b: &Octree, r: u32, bound: int)
    requires
        a.linked(),
        a.ref_ok(r, bound),
        a.grown_to(b),
    ensures
        b.stems_in(r) == a.stems_in(r),
        b.leaves_in(r) == a.leaves_in(r),
        forall|s_lo: int, l_lo: int| a.packed(r, s_lo, l_lo) ==> b.packed(r, s_lo, l_lo),
    decreases Octree::rank(r),
{
    reveal(Octree::stems_in);
    reveal(Octree::leaves_in);
    if !Octree::is_leaf_ref(r) {
        assert(a.stems@[r as int] == b.stems@[r as int]);
        assert forall|o: int| 0 <= o < 8 implies {
            &&& a.child(r as int, o) == #[trigger] b.child(r as int, o)
            &&& b.stems_in(a.child(r as int, o)) == a.stems_in(a.child(r as int, o))
            &&& b.leaves_in(a.child(r as int, o)) == a.leaves_in(a.child(r as int, o))
            &&& forall|s_lo: int, l_lo: int|
                a.packed(a.child(r as int, o), s_lo, l_lo) ==> b.packed(
                    a.child(r as int, o),
                    s_lo,
                    l_lo,
                )
        } by {
            let c = a.child(r as int, o);
            assert(a.ref_ok(c, r as int));
            lemma_layout_frame(a, b, c, r as int);
        }
        assert forall|o: int| 0 <= o < 8 implies #[trigger] b.stems_under(r, o) == a.stems_under(
            r,
            o,
        ) && b.leaves_under(r, o) == a.leaves_under(r, o) by {
            assert(a.ref_ok(a.child(r as int, o), r as int));
            assert(a.child(r as int, o) == b.child(r as int, o));
        }
        assert(b.stems_under(r, 0) == a.stems_under(r, 0));
        assert(b.stems_under(r, 1) == a.stems_under(r, 1));
        assert(b.stems_under(r, 2) == a.stems_under(r, 2));
        assert(b.stems_under(r, 3) == a.stems_under(r, 3));
        assert(b.stems_under(r, 4) == a.stems_under(r, 4));
        assert(b.stems_under(r, 5) == a.stems_under(r, 5));
        assert(b.stems_under(r, 6) == a.stems_under(r, 6));
        assert(b.stems_under(r, 7) == a.stems_under(r, 7));
        assert(b.leaves_under(r, 0) == a.leaves_under(r, 0));
        assert(b.leaves_under(r, 1) == a.leaves_under(r, 1));
        assert(b.leaves_under(r, 2) == a.leaves_under(r, 2));
        assert(b.leaves_under(r, 3) == a.leaves_under(r, 3));
        assert(b.leaves_under(r, 4) == a.leaves_under(r, 4));
        assert(b.leaves_under(r, 5) == a.leaves_under(r, 5));
        assert(b.leaves_under(r, 6) == a.leaves_under(r, 6));
        assert(b.leaves_under(r, 7) == a.leaves_under(r, 7));
        assert forall|n: nat| n <= 8 implies #[trigger] b.stems_before(r, n) == a.stems_before(r, n)
            && b.leaves_before(r, n) == a.leaves_before(r, n) by {
            lemma_before_frame(a, b, r, n);
        }
        assert forall|s_lo: int, l_lo: int| a.packed(r, s_lo, l_lo) implies b.packed(
            r,
            s_lo,
            l_lo,
        ) by {
            assert forall|o: int| 0 <= o < 8 implies Octree::rank(
                #[trigger] b.child(r as int, o),
            ) < Octree::rank(r) && b.packed(
                b.child(r as int, o),
                s_lo + b.stems_before(r, o as nat),
                l_lo + b.leaves_before(r, o as nat),
            ) by {
                assert(a.child(r as int, o) == b.child(r as int, o));
                assert(a.ref_ok(a.child(r as int, o), r as int));
                assert(a.packed(
                    a.child(r as int, o),
                    s_lo + a.stems_before(r, o as nat),
                    l_lo + a.leaves_before(r, o as nat),
                ));
                assert(b.stems_before(r, o as nat) == a.stems_before(r, o as nat));
                assert(b.leaves_before(r, o as nat) == a.leaves_before(r, o as nat));
            }
        }
    }
}

/// The numbers of stems and leaves under the first children of a stem are
/// the same in two trees in which they are the same under each child.
pub proof fn lemma_before_frame(a: &Octree, b: &Octree, r: u32, n: nat)
    requires
        forall|o: int|
            0 <= o < 8 ==> #[trigger] b.stems_under(r, o) == a.stems_under(r, o)
                && b.leaves_under(r, o) == a.leaves_under(r, o),
        n <= 8,
    ensures
        b.stems_before(r, n) == a.stems_before(r, n),
        b.leaves_before(r, n) == a.leaves_before(r, n),
    decreases n,
{
    if n > 0 {
        lemma_before_frame(a, b, r, (n - 1) as nat);
        assert(b.stems_under(r, n - 1) == a.stems_under(r, n - 1));
    }
}

/// The nodes of a subtree are its root, leaves that exist and stems stored
/// before the root.
pub proof fn lemma_nodes_below(t: &Octree, r: u32, bound: int, x: u32)
    requires
        t.linked(),
        t.ref_ok(r, bound),
        t.nodes_at(r).contains(x),
    ensures
        x == r || t.ref_ok(x, r as int),
        t.ref_ok(x, bound),
    decreases Octree::rank(r),
{
    if !Octree::is_leaf_ref(r) && x != r {
        let o = t.branch_of(r, x);
        let c = t.child(r as int, o);
        assert(t.ref_ok(c, r as int));
        lemma_nodes_below(t, c, r as int, x);
    }
}

} // verus!
