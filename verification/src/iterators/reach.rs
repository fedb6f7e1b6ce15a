//! What the walks over a growing tree promise: every node below the root
//! exactly once, a stem before what lies below it from the top down, after
//! it from the bottom up.

use crate::geometry::Cube;
use crate::incremental::IncrementalOctree;
use crate::iterators::growing::GrowingNode;
use crate::iterators::order::{
    closed, lemma_visits_both, lemma_visits_one, lemma_visits_with_root, visits,
};
use vstd::prelude::*;

verus! {

/// The reference of a node met on a walk.
pub open spec fn ref_of(node: GrowingNode) -> usize {
    match node {
        GrowingNode::Stem { stem, .. } => (8 * stem) as usize,
        GrowingNode::Leaf { block, .. } => (IncrementalOctree::tag() + block) as usize,
    }
}

/// The references of the nodes of a walk, in order.
pub open spec fn refs_of(walk: Seq<GrowingNode>) -> Seq<usize> {
    walk.map_values(|n: GrowingNode| ref_of(n))
}

/// Whether `path` starts with `start`.
pub open spec fn starts_with(path: Seq<int>, start: Seq<int>) -> bool {
    start.len() <= path.len() && path.take(start.len() as int) == start
}

impl IncrementalOctree {
    /// The nodes below child `o` of stem `s`, that child included.
    pub open spec fn reach_under(&self, s: int, o: int) -> Set<usize>
        decreases self.stems() - s, 0nat,
    {
        if 0 <= s < self.stems() && self.goes_into(s, o) {
            self.reach(self.slot(s, o))
        } else {
            Set::empty()
        }
    }

    /// The nodes of the subtree under `r`, `r` included.
    pub open spec fn reach(&self, r: usize) -> Set<usize>
        decreases self.height(r), 1nat,
    {
        if Self::is_stem_ref(r) && Self::stem_of(r) < self.stems() {
            let s = Self::stem_of(r);
            set![r].union(self.reach_under(s, 0)).union(self.reach_under(s, 1)).union(
                self.reach_under(s, 2),
            ).union(self.reach_under(s, 3)).union(self.reach_under(s, 4)).union(
                self.reach_under(s, 5),
            ).union(self.reach_under(s, 6)).union(self.reach_under(s, 7))
        } else {
            set![r]
        }
    }

    /// The nodes below the first `n` children of stem `s`.
    pub open spec fn reach_upto(&self, s: int, n: nat) -> Set<usize>
        decreases n,
    {
        if n == 0 {
            Set::empty()
        } else {
            self.reach_upto(s, (n - 1) as nat).union(self.reach_under(s, n - 1))
        }
    }

    /// The first child of stem `s` below which `x` lies; 7 if there is none.
    pub open spec fn way_to(&self, s: int, x: usize) -> int {
        if self.reach_under(s, 0).contains(x) {
            0
        } else if self.reach_under(s, 1).contains(x) {
            1
        } else if self.reach_under(s, 2).contains(x) {
            2
        } else if self.reach_under(s, 3).contains(x) {
            3
        } else if self.reach_under(s, 4).contains(x) {
            4
        } else if self.reach_under(s, 5).contains(x) {
            5
        } else if self.reach_under(s, 6).contains(x) {
            6
        } else {
            7
        }
    }

    /// For each node, the nodes of its subtree.
    pub open spec fn subtrees(&self) -> spec_fn(usize) -> Set<usize> {
        |x: usize| self.reach(x)
    }
}

/// A node below a child of a stem is a leaf held by that stem or by a stem
/// below that child, or a stem whose path starts with the path of the child.
/// Returns the stem and the octant that hold the node.
#[verifier::rlimit(40)]
pub proof fn lemma_reach_held(t: &IncrementalOctree, s: int, o: int, x: usize) -> (held: (int, int))
    requires
        t.wf(),
        0 <= s < t.stems(),
        0 <= o < 8,
        t.reach_under(s, o).contains(x),
    ensures
        t.slot(held.0, held.1) == x,
        s <= held.0 < t.stems(),
        0 <= held.1 < 8,
        !IncrementalOctree::is_empty_ref(x),
        starts_with(t.paths@[held.0].push(held.1), t.paths@[s].push(o)),
        IncrementalOctree::is_stem_ref(x) ==> x % 8 == 0 && s < IncrementalOctree::stem_of(x)
            < t.stems() && starts_with(
            t.paths@[IncrementalOctree::stem_of(x)],
            t.paths@[s].push(o),
        ),
        held.0 != s ==> IncrementalOctree::is_stem_ref(t.slot(s, o)) && t.reach_under(s, o).contains(
            IncrementalOctree::stem_ref(held.0),
        ),
        held.0 == s ==> held.1 == o,
    decreases t.stems() - s,
{
    let r = t.slot(s, o);
    let path = t.paths@[s].push(o);
    assert(t.slot_ok(s, o, 0));
    assert(path.take(path.len() as int) =~= path);
    if x == r {
        return (s, o);
    }
    let s2 = IncrementalOctree::stem_of(r);
    let o2 = t.way_to(s2, x);
    assert(t.reach_under(s2, o2).contains(x));
    let held = lemma_reach_held(t, s2, o2, x);
    let inner = t.paths@[s2].push(o2);
    let outer = t.paths@[held.0].push(held.1);
    assert(inner.take(path.len() as int) =~= path);
    assert(outer.take(path.len() as int) =~= outer.take(inner.len() as int).take(
        path.len() as int,
    ));
    if IncrementalOctree::is_stem_ref(x) {
        let deep = t.paths@[IncrementalOctree::stem_of(x)];
        assert(deep.take(path.len() as int) =~= deep.take(inner.len() as int).take(
            path.len() as int,
        ));
    }
    if held.0 == s2 {
        assert(t.reach(r).contains(r));
        assert(IncrementalOctree::stem_ref(s2) == r);
    } else {
        assert(t.reach_under(s2, o2).contains(IncrementalOctree::stem_ref(held.0)));
    }
    held
}

/// No node lies below two different children of one stem.
pub proof fn lemma_reach_apart(t: &IncrementalOctree, s: int, o1: int, o2: int)
    requires
        t.wf(),
        0 <= s < t.stems(),
        0 <= o1 < 8,
        0 <= o2 < 8,
        o1 != o2,
    ensures
        t.reach_under(s, o1).disjoint(t.reach_under(s, o2)),
{
    reveal(IncrementalOctree::distinct);
    assert forall|x: usize| t.reach_under(s, o1).contains(x) implies !t.reach_under(s, o2).contains(
        x,
    ) by {
        if t.reach_under(s, o2).contains(x) {
            let h1 = lemma_reach_held(t, s, o1, x);
            let h2 = lemma_reach_held(t, s, o2, x);
            let base = t.paths@[s];
            let p1 = t.paths@[h1.0].push(h1.1);
            let p2 = t.paths@[h2.0].push(h2.1);
            assert(h1 == h2);
            assert(p1.take(base.len() as int + 1)[base.len() as int] == o1);
            assert(p2.take(base.len() as int + 1)[base.len() as int] == o2);
        }
    }
}

/// The nodes below a stem: each set of them is closed, none holds the stem,
/// and together with the stem they are the subtree of the stem.
pub proof fn lemma_reach_upto(t: &IncrementalOctree, s: int, n: nat)
    requires
        t.wf(),
        0 <= s < t.stems(),
        n <= 8,
    ensures
        closed(t.subtrees(), t.reach_upto(s, n)),
        !t.reach_upto(s, n).contains(IncrementalOctree::stem_ref(s)),
        forall|x: usize|
            t.reach_upto(s, n).contains(x) ==> 0 <= t.way_to(s, x) < n && t.reach_under(
                s,
                t.way_to(s, x),
            ).contains(x),
        n == 8 ==> t.reach(IncrementalOctree::stem_ref(s)) == t.reach_upto(s, 8).insert(
            IncrementalOctree::stem_ref(s),
        ),
    decreases n,
{
    let below = t.subtrees();
    if n > 0 {
        lemma_reach_upto(t, s, (n - 1) as nat);
        lemma_reach_closed(t, s, n - 1);
        assert forall|x: usize| #[trigger] t.reach_under(s, n - 1).contains(x) implies x
            != IncrementalOctree::stem_ref(s) by {
            let held = lemma_reach_held(t, s, n - 1, x);
        }
        assert forall|x: usize, y: usize|
            t.reach_upto(s, n).contains(x) && (#[trigger] below(x).contains(y)) implies t.reach_upto(
            s,
            n,
        ).contains(y) by {
            if t.reach_upto(s, (n - 1) as nat).contains(x) {
                assert(t.reach_upto(s, (n - 1) as nat).contains(y));
            } else {
                assert(t.reach_under(s, n - 1).contains(y));
            }
        }
    } else {
        assert forall|x: usize, y: usize|
            t.reach_upto(s, n).contains(x) && (#[trigger] below(x).contains(y)) implies t.reach_upto(
            s,
            n,
        ).contains(y) by {}
    }
    if n == 8 {
        reveal_with_fuel(IncrementalOctree::reach_upto, 9);
        assert(t.reach(IncrementalOctree::stem_ref(s)) =~= t.reach_upto(s, 8).insert(
            IncrementalOctree::stem_ref(s),
        ));
    }
}

/// The nodes below a child of a stem hold, with each node, that node's
/// whole subtree.
#[verifier::rlimit(40)]
pub proof fn lemma_reach_closed(t: &IncrementalOctree, s: int, o: int)
    requires
        t.wf(),
        0 <= s < t.stems(),
        0 <= o < 8,
    ensures
        closed(t.subtrees(), t.reach_under(s, o)),
    decreases t.stems() - s,
{
    let below = t.subtrees();
    let r = t.slot(s, o);
    assert(t.slot_ok(s, o, 0));
    assert forall|x: usize, y: usize|
        t.reach_under(s, o).contains(x) && (#[trigger] below(x).contains(y)) implies t.reach_under(
        s,
        o,
    ).contains(y) by {
        if x != r {
            let s2 = IncrementalOctree::stem_of(r);
            let o2 = t.way_to(s2, x);
            lemma_reach_closed(t, s2, o2);
            assert(t.reach_under(s2, o2).contains(y));
        }
    }
}

/// From the top down and from the bottom up: the walk over the subtree of a
/// stem visits exactly the nodes of the subtree, each once, and in the order
/// that the direction asks for.
pub proof fn lemma_walk_visits(t: &IncrementalOctree, s: int, cube: Cube, downward: bool)
    requires
        t.wf(),
        0 <= s < t.stems(),
    ensures
        downward ==> visits(
            t.subtrees(),
            refs_of(t.down(IncrementalOctree::stem_ref(s), cube)),
            t.reach(IncrementalOctree::stem_ref(s)),
            true,
        ),
        !downward ==> visits(
            t.subtrees(),
            refs_of(t.up(IncrementalOctree::stem_ref(s), cube)),
            t.reach(IncrementalOctree::stem_ref(s)),
            false,
        ),
    decreases t.stems() - s, 9nat,
{
    let r = IncrementalOctree::stem_ref(s);
    let node = seq![t.node(r, cube)];
    assert(refs_of(node) =~= seq![r]);
    lemma_kids_visit(t, s, cube, 8, downward);
    lemma_reach_upto(t, s, 8);
    if downward {
        let kids = t.down_kids(s, cube, 8);
        assert(refs_of(node + kids) =~= seq![r] + refs_of(kids));
        lemma_visits_with_root(t.subtrees(), r, refs_of(kids), t.reach_upto(s, 8), true);
    } else {
        let kids = t.up_kids(s, cube, 8);
        assert(refs_of(kids + node) =~= refs_of(kids) + seq![r]);
        lemma_visits_with_root(t.subtrees(), r, refs_of(kids), t.reach_upto(s, 8), false);
    }
}

/// The walk over the first `n` children of a stem, in either direction.
#[verifier::rlimit(40)]
pub proof fn lemma_kids_visit(t: &IncrementalOctree, s: int, cube: Cube, n: nat, downward: bool)
    requires
        t.wf(),
        0 <= s < t.stems(),
        n <= 8,
    ensures
        downward ==> visits(
            t.subtrees(),
            refs_of(t.down_kids(s, cube, n)),
            t.reach_upto(s, n),
            true,
        ),
        !downward ==> visits(t.subtrees(), refs_of(t.up_kids(s, cube, n)), t.reach_upto(s, n), false),
    decreases t.stems() - s, n,
{
    if n == 0 {
        assert(refs_of(t.down_kids(s, cube, 0)) =~= Seq::<usize>::empty());
        assert(refs_of(t.up_kids(s, cube, 0)) =~= Seq::<usize>::empty());
    } else {
        let o = (n - 1) as int;
        let c = t.slot(s, o);
        let sub = cube.child(o);
        lemma_kids_visit(t, s, cube, (n - 1) as nat, downward);
        assert(t.slot_ok(s, o, 0));
        if t.goes_into(s, o) {
            let first = if downward {
                t.down(c, sub)
            } else {
                t.up(c, sub)
            };
            let rest = if downward {
                t.down_kids(s, cube, (n - 1) as nat)
            } else {
                t.up_kids(s, cube, (n - 1) as nat)
            };
            if IncrementalOctree::is_stem_ref(c) {
                assert(IncrementalOctree::stem_ref(IncrementalOctree::stem_of(c)) == c);
                lemma_walk_visits(t, IncrementalOctree::stem_of(c), sub, downward);
            } else {
                assert(refs_of(seq![t.node(c, sub)]) =~= seq![c]);
                lemma_visits_one(t.subtrees(), c, downward);
            }
            lemma_kid_joins(t, s, n, refs_of(first), refs_of(rest), downward);
            assert(refs_of(first + rest) =~= refs_of(first) + refs_of(rest));
        } else {
            assert(t.reach_upto(s, n) =~= t.reach_upto(s, (n - 1) as nat));
        }
    }
}

/// A walk over the subtree under child `n - 1` of a stem, followed by a walk
/// over the subtrees under the children before it, is a walk over the
/// subtrees under the first `n` children.
#[verifier::rlimit(40)]
pub proof fn lemma_kid_joins(
    t: &IncrementalOctree,
    s: int,
    n: nat,
    first: Seq<usize>,
    rest: Seq<usize>,
    downward: bool,
)
    requires
        t.wf(),
        0 <= s < t.stems(),
        0 < n <= 8,
        t.goes_into(s, n - 1),
        visits(t.subtrees(), first, t.reach(t.slot(s, n - 1)), downward),
        visits(t.subtrees(), rest, t.reach_upto(s, (n - 1) as nat), downward),
    ensures
        visits(t.subtrees(), first + rest, t.reach_upto(s, n), downward),
{
    let o = (n - 1) as int;
    let c = t.slot(s, o);
    lemma_reach_closed(t, s, o);
    lemma_reach_upto(t, s, (n - 1) as nat);
    assert(t.reach_under(s, o) == t.reach(c));
    assert(t.reach(c).disjoint(t.reach_upto(s, (n - 1) as nat))) by {
        assert forall|x: usize| t.reach_upto(s, (n - 1) as nat).contains(x) implies !t.reach(
            c,
        ).contains(x) by {
            lemma_reach_apart(t, s, t.way_to(s, x), o);
        }
    }
    lemma_visits_both(
        t.subtrees(),
        first,
        t.reach(c),
        rest,
        t.reach_upto(s, (n - 1) as nat),
        downward,
    );
    assert(t.reach(c).union(t.reach_upto(s, (n - 1) as nat)) =~= t.reach_upto(s, n));
}

/// Cube nesting in a growing tree: the cube of a child of a stem has exactly
/// half the edge of the stem's cube, and its centre lies exactly a quarter of
/// that edge from the stem's centre along each axis, towards the side of the
/// child's octant; a child that is a stem has that cube as its own.
pub proof fn lemma_growing_nesting(t: &IncrementalOctree, s: int, o: int)
    requires
        t.wf(),
        0 <= s < t.stems(),
        0 <= o < 8,
    ensures
        t.cube_of(s).nests(t.cube_of(s).child(o), o),
        IncrementalOctree::is_stem_ref(t.slot(s, o)) ==> t.cube_of(
            IncrementalOctree::stem_of(t.slot(s, o)),
        ) == t.cube_of(s).child(o),
{
    t.lemma_stem_cube(s);
    crate::geometry::lemma_cube_nesting(t.cube_of(s), o);
    assert(t.slot_ok(s, o, 0));
    let r = t.slot(s, o);
    if IncrementalOctree::is_stem_ref(r) {
        assert(t.paths@[IncrementalOctree::stem_of(r)].drop_last() =~= t.paths@[s]);
    }
}

/// Completeness from the top down: the walk over a sound growing tree
/// visits every node that can be reached from the root, each exactly once,
/// and every stem before all the nodes below it.
pub proof fn lemma_growing_down_complete(t: &IncrementalOctree)
    requires
        t.wf(),
    ensures
        visits(
            t.subtrees(),
            refs_of(t.down(IncrementalOctree::stem_ref(0), t.bounds)),
            t.reach(IncrementalOctree::stem_ref(0)),
            true,
        ),
{
    lemma_walk_visits(t, 0, t.bounds, true);
}

/// Completeness from the bottom up: the walk over a sound growing tree
/// visits every node that can be reached from the root, each exactly once,
/// and every stem after all the nodes below it.
pub proof fn lemma_growing_up_complete(t: &IncrementalOctree)
    requires
        t.wf(),
    ensures
        visits(
            t.subtrees(),
            refs_of(t.up(IncrementalOctree::stem_ref(0), t.bounds)),
            t.reach(IncrementalOctree::stem_ref(0)),
            false,
        ),
{
    lemma_walk_visits(t, 0, t.bounds, false);
}

} // verus!
