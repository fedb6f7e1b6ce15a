//! What the walks promise: every node of the tree exactly once, a parent
//! before its children from the top down, after them from the bottom up.

use crate::arena::lemma_nodes_below;
use crate::geometry::Cube;
use crate::iterators::iter::IterNode;
use crate::octree::Octree;
use vstd::prelude::*;

verus! {

/// The references of the nodes of a walk, in order.
pub open spec fn refs_of(walk: Seq<IterNode>) -> Seq<u32> {
    walk.map_values(|n: IterNode| n.node_ref())
}

impl Octree {
    /// The nodes of the subtrees under the first `n` children of the stem `r`.
    pub open spec fn nodes_upto(&self, r: u32, n: nat) -> Set<u32>
        decreases n,
    {
        if n == 0 {
            Set::empty()
        } else {
            self.nodes_upto(r, (n - 1) as nat).union(self.nodes_under(r, n - 1))
        }
    }

    /// For each node, the nodes of its subtree.
    pub open spec fn subtrees(&self) -> spec_fn(u32) -> Set<u32> {
        |x: u32| self.nodes_at(x)
    }

    /// With a node, `nodes` holds the node's whole subtree.
    pub open spec fn closed(&self, nodes: Set<u32>) -> bool {
        closed(self.subtrees(), nodes)
    }

    /// `walk` visits exactly the nodes in `nodes`, each once; and wherever
    /// one node of it lies in the subtree of another, it comes after that
    /// other if `downward`, before it if not.
    pub open spec fn visits(&self, walk: Seq<u32>, nodes: Set<u32>, downward: bool) -> bool {
        visits(self.subtrees(), walk, nodes, downward)
    }
}

/// With a node, `nodes` holds the node's whole subtree, as `below` gives it.
pub open spec fn closed<T>(below: spec_fn(T) -> Set<T>, nodes: Set<T>) -> bool {
    forall|x: T, y: T| nodes.contains(x) && (#[trigger] below(x).contains(y)) ==> nodes.contains(y)
}

/// `walk` visits exactly the nodes in `nodes`, each once; and wherever one
/// node of it lies in the subtree of another, as `below` gives it, it comes
/// after that other if `downward`, before it if not.
pub open spec fn visits<T>(
    below: spec_fn(T) -> Set<T>,
    walk: Seq<T>,
    nodes: Set<T>,
    downward: bool,
) -> bool {
    &&& walk.no_duplicates()
    &&& forall|x: T| nodes.contains(x) <==> walk.contains(x)
    &&& forall|i: int, j: int|
        0 <= i < walk.len() && 0 <= j < walk.len() && i != j && below(#[trigger] walk[i]).contains(
            #[trigger] walk[j],
        ) ==> if downward {
            i < j
        } else {
            j < i
        }
}

/// The nodes of a subtree hold, with each node, that node's whole subtree.
pub proof fn lemma_nodes_closed(t: &Octree, r: u32, bound: int)
    requires
        t.linked(),
        t.ref_ok(r, bound),
    ensures
        t.closed(t.nodes_at(r)),
    decreases Octree::rank(r),
{
    if !Octree::is_leaf_ref(r) {
        let below = t.subtrees();
        assert forall|x: u32, y: u32|
            t.nodes_at(r).contains(x) && (#[trigger] below(x).contains(y)) implies t.nodes_at(
            r,
        ).contains(y) by {
            if x != r {
                let o = t.branch_of(r, x);
                let c = t.child(r as int, o);
                assert(t.ref_ok(c, r as int));
                lemma_nodes_closed(t, c, r as int);
                assert(t.nodes_under(r, o).contains(y));
            }
        }
    } else {
        let below = t.subtrees();
        assert forall|x: u32, y: u32|
            t.nodes_at(r).contains(x) && (#[trigger] below(x).contains(y)) implies t.nodes_at(
            r,
        ).contains(y) by {}
    }
}

/// The subtree of a stem is the stem and the subtrees under its eight
/// children; each of these is closed, and none holds the stem.
pub proof fn lemma_nodes_upto(t: &Octree, r: u32, n: nat)
    requires
        t.linked(),
        r < t.stems@.len(),
        !Octree::is_leaf_ref(r),
        n <= 8,
    ensures
        t.closed(t.nodes_upto(r, n)),
        !t.nodes_upto(r, n).contains(r),
        forall|o: int| 0 <= o < n ==> (#[trigger] t.nodes_under(r, o)).subset_of(t.nodes_upto(r, n)),
        forall|x: u32|
            t.nodes_upto(r, n).contains(x) ==> 0 <= t.branch_of(r, x) < n && t.nodes_under(
                r,
                t.branch_of(r, x),
            ).contains(x),
        n == 8 ==> t.nodes_at(r) == t.nodes_upto(r, 8).insert(r),
    decreases n,
{
    if n > 0 {
        lemma_nodes_upto(t, r, (n - 1) as nat);
        let c = t.child(r as int, n - 1);
        assert(t.ref_ok(c, r as int));
        lemma_nodes_closed(t, c, r as int);
        assert forall|x: u32| #[trigger] t.nodes_under(r, n - 1).contains(x) implies x != r by {
            lemma_nodes_below(t, c, r as int, x);
        }
        let below = t.subtrees();
        assert forall|x: u32, y: u32|
            t.nodes_upto(r, n).contains(x) && (#[trigger] below(x).contains(y)) implies t.nodes_upto(
            r,
            n,
        ).contains(y) by {
            if t.nodes_upto(r, (n - 1) as nat).contains(x) {
                assert(t.nodes_upto(r, (n - 1) as nat).contains(y));
            } else {
                assert(t.nodes_at(c).contains(y));
            }
        }
    } else {
        let below = t.subtrees();
        assert forall|x: u32, y: u32|
            t.nodes_upto(r, n).contains(x) && (#[trigger] below(x).contains(y)) implies t.nodes_upto(
            r,
            n,
        ).contains(y) by {}
    }
    if n == 8 {
        reveal_with_fuel(Octree::nodes_upto, 9);
        assert(t.nodes_at(r) =~= t.nodes_upto(r, 8).insert(r));
    }
}

/// Two walks over closed sets of nodes that share no node make, one after
/// the other, a walk over both sets.
pub proof fn lemma_visits_both<T>(
    below: spec_fn(T) -> Set<T>,
    a: Seq<T>,
    sa: Set<T>,
    b: Seq<T>,
    sb: Set<T>,
    downward: bool,
)
    requires
        visits(below, a, sa, downward),
        visits(below, b, sb, downward),
        closed(below, sa),
        closed(below, sb),
        sa.disjoint(sb),
    ensures
        visits(below, a + b, sa.union(sb), downward),
{
    let w = a + b;
    assert forall|i: int, j: int| 0 <= i < a.len() && 0 <= j < b.len() implies a[i] != b[j] by {
        assert(a.contains(a[i]) && b.contains(b[j]));
    }
    vstd::seq_lib::lemma_no_dup_in_concat(a, b);
    assert forall|x: T| sa.union(sb).contains(x) <==> w.contains(x) by {
        if sa.contains(x) {
            let i = choose|i: int| 0 <= i < a.len() && a[i] == x;
            assert(w[i] == x);
        }
        if sb.contains(x) {
            let j = choose|j: int| 0 <= j < b.len() && b[j] == x;
            assert(w[a.len() + j] == x);
        }
        if w.contains(x) {
            let k = choose|k: int| 0 <= k < w.len() && w[k] == x;
            if k < a.len() {
                assert(a[k] == x);
                assert(a.contains(x));
            } else {
                assert(b[k - a.len()] == x);
                assert(b.contains(x));
            }
        }
    }
    assert forall|i: int, j: int|
        0 <= i < w.len() && 0 <= j < w.len() && i != j && below(#[trigger] w[i]).contains(
            #[trigger] w[j],
        ) implies if downward {
        i < j
    } else {
        j < i
    } by {
        if i < a.len() {
            assert(a.contains(a[i]));
            assert(sa.contains(w[j]));
            if j >= a.len() {
                assert(b.contains(b[j - a.len()]));
            } else {
                assert(below(a[i]).contains(a[j]));
            }
        } else {
            assert(b.contains(b[i - a.len()]));
            assert(sb.contains(w[j]));
            if j < a.len() {
                assert(a.contains(a[j]));
            } else {
                assert(below(b[i - a.len()]).contains(b[j - a.len()]));
            }
        }
    }
}

/// The walk of a single node visits that node.
pub proof fn lemma_visits_one<T>(below: spec_fn(T) -> Set<T>, r: T, downward: bool)
    ensures
        visits(below, seq![r], set![r], downward),
{
    assert forall|x: T| set![r].contains(x) <==> seq![r].contains(x) by {
        if x == r {
            assert(seq![r][0] == x);
        }
    }
}

/// A walk over everything below a stem, with the stem put first or last,
/// is a walk over the subtree of the stem.
pub proof fn lemma_visits_with_root<T>(
    below: spec_fn(T) -> Set<T>,
    r: T,
    kids: Seq<T>,
    under: Set<T>,
    downward: bool,
)
    requires
        visits(below, kids, under, downward),
        closed(below, under),
        !under.contains(r),
        below(r) == under.insert(r),
    ensures
        downward ==> visits(below, seq![r] + kids, below(r), true),
        !downward ==> visits(below, kids + seq![r], below(r), false),
{
    let w = if downward {
        seq![r] + kids
    } else {
        kids + seq![r]
    };
    let at = if downward {
        0
    } else {
        kids.len() as int
    };
    let shift = if downward {
        1int
    } else {
        0int
    };
    assert(w[at] == r);
    assert forall|k: int| 0 <= k < kids.len() implies #[trigger] w[k + shift] == kids[k]
        && under.contains(kids[k]) by {
        assert(kids.contains(kids[k]));
    }
    assert forall|i: int, j: int| 0 <= i < w.len() && 0 <= j < w.len() && i != j implies w[i]
        != w[j] by {
        if i != at && j != at {
            assert(w[i - shift + shift] == kids[i - shift]);
            assert(w[j - shift + shift] == kids[j - shift]);
        } else if i != at {
            assert(w[i - shift + shift] == kids[i - shift]);
        } else {
            assert(w[j - shift + shift] == kids[j - shift]);
        }
    }
    assert forall|x: T| below(r).contains(x) <==> w.contains(x) by {
        if x == r {
            assert(w[at] == x);
        } else if under.contains(x) {
            let k = choose|k: int| 0 <= k < kids.len() && kids[k] == x;
            assert(w[k + shift] == x);
        }
        if w.contains(x) {
            let k = choose|k: int| 0 <= k < w.len() && w[k] == x;
            if k != at {
                assert(w[k - shift + shift] == kids[k - shift]);
            }
        }
    }
    assert forall|i: int, j: int|
        0 <= i < w.len() && 0 <= j < w.len() && i != j && below(#[trigger] w[i]).contains(
            #[trigger] w[j],
        ) implies if downward {
        i < j
    } else {
        j < i
    } by {
        if i != at {
            assert(w[i - shift + shift] == kids[i - shift]);
            if j != at {
                assert(w[j - shift + shift] == kids[j - shift]);
                assert(below(kids[i - shift]).contains(kids[j - shift]));
            } else {
                assert(under.contains(r));
            }
        }
    }
}

/// From the top down: the walk over a subtree visits exactly the nodes of
/// the subtree, each once, and no node before one whose subtree it lies in.
pub proof fn lemma_down_visits(t: &Octree, r: u32, cube: Cube, bound: int)
    requires
        t.linked(),
        t.shaped(),
        t.ref_ok(r, bound),
    ensures
        t.visits(refs_of(t.down(r, cube)), t.nodes_at(r), true),
    decreases Octree::rank(r), 9nat,
{
    let node = seq![Octree::node(r, cube)];
    assert(refs_of(node) =~= seq![r]);
    if Octree::is_leaf_ref(r) {
        lemma_visits_one(t.subtrees(), r, true);
    } else {
        let kids = t.down_kids(r, cube, 8);
        lemma_down_kids_visit(t, r, cube, 8);
        lemma_nodes_upto(t, r, 8);
        assert(refs_of(node + kids) =~= seq![r] + refs_of(kids));
        lemma_visits_with_root(t.subtrees(), r, refs_of(kids), t.nodes_upto(r, 8), true);
    }
}

/// From the bottom up: the walk over a subtree visits exactly the nodes of
/// the subtree, each once, and no node after one whose subtree it lies in.
pub proof fn lemma_up_visits(t: &Octree, r: u32, cube: Cube, bound: int)
    requires
        t.linked(),
        t.shaped(),
        t.ref_ok(r, bound),
    ensures
        t.visits(refs_of(t.up(r, cube)), t.nodes_at(r), false),
    decreases Octree::rank(r), 9nat,
{
    let node = seq![Octree::node(r, cube)];
    assert(refs_of(node) =~= seq![r]);
    if Octree::is_leaf_ref(r) {
        lemma_visits_one(t.subtrees(), r, false);
    } else {
        let kids = t.up_kids(r, cube, 8);
        lemma_up_kids_visit(t, r, cube, 8);
        lemma_nodes_upto(t, r, 8);
        assert(refs_of(kids + node) =~= refs_of(kids) + seq![r]);
        lemma_visits_with_root(t.subtrees(), r, refs_of(kids), t.nodes_upto(r, 8), false);
    }
}

/// From the bottom up over the first `n` children of a stem.
pub proof fn lemma_up_kids_visit(t: &Octree, r: u32, cube: Cube, n: nat)
    requires
        t.linked(),
        t.shaped(),
        r < t.stems@.len(),
        !Octree::is_leaf_ref(r),
        n <= 8,
    ensures
        t.visits(refs_of(t.up_kids(r, cube, n)), t.nodes_upto(r, n), false),
    decreases Octree::rank(r), n,
{
    if n == 0 {
        assert(refs_of(t.up_kids(r, cube, 0)) =~= Seq::<u32>::empty());
    } else {
        let c = t.child(r as int, n - 1);
        assert(t.ref_ok(c, r as int));
        let first = t.up(c, cube.child(n - 1));
        let rest = t.up_kids(r, cube, (n - 1) as nat);
        lemma_up_visits(t, c, cube.child(n - 1), r as int);
        lemma_up_kids_visit(t, r, cube, (n - 1) as nat);
        lemma_nodes_closed(t, c, r as int);
        lemma_nodes_upto(t, r, (n - 1) as nat);
        lemma_child_apart(t, r, n);
        lemma_visits_both(
            t.subtrees(),
            refs_of(first),
            t.nodes_at(c),
            refs_of(rest),
            t.nodes_upto(r, (n - 1) as nat),
            false,
        );
        assert(refs_of(first + rest) =~= refs_of(first) + refs_of(rest));
        assert(t.nodes_at(c).union(t.nodes_upto(r, (n - 1) as nat)) =~= t.nodes_upto(r, n));
    }
}

/// The subtree under child `n - 1` of a stem shares no node with the
/// subtrees under the children before it.
pub proof fn lemma_child_apart(t: &Octree, r: u32, n: nat)
    requires
        t.linked(),
        t.shaped(),
        r < t.stems@.len(),
        !Octree::is_leaf_ref(r),
        0 < n <= 8,
    ensures
        t.nodes_at(t.child(r as int, n - 1)).disjoint(t.nodes_upto(r, (n - 1) as nat)),
        t.nodes_at(t.child(r as int, n - 1)) == t.nodes_under(r, n - 1),
{
    let c = t.child(r as int, n - 1);
    assert(t.ref_ok(c, r as int));
    lemma_nodes_upto(t, r, (n - 1) as nat);
    assert forall|x: u32| t.nodes_upto(r, (n - 1) as nat).contains(x) implies !t.nodes_at(
        c,
    ).contains(x) by {
        let o = t.branch_of(r, x);
        assert(t.nodes_under(r, o).disjoint(t.nodes_under(r, n - 1)));
    }
}

/// From the top down over the first `n` children of a stem.
pub proof fn lemma_down_kids_visit(t: &Octree, r: u32, cube: Cube, n: nat)
    requires
        t.linked(),
        t.shaped(),
        r < t.stems@.len(),
        !Octree::is_leaf_ref(r),
        n <= 8,
    ensures
        t.visits(refs_of(t.down_kids(r, cube, n)), t.nodes_upto(r, n), true),
    decreases Octree::rank(r), n,
{
    if n == 0 {
        assert(refs_of(t.down_kids(r, cube, 0)) =~= Seq::<u32>::empty());
    } else {
        let c = t.child(r as int, n - 1);
        assert(t.ref_ok(c, r as int));
        let first = t.down(c, cube.child(n - 1));
        let rest = t.down_kids(r, cube, (n - 1) as nat);
        lemma_down_visits(t, c, cube.child(n - 1), r as int);
        lemma_down_kids_visit(t, r, cube, (n - 1) as nat);
        lemma_nodes_closed(t, c, r as int);
        lemma_nodes_upto(t, r, (n - 1) as nat);
        lemma_child_apart(t, r, n);
        lemma_visits_both(
            t.subtrees(),
            refs_of(first),
            t.nodes_at(c),
            refs_of(rest),
            t.nodes_upto(r, (n - 1) as nat),
            true,
        );
        assert(refs_of(first + rest) =~= refs_of(first) + refs_of(rest));
        assert(t.nodes_at(c).union(t.nodes_upto(r, (n - 1) as nat)) =~= t.nodes_upto(r, n));
    }
}

/// Cube nesting in a tree: the cube that a walk gives to a child of a stem
/// has exactly half the edge of the stem's cube, and its centre lies exactly
/// a quarter of that edge from the stem's centre along each axis, towards the
/// side of the child's octant.  The child, with that cube, is an entry that a
/// walk can go on from.
pub proof fn lemma_stem_nesting(t: &Octree, r: u32, cube: Cube, o: int)
    requires
        t.linked(),
        t.visit_ok((r, cube)),
        !Octree::is_leaf_ref(r),
        0 <= o < 8,
    ensures
        cube.nests(cube.child(o), o),
        t.visit_ok((t.child(r as int, o), cube.child(o))),
{
    assert(t.ref_ok(t.child(r as int, o), r as int));
    crate::geometry::lemma_cube_nesting(cube, o);
}

/// Completeness from the top down: the walk over a sound tree visits every
/// stem and every leaf that the tree stores, each exactly once, and every
/// node before all the nodes of its subtree.
pub proof fn lemma_down_complete(t: &Octree)
    requires
        t.wf(),
    ensures
        t.visits(
            refs_of(t.down(t.root, t.bounds)),
            Octree::block(0, t.stems@.len() as int, 0, t.leafs@.len() as int),
            true,
        ),
{
    lemma_down_visits(t, t.root, t.bounds, t.stems@.len() as int);
}

/// Completeness from the bottom up: the walk over a sound tree visits every
/// stem and every leaf that the tree stores, each exactly once, and every
/// node after all the nodes of its subtree.
pub proof fn lemma_up_complete(t: &Octree)
    requires
        t.wf(),
    ensures
        t.visits(
            refs_of(t.up(t.root, t.bounds)),
            Octree::block(0, t.stems@.len() as int, 0, t.leafs@.len() as int),
            false,
        ),
{
    lemma_up_visits(t, t.root, t.bounds, t.stems@.len() as int);
}

} // verus!
