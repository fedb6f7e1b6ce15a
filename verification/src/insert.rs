//! Adding a point to a growing tree.

use crate::geometry::{
    cube_at, follows, lemma_cube_at, lemma_follows_holds,
    lemma_narrow_at_root, lemma_narrow_cube_holds_one, lemma_room_at_root, octants_only, room,
    Cube, Point, MAX_DEPTH,
};
use crate::incremental::{AddError, IncrementalOctree};
use crate::lines::{lemma_lined_with_point, lined_stem_of, stem_with_point, with_point, Lined};
use crate::types::Index;
use vstd::prelude::*;

verus! {

impl IncrementalOctree {
    /// The octant of stem `s` that `p` falls into.
    pub open spec fn turn(&self, s: int, p: Point) -> int {
        self.cube_of(s).octant_of(p)
    }

    /// Whether, for `p`, the way down from stem `s` leads to stem `next`.
    pub open spec fn leads(&self, s: int, p: Point, next: int) -> bool {
        let r = self.slot(s, self.turn(s, p));
        Self::is_stem_ref(r) && Self::stem_of(r) == next
    }

    /// `trail` is the way down that `p` takes from stem `top`, stem by stem,
    /// to the stem whose child for `p` is no stem.
    pub open spec fn is_trail(&self, top: int, p: Point, trail: Seq<usize>) -> bool {
        &&& trail.len() >= 1
        &&& trail[0] == top
        &&& forall|i: int| 0 <= i < trail.len() ==> top <= #[trigger] trail[i] < self.stems()
        &&& forall|i: int|
            0 <= i < trail.len() - 1 ==> self.leads(trail[i] as int, p, #[trigger] trail[i + 1] as int)
        &&& !Self::is_stem_ref(self.slot(trail.last() as int, self.turn(trail.last() as int, p)))
    }

    /// Whether leaf `k` is the child for `p` of the last stem of `trail`.
    pub open spec fn lands_on(&self, trail: Seq<usize>, p: Point, k: int) -> bool {
        let r = self.slot(trail.last() as int, self.turn(trail.last() as int, p));
        Self::is_block_ref(r) && Self::block_of(r) == k
    }

    /// What this tree shares with the tree `was` that it has grown from by
    /// adding `p` below the last stem of `trail`: the paths of the stems, all
    /// children but the one for `p` of that last stem, and all leaves but the
    /// one that this child named; the stems of `trail` count one point more.
    pub open spec fn changed_along(&self, was: &Self, trail: Seq<usize>, p: Point) -> bool {
        let hit = trail.last() as int;
        let o = was.turn(hit, p);
        &&& self.sized()
        &&& self.capacity == was.capacity
        &&& self.bounds == was.bounds
        &&& was.stems() <= self.stems()
        &&& was.blocks() <= self.blocks()
        &&& forall|s: int| 0 <= s < was.stems() ==> #[trigger] self.paths@[s] == was.paths@[s]
        &&& forall|s: int, o2: int|
            0 <= s < was.stems() && 0 <= o2 < 8 && (s != hit || o2 != o) ==> #[trigger] self.slot(
                s,
                o2,
            ) == was.slot(s, o2)
        &&& forall|s: usize|
            s < was.stems() ==> #[trigger] self.counts@[s as int] == was.counts@[s as int]
                + if trail.contains(s) {
                1int
            } else {
                0int
            }
        &&& forall|k: int|
            0 <= k < was.blocks() && !was.lands_on(trail, p, k) ==> #[trigger] self.fill@[k]
                == was.fill@[k] && self.held(k) == was.held(k)
    }

    /// What has become of the child for `p` of the last stem of `trail`: an
    /// empty child is a new leaf with `p` alone, a leaf with a free slot holds
    /// `p` after its points, a full leaf holds nothing and a new stem stands
    /// in its place.
    pub open spec fn put(&self, was: &Self, trail: Seq<usize>, p: Point) -> bool {
        let hit = trail.last() as int;
        let o = was.turn(hit, p);
        let r = was.slot(hit, o);
        let k = Self::block_of(r);
        &&& Self::is_empty_ref(r) ==> {
            &&& self.blocks() == was.blocks() + 1
            &&& Self::is_block_ref(self.slot(hit, o))
            &&& Self::block_of(self.slot(hit, o)) == was.blocks()
            &&& self.held(was.blocks()) == seq![p]
        }
        &&& Self::is_block_ref(r) && was.fill@[k] < was.capacity ==> {
            &&& self.blocks() == was.blocks()
            &&& self.slot(hit, o) == r
            &&& self.held(k) == was.held(k).push(p)
        }
        &&& Self::is_block_ref(r) && was.fill@[k] >= was.capacity ==> {
            &&& self.fill@[k] == 0
            &&& Self::is_stem_ref(self.slot(hit, o))
            &&& Self::stem_of(self.slot(hit, o)) == was.stems()
        }
    }

    /// The child for `p` of the last stem of `trail` is new or has gained a
    /// point: it is sound, it is the leaf it was or a node stored after all
    /// that `was` stores, and it weighs one point more than it did.
    pub open spec fn landed(&self, was: &Self, k_lo: int, trail: Seq<usize>, p: Point) -> bool {
        let hit = trail.last() as int;
        let o = was.turn(hit, p);
        let r = self.slot(hit, o);
        &&& self.slot_ok(hit, o, k_lo)
        &&& self.weight(r) == was.weight(was.slot(hit, o)) + 1
        &&& if Self::is_block_ref(r) {
            self.stems() == was.stems() && (r == was.slot(hit, o) || Self::block_of(r)
                >= was.blocks())
        } else {
            Self::is_stem_ref(r) && Self::stem_of(r) == was.stems()
        }
    }
}

impl IncrementalOctree {
    /// Everything but the counts of the stems is the same in both trees.
    pub open spec fn same_but_counts(&self, other: &Self) -> bool {
        &&& self.bounds == other.bounds
        &&& self.capacity == other.capacity
        &&& self.nodes == other.nodes
        &&& self.points == other.points
        &&& self.fill == other.fill
        &&& self.paths == other.paths
        &&& self.counts@.len() == other.counts@.len()
    }

    /// Everything but the slots of the leaves and their numbers of points is
    /// the same in both trees.
    pub open spec fn same_but_leaves(&self, other: &Self) -> bool {
        &&& self.bounds == other.bounds
        &&& self.capacity == other.capacity
        &&& self.nodes == other.nodes
        &&& self.counts == other.counts
        &&& self.paths == other.paths
    }

    /// The position among all slots of slot `i` of leaf `k`.
    pub(crate) fn slot_index(&self, k: usize, i: usize) -> (j: usize)
        requires
            self.sized(),
            k < self.blocks(),
            i < self.capacity,
        ensures
            j == self.capacity * k + i,
            j < self.points@.len(),
    {
        let slots: usize = self.points.len();
        proof {
            lemma_slot_in_range(self.capacity as int, self.blocks(), k as int, i as int);
            assert(self.capacity * k + i < slots);
        }
        self.capacity * k + i
    }

    /// Child `o` of stem `stem`.
    fn child_ref(&self, stem: usize, o: usize) -> (r: usize)
        requires
            self.sized(),
            stem < self.stems(),
            o < 8,
        ensures
            r == self.slot(stem as int, o as int),
    {
        self.nodes[8 * stem + o]
    }

    /// Follows `p` down from stem `top` to the stem whose child for `p` is no
    /// stem, and returns the stems passed, the octant and the reference of
    /// that child, and the cube and the depth of the last stem.
    fn descend(&self, top: usize, Ghost(k_lo): Ghost<int>, p: Point, cube_top: Cube, level: u32) -> (found:
        (Vec<usize>, usize, usize, Cube, u32))
        requires
            self.region_wf(top as int, self.stems(), k_lo),
            top < self.stems(),
            cube_top == self.cube_of(top as int),
            level == self.paths@[top as int].len(),
            self.placed(p, self.paths@[top as int]),
        ensures
            self.is_trail(top as int, p, found.0@),
            found.1 == self.turn(found.0@.last() as int, p),
            found.1 < 8,
            found.2 == self.slot(found.0@.last() as int, found.1 as int),
            found.3 == self.cube_of(found.0@.last() as int),
            found.3.wf(),
            found.4 == self.paths@[found.0@.last() as int].len(),
            level <= found.4 < MAX_DEPTH,
            self.placed(p, self.paths@[found.0@.last() as int].push(found.1 as int)),
    {
        let mut stem: usize = top;
        let mut cube: Cube = cube_top;
        let mut lvl: u32 = level;
        let mut trail: Vec<usize> = Vec::new();
        proof {
            self.lemma_stem_cube(stem as int);
        }
        let mut o: usize = cube.octant(&p);
        let mut r: usize = self.child_ref(stem, o);
        trail.push(stem);
        proof {
            self.lemma_placed_on(p, stem as int);
        }
        while !r.is_leaf()
            invariant
                self.region_wf(top as int, self.stems(), k_lo),
                top <= stem < self.stems(),
                cube == self.cube_of(stem as int),
                cube.wf(),
                lvl == self.paths@[stem as int].len(),
                level <= lvl < MAX_DEPTH,
                o == self.turn(stem as int, p),
                o < 8,
                r == self.slot(stem as int, o as int),
                self.placed(p, self.paths@[stem as int].push(o as int)),
                trail@.len() >= 1,
                trail@[0] == top,
                trail@.last() == stem,
                forall|i: int| 0 <= i < trail@.len() ==> top <= #[trigger] trail@[i] < self.stems(),
                forall|i: int|
                    0 <= i < trail@.len() - 1 ==> self.leads(
                        trail@[i] as int,
                        p,
                        #[trigger] trail@[i + 1] as int,
                    ),
            decreases self.stems() - stem,
        {
            let ghost here = stem as int;
            let ghost before = trail@;
            assert(self.slot_ok(here, o as int, k_lo));
            proof {
                lemma_room_at_root(self.bounds.den as int);
                lemma_cube_at(self.bounds, self.paths@[here], MAX_DEPTH as nat);
            }
            stem = r.node_block();
            cube = cube.child_cube(o);
            lvl = lvl + 1;
            proof {
                assert(self.paths@[stem as int].drop_last() =~= self.paths@[here]);
                self.lemma_stem_cube(stem as int);
            }
            o = cube.octant(&p);
            r = self.child_ref(stem, o);
            trail.push(stem);
            proof {
                self.lemma_placed_on(p, stem as int);
                assert forall|i: int| 0 <= i < trail@.len() - 1 implies self.leads(
                    trail@[i] as int,
                    p,
                    #[trigger] trail@[i + 1] as int,
                ) by {
                    if i < before.len() - 1 {
                        assert(self.leads(before[i] as int, p, before[i + 1] as int));
                    }
                }
            }
        }
        (trail, o, r, cube, lvl)
    }

    /// The cube of a stem of a sound tree is sound and can be subdivided.
    pub proof fn lemma_stem_cube(&self, s: int)
        requires
            self.sized(),
            0 <= s < self.stems(),
            self.paths@[s].len() < MAX_DEPTH,
            octants_only(self.paths@[s]),
        ensures
            self.cube_of(s).wf(),
            4 * self.cube_of(s).den <= crate::geometry::DEN_MAX,
            room(self.cube_of(s).den as int, (MAX_DEPTH - self.paths@[s].len()) as nat),
    {
        lemma_room_at_root(self.bounds.den as int);
        lemma_cube_at(self.bounds, self.paths@[s], MAX_DEPTH as nat);
    }

    /// A point that has found its way to a stem goes on into the octant of
    /// the stem's cube that it falls into.
    pub proof fn lemma_placed_on(&self, p: Point, s: int)
        requires
            0 <= s < self.stems(),
            self.placed(p, self.paths@[s]),
        ensures
            self.placed(p, self.paths@[s].push(self.turn(s, p))),
    {
        let path = self.paths@[s];
        let longer = path.push(self.turn(s, p));
        assert forall|i: int| 0 <= i < longer.len() implies cube_at(
            self.bounds,
            longer.take(i),
        ).octant_of(p) == #[trigger] longer[i] by {
            if i < path.len() {
                assert(longer.take(i) =~= path.take(i));
                assert(longer[i] == path[i]);
            } else {
                assert(longer.take(i) =~= path);
            }
        }
    }

    /// Counts one point more below each stem of `trail`.
    fn bump(&mut self, trail: &Vec<usize>)
        requires
            forall|i: int| 0 <= i < trail@.len() ==> (#[trigger] trail@[i]) < old(self).stems(),
            forall|i: int, j: int| 0 <= i < j < trail@.len() ==> trail@[i] != trail@[j],
            forall|i: int|
                0 <= i < trail@.len() ==> old(self).counts@[(#[trigger] trail@[i]) as int]
                    < usize::MAX,
        ensures
            final(self).same_but_counts(old(self)),
            forall|s: usize|
                s < old(self).stems() ==> #[trigger] final(self).counts@[s as int] == old(self).counts@[s as int] + if trail@.contains(s) {
                    1int
                } else {
                    0int
                },
    {
        let mut i: usize = 0;
        while i < trail.len()
            invariant
                i <= trail@.len(),
                self.same_but_counts(old(self)),
                forall|n: int| 0 <= n < trail@.len() ==> (#[trigger] trail@[n]) < old(self).stems(),
                forall|n: int, m: int| 0 <= n < m < trail@.len() ==> trail@[n] != trail@[m],
                forall|n: int|
                    0 <= n < trail@.len() ==> old(self).counts@[(#[trigger] trail@[n]) as int]
                        < usize::MAX,
                forall|s: usize|
                    s < old(self).stems() ==> #[trigger] self.counts@[s as int] == old(self).counts@[s as int] + if passed(trail@, i as int, s) {
                        1int
                    } else {
                        0int
                    },
            decreases trail@.len() - i,
        {
            let s: usize = trail[i];
            proof {
                if passed(trail@, i as int, s) {
                    let n = choose|n: int| 0 <= n < i && trail@[n] == s;
                    assert(trail@[n] != trail@[i as int]);
                }
            }
            let c: usize = self.counts[s];
            let ghost prev = self.counts@;
            self.counts[s] = c + 1;
            proof {
                assert forall|x: usize| x < old(self).stems() implies #[trigger] self.counts@[x as int]
                    == old(self).counts@[x as int] + if passed(trail@, i + 1, x) {
                    1int
                } else {
                    0int
                } by {
                    assert(prev[x as int] == old(self).counts@[x as int] + if passed(
                        trail@,
                        i as int,
                        x,
                    ) {
                        1int
                    } else {
                        0int
                    });
                    if x == s {
                        assert(trail@[i as int] == x);
                    } else if passed(trail@, i as int, x) {
                        let n = choose|n: int| 0 <= n < i && trail@[n] == x;
                        assert(trail@[n] == x);
                    } else if passed(trail@, i + 1, x) {
                        let n = choose|n: int| 0 <= n < i + 1 && trail@[n] == x;
                        assert(n < i);
                    }
                }
            }
            i += 1;
        }
        proof {
            assert forall|s: usize| passed(trail@, trail@.len() as int, s) == trail@.contains(
                s,
            ) by {
                if trail@.contains(s) {
                    let n = choose|n: int| 0 <= n < trail@.len() && trail@[n] == s;
                    assert(trail@[n] == s);
                }
            }
        }
    }

    /// Appends a leaf that holds `p` alone and returns its number.
    fn new_leaf(&mut self, p: Point) -> (k: usize)
        requires
            old(self).sized(),
            old(self).blocks() + 1 < Self::tag() - 1,
        ensures
            final(self).sized(),
            final(self).same_but_leaves(old(self)),
            k == old(self).blocks(),
            final(self).fill@ == old(self).fill@.push(1),
            final(self).at(k as int, 0) == p,
            forall|j: int| 0 <= j < old(self).blocks() ==> #[trigger] final(self).held(j) == old(self).held(j),
    {
        let k: usize = self.fill.len();
        let ghost base = self.points@;
        let mut i: usize = 0;
        while i < self.capacity
            invariant
                i <= self.capacity,
                self.same_but_leaves(old(self)),
                self.fill == old(self).fill,
                self.points@.len() == base.len() + i,
                forall|j: int| 0 <= j < base.len() ==> self.points@[j] == base[j],
                forall|j: int| base.len() <= j < base.len() + i ==> self.points@[j] == p,
            decreases self.capacity - i,
        {
            self.points.push(p);
            i += 1;
        }
        self.fill.push(1);
        proof {
            assert forall|j: int| 0 <= j < self.blocks() implies #[trigger] self.fill@[j]
                <= self.capacity by {
                if j < old(self).blocks() {
                    assert(self.fill@[j] == old(self).fill@[j]);
                }
            }
            let cap = self.capacity as int;
            let n = old(self).blocks();
            assert(cap * (n + 1) == cap * n + cap) by (nonlinear_arith);
            assert(self.at(k as int, 0) == p);
            assert forall|j: int| 0 <= j < n implies #[trigger] self.held(j) == old(self).held(
                j,
            ) by {
                assert(old(self).fill@[j] <= cap);
                assert forall|x: int| 0 <= x < old(self).fill@[j] implies self.at(j, x) == old(self).at(j, x) by {
                    lemma_slot_in_range(cap, n, j, x);
                }
                assert(self.held(j) =~= old(self).held(j));
            }
        }
        k
    }
}

impl IncrementalOctree {
    /// Whether the arenas can take the stems and leaves that adding a point
    /// `levels` levels above the deepest level may ask for.
    pub open spec fn has_room(&self, levels: int) -> bool {
        &&& 8 * (self.stems() + levels) < Self::tag() - 1
        &&& self.blocks() + 1 + self.capacity * levels < Self::tag() - 1
    }

    /// What adding a point below stem `top` leaves alone: the stems before
    /// `top`, the path of `top`, and the leaves before `k_lo`.
    pub open spec fn kept_outside(&self, was: &Self, top: int, k_lo: int) -> bool {
        &&& self.capacity == was.capacity
        &&& self.bounds == was.bounds
        &&& was.stems() <= self.stems()
        &&& was.blocks() <= self.blocks()
        &&& forall|s: int| 0 <= s < top ==> #[trigger] self.paths@[s] == was.paths@[s]
        &&& forall|s: int| 0 <= s < top ==> #[trigger] self.counts@[s] == was.counts@[s]
        &&& forall|s: int, o: int|
            0 <= s < top && 0 <= o < 8 ==> #[trigger] self.slot(s, o) == was.slot(s, o)
        &&& forall|k: int| 0 <= k < k_lo ==> #[trigger] self.fill@[k] == was.fill@[k]
        &&& forall|k: int| 0 <= k < k_lo ==> #[trigger] self.held(k) == was.held(k)
    }

    /// Whether leaf `k` is full of points at the very place of `p`.
    fn block_full_of(&self, k: usize, p: &Point) -> (b: bool)
        requires
            self.sized(),
            k < self.blocks(),
            self.fill@[k as int] == self.capacity,
        ensures
            b == (forall|i: int| 0 <= i < self.capacity ==> self.at(k as int, i) == *p),
    {
        let mut i: usize = 0;
        while i < self.capacity
            invariant
                i <= self.capacity,
                self.sized(),
                k < self.blocks(),
                forall|n: int| 0 <= n < i ==> self.at(k as int, n) == *p,
            decreases self.capacity - i,
        {
            let j = self.slot_index(k, i);
            let q = self.points[j];
            if q.x != p.x || q.y != p.y || q.z != p.z {
                assert(self.at(k as int, i as int) != *p);
                return false;
            }
            i += 1;
        }
        true
    }

    /// A copy of the points of leaf `k`.
    fn take_block(&self, k: usize) -> (moved: Vec<Point>)
        requires
            self.sized(),
            k < self.blocks(),
        ensures
            moved@ == self.held(k as int),
    {
        let mut moved: Vec<Point> = Vec::new();
        let n: usize = self.fill[k];
        let mut i: usize = 0;
        while i < n
            invariant
                i <= n,
                n == self.fill@[k as int],
                n <= self.capacity,
                self.sized(),
                k < self.blocks(),
                moved@.len() == i,
                forall|m: int| 0 <= m < i ==> moved@[m] == self.at(k as int, m),
            decreases n - i,
        {
            let j = self.slot_index(k, i);
            moved.push(self.points[j]);
            i += 1;
        }
        proof {
            assert(moved@ =~= self.held(k as int));
        }
        moved
    }

    /// Appends a stem with eight empty children, one octant below the stem
    /// whose path is `path`, and returns its number.
    fn new_stem(&mut self, Ghost(path): Ghost<Seq<int>>) -> (s: usize)
        requires
            old(self).sized(),
            8 * (old(self).stems() + 1) < Self::tag() - 1,
        ensures
            final(self).sized(),
            s == old(self).stems(),
            final(self).stems() == s + 1,
            final(self).bounds == old(self).bounds,
            final(self).capacity == old(self).capacity,
            final(self).points == old(self).points,
            final(self).fill == old(self).fill,
            final(self).counts@ == old(self).counts@.push(0),
            final(self).paths@ == old(self).paths@.push(path),
            forall|i: int| 0 <= i < 8 * s ==> final(self).nodes@[i] == old(self).nodes@[i],
            forall|o: int| 0 <= o < 8 ==> Self::is_empty_ref(#[trigger] final(self).slot(s as int, o)),
    {
        let s: usize = self.counts.len();
        let ghost base = self.nodes@;
        let mut o: usize = 0;
        while o < 8
            invariant
                o <= 8,
                self.nodes@.len() == base.len() + o,
                base.len() == 8 * s,
                self.bounds == old(self).bounds,
                self.capacity == old(self).capacity,
                self.points == old(self).points,
                self.fill == old(self).fill,
                self.counts == old(self).counts,
                self.paths == old(self).paths,
                forall|i: int| 0 <= i < base.len() ==> self.nodes@[i] == base[i],
                forall|i: int|
                    base.len() <= i < base.len() + o ==> Self::is_empty_ref(
                        #[trigger] self.nodes@[i],
                    ),
            decreases 8 - o,
        {
            self.nodes.push(usize::empty());
            o += 1;
        }
        self.counts.push(0);
        proof {
            self.paths@ = self.paths@.push(path);
            assert forall|o: int| 0 <= o < 8 implies Self::is_empty_ref(
                #[trigger] self.slot(s as int, o),
            ) by {
                assert(Self::is_empty_ref(self.nodes@[8 * s + o]));
            }
        }
        s
    }
}

impl IncrementalOctree {
    /// What adding `p` below stem `top`, `level` levels below the root, makes
    /// of the tree `was`: the stems from `top` on are sound, what lies
    /// outside them is as it was, `top` holds and counts one point more, and
    /// the arenas have grown by no more than the levels below `top` allow.
    pub open spec fn inserted(&self, was: &Self, top: int, k_lo: int, p: Point, level: int) -> bool {
        &&& self.region_wf(top, self.stems(), k_lo)
        &&& self.kept_outside(was, top, k_lo)
        &&& self.paths@[top] == was.paths@[top]
        &&& self.contents_of(top) == was.contents_of(top).insert(p)
        &&& self.counts@[top] == was.counts@[top] + 1
        &&& self.stems() - was.stems() <= MAX_DEPTH - 1 - level
        &&& self.blocks() - was.blocks() <= 1 + was.capacity * (self.stems() - was.stems())
        &&& was.counts@[top] < was.capacity ==> self.stems() == was.stems()
    }

    /// `p` has found its way down from `top` along `trail`, to child `o` of
    /// the last stem of `trail`, and the tree is ready to take it there.
    pub open spec fn landing(
        &self,
        top: int,
        k_lo: int,
        p: Point,
        trail: Seq<usize>,
        o: int,
        level: int,
    ) -> bool {
        &&& self.region_wf(top, self.stems(), k_lo)
        &&& self.is_trail(top, p, trail)
        &&& o == self.turn(trail.last() as int, p)
        &&& self.placed(p, self.paths@[trail.last() as int].push(o))
        &&& self.capacity < usize::MAX
        &&& self.counts@[top] < usize::MAX
        &&& self.has_room(MAX_DEPTH - level)
        &&& 0 <= level <= self.paths@[trail.last() as int].len() < MAX_DEPTH
    }

    /// The stem and the octant that the way down of `p` from stem `s` ends
    /// at: at each stem the way goes into the octant that `p` falls into,
    /// until the child there is no stem.
    pub open spec fn home(&self, s: int, p: Point) -> (int, int)
        decreases self.stems() - s,
    {
        let o = self.turn(s, p);
        let r = self.slot(s, o);
        if 0 <= s && Self::is_stem_ref(r) && s < Self::stem_of(r) < self.stems() {
            self.home(Self::stem_of(r), p)
        } else {
            (s, o)
        }
    }

    /// Where `p` has gone when it was added below stem `top` of the tree
    /// `was`.  Every leaf but the one that the way down of `p` ends at holds
    /// the points it held, in their order.  Where the way ends at an empty
    /// child, a new leaf, the last of all, holds `p` alone and is that child
    /// now.  Where it ends at a leaf with a free slot, that leaf holds the
    /// points it held, in their order, and then `p`.  Where it ends at a full
    /// leaf, that leaf holds nothing any more, and the child is a new stem,
    /// the first stem stored after those of `was`.
    pub open spec fn stored(&self, was: &Self, top: int, p: Point) -> bool {
        let hit = was.home(top, p).0;
        let o = was.home(top, p).1;
        let r = was.slot(hit, o);
        let k = Self::block_of(r);
        &&& forall|j: int|
            0 <= j < was.blocks() && !(Self::is_block_ref(r) && j == k) ==> #[trigger] self.held(j)
                == was.held(j)
        &&& Self::is_empty_ref(r) ==> {
            &&& self.blocks() == was.blocks() + 1
            &&& Self::is_block_ref(self.slot(hit, o))
            &&& Self::block_of(self.slot(hit, o)) == was.blocks()
            &&& self.held(was.blocks()) == seq![p]
        }
        &&& Self::is_block_ref(r) && was.fill@[k] < was.capacity ==> {
            &&& self.blocks() == was.blocks()
            &&& self.slot(hit, o) == r
            &&& self.held(k) == was.held(k).push(p)
        }
        &&& Self::is_block_ref(r) && was.fill@[k] >= was.capacity ==> {
            &&& self.fill@[k] == 0
            &&& Self::is_stem_ref(self.slot(hit, o))
            &&& Self::stem_of(self.slot(hit, o)) == was.stems()
        }
    }

    /// The number of levels that a tree may still have from stem `s` down.
    pub open spec fn levels_below(&self, s: int) -> nat {
        (MAX_DEPTH - self.paths@[s].len()) as nat
    }

    /// The tree below stem `top` is what adding `p` makes of the tree that
    /// was there in `was`, the points of every leaf in their order.
    pub open spec fn taken(&self, was: &Self, top: int, p: Point) -> bool {
        self.lines_at(top) == stem_with_point(
            was.lines_at(top),
            p,
            was.cube_of(top),
            was.levels_below(top),
            was.capacity as nat,
        )
    }

    /// The leaf that a leaf reference names.
    pub(crate) fn block_number(r: usize) -> (k: usize)
        requires
            Self::is_block_ref(r),
        ensures
            k == Self::block_of(r),
    {
        proof {
            vstd::arithmetic::div_mod::lemma_fundamental_div_mod_converse(
                r as int,
                Self::tag(),
                1,
                r - Self::tag(),
            );
        }
        r.points_block()
    }

    /// Adds `p` below stem `top`, whose cube is `cube_top`, `level` levels
    /// below the root: into the empty child or the leaf that `p` finds on its
    /// way down; if that leaf is full, a new stem takes its place, and the
    /// points of the leaf and `p` are added below the new stem in turn.
    /// Nothing is added where the leaf is full of points at the very place
    /// of `p`.
    #[verifier::rlimit(40)]
    pub(crate) fn insert_at(
        &mut self,
        top: usize,
        Ghost(k_lo): Ghost<int>,
        p: Point,
        cube_top: Cube,
        level: u32,
    ) -> (res: Result<(), AddError>)
        requires
            old(self).region_wf(top as int, old(self).stems(), k_lo),
            top < old(self).stems(),
            old(self).capacity < usize::MAX,
            cube_top == old(self).cube_of(top as int),
            level == old(self).paths@[top as int].len(),
            old(self).placed(p, old(self).paths@[top as int]),
            old(self).counts@[top as int] < usize::MAX,
            old(self).has_room(MAX_DEPTH - level),
        ensures
            res is Err <==> old(self).contents_of(top as int).count(p) >= old(self).capacity,
            res is Err ==> res == Err::<(), AddError>(AddError::MaxDepthExceeded) && *final(self)
                == *old(self),
            res is Ok ==> final(self).inserted(old(self), top as int, k_lo, p, level as int),
            res is Ok ==> final(self).stored(old(self), top as int, p),
            res is Ok ==> final(self).taken(old(self), top as int, p),
        decreases MAX_DEPTH - level, 2nat,
    {
        let (trail, o, r, cube, lvl) = self.descend(top, Ghost(k_lo), p, cube_top, level);
        let hit: usize = trail[trail.len() - 1];
        proof {
            assert(self.slot_ok(hit as int, o as int, k_lo));
            lemma_count_on_trail(self, top as int, k_lo, p, trail@, 0);
        }
        if r.is_empty() {
            proof {
                broadcast use vstd::multiset::group_multiset_axioms;

            }
            self.land_empty(Ghost(top as int), Ghost(k_lo), p, &trail, o, Ghost(level as int));
            return Ok(());
        }
        let k: usize = Self::block_number(r);
        let f: usize = self.fill[k];
        proof {
            lemma_count_mixed(self.held(k as int), p);
        }
        if f < self.capacity {
            self.land_leaf(Ghost(top as int), Ghost(k_lo), p, &trail, o, k, Ghost(level as int));
            return Ok(());
        }
        if self.block_full_of(k, &p) {
            proof {
                lemma_count_full(self.held(k as int), p);
            }
            return Err(AddError::MaxDepthExceeded);
        }
        proof {
            let i = choose|i: int| 0 <= i < self.capacity && self.at(k as int, i) != p;
            assert(self.held(k as int)[i] != p);
        }
        self.split(Ghost(top as int), Ghost(k_lo), p, &trail, o, k, cube, lvl, Ghost(level as int));
        Ok(())
    }

    /// Puts `p` into a new leaf at the empty child that its way down ends at.
    fn land_empty(
        &mut self,
        Ghost(top): Ghost<int>,
        Ghost(k_lo): Ghost<int>,
        p: Point,
        trail: &Vec<usize>,
        o: usize,
        Ghost(level): Ghost<int>,
    )
        requires
            old(self).landing(top, k_lo, p, trail@, o as int, level),
            Self::is_empty_ref(old(self).slot(trail@.last() as int, o as int)),
        ensures
            final(self).inserted(old(self), top, k_lo, p, level),
            final(self).stored(old(self), top, p),
            final(self).taken(old(self), top, p),
    {
        let ghost a = *self;
        let hit: usize = trail[trail.len() - 1];
        proof {
            lemma_trail_facts(&a, top, k_lo, p, trail@);
            lemma_turn_in_range(&a, top, k_lo, hit as int, p);
            assert(a.capacity * (MAX_DEPTH - level) >= 0) by (nonlinear_arith)
                requires
                    a.capacity >= 0,
                    MAX_DEPTH - level >= 0,
            ;
        }
        let k = self.new_leaf(p);
        let ghost fresh = *self;
        let link = usize::points_idx(k);
        self.nodes.set(8 * hit + o, link);
        self.bump(trail);
        proof {
            lemma_after_new_leaf(&a, &fresh, self, top, k_lo, trail@, p, link);
            lemma_region_step(&a, self, top, k_lo, trail@, p);
            lemma_contents_trail(&a, self, top, k_lo, trail@, p, 0);
            lemma_outside_kept(&a, self, top, k_lo, trail@, p);
            assert(a.capacity * 0 == 0);
            lemma_stored(&a, self, top, k_lo, trail@, p);
            lemma_lines_landed(&a, self, top, k_lo, trail@, p);
            lemma_lines_trail(&a, self, top, k_lo, trail@, p, 0);
        }
    }

    /// Puts `p` into the first free slot of the leaf that its way down ends
    /// at.
    fn land_leaf(
        &mut self,
        Ghost(top): Ghost<int>,
        Ghost(k_lo): Ghost<int>,
        p: Point,
        trail: &Vec<usize>,
        o: usize,
        k: usize,
        Ghost(level): Ghost<int>,
    )
        requires
            old(self).landing(top, k_lo, p, trail@, o as int, level),
            old(self).lands_on(trail@, p, k as int),
            old(self).fill@[k as int] < old(self).capacity,
        ensures
            final(self).inserted(old(self), top, k_lo, p, level),
            final(self).stored(old(self), top, p),
            final(self).taken(old(self), top, p),
    {
        let ghost a = *self;
        let hit: usize = trail[trail.len() - 1];
        proof {
            lemma_trail_facts(&a, top, k_lo, p, trail@);
            lemma_turn_in_range(&a, top, k_lo, hit as int, p);
            assert(a.slot_ok(hit as int, o as int, k_lo));
        }
        let f: usize = self.fill[k];
        let j = self.slot_index(k, f);
        self.points.set(j, p);
        self.fill.set(k, f + 1);
        self.bump(trail);
        proof {
            lemma_after_append(&a, self, top, k_lo, trail@, p);
            lemma_region_step(&a, self, top, k_lo, trail@, p);
            lemma_contents_trail(&a, self, top, k_lo, trail@, p, 0);
            lemma_outside_kept(&a, self, top, k_lo, trail@, p);
            assert(a.capacity * 0 == 0);
            lemma_stored(&a, self, top, k_lo, trail@, p);
            lemma_lines_landed(&a, self, top, k_lo, trail@, p);
            lemma_lines_trail(&a, self, top, k_lo, trail@, p, 0);
        }
    }

    /// Adds the points of `moved`, as many as a leaf holds, below the stem
    /// `below`, which is the last stem and has no child yet.
    #[verifier::rlimit(40)]
    fn pour(
        &mut self,
        below: usize,
        Ghost(k0): Ghost<int>,
        moved: &Vec<Point>,
        sub: Cube,
        level: u32,
    )
        requires
            old(self).region_wf(below as int, old(self).stems(), k0),
            below + 1 == old(self).stems(),
            k0 == old(self).blocks(),
            old(self).counts@[below as int] == 0,
            old(self).contents_of(below as int) == vstd::multiset::Multiset::<Point>::empty(),
            old(self).lines_at(below as int) == lined_stem_of(
                Seq::<Point>::empty(),
                sub,
                (MAX_DEPTH - level) as nat,
                old(self).capacity as nat,
            ),
            old(self).capacity >= 1,
            moved@.len() == old(self).capacity,
            old(self).capacity < usize::MAX,
            sub == old(self).cube_of(below as int),
            level == old(self).paths@[below as int].len(),
            forall|i: int|
                0 <= i < moved@.len() ==> old(self).placed(
                    #[trigger] moved@[i],
                    old(self).paths@[below as int],
                ),
            8 * (old(self).stems() + (MAX_DEPTH - level)) < Self::tag() - 1,
            old(self).blocks() + old(self).capacity + 1 + old(self).capacity * (MAX_DEPTH - level)
                < Self::tag() - 1,
        ensures
            final(self).region_wf(below as int, final(self).stems(), k0),
            final(self).kept_outside(old(self), below as int, k0),
            final(self).paths@[below as int] == old(self).paths@[below as int],
            final(self).stems() == old(self).stems(),
            final(self).blocks() <= old(self).blocks() + old(self).capacity,
            final(self).counts@[below as int] == old(self).capacity,
            final(self).contents_of(below as int) == moved@.to_multiset(),
            final(self).lines_at(below as int) == lined_stem_of(
                moved@,
                sub,
                (MAX_DEPTH - level) as nat,
                old(self).capacity as nat,
            ),
        decreases MAX_DEPTH - level, 3nat,
    {
        let ghost c = *self;
        proof {
            assert(moved@.take(0) =~= Seq::<Point>::empty());
            vstd::seq_lib::to_multiset_len(Seq::<Point>::empty());
            assert(Seq::<Point>::empty().to_multiset() =~= vstd::multiset::Multiset::<
                Point,
            >::empty()) by {
                broadcast use vstd::multiset::group_multiset_axioms;

            }
        }
        let mut j: usize = 0;
        while j < self.capacity
            invariant
                j <= self.capacity,
                self.capacity == c.capacity,
                self.capacity < usize::MAX,
                self.bounds == c.bounds,
                moved@.len() == c.capacity,
                below + 1 == c.stems(),
                k0 == c.blocks(),
                sub == c.cube_of(below as int),
                level == c.paths@[below as int].len(),
                forall|i: int|
                    0 <= i < moved@.len() ==> c.placed(#[trigger] moved@[i], c.paths@[below as int]),
                8 * (c.stems() + (MAX_DEPTH - level)) < Self::tag() - 1,
                c.blocks() + c.capacity + 1 + c.capacity * (MAX_DEPTH - level) < Self::tag() - 1,
                self.region_wf(below as int, self.stems(), k0),
                self.kept_outside(&c, below as int, k0),
                self.paths@[below as int] == c.paths@[below as int],
                self.stems() == c.stems(),
                self.blocks() <= c.blocks() + j,
                self.counts@[below as int] == j,
                self.contents_of(below as int) == moved@.take(j as int).to_multiset(),
                self.capacity >= 1,
                level < MAX_DEPTH,
                self.lines_at(below as int) == lined_stem_of(
                    moved@.take(j as int),
                    sub,
                    (MAX_DEPTH - level) as nat,
                    c.capacity as nat,
                ),
            decreases self.capacity - j,
        {
            let ghost before = *self;
            let q: Point = moved[j];
            proof {
                lemma_count_prefix(moved@, j as int, q);
            }
            let res = self.insert_at(below, Ghost(k0), q, sub, level);
            proof {
                assert(res is Ok);
                assert(moved@.take(j + 1) =~= moved@.take(j as int).push(q));
                vstd::seq_lib::to_multiset_build(moved@.take(j as int), q);
                lemma_lined_with_point(
                    moved@.take(j as int),
                    q,
                    sub,
                    (MAX_DEPTH - level) as nat,
                    c.capacity as nat,
                );
                lemma_kept_twice(&c, &before, self, below as int, k0);
                assert(c.capacity * 0 == 0);
            }
            j += 1;
        }
        proof {
            assert(moved@.take(j as int) =~= moved@);
        }
    }

    /// Appends a stem for the cube of the full leaf `k` that the way down of
    /// `p` ends at, adds the points of the leaf and `p` below it, and returns
    /// its number.  The leaf stays where it is.
    #[verifier::rlimit(40)]
    fn raise_stem(
        &mut self,
        Ghost(top): Ghost<int>,
        Ghost(k_lo): Ghost<int>,
        p: Point,
        trail: &Vec<usize>,
        o: usize,
        k: usize,
        cube: Cube,
        lvl: u32,
        Ghost(level): Ghost<int>,
    ) -> (below: usize)
        requires
            old(self).landing(top, k_lo, p, trail@, o as int, level),
            old(self).lands_on(trail@, p, k as int),
            old(self).fill@[k as int] == old(self).capacity,
            exists|i: int| 0 <= i < old(self).capacity && old(self).at(k as int, i) != p,
            cube == old(self).cube_of(trail@.last() as int),
            lvl == old(self).paths@[trail@.last() as int].len(),
        ensures
            below == old(self).stems(),
            below < final(self).stems(),
            final(self).sized(),
            final(self).region_wf(below as int, final(self).stems(), old(self).blocks()),
            final(self).kept_outside(old(self), below as int, old(self).blocks()),
            final(self).paths@[below as int] == old(self).paths@[trail@.last() as int].push(
                o as int,
            ),
            final(self).counts@[below as int] == old(self).capacity + 1,
            final(self).contents_of(below as int) == old(self).held(k as int).to_multiset().insert(
                p,
            ),
            final(self).lines_at(below as int) == lined_stem_of(
                old(self).held(k as int).push(p),
                cube.child(o as int),
                (MAX_DEPTH - lvl - 1) as nat,
                old(self).capacity as nat,
            ),
            final(self).stems() - old(self).stems() <= MAX_DEPTH - 1 - lvl,
            final(self).blocks() - old(self).blocks() <= 1 + old(self).capacity * (final(
                self
            ).stems() - old(self).stems()),
        decreases MAX_DEPTH - lvl, 0nat,
    {
        let ghost a = *self;
        let hit: usize = trail[trail.len() - 1];
        proof {
            lemma_turn_in_range(&a, top, k_lo, hit as int, p);
            assert(a.slot_ok(hit as int, o as int, k_lo));
            lemma_parted_above_limit(&a, top, k_lo, trail@, p);
            a.lemma_stem_cube(hit as int);
            lemma_room_for_split(&a, level, lvl as int);
        }
        let moved = self.take_block(k);
        let below = self.new_stem(Ghost(a.paths@[hit as int].push(o as int)));
        let sub = cube.child_cube(o);
        let ghost c = *self;
        proof {
            lemma_new_stem_region(&a, &c, top, k_lo, trail@, p);
            lemma_new_stem_lines(&c, below as int, sub, (MAX_DEPTH - lvl - 1) as nat);
            lemma_room_for_pour(&a, &c, level, lvl as int);
            assert forall|i: int| 0 <= i < moved@.len() implies c.placed(
                #[trigger] moved@[i],
                c.paths@[below as int],
            ) by {
                assert(a.placed(a.at(k as int, i), a.paths@[hit as int].push(o as int)));
            }
        }
        self.pour(below, Ghost(a.blocks()), &moved, sub, lvl + 1);
        let ghost filled = *self;
        proof {
            lemma_room_for_child(&a, self, level, lvl as int, a.capacity as int);
            lemma_count_mixed(a.held(k as int), p);
            let i = choose|i: int| 0 <= i < a.capacity && a.at(k as int, i) != p;
            assert(a.held(k as int)[i] != p);
            lemma_kept_twice(&a, &c, self, below as int, a.blocks());
            lemma_placed_same(&a, self, p, a.paths@[hit as int].push(o as int));
        }
        let res = self.insert_at(below, Ghost(a.blocks()), p, sub, lvl + 1);
        proof {
            assert(res is Ok);
            lemma_lined_with_point(
                moved@,
                p,
                sub,
                (MAX_DEPTH - lvl - 1) as nat,
                a.capacity as nat,
            );
            lemma_kept_twice(&a, &filled, self, below as int, a.blocks());
            lemma_growth(
                a.capacity as int,
                a.blocks(),
                filled.blocks(),
                self.blocks(),
                self.stems() - filled.stems(),
            );
        }
        below
    }

    /// Lets a new stem take the place of the full leaf `k` that the way down
    /// of `p` ends at, and adds the points of the leaf and `p` below that
    /// stem.
    #[verifier::rlimit(40)]
    fn split(
        &mut self,
        Ghost(top): Ghost<int>,
        Ghost(k_lo): Ghost<int>,
        p: Point,
        trail: &Vec<usize>,
        o: usize,
        k: usize,
        cube: Cube,
        lvl: u32,
        Ghost(level): Ghost<int>,
    )
        requires
            old(self).landing(top, k_lo, p, trail@, o as int, level),
            old(self).lands_on(trail@, p, k as int),
            old(self).fill@[k as int] == old(self).capacity,
            exists|i: int| 0 <= i < old(self).capacity && old(self).at(k as int, i) != p,
            cube == old(self).cube_of(trail@.last() as int),
            lvl == old(self).paths@[trail@.last() as int].len(),
        ensures
            final(self).inserted(old(self), top, k_lo, p, level),
            final(self).stored(old(self), top, p),
            final(self).taken(old(self), top, p),
        decreases MAX_DEPTH - lvl, 1nat,
    {
        let ghost a = *self;
        let hit: usize = trail[trail.len() - 1];
        proof {
            lemma_trail_facts(&a, top, k_lo, p, trail@);
            lemma_turn_in_range(&a, top, k_lo, hit as int, p);
            assert(a.slot_ok(hit as int, o as int, k_lo));
        }
        let below = self.raise_stem(
            Ghost(top),
            Ghost(k_lo),
            p,
            trail,
            o,
            k,
            cube,
            lvl,
            Ghost(level),
        );
        let ghost grown = *self;
        self.fill.set(k, 0);
        let link = usize::node_idx(below, 0);
        self.nodes.set(8 * hit + o, link);
        self.bump(trail);
        proof {
            lemma_after_split(&a, &grown, self, top, k_lo, trail@, p, link);
            lemma_region_step(&a, self, top, k_lo, trail@, p);
            lemma_contents_trail(&a, self, top, k_lo, trail@, p, 0);
            lemma_outside_kept(&a, self, top, k_lo, trail@, p);
            lemma_stored(&a, self, top, k_lo, trail@, p);
            lemma_parted_above_limit(&a, top, k_lo, trail@, p);
            lemma_lines_landed(&a, self, top, k_lo, trail@, p);
            lemma_lines_trail(&a, self, top, k_lo, trail@, p, 0);
        }
    }
}

impl IncrementalOctree {
    /// Whether the arenas can take whatever nodes one more point may ask for.
    pub open spec fn spacious(&self) -> bool {
        self.has_room(MAX_DEPTH as int) && self.len_spec() < usize::MAX
    }

    /// Whether the arenas can take whatever nodes one more point may ask for.
    pub fn has_space(&self) -> (b: bool)
        requires
            self.wf(),
        ensures
            b == self.spacious(),
    {
        let limit: usize = usize::MAX / 2 - 1;
        let stems: usize = self.counts.len();
        let blocks: usize = self.fill.len();
        if self.counts[0] == usize::MAX {
            return false;
        }
        if stems > limit / 8 - 32 {
            assert(!(8 * (self.stems() + 32) < Self::tag() - 1));
            return false;
        }
        if blocks >= limit {
            proof {
                assert(self.capacity * 32 >= 0) by (nonlinear_arith)
                    requires
                        self.capacity >= 0,
                ;
            }
            return false;
        }
        let left: usize = limit - blocks - 1;
        let fits = self.capacity <= left / 32;
        proof {
            let cap = self.capacity as int;
            if fits {
                assert(cap * 32 <= left) by (nonlinear_arith)
                    requires
                        cap <= left / 32,
                        0 <= left,
                        0 <= cap,
                ;
            } else {
                assert(cap * 32 > left) by (nonlinear_arith)
                    requires
                        cap > left / 32,
                        0 <= left,
                        0 <= cap,
                ;
            }
        }
        fits
    }

    /// Adds `p` to the tree.  The point goes down from the root into the
    /// octant it falls into at each stem, to an empty child, where a new leaf
    /// takes it, or to a leaf.  A leaf that is full gives way to a stem, below
    /// which its points and `p` go further down.
    ///
    /// Nothing is added, and the tree stays as it is, where `p` lies outside
    /// the cube of the tree, where the arenas are full, or where the tree
    /// holds `capacity` points at the very place of `p` already.
    pub fn add(&mut self, p: Point) -> (res: Result<(), AddError>)
        requires
            old(self).wf(),
        ensures
            final(self).wf(),
            final(self).bounds == old(self).bounds,
            final(self).capacity == old(self).capacity,
            res is Ok <==> old(self).bounds.holds(p) && old(self).spacious() && old(
                self
            ).contents().count(p) < old(self).capacity,
            res == Err::<(), AddError>(AddError::OutOfBounds) <==> !old(self).bounds.holds(p),
            res == Err::<(), AddError>(AddError::Full) <==> old(self).bounds.holds(p) && !old(
                self
            ).spacious(),
            res == Err::<(), AddError>(AddError::MaxDepthExceeded) <==> old(self).bounds.holds(p)
                && old(self).spacious() && old(self).contents().count(p) >= old(self).capacity,
            res is Err ==> *final(self) == *old(self),
            res is Ok ==> final(self).contents() == old(self).contents().insert(p) && final(
                self
            ).len_spec() == old(self).len_spec() + 1,
            res is Ok ==> final(self).stored(old(self), 0, p),
            res is Ok ==> final(self).lines() == stem_with_point(
                old(self).lines(),
                p,
                old(self).bounds,
                MAX_DEPTH as nat,
                old(self).capacity as nat,
            ),
    {
        if !self.bounds.contains(&p) {
            return Err(AddError::OutOfBounds);
        }
        if !self.has_space() {
            return Err(AddError::Full);
        }
        proof {
            assert(follows(self.bounds, p, self.paths@[0]));
            assert(self.cube_of(0) == self.bounds);
        }
        let res = self.insert_at(0, Ghost(0), p, self.bounds, 0);
        res
    }
}

/// Count conservation: every stem counts exactly the points that the leaves
/// below it hold; at the root, the points that the tree holds.
pub proof fn lemma_count_is_contents(t: &IncrementalOctree, top: int, k_lo: int, s: int)
    requires
        t.region_wf(top, t.stems(), k_lo),
        top <= s < t.stems(),
    ensures
        t.counts@[s] == t.contents_of(s).len(),
    decreases t.stems() - s,
{
    broadcast use vstd::multiset::group_multiset_axioms;

    assert forall|o: int| 0 <= o < 8 implies t.weight(#[trigger] t.slot(s, o)) == t.contents_under(
        s,
        o,
    ).len() by {
        let r = t.slot(s, o);
        assert(t.slot_ok(s, o, k_lo));
        if IncrementalOctree::is_empty_ref(r) {
        } else if IncrementalOctree::is_block_ref(r) {
            vstd::seq_lib::to_multiset_len(t.held(IncrementalOctree::block_of(r)));
        } else {
            lemma_count_is_contents(t, top, k_lo, IncrementalOctree::stem_of(r));
        }
    }
    assert(t.counts@[s] == t.weight_below(s));
    assert(t.weight(t.slot(s, 0)) == t.contents_under(s, 0).len());
    assert(t.weight(t.slot(s, 1)) == t.contents_under(s, 1).len());
    assert(t.weight(t.slot(s, 2)) == t.contents_under(s, 2).len());
    assert(t.weight(t.slot(s, 3)) == t.contents_under(s, 3).len());
    assert(t.weight(t.slot(s, 4)) == t.contents_under(s, 4).len());
    assert(t.weight(t.slot(s, 5)) == t.contents_under(s, 5).len());
    assert(t.weight(t.slot(s, 6)) == t.contents_under(s, 6).len());
    assert(t.weight(t.slot(s, 7)) == t.contents_under(s, 7).len());
}

/// Count conservation for the whole tree: the number of points added is the
/// number of points in the leaves.
pub proof fn lemma_len_is_population(t: &IncrementalOctree)
    requires
        t.wf(),
    ensures
        t.len_spec() == t.contents().len(),
{
    lemma_count_is_contents(t, 0, 0, 0);
}

/// A point placed in one tree is placed in any tree over the same cube.
pub proof fn lemma_placed_same(a: &IncrementalOctree, b: &IncrementalOctree, p: Point, path: Seq<int>)
    requires
        a.bounds == b.bounds,
        a.placed(p, path),
    ensures
        b.placed(p, path),
{
}

/// The stems of a trail differ from each other, and none counts more points
/// than the first; nor does the child that the trail ends at.
pub proof fn lemma_trail_facts(
    a: &IncrementalOctree,
    top: int,
    k_lo: int,
    p: Point,
    trail: Seq<usize>,
)
    requires
        a.region_wf(top, a.stems(), k_lo),
        a.is_trail(top, p, trail),
    ensures
        forall|i: int, j: int| 0 <= i < j < trail.len() ==> trail[i] != trail[j],
        forall|i: int| 0 <= i < trail.len() ==> a.counts@[(#[trigger] trail[i]) as int] <= a.counts@[top],
        a.weight(a.slot(trail.last() as int, a.turn(trail.last() as int, p))) <= a.counts@[top],
        0 <= a.weight(a.slot(trail.last() as int, a.turn(trail.last() as int, p))),
{
    assert forall|i: int, j: int| 0 <= i < j < trail.len() implies trail[i] != trail[j] by {
        lemma_trail_rises(a, top, k_lo, p, trail, i, j);
    }
    assert forall|i: int| 0 <= i < trail.len() implies a.counts@[(#[trigger] trail[i]) as int]
        <= a.counts@[top] by {
        lemma_trail_light(a, top, k_lo, p, trail, i);
    }
    let hit = trail.last() as int;
    lemma_trail_light(a, top, k_lo, p, trail, trail.len() - 1);
    lemma_turn_in_range(a, top, k_lo, hit, p);
    lemma_child_light(a, top, k_lo, hit, a.turn(hit, p));
}

/// A child weighs no more than its stem counts.
pub proof fn lemma_child_light(a: &IncrementalOctree, top: int, k_lo: int, s: int, o: int)
    requires
        a.region_wf(top, a.stems(), k_lo),
        top <= s < a.stems(),
        0 <= o < 8,
    ensures
        0 <= a.weight(a.slot(s, o)) <= a.counts@[s],
{
    assert(a.counts@[s] == a.weight_below(s));
    assert(0 <= a.weight(a.slot(s, 0)) && 0 <= a.weight(a.slot(s, 1)) && 0 <= a.weight(
        a.slot(s, 2),
    ) && 0 <= a.weight(a.slot(s, 3)) && 0 <= a.weight(a.slot(s, 4)) && 0 <= a.weight(
        a.slot(s, 5),
    ) && 0 <= a.weight(a.slot(s, 6)) && 0 <= a.weight(a.slot(s, 7)));
}

/// No stem of a trail counts more points than the first.
pub proof fn lemma_trail_light(
    a: &IncrementalOctree,
    top: int,
    k_lo: int,
    p: Point,
    trail: Seq<usize>,
    i: int,
)
    requires
        a.region_wf(top, a.stems(), k_lo),
        a.is_trail(top, p, trail),
        0 <= i < trail.len(),
    ensures
        a.counts@[trail[i] as int] <= a.counts@[top],
    decreases i,
{
    if i > 0 {
        lemma_trail_light(a, top, k_lo, p, trail, i - 1);
        let s = trail[i - 1] as int;
        assert(a.leads(s, p, trail[i - 1 + 1] as int));
        lemma_turn_in_range(a, top, k_lo, s, p);
        lemma_child_light(a, top, k_lo, s, a.turn(s, p));
        assert(a.slot_ok(s, a.turn(s, p), k_lo));
    }
}

/// A point that follows a path follows every path that the path starts with.
pub proof fn lemma_follows_prefix(cube: Cube, q: Point, path: Seq<int>, o: int)
    requires
        follows(cube, q, path.push(o)),
    ensures
        follows(cube, q, path),
        cube_at(cube, path).octant_of(q) == o,
{
    let longer = path.push(o);
    assert forall|i: int| 0 <= i < path.len() implies cube_at(cube, path.take(i)).octant_of(q)
        == #[trigger] path[i] by {
        assert(longer.take(i) =~= path.take(i));
        assert(longer[i] == path[i]);
    }
    assert(longer.take(path.len() as int) =~= path);
    assert(longer[path.len() as int] == o);
}

/// Every point under a child of a stem belongs into the octant of that child.
pub proof fn lemma_contents_placed(
    a: &IncrementalOctree,
    top: int,
    k_lo: int,
    s: int,
    o: int,
    q: Point,
)
    requires
        a.region_wf(top, a.stems(), k_lo),
        top <= s < a.stems(),
        0 <= o < 8,
        a.contents_under(s, o).count(q) > 0,
    ensures
        a.placed(q, a.paths@[s].push(o)),
    decreases a.stems() - s,
{
    broadcast use vstd::multiset::group_multiset_axioms;

    let r = a.slot(s, o);
    assert(a.slot_ok(s, o, k_lo));
    if IncrementalOctree::is_block_ref(r) {
        let k = IncrementalOctree::block_of(r);
        vstd::seq_lib::to_multiset_contains(a.held(k), q);
        let i = choose|i: int| 0 <= i < a.held(k).len() && a.held(k)[i] == q;
        assert(a.placed(a.at(k, i), a.paths@[s].push(o)));
    } else if IncrementalOctree::is_stem_ref(r) {
        let s2 = IncrementalOctree::stem_of(r);
        let o2 = if a.contents_under(s2, 0).count(q) > 0 {
            0int
        } else if a.contents_under(s2, 1).count(q) > 0 {
            1int
        } else if a.contents_under(s2, 2).count(q) > 0 {
            2int
        } else if a.contents_under(s2, 3).count(q) > 0 {
            3int
        } else if a.contents_under(s2, 4).count(q) > 0 {
            4int
        } else if a.contents_under(s2, 5).count(q) > 0 {
            5int
        } else if a.contents_under(s2, 6).count(q) > 0 {
            6int
        } else {
            7int
        };
        assert(a.contents_under(s2, o2).count(q) > 0);
        lemma_contents_placed(a, top, k_lo, s2, o2, q);
        lemma_follows_prefix(a.bounds, q, a.paths@[s2], o2);
    }
}

/// Of the points under a stem of the trail, only those under the child that
/// the trail ends at can lie at the very place of the added point.
pub proof fn lemma_count_on_trail(
    a: &IncrementalOctree,
    top: int,
    k_lo: int,
    p: Point,
    trail: Seq<usize>,
    i: int,
)
    requires
        a.region_wf(top, a.stems(), k_lo),
        a.is_trail(top, p, trail),
        0 <= i < trail.len(),
    ensures
        a.contents_of(trail[i] as int).count(p) == a.contents_under(
            trail.last() as int,
            a.turn(trail.last() as int, p),
        ).count(p),
    decreases trail.len() - i,
{
    broadcast use vstd::multiset::group_multiset_axioms;

    let s = trail[i] as int;
    let mine = a.turn(s, p);
    lemma_turn_in_range(a, top, k_lo, s, p);
    assert forall|o2: int| 0 <= o2 < 8 && o2 != mine implies #[trigger] a.contents_under(
        s,
        o2,
    ).count(p) == 0 by {
        if a.contents_under(s, o2).count(p) > 0 {
            lemma_contents_placed(a, top, k_lo, s, o2, p);
            lemma_follows_prefix(a.bounds, p, a.paths@[s], o2);
        }
    }
    if i < trail.len() - 1 {
        let next = trail[i + 1] as int;
        assert(a.leads(s, p, next));
        assert(a.slot_ok(s, mine, k_lo));
        lemma_count_on_trail(a, top, k_lo, p, trail, i + 1);
        assert(a.contents_under(s, mine) == a.contents_of(next));
    }
    lemma_count_of_eight(Seq::new(8, |o: int| a.contents_under(s, o)), mine, p);
}

/// If only one of eight multisets holds a value, their sum holds it as often
/// as that one.
pub proof fn lemma_count_of_eight(a: Seq<vstd::multiset::Multiset<Point>>, at: int, p: Point)
    requires
        a.len() == 8,
        0 <= at < 8,
        forall|o: int| 0 <= o < 8 && o != at ==> (#[trigger] a[o]).count(p) == 0,
    ensures
        a[0].add(a[1]).add(a[2]).add(a[3]).add(a[4]).add(a[5]).add(a[6]).add(a[7]).count(p)
            == a[at].count(p),
{
    broadcast use vstd::multiset::group_multiset_axioms;

    let s1 = a[0].add(a[1]);
    let s2 = s1.add(a[2]);
    let s3 = s2.add(a[3]);
    let s4 = s3.add(a[4]);
    let s5 = s4.add(a[5]);
    let s6 = s5.add(a[6]);
    let s7 = s6.add(a[7]);
    assert(s1.count(p) == a[0].count(p) + a[1].count(p));
    assert(s2.count(p) == s1.count(p) + a[2].count(p));
    assert(s3.count(p) == s2.count(p) + a[3].count(p));
    assert(s4.count(p) == s3.count(p) + a[4].count(p));
    assert(s5.count(p) == s4.count(p) + a[5].count(p));
    assert(s6.count(p) == s5.count(p) + a[6].count(p));
    assert(s7.count(p) == s6.count(p) + a[7].count(p));
}

/// A sequence of copies of one value holds that value as often as it is long.
pub proof fn lemma_count_full(held: Seq<Point>, p: Point)
    requires
        forall|i: int| 0 <= i < held.len() ==> held[i] == p,
    ensures
        held.to_multiset().count(p) == held.len(),
    decreases held.len(),
{
    broadcast use vstd::multiset::group_multiset_axioms;

    if held.len() == 0 {
        vstd::seq_lib::to_multiset_len(held);
    } else {
        let front = held.drop_last();
        lemma_count_full(front, p);
        assert(held =~= front.push(p));
        vstd::seq_lib::to_multiset_build(front, p);
    }
}

/// A sequence holds no value more often than it is long, and a value that
/// one of its entries differs from less often.
pub proof fn lemma_count_mixed(held: Seq<Point>, p: Point)
    ensures
        held.to_multiset().count(p) <= held.len(),
        (exists|i: int| 0 <= i < held.len() && held[i] != p) ==> held.to_multiset().count(p)
            < held.len(),
    decreases held.len(),
{
    broadcast use vstd::multiset::group_multiset_axioms;

    if held.len() == 0 {
        vstd::seq_lib::to_multiset_len(held);
    } else {
        let front = held.drop_last();
        lemma_count_mixed(front, p);
        assert(held =~= front.push(held.last()));
        vstd::seq_lib::to_multiset_build(front, held.last());
        if exists|i: int| 0 <= i < held.len() && held[i] != p {
            let i = choose|i: int| 0 <= i < held.len() && held[i] != p;
            if i < held.len() - 1 {
                assert(front[i] != p);
            }
        }
    }
}

/// The first `j` entries of a sequence hold no value more than `j` times.
pub proof fn lemma_count_prefix(moved: Seq<Point>, j: int, q: Point)
    requires
        0 <= j <= moved.len(),
    ensures
        moved.take(j).to_multiset().count(q) <= j,
{
    lemma_count_mixed(moved.take(j), q);
}

impl IncrementalOctree {
    /// This tree is `mid` with child `idx` set to `r` and one point more
    /// counted below each stem of `trail`.
    pub open spec fn relinked(&self, mid: &Self, trail: Seq<usize>, idx: int, r: usize) -> bool {
        &&& self.bounds == mid.bounds
        &&& self.capacity == mid.capacity
        &&& self.points == mid.points
        &&& self.fill == mid.fill
        &&& self.paths == mid.paths
        &&& self.nodes@ == mid.nodes@.update(idx, r)
        &&& self.counts@.len() == mid.counts@.len()
        &&& forall|s: usize|
            s < mid.stems() ==> #[trigger] self.counts@[s as int] == mid.counts@[s as int]
                + if trail.contains(s) {
                1int
            } else {
                0int
            }
    }
}

/// Two slots of leaves are the same slot only if they are the same slot of
/// the same leaf.
pub proof fn lemma_slot_distinct(cap: int, k1: int, i1: int, k2: int, i2: int)
    requires
        0 <= i1 < cap,
        0 <= i2 < cap,
        0 <= k1,
        0 <= k2,
        k1 != k2 || i1 != i2,
    ensures
        cap * k1 + i1 != cap * k2 + i2,
{
    if k1 < k2 {
        assert(cap * k1 + cap <= cap * k2) by (nonlinear_arith)
            requires
                k1 < k2,
                0 < cap,
        ;
    } else if k2 < k1 {
        assert(cap * k2 + cap <= cap * k1) by (nonlinear_arith)
            requires
                k2 < k1,
                0 < cap,
        ;
    }
}

/// A stem whose children are all empty is the stem that no point makes.
pub proof fn lemma_new_stem_lines(c: &IncrementalOctree, s: int, cube: Cube, levels: nat)
    requires
        0 <= s < c.stems(),
        forall|o: int| 0 <= o < 8 ==> IncrementalOctree::is_empty_ref(#[trigger] c.slot(s, o)),
    ensures
        c.lines_at(s) == lined_stem_of(Seq::<Point>::empty(), cube, levels, c.capacity as nat),
{
    let want = lined_stem_of(Seq::<Point>::empty(), cube, levels, c.capacity as nat);
    assert forall|o: int| 0 <= o < 8 implies #[trigger] c.lines_at(s)->children[o]
        == want->children[o] by {
        assert(IncrementalOctree::is_empty_ref(c.slot(s, o)));
        assert(c.lines_at(s)->children[o] == c.lines_under(s, o));
        Seq::<Point>::empty().lemma_filter_len(crate::canon::falls_into(cube, o));
    }
    assert(c.lines_at(s)->children =~= want->children);
}

/// The stems from `top` on hold the points they did, leaf by leaf and in
/// their order, in a tree that differs only before `top` and in the leaves
/// before `k_lo`.
pub proof fn lemma_lines_kept(
    g: &IncrementalOctree,
    b: &IncrementalOctree,
    top: int,
    k_lo: int,
    s: int,
)
    requires
        g.region_wf(top, g.stems(), k_lo),
        b.stems() == g.stems(),
        b.blocks() == g.blocks(),
        forall|s2: int, o: int|
            top <= s2 < g.stems() && 0 <= o < 8 ==> #[trigger] b.slot(s2, o) == g.slot(s2, o),
        forall|k: int| k_lo <= k < g.blocks() ==> #[trigger] b.held(k) == g.held(k),
        top <= s < g.stems(),
    ensures
        b.lines_at(s) == g.lines_at(s),
    decreases g.stems() - s,
{
    assert forall|o: int| 0 <= o < 8 implies #[trigger] b.lines_under(s, o) == g.lines_under(
        s,
        o,
    ) by {
        assert(g.slot_ok(s, o, k_lo));
        let r = g.slot(s, o);
        assert(b.slot(s, o) == r);
        if IncrementalOctree::is_empty_ref(r) {
        } else if IncrementalOctree::is_block_ref(r) {
            assert(b.held(IncrementalOctree::block_of(r)) == g.held(IncrementalOctree::block_of(r)));
        } else {
            lemma_lines_kept(g, b, top, k_lo, IncrementalOctree::stem_of(r));
        }
    }
    assert(b.lines_under(s, 0) == g.lines_under(s, 0));
    assert(b.lines_under(s, 1) == g.lines_under(s, 1));
    assert(b.lines_under(s, 2) == g.lines_under(s, 2));
    assert(b.lines_under(s, 3) == g.lines_under(s, 3));
    assert(b.lines_under(s, 4) == g.lines_under(s, 4));
    assert(b.lines_under(s, 5) == g.lines_under(s, 5));
    assert(b.lines_under(s, 6) == g.lines_under(s, 6));
    assert(b.lines_under(s, 7) == g.lines_under(s, 7));
}

/// After a point has been added along a trail, a child that the trail does
/// not pass holds the points it did, leaf by leaf and in their order.
#[verifier::rlimit(40)]
pub proof fn lemma_lines_clean(
    a: &IncrementalOctree,
    b: &IncrementalOctree,
    top: int,
    k_lo: int,
    trail: Seq<usize>,
    p: Point,
    s: int,
    o2: int,
)
    requires
        a.region_wf(top, a.stems(), k_lo),
        a.is_trail(top, p, trail),
        b.changed_along(a, trail, p),
        top <= s < a.stems(),
        0 <= o2 < 8,
        !trail.contains(s as usize) || o2 != a.turn(s, p),
    ensures
        b.lines_under(s, o2) == a.lines_under(s, o2),
    decreases a.stems() - s,
{
    reveal(IncrementalOctree::distinct);
    let hit = trail.last() as int;
    let r = a.slot(s, o2);
    assert(trail.contains(trail[trail.len() - 1]));
    lemma_turn_in_range(a, top, k_lo, hit, p);
    lemma_slot_kept(a, b, top, k_lo, trail, p, s, o2);
    assert(a.slot_ok(s, o2, k_lo));
    assert(b.slot(s, o2) == r);
    if IncrementalOctree::is_block_ref(r) {
        let k = IncrementalOctree::block_of(r);
        assert(r != a.slot(hit, a.turn(hit, p)));
        assert(!a.lands_on(trail, p, k));
        assert(b.fill@[k] == a.fill@[k] && b.held(k) == a.held(k));
    } else if IncrementalOctree::is_stem_ref(r) {
        let s2 = IncrementalOctree::stem_of(r);
        if trail.contains(s2 as usize) {
            lemma_trail_child(a, top, k_lo, p, trail, s, o2);
        }
        assert forall|o3: int| 0 <= o3 < 8 implies #[trigger] b.lines_under(s2, o3)
            == a.lines_under(s2, o3) by {
            lemma_lines_clean(a, b, top, k_lo, trail, p, s2, o3);
        }
        assert(b.lines_under(s2, 0) == a.lines_under(s2, 0));
        assert(b.lines_under(s2, 1) == a.lines_under(s2, 1));
        assert(b.lines_under(s2, 2) == a.lines_under(s2, 2));
        assert(b.lines_under(s2, 3) == a.lines_under(s2, 3));
        assert(b.lines_under(s2, 4) == a.lines_under(s2, 4));
        assert(b.lines_under(s2, 5) == a.lines_under(s2, 5));
        assert(b.lines_under(s2, 6) == a.lines_under(s2, 6));
        assert(b.lines_under(s2, 7) == a.lines_under(s2, 7));
    }
}

/// What adding the point has made of the child that its way down ends at.
pub proof fn lemma_lines_landed(
    a: &IncrementalOctree,
    b: &IncrementalOctree,
    top: int,
    k_lo: int,
    trail: Seq<usize>,
    p: Point,
)
    requires
        a.region_wf(top, a.stems(), k_lo),
        a.is_trail(top, p, trail),
        b.changed_along(a, trail, p),
        b.landed(a, k_lo, trail, p),
        b.put(a, trail, p),
        ({
            let hit = trail.last() as int;
            let o = a.turn(hit, p);
            let r = a.slot(hit, o);
            IncrementalOctree::is_block_ref(r) && a.fill@[IncrementalOctree::block_of(r)]
                >= a.capacity ==> a.paths@[hit].len() + 1 < MAX_DEPTH && b.lines_at(a.stems())
                == lined_stem_of(
                a.held(IncrementalOctree::block_of(r)).push(p),
                a.cube_of(hit).child(o),
                (a.levels_below(hit) - 1) as nat,
                a.capacity as nat,
            )
        }),
    ensures
        b.lines_under(trail.last() as int, a.turn(trail.last() as int, p)) == with_point(
            a.lines_under(trail.last() as int, a.turn(trail.last() as int, p)),
            p,
            a.cube_of(trail.last() as int).child(a.turn(trail.last() as int, p)),
            (a.levels_below(trail.last() as int) - 1) as nat,
            a.capacity as nat,
        ),
{
    let hit = trail.last() as int;
    let o = a.turn(hit, p);
    let r = a.slot(hit, o);
    lemma_turn_in_range(a, top, k_lo, hit, p);
    assert(a.slot_ok(hit, o, k_lo));
    assert(b.slot_ok(hit, o, k_lo));
    if IncrementalOctree::is_block_ref(r) {
        let k = IncrementalOctree::block_of(r);
        assert(a.fill@[k] <= a.capacity);
        assert(a.held(k).len() == a.fill@[k]);
    }
}

/// After a point has been added along a trail, the tree below every stem of
/// the trail is what adding the point makes of the tree that was there, the
/// points of every leaf in their order.
#[verifier::rlimit(40)]
pub proof fn lemma_lines_trail(
    a: &IncrementalOctree,
    b: &IncrementalOctree,
    top: int,
    k_lo: int,
    trail: Seq<usize>,
    p: Point,
    i: int,
)
    requires
        a.region_wf(top, a.stems(), k_lo),
        a.is_trail(top, p, trail),
        b.changed_along(a, trail, p),
        0 <= i < trail.len(),
        b.lines_under(trail.last() as int, a.turn(trail.last() as int, p)) == with_point(
            a.lines_under(trail.last() as int, a.turn(trail.last() as int, p)),
            p,
            a.cube_of(trail.last() as int).child(a.turn(trail.last() as int, p)),
            (a.levels_below(trail.last() as int) - 1) as nat,
            a.capacity as nat,
        ),
    ensures
        b.taken(a, trail[i] as int, p),
    decreases trail.len() - i,
{
    let s = trail[i] as int;
    let mine = a.turn(s, p);
    let levels = a.levels_below(s);
    let cap = a.capacity as nat;
    lemma_turn_in_range(a, top, k_lo, s, p);
    assert(levels > 0);
    assert forall|o2: int| 0 <= o2 < 8 && o2 != mine implies #[trigger] b.lines_under(s, o2)
        == a.lines_under(s, o2) by {
        lemma_lines_clean(a, b, top, k_lo, trail, p, s, o2);
    }
    if i < trail.len() - 1 {
        let next = trail[i + 1] as int;
        assert(a.leads(s, p, next));
        assert(a.slot_ok(s, mine, k_lo));
        lemma_trail_rises(a, top, k_lo, p, trail, i, trail.len() - 1);
        assert(b.slot(s, mine) == a.slot(s, mine));
        lemma_lines_trail(a, b, top, k_lo, trail, p, i + 1);
        assert(b.lines_under(s, mine) == b.lines_at(next));
        assert(a.lines_under(s, mine) == a.lines_at(next));
        assert(a.paths@[next].drop_last() =~= a.paths@[s]);
        assert(a.cube_of(next) == a.cube_of(s).child(mine));
        assert(a.levels_below(next) == levels - 1);
        assert(b.lines_under(s, mine) == with_point(
            a.lines_under(s, mine),
            p,
            a.cube_of(s).child(mine),
            (levels - 1) as nat,
            cap,
        ));
    }
    lemma_lines_child(a, b, s, p, mine);
}

/// A stem one of whose children has taken a point, while the others are as
/// they were, has taken the point.
pub proof fn lemma_lines_child(
    a: &IncrementalOctree,
    b: &IncrementalOctree,
    s: int,
    p: Point,
    mine: int,
)
    requires
        0 <= mine < 8,
        mine == a.cube_of(s).octant_of(p),
        a.levels_below(s) > 0,
        forall|o2: int|
            0 <= o2 < 8 && o2 != mine ==> #[trigger] b.lines_under(s, o2) == a.lines_under(s, o2),
        b.lines_under(s, mine) == with_point(
            a.lines_under(s, mine),
            p,
            a.cube_of(s).child(mine),
            (a.levels_below(s) - 1) as nat,
            a.capacity as nat,
        ),
    ensures
        b.taken(a, s, p),
{
    let was = a.lines_at(s);
    let got = stem_with_point(was, p, a.cube_of(s), a.levels_below(s), a.capacity as nat);
    assert(was->children[mine] == a.lines_under(s, mine));
    assert forall|o2: int| 0 <= o2 < 8 implies #[trigger] b.lines_at(s)->children[o2]
        == got->children[o2] by {
        assert(b.lines_at(s)->children[o2] == b.lines_under(s, o2));
        assert(was->children[o2] == a.lines_under(s, o2));
    }
    assert(b.lines_at(s)->children =~= got->children);
}

/// The way down of a point from any stem of its trail ends where the trail
/// ends.
pub proof fn lemma_trail_home(
    a: &IncrementalOctree,
    top: int,
    k_lo: int,
    p: Point,
    trail: Seq<usize>,
    i: int,
)
    requires
        a.region_wf(top, a.stems(), k_lo),
        a.is_trail(top, p, trail),
        0 <= i < trail.len(),
    ensures
        a.home(trail[i] as int, p) == (trail.last() as int, a.turn(trail.last() as int, p)),
    decreases trail.len() - i,
{
    let s = trail[i] as int;
    lemma_turn_in_range(a, top, k_lo, s, p);
    assert(a.slot_ok(s, a.turn(s, p), k_lo));
    if i < trail.len() - 1 {
        assert(a.leads(s, p, trail[i + 1] as int));
        lemma_trail_home(a, top, k_lo, p, trail, i + 1);
    }
}

/// Where the point has gone once it has been added along a trail.
pub proof fn lemma_stored(
    a: &IncrementalOctree,
    b: &IncrementalOctree,
    top: int,
    k_lo: int,
    trail: Seq<usize>,
    p: Point,
)
    requires
        a.region_wf(top, a.stems(), k_lo),
        a.is_trail(top, p, trail),
        b.changed_along(a, trail, p),
        b.put(a, trail, p),
    ensures
        b.stored(a, top, p),
{
    lemma_trail_home(a, top, k_lo, p, trail, 0);
    let hit = trail.last() as int;
    let o = a.turn(hit, p);
    let r = a.slot(hit, o);
    assert forall|j: int|
        0 <= j < a.blocks() && !(IncrementalOctree::is_block_ref(r) && j
            == IncrementalOctree::block_of(r)) implies #[trigger] b.held(j) == a.held(j) by {
        assert(!a.lands_on(trail, p, j));
        assert(b.fill@[j] == a.fill@[j]);
    }
}

/// What adding a point along a trail leaves alone outside the stems from
/// `top` on and the leaves from `k_lo` on.
pub proof fn lemma_outside_kept(
    a: &IncrementalOctree,
    b: &IncrementalOctree,
    top: int,
    k_lo: int,
    trail: Seq<usize>,
    p: Point,
)
    requires
        a.region_wf(top, a.stems(), k_lo),
        a.is_trail(top, p, trail),
        b.changed_along(a, trail, p),
    ensures
        b.kept_outside(a, top, k_lo),
        b.counts@[top] == a.counts@[top] + 1,
{
    let hit = trail.last() as int;
    lemma_turn_in_range(a, top, k_lo, hit, p);
    assert(a.slot_ok(hit, a.turn(hit, p), k_lo));
    assert(trail[0] == top as usize);
    assert(trail.contains(top as usize));
    assert(b.counts@[(top as usize) as int] == a.counts@[(top as usize) as int] + 1);
    assert forall|s: int| 0 <= s < top implies #[trigger] b.counts@[s] == a.counts@[s] by {
        if trail.contains(s as usize) {
            let i = choose|i: int| 0 <= i < trail.len() && trail[i] == s as usize;
            assert(top <= trail[i]);
        }
        assert(b.counts@[(s as usize) as int] == a.counts@[(s as usize) as int]);
    }
    assert forall|k: int| 0 <= k < k_lo implies #[trigger] b.fill@[k] == a.fill@[k] by {
        assert(!a.lands_on(trail, p, k));
    }
    assert forall|k: int| 0 <= k < k_lo implies #[trigger] b.held(k) == a.held(k) by {
        assert(!a.lands_on(trail, p, k));
        assert(b.fill@[k] == a.fill@[k]);
    }
}

/// What the tree is like once a leaf that holds `p` alone has been appended
/// and made the child for `p` of the last stem of the trail.
pub proof fn lemma_after_new_leaf(
    a: &IncrementalOctree,
    m: &IncrementalOctree,
    b: &IncrementalOctree,
    top: int,
    k_lo: int,
    trail: Seq<usize>,
    p: Point,
    link: usize,
)
    requires
        a.region_wf(top, a.stems(), k_lo),
        a.is_trail(top, p, trail),
        IncrementalOctree::is_empty_ref(
            a.slot(trail.last() as int, a.turn(trail.last() as int, p)),
        ),
        a.placed(p, a.paths@[trail.last() as int].push(a.turn(trail.last() as int, p))),
        a.blocks() + 1 < IncrementalOctree::tag() - 1,
        m.sized(),
        m.same_but_leaves(a),
        m.fill@ == a.fill@.push(1),
        m.at(a.blocks(), 0) == p,
        forall|j: int| 0 <= j < a.blocks() ==> #[trigger] m.held(j) == a.held(j),
        link == IncrementalOctree::tag() + a.blocks(),
        b.relinked(m, trail, 8 * (trail.last() as int) + a.turn(trail.last() as int, p), link),
    ensures
        b.changed_along(a, trail, p),
        b.landed(a, k_lo, trail, p),
        b.region_wf(a.stems(), b.stems(), a.blocks()),
        b.contents_under(trail.last() as int, a.turn(trail.last() as int, p)) == a.contents_under(
            trail.last() as int,
            a.turn(trail.last() as int, p),
        ).insert(p),
        b.put(a, trail, p),
{
    reveal(IncrementalOctree::distinct);
    broadcast use vstd::multiset::group_multiset_axioms;

    let hit = trail.last() as int;
    let o = a.turn(hit, p);
    let k = a.blocks();
    lemma_turn_in_range(a, top, k_lo, hit, p);
    assert(b.slot(hit, o) == link);
    assert forall|s: int, o2: int|
        0 <= s < a.stems() && 0 <= o2 < 8 && (s != hit || o2 != o) implies #[trigger] b.slot(s, o2)
        == a.slot(s, o2) by {
        assert(8 * s + o2 != 8 * hit + o);
    }
    assert forall|j: int| 0 <= j < b.blocks() implies #[trigger] b.held(j) == m.held(j) by {
        assert(b.held(j) =~= m.held(j));
    }
    assert(b.held(k) =~= seq![p]);
    assert(seq![p] =~= Seq::<Point>::empty().push(p));
    vstd::seq_lib::to_multiset_build(Seq::<Point>::empty(), p);
    assert(Seq::<Point>::empty().to_multiset() =~= vstd::multiset::Multiset::<Point>::empty()) by {
        vstd::seq_lib::to_multiset_len(Seq::<Point>::empty());
    }
    assert(b.sized());
    assert(b.at(k, 0) == p);
}

/// What the tree is like once `p` has been written into the first free slot
/// of the leaf that the trail ends at.
pub proof fn lemma_after_append(
    a: &IncrementalOctree,
    b: &IncrementalOctree,
    top: int,
    k_lo: int,
    trail: Seq<usize>,
    p: Point,
)
    requires
        a.region_wf(top, a.stems(), k_lo),
        a.is_trail(top, p, trail),
        IncrementalOctree::is_block_ref(
            a.slot(trail.last() as int, a.turn(trail.last() as int, p)),
        ),
        a.placed(p, a.paths@[trail.last() as int].push(a.turn(trail.last() as int, p))),
        ({
            let k = IncrementalOctree::block_of(
                a.slot(trail.last() as int, a.turn(trail.last() as int, p)),
            );
            &&& a.fill@[k] < a.capacity
            &&& b.points@ == a.points@.update(a.capacity * k + a.fill@[k], p)
            &&& b.fill@ == a.fill@.update(k, (a.fill@[k] + 1) as usize)
        }),
        b.bounds == a.bounds,
        b.capacity == a.capacity,
        b.nodes == a.nodes,
        b.paths == a.paths,
        b.counts@.len() == a.counts@.len(),
        forall|s: usize|
            s < a.stems() ==> #[trigger] b.counts@[s as int] == a.counts@[s as int]
                + if trail.contains(s) {
                1int
            } else {
                0int
            },
    ensures
        b.changed_along(a, trail, p),
        b.landed(a, k_lo, trail, p),
        b.region_wf(a.stems(), b.stems(), a.blocks()),
        b.contents_under(trail.last() as int, a.turn(trail.last() as int, p)) == a.contents_under(
            trail.last() as int,
            a.turn(trail.last() as int, p),
        ).insert(p),
        b.put(a, trail, p),
{
    reveal(IncrementalOctree::distinct);
    broadcast use vstd::multiset::group_multiset_axioms;

    let hit = trail.last() as int;
    let o = a.turn(hit, p);
    let r = a.slot(hit, o);
    let k = IncrementalOctree::block_of(r);
    let f = a.fill@[k] as int;
    let cap = a.capacity as int;
    lemma_turn_in_range(a, top, k_lo, hit, p);
    assert(a.slot_ok(hit, o, k_lo));
    lemma_slot_in_range(cap, a.blocks(), k, f);
    assert forall|k2: int, i: int|
        0 <= k2 < a.blocks() && 0 <= i < cap && (k2 != k || i != f) implies #[trigger] b.at(k2, i)
        == a.at(k2, i) by {
        lemma_slot_distinct(cap, k, f, k2, i);
        lemma_slot_in_range(cap, a.blocks(), k2, i);
    }
    assert(b.at(k, f) == p);
    assert forall|k2: int| 0 <= k2 < a.blocks() && k2 != k implies #[trigger] b.held(k2) == a.held(
        k2,
    ) by {
        assert(a.fill@[k2] <= cap);
        assert(b.held(k2) =~= a.held(k2));
    }
    assert(b.held(k) =~= a.held(k).push(p));
    vstd::seq_lib::to_multiset_build(a.held(k), p);
    assert(b.sized()) by {
        assert forall|k2: int| 0 <= k2 < b.blocks() implies #[trigger] b.fill@[k2]
            <= b.capacity by {
            assert(a.fill@[k2] <= cap);
        }
    }
    assert(b.slot(hit, o) == r);
    assert forall|i: int| 0 <= i < b.fill@[k] implies b.placed(
        #[trigger] b.at(k, i),
        b.paths@[hit].push(o),
    ) by {
        if i < f {
            assert(a.placed(a.at(k, i), a.paths@[hit].push(o)));
        }
    }
}

/// Room for the stem that takes the place of a full leaf.
pub proof fn lemma_room_for_split(a: &IncrementalOctree, level: int, lvl: int)
    requires
        a.has_room(MAX_DEPTH - level),
        0 <= level <= lvl,
        lvl + 1 < MAX_DEPTH,
    ensures
        8 * (a.stems() + 1) < IncrementalOctree::tag() - 1,
{
}

/// Room for adding a point below the stem that takes the place of a full
/// leaf, after `j` of the points of the leaf have been added there.
pub proof fn lemma_room_for_child(
    a: &IncrementalOctree,
    cur: &IncrementalOctree,
    level: int,
    lvl: int,
    j: int,
)
    requires
        a.has_room(MAX_DEPTH - level),
        0 <= level <= lvl,
        lvl + 1 < MAX_DEPTH,
        cur.capacity == a.capacity,
        cur.stems() == a.stems() + 1,
        cur.blocks() <= a.blocks() + j,
        0 <= j <= a.capacity,
    ensures
        cur.has_room(MAX_DEPTH - (lvl + 1)),
{
    let cap = a.capacity as int;
    let deep = MAX_DEPTH - (lvl + 1);
    assert(cap * (deep + 1) == cap * deep + cap) by (nonlinear_arith);
    assert(cap * (deep + 1) <= cap * (MAX_DEPTH - level)) by (nonlinear_arith)
        requires
            deep + 1 <= MAX_DEPTH - level,
            0 <= cap,
    ;
}

/// Room for adding the points of a full leaf below the stem that takes its
/// place.
pub proof fn lemma_room_for_pour(
    a: &IncrementalOctree,
    c: &IncrementalOctree,
    level: int,
    lvl: int,
)
    requires
        a.has_room(MAX_DEPTH - level),
        0 <= level <= lvl,
        lvl + 1 < MAX_DEPTH,
        c.capacity == a.capacity,
        c.stems() == a.stems() + 1,
        c.blocks() == a.blocks(),
    ensures
        8 * (c.stems() + (MAX_DEPTH - (lvl + 1))) < IncrementalOctree::tag() - 1,
        c.blocks() + c.capacity + 1 + c.capacity * (MAX_DEPTH - (lvl + 1))
            < IncrementalOctree::tag() - 1,
{
    let cap = a.capacity as int;
    let deep = MAX_DEPTH - (lvl + 1);
    assert(cap * (deep + 1) == cap * deep + cap) by (nonlinear_arith);
    assert(cap * (deep + 1) <= cap * (MAX_DEPTH - level)) by (nonlinear_arith)
        requires
            deep + 1 <= MAX_DEPTH - level,
            0 <= cap,
    ;
}

/// The leaves added below a new stem, first by the points of the leaf it
/// took the place of, then by the point that came, stay within what one
/// leaf for each new stem allows.
pub proof fn lemma_growth(cap: int, first: int, filled: int, grown: int, stems: int)
    requires
        filled <= first + cap,
        grown - filled <= 1 + cap * stems,
        0 <= stems,
        0 <= cap,
    ensures
        grown - first <= 1 + cap * (1 + stems),
{
    assert(cap * (1 + stems) == cap + cap * stems) by (nonlinear_arith);
}

/// What is left alone twice is left alone.
pub proof fn lemma_kept_twice(
    x: &IncrementalOctree,
    y: &IncrementalOctree,
    z: &IncrementalOctree,
    top: int,
    k_lo: int,
)
    requires
        y.kept_outside(x, top, k_lo),
        z.kept_outside(y, top, k_lo),
    ensures
        z.kept_outside(x, top, k_lo),
{
    assert forall|s: int| 0 <= s < top implies #[trigger] z.paths@[s] == x.paths@[s] by {
        assert(y.paths@[s] == x.paths@[s]);
    }
    assert forall|s: int| 0 <= s < top implies #[trigger] z.counts@[s] == x.counts@[s] by {
        assert(y.counts@[s] == x.counts@[s]);
    }
    assert forall|s: int, o: int| 0 <= s < top && 0 <= o < 8 implies #[trigger] z.slot(s, o)
        == x.slot(s, o) by {
        assert(y.slot(s, o) == x.slot(s, o));
    }
    assert forall|k: int| 0 <= k < k_lo implies #[trigger] z.fill@[k] == x.fill@[k] by {
        assert(y.fill@[k] == x.fill@[k]);
    }
    assert forall|k: int| 0 <= k < k_lo implies #[trigger] z.held(k) == x.held(k) by {
        assert(y.held(k) == x.held(k));
    }
}

/// A full leaf whose points do not all lie at the place of the point that
/// comes hangs above the deepest level: the tree can grow below it.
pub proof fn lemma_parted_above_limit(
    a: &IncrementalOctree,
    top: int,
    k_lo: int,
    trail: Seq<usize>,
    p: Point,
)
    requires
        a.region_wf(top, a.stems(), k_lo),
        a.is_trail(top, p, trail),
        IncrementalOctree::is_block_ref(
            a.slot(trail.last() as int, a.turn(trail.last() as int, p)),
        ),
        a.placed(p, a.paths@[trail.last() as int].push(a.turn(trail.last() as int, p))),
        exists|i: int|
            0 <= i < a.fill@[IncrementalOctree::block_of(
                a.slot(trail.last() as int, a.turn(trail.last() as int, p)),
            )] && a.at(
                IncrementalOctree::block_of(
                    a.slot(trail.last() as int, a.turn(trail.last() as int, p)),
                ),
                i,
            ) != p,
    ensures
        a.paths@[trail.last() as int].len() + 1 < MAX_DEPTH,
{
    let hit = trail.last() as int;
    let o = a.turn(hit, p);
    let k = IncrementalOctree::block_of(a.slot(hit, o));
    let path = a.paths@[hit].push(o);
    lemma_turn_in_range(a, top, k_lo, hit, p);
    assert(a.slot_ok(hit, o, k_lo));
    if path.len() >= MAX_DEPTH {
        let i = choose|i: int| 0 <= i < a.fill@[k] && a.at(k, i) != p;
        let q = a.at(k, i);
        assert(a.placed(q, path));
        assert(octants_only(path)) by {
            assert forall|n: int| 0 <= n < path.len() implies 0 <= #[trigger] path[n] < 8 by {
                if n < path.len() - 1 {
                    assert(path[n] == a.paths@[hit][n]);
                }
            }
        }
        lemma_room_at_root(a.bounds.den as int);
        lemma_narrow_at_root(a.bounds.size as int, a.bounds.den as int);
        lemma_follows_holds(a.bounds, p, path, MAX_DEPTH as nat);
        lemma_follows_holds(a.bounds, q, path, MAX_DEPTH as nat);
        lemma_cube_at(a.bounds, path, MAX_DEPTH as nat);
        lemma_narrow_cube_holds_one(cube_at(a.bounds, path), p, q);
    }
}

/// What the tree is like once a stem with eight empty children has been
/// appended to take the place of a full leaf.
pub proof fn lemma_new_stem_region(
    a: &IncrementalOctree,
    c: &IncrementalOctree,
    top: int,
    k_lo: int,
    trail: Seq<usize>,
    p: Point,
)
    requires
        a.region_wf(top, a.stems(), k_lo),
        a.is_trail(top, p, trail),
        a.paths@[trail.last() as int].len() + 1 < MAX_DEPTH,
        c.sized(),
        c.stems() == a.stems() + 1,
        c.bounds == a.bounds,
        c.capacity == a.capacity,
        c.points == a.points,
        c.fill == a.fill,
        c.counts@ == a.counts@.push(0),
        c.paths@ == a.paths@.push(
            a.paths@[trail.last() as int].push(a.turn(trail.last() as int, p)),
        ),
        forall|i: int| 0 <= i < 8 * a.stems() ==> c.nodes@[i] == a.nodes@[i],
        forall|o: int|
            0 <= o < 8 ==> IncrementalOctree::is_empty_ref(#[trigger] c.slot(a.stems(), o)),
    ensures
        c.region_wf(a.stems(), c.stems(), a.blocks()),
        c.kept_outside(a, a.stems(), a.blocks()),
        c.contents_of(a.stems()) == vstd::multiset::Multiset::<Point>::empty(),
        c.cube_of(a.stems()) == a.cube_of(trail.last() as int).child(
            a.turn(trail.last() as int, p),
        ),
        c.counts@[a.stems()] == 0,
        c.blocks() == a.blocks(),
{
    reveal(IncrementalOctree::distinct);
    broadcast use vstd::multiset::group_multiset_axioms;

    let hit = trail.last() as int;
    let o = a.turn(hit, p);
    let s = a.stems();
    let path = a.paths@[hit].push(o);
    lemma_turn_in_range(a, top, k_lo, hit, p);
    assert(octants_only(path)) by {
        assert forall|n: int| 0 <= n < path.len() implies 0 <= #[trigger] path[n] < 8 by {
            if n < path.len() - 1 {
                assert(path[n] == a.paths@[hit][n]);
            }
        }
    }
    assert(path.drop_last() =~= a.paths@[hit]);
    assert forall|s2: int, o2: int| s <= s2 < c.stems() && 0 <= o2 < 8 implies #[trigger] c.slot_ok(
        s2,
        o2,
        a.blocks(),
    ) by {
        assert(IncrementalOctree::is_empty_ref(c.slot(s, o2)));
    }
    assert forall|s1: int, o1: int, s2: int, o2: int|
        s <= s1 < c.stems() && 0 <= o1 < 8 && s <= s2 < c.stems() && 0 <= o2 < 8 && (s1 != s2
            || o1 != o2) && !IncrementalOctree::is_empty_ref(
            #[trigger] c.slot(s1, o1),
        ) implies c.slot(s1, o1) != #[trigger] c.slot(s2, o2) by {
        assert(IncrementalOctree::is_empty_ref(c.slot(s, o1)));
    }
    assert(IncrementalOctree::is_empty_ref(c.slot(s, 0)) && IncrementalOctree::is_empty_ref(
        c.slot(s, 1),
    ) && IncrementalOctree::is_empty_ref(c.slot(s, 2)) && IncrementalOctree::is_empty_ref(
        c.slot(s, 3),
    ) && IncrementalOctree::is_empty_ref(c.slot(s, 4)) && IncrementalOctree::is_empty_ref(
        c.slot(s, 5),
    ) && IncrementalOctree::is_empty_ref(c.slot(s, 6)) && IncrementalOctree::is_empty_ref(
        c.slot(s, 7),
    ));
    assert forall|s2: int, o2: int| 0 <= s2 < s && 0 <= o2 < 8 implies #[trigger] c.slot(s2, o2)
        == a.slot(s2, o2) by {
        assert(c.nodes@[8 * s2 + o2] == a.nodes@[8 * s2 + o2]);
    }
    assert forall|k: int| 0 <= k < a.blocks() implies #[trigger] c.held(k) == a.held(k) by {
        assert(c.held(k) =~= a.held(k));
    }
    assert(c.contents_under(s, 0) =~= vstd::multiset::Multiset::<Point>::empty());
    assert(c.contents_under(s, 1) =~= vstd::multiset::Multiset::<Point>::empty());
    assert(c.contents_under(s, 2) =~= vstd::multiset::Multiset::<Point>::empty());
    assert(c.contents_under(s, 3) =~= vstd::multiset::Multiset::<Point>::empty());
    assert(c.contents_under(s, 4) =~= vstd::multiset::Multiset::<Point>::empty());
    assert(c.contents_under(s, 5) =~= vstd::multiset::Multiset::<Point>::empty());
    assert(c.contents_under(s, 6) =~= vstd::multiset::Multiset::<Point>::empty());
    assert(c.contents_under(s, 7) =~= vstd::multiset::Multiset::<Point>::empty());
    assert(c.contents_of(s) =~= vstd::multiset::Multiset::<Point>::empty());
    assert(c.paths@[s] == path);
    assert(c.cube_of(s) == a.cube_of(hit).child(o));
}

/// The stems from `top` on are sound, and hold the points they did, in a
/// tree that differs only before `top` and in the leaves before `k_lo`.
pub proof fn lemma_region_kept(
    g: &IncrementalOctree,
    b: &IncrementalOctree,
    top: int,
    k_lo: int,
    s: int,
)
    requires
        g.region_wf(top, g.stems(), k_lo),
        b.sized(),
        b.capacity == g.capacity,
        b.bounds == g.bounds,
        b.stems() == g.stems(),
        b.blocks() == g.blocks(),
        forall|s2: int| top <= s2 < g.stems() ==> #[trigger] b.paths@[s2] == g.paths@[s2],
        forall|s2: int| top <= s2 < g.stems() ==> #[trigger] b.counts@[s2] == g.counts@[s2],
        forall|s2: int, o: int|
            top <= s2 < g.stems() && 0 <= o < 8 ==> #[trigger] b.slot(s2, o) == g.slot(s2, o),
        forall|k: int| k_lo <= k < g.blocks() ==> #[trigger] b.fill@[k] == g.fill@[k],
        forall|k: int| k_lo <= k < g.blocks() ==> #[trigger] b.held(k) == g.held(k),
        top <= s < g.stems(),
    ensures
        b.region_wf(top, b.stems(), k_lo),
        b.contents_of(s) == g.contents_of(s),
    decreases g.stems() - s,
{
    reveal(IncrementalOctree::distinct);
    assert forall|s2: int, o: int| top <= s2 < b.stems() && 0 <= o < 8 implies #[trigger] b.slot_ok(
        s2,
        o,
        k_lo,
    ) by {
        assert(g.slot_ok(s2, o, k_lo));
        let r = g.slot(s2, o);
        assert(b.slot(s2, o) == r);
        if IncrementalOctree::is_block_ref(r) && !IncrementalOctree::is_empty_ref(r) {
            let k = IncrementalOctree::block_of(r);
            assert(b.fill@[k] == g.fill@[k] && b.held(k) == g.held(k));
            assert forall|i: int| 0 <= i < b.fill@[k] implies b.placed(
                #[trigger] b.at(k, i),
                b.paths@[s2].push(o),
            ) by {
                assert(b.held(k)[i] == g.held(k)[i]);
                assert(g.placed(g.at(k, i), g.paths@[s2].push(o)));
            }
        } else if IncrementalOctree::is_stem_ref(r) {
            let s3 = IncrementalOctree::stem_of(r);
            assert(b.paths@[s3] == g.paths@[s3]);
            assert(b.paths@[s2] == g.paths@[s2]);
        }
    }
    assert forall|s1: int, o1: int, s2: int, o2: int|
        top <= s1 < b.stems() && 0 <= o1 < 8 && top <= s2 < b.stems() && 0 <= o2 < 8 && (s1 != s2
            || o1 != o2) && !IncrementalOctree::is_empty_ref(
            #[trigger] b.slot(s1, o1),
        ) implies b.slot(s1, o1) != #[trigger] b.slot(s2, o2) by {
        assert(g.slot(s1, o1) != g.slot(s2, o2));
    }
    assert forall|s2: int| top <= s2 < b.stems() implies (#[trigger] b.counts@[s2])
        == b.weight_below(s2) by {
        assert(g.counts@[s2] == g.weight_below(s2));
        assert forall|o: int| 0 <= o < 8 implies b.weight(#[trigger] b.slot(s2, o)) == g.weight(
            g.slot(s2, o),
        ) by {
            assert(g.slot_ok(s2, o, k_lo));
            let r = g.slot(s2, o);
            assert(b.slot(s2, o) == r);
            if IncrementalOctree::is_empty_ref(r) {
            } else if IncrementalOctree::is_block_ref(r) {
                let k = IncrementalOctree::block_of(r);
                assert(b.fill@[k] == g.fill@[k]);
            } else {
                let s3 = IncrementalOctree::stem_of(r);
                assert(b.paths@[s3] == g.paths@[s3] && b.counts@[s3] == g.counts@[s3]);
            }
        }
        assert(b.slot(s2, 0) == g.slot(s2, 0) && b.slot(s2, 1) == g.slot(s2, 1) && b.slot(s2, 2)
            == g.slot(s2, 2) && b.slot(s2, 3) == g.slot(s2, 3) && b.slot(s2, 4) == g.slot(s2, 4)
            && b.slot(s2, 5) == g.slot(s2, 5) && b.slot(s2, 6) == g.slot(s2, 6) && b.slot(s2, 7)
            == g.slot(s2, 7));
    }
    assert forall|o: int| 0 <= o < 8 implies #[trigger] b.contents_under(s, o) == g.contents_under(
        s,
        o,
    ) by {
        assert(g.slot_ok(s, o, k_lo));
        let r = g.slot(s, o);
        assert(b.slot(s, o) == r);
        if IncrementalOctree::is_stem_ref(r) {
            lemma_region_kept(g, b, top, k_lo, IncrementalOctree::stem_of(r));
        }
    }
    assert(b.contents_under(s, 0) == g.contents_under(s, 0));
    assert(b.contents_under(s, 1) == g.contents_under(s, 1));
    assert(b.contents_under(s, 2) == g.contents_under(s, 2));
    assert(b.contents_under(s, 3) == g.contents_under(s, 3));
    assert(b.contents_under(s, 4) == g.contents_under(s, 4));
    assert(b.contents_under(s, 5) == g.contents_under(s, 5));
    assert(b.contents_under(s, 6) == g.contents_under(s, 6));
    assert(b.contents_under(s, 7) == g.contents_under(s, 7));
}

/// What the tree is like once the points of a full leaf and the point that
/// came have been added below a new stem, the leaf has been given up, and
/// the stem has been made the child in its place.
#[verifier::rlimit(40)]
pub proof fn lemma_after_split(
    a: &IncrementalOctree,
    g: &IncrementalOctree,
    b: &IncrementalOctree,
    top: int,
    k_lo: int,
    trail: Seq<usize>,
    p: Point,
    link: usize,
)
    requires
        a.region_wf(top, a.stems(), k_lo),
        a.is_trail(top, p, trail),
        IncrementalOctree::is_block_ref(
            a.slot(trail.last() as int, a.turn(trail.last() as int, p)),
        ),
        a.fill@[IncrementalOctree::block_of(
            a.slot(trail.last() as int, a.turn(trail.last() as int, p)),
        )] == a.capacity,
        g.sized(),
        a.stems() < g.stems(),
        g.region_wf(a.stems(), g.stems(), a.blocks()),
        g.kept_outside(a, a.stems(), a.blocks()),
        g.paths@[a.stems()] == a.paths@[trail.last() as int].push(a.turn(trail.last() as int, p)),
        g.counts@[a.stems()] == a.capacity + 1,
        g.contents_of(a.stems()) == a.held(
            IncrementalOctree::block_of(
                a.slot(trail.last() as int, a.turn(trail.last() as int, p)),
            ),
        ).to_multiset().insert(p),
        link == 8 * a.stems(),
        b.fill@ == g.fill@.update(
            IncrementalOctree::block_of(
                a.slot(trail.last() as int, a.turn(trail.last() as int, p)),
            ),
            0,
        ),
        b.bounds == g.bounds,
        b.capacity == g.capacity,
        b.points == g.points,
        b.paths == g.paths,
        b.nodes@ == g.nodes@.update(
            8 * (trail.last() as int) + a.turn(trail.last() as int, p),
            link,
        ),
        b.counts@.len() == g.counts@.len(),
        forall|s: usize|
            s < g.stems() ==> #[trigger] b.counts@[s as int] == g.counts@[s as int]
                + if trail.contains(s) {
                1int
            } else {
                0int
            },
    ensures
        b.changed_along(a, trail, p),
        b.landed(a, k_lo, trail, p),
        b.region_wf(a.stems(), b.stems(), a.blocks()),
        b.contents_under(trail.last() as int, a.turn(trail.last() as int, p)) == a.contents_under(
            trail.last() as int,
            a.turn(trail.last() as int, p),
        ).insert(p),
        b.put(a, trail, p),
        b.lines_at(a.stems()) == g.lines_at(a.stems()),
{
    let hit = trail.last() as int;
    let o = a.turn(hit, p);
    let k = IncrementalOctree::block_of(a.slot(hit, o));
    let below = a.stems();
    lemma_turn_in_range(a, top, k_lo, hit, p);
    assert(a.slot_ok(hit, o, k_lo));
    assert(b.sized()) by {
        assert forall|k2: int| 0 <= k2 < b.blocks() implies #[trigger] b.fill@[k2]
            <= b.capacity by {
            assert(g.fill@[k2] <= g.capacity);
        }
    }
    assert forall|s: int, o2: int| 0 <= s < g.stems() && 0 <= o2 < 8 && (s != hit || o2
        != o) implies #[trigger] b.slot(s, o2) == g.slot(s, o2) by {
        assert(8 * s + o2 != 8 * hit + o);
    }
    assert(b.slot(hit, o) == link);
    assert forall|k2: int| 0 <= k2 < g.blocks() && k2 != k implies #[trigger] b.held(k2)
        == g.held(k2) by {
        assert(b.held(k2) =~= g.held(k2));
    }
    assert forall|s: usize| s < g.stems() && s >= below implies !trail.contains(s) by {
        if trail.contains(s) {
            let i = choose|i: int| 0 <= i < trail.len() && trail[i] == s;
            assert(trail[i] < a.stems());
        }
    }
    assert forall|s2: int| below <= s2 < g.stems() implies #[trigger] b.counts@[s2]
        == g.counts@[s2] by {
        assert(b.counts@[(s2 as usize) as int] == g.counts@[(s2 as usize) as int]);
    }
    lemma_region_kept(g, b, below, a.blocks(), below);
    lemma_lines_kept(g, b, below, a.blocks(), below);
    // what has changed along the trail
    assert forall|s: usize| s < a.stems() implies #[trigger] b.counts@[s as int]
        == a.counts@[s as int] + if trail.contains(s) {
        1int
    } else {
        0int
    } by {
        assert(g.counts@[s as int] == a.counts@[s as int]);
    }
    assert forall|s: int, o2: int| 0 <= s < a.stems() && 0 <= o2 < 8 && (s != hit || o2
        != o) implies #[trigger] b.slot(s, o2) == a.slot(s, o2) by {
        assert(g.slot(s, o2) == a.slot(s, o2));
    }
    assert forall|k2: int| 0 <= k2 < a.blocks() && !a.lands_on(trail, p, k2) implies #[trigger] b.fill@[k2]
        == a.fill@[k2] && b.held(k2) == a.held(k2) by {
        assert(g.fill@[k2] == a.fill@[k2] && g.held(k2) == a.held(k2));
    }
    assert forall|s: int| 0 <= s < a.stems() implies #[trigger] b.paths@[s] == a.paths@[s] by {
        assert(g.paths@[s] == a.paths@[s]);
    }
    // the new child
    assert(IncrementalOctree::stem_of(link) == below);
    assert(!trail.contains(below as usize)) by {
        if trail.contains(below as usize) {
            let i = choose|i: int| 0 <= i < trail.len() && trail[i] == below as usize;
            assert(trail[i] < a.stems());
        }
    }
    assert(b.counts@[(below as usize) as int] == g.counts@[(below as usize) as int]);
    assert(b.paths@[below] == a.paths@[hit].push(o));
    assert(b.contents_under(hit, o) == b.contents_of(below));
}

/// Whether `s` is among the first `n` entries of `trail`.
pub open spec fn passed(trail: Seq<usize>, n: int, s: usize) -> bool {
    exists|i: int| 0 <= i < n && i < trail.len() && trail[i] == s
}

/// Slot `i` of leaf `k` lies among the slots of the leaves.
pub proof fn lemma_slot_in_range(cap: int, blocks: int, k: int, i: int)
    requires
        0 <= k < blocks,
        0 <= i < cap,
    ensures
        0 <= cap * k + i < cap * blocks,
        cap * k + cap <= cap * blocks,
        0 <= cap * k,
{
    assert(cap * k + cap <= cap * blocks) by (nonlinear_arith)
        requires
            0 <= k < blocks,
            0 < cap,
    ;
    assert(0 <= cap * k) by (nonlinear_arith)
        requires
            0 <= k,
            0 < cap,
    ;
}

/// The stems of a trail are stored one after the other.
pub proof fn lemma_trail_rises(
    t: &IncrementalOctree,
    top: int,
    k_lo: int,
    p: Point,
    trail: Seq<usize>,
    i: int,
    j: int,
)
    requires
        t.region_wf(top, t.stems(), k_lo),
        t.is_trail(top, p, trail),
        0 <= i < j < trail.len(),
    ensures
        trail[i] < trail[j],
    decreases j - i,
{
    let s = trail[j - 1] as int;
    assert(t.leads(s, p, trail[j - 1 + 1] as int));
    lemma_turn_in_range(t, top, k_lo, s, p);
    assert(t.slot_ok(s, t.turn(s, p), k_lo));
    if i < j - 1 {
        lemma_trail_rises(t, top, k_lo, p, trail, i, j - 1);
    }
}

/// The octant that a point falls into is one of the eight.
pub proof fn lemma_turn_in_range(t: &IncrementalOctree, top: int, k_lo: int, s: int, p: Point)
    requires
        t.region_wf(top, t.stems(), k_lo),
        top <= s < t.stems(),
    ensures
        0 <= t.turn(s, p) < 8,
{
}

/// Only the stem before it on the trail has a stem of the trail as a child,
/// and that in the octant that the added point falls into.
pub proof fn lemma_trail_child(
    t: &IncrementalOctree,
    top: int,
    k_lo: int,
    p: Point,
    trail: Seq<usize>,
    s: int,
    o: int,
)
    requires
        t.region_wf(top, t.stems(), k_lo),
        t.is_trail(top, p, trail),
        top <= s < t.stems(),
        0 <= o < 8,
        IncrementalOctree::is_stem_ref(t.slot(s, o)),
        trail.contains(IncrementalOctree::stem_of(t.slot(s, o)) as usize),
    ensures
        trail.contains(s as usize),
        o == t.turn(s, p),
        s != trail.last(),
{
    reveal(IncrementalOctree::distinct);
    let r = t.slot(s, o);
    let s2 = IncrementalOctree::stem_of(r);
    assert(t.slot_ok(s, o, k_lo));
    let j = choose|j: int| 0 <= j < trail.len() && trail[j] == s2 as usize;
    assert(j > 0);
    let before = trail[j - 1] as int;
    assert(t.leads(before, p, trail[j - 1 + 1] as int));
    lemma_turn_in_range(t, top, k_lo, before, p);
    let r2 = t.slot(before, t.turn(before, p));
    assert(t.slot_ok(before, t.turn(before, p), k_lo));
    assert(r2 == r);
    assert(trail[j - 1] == s as usize);
    if s == trail.last() {
        lemma_trail_rises(t, top, k_lo, p, trail, j - 1, j);
        if j < trail.len() - 1 {
            lemma_trail_rises(t, top, k_lo, p, trail, j, trail.len() - 1);
        }
    }
}

/// After a point has been added along a trail, the stems from `top` on are
/// sound again.
#[verifier::rlimit(40)]
pub proof fn lemma_region_step(
    a: &IncrementalOctree,
    b: &IncrementalOctree,
    top: int,
    k_lo: int,
    trail: Seq<usize>,
    p: Point,
)
    requires
        a.region_wf(top, a.stems(), k_lo),
        a.is_trail(top, p, trail),
        b.changed_along(a, trail, p),
        b.landed(a, k_lo, trail, p),
        b.region_wf(a.stems(), b.stems(), a.blocks()),
    ensures
        b.region_wf(top, b.stems(), k_lo),
{
    reveal(IncrementalOctree::distinct);
    let hit = trail.last() as int;
    let o = a.turn(hit, p);
    lemma_turn_in_range(a, top, k_lo, hit, p);
    assert(a.slot_ok(hit, o, k_lo));
    // every child is sound
    assert forall|s: int, o2: int| top <= s < b.stems() && 0 <= o2 < 8 implies #[trigger] b.slot_ok(
        s,
        o2,
        k_lo,
    ) by {
        if s >= a.stems() {
            assert(b.slot_ok(s, o2, a.blocks()));
        } else if s != hit || o2 != o {
            lemma_slot_kept(a, b, top, k_lo, trail, p, s, o2);
        }
    }
    // no two children are the same node
    assert forall|s1: int, o1: int, s2: int, o2: int|
        top <= s1 < b.stems() && 0 <= o1 < 8 && top <= s2 < b.stems() && 0 <= o2 < 8 && (s1 != s2
            || o1 != o2) && !IncrementalOctree::is_empty_ref(
            #[trigger] b.slot(s1, o1),
        ) implies b.slot(s1, o1) != #[trigger] b.slot(s2, o2) by {
        lemma_slot_class(a, b, top, k_lo, trail, p, s1, o1);
        lemma_slot_class(a, b, top, k_lo, trail, p, s2, o2);
        let r1 = b.slot(s1, o1);
        let r2 = b.slot(s2, o2);
        if IncrementalOctree::is_empty_ref(r2) {
        } else if s1 >= a.stems() && s2 >= a.stems() {
            assert(r1 != r2);
        } else if s1 < a.stems() && s2 < a.stems() && (s1 != hit || o1 != o) && (s2 != hit || o2
            != o) {
            assert(a.slot(s1, o1) != a.slot(s2, o2));
        } else {
            assert(IncrementalOctree::is_block_ref(r1) || IncrementalOctree::is_stem_ref(r1));
            assert(IncrementalOctree::is_block_ref(r2) || IncrementalOctree::is_stem_ref(r2));
            if IncrementalOctree::is_stem_ref(r1) && IncrementalOctree::is_stem_ref(r2) {
                assert(IncrementalOctree::stem_of(r1) != IncrementalOctree::stem_of(r2));
            }
        }
    }
    // every stem counts the points below it
    assert forall|s: int| top <= s < b.stems() implies (#[trigger] b.counts@[s]) == b.weight_below(
        s,
    ) by {
        if s < a.stems() {
            lemma_weight_step(a, b, top, k_lo, trail, p, s);
        }
    }
}

/// Where a child of an old stem can point after a point has been added: to
/// an old node, if it is not the child that has changed; else as `landed`
/// says.
pub proof fn lemma_slot_class(
    a: &IncrementalOctree,
    b: &IncrementalOctree,
    top: int,
    k_lo: int,
    trail: Seq<usize>,
    p: Point,
    s: int,
    o2: int,
)
    requires
        a.region_wf(top, a.stems(), k_lo),
        a.is_trail(top, p, trail),
        b.changed_along(a, trail, p),
        b.landed(a, k_lo, trail, p),
        b.region_wf(a.stems(), b.stems(), a.blocks()),
        top <= s < b.stems(),
        0 <= o2 < 8,
    ensures
        ({
            let r = b.slot(s, o2);
            let hit = trail.last() as int;
            let o = a.turn(hit, p);
            if IncrementalOctree::is_empty_ref(r) {
                true
            } else if s >= a.stems() {
                if IncrementalOctree::is_block_ref(r) {
                    IncrementalOctree::block_of(r) >= a.blocks()
                } else {
                    IncrementalOctree::is_stem_ref(r) && IncrementalOctree::stem_of(r) > a.stems()
                        && r % 8 == 0
                }
            } else if s == hit && o2 == o {
                if IncrementalOctree::is_block_ref(r) {
                    r == a.slot(hit, o) || IncrementalOctree::block_of(r) >= a.blocks()
                } else {
                    IncrementalOctree::is_stem_ref(r) && IncrementalOctree::stem_of(r) == a.stems()
                        && r % 8 == 0
                }
            } else {
                r == a.slot(s, o2) && if IncrementalOctree::is_block_ref(r) {
                    IncrementalOctree::block_of(r) < a.blocks() && r != a.slot(hit, o)
                } else {
                    IncrementalOctree::is_stem_ref(r) && IncrementalOctree::stem_of(r) < a.stems()
                        && r % 8 == 0
                }
            }
        }),
{
    reveal(IncrementalOctree::distinct);
    let hit = trail.last() as int;
    let o = a.turn(hit, p);
    lemma_turn_in_range(a, top, k_lo, hit, p);
    if s >= a.stems() {
        assert(b.slot_ok(s, o2, a.blocks()));
    } else if s == hit && o2 == o {
        assert(b.slot_ok(hit, o, k_lo));
    } else {
        assert(a.slot_ok(s, o2, k_lo));
        assert(b.slot(s, o2) == a.slot(s, o2));
        if !IncrementalOctree::is_empty_ref(a.slot(s, o2)) {
            assert(a.slot(s, o2) != a.slot(hit, o));
        }
    }
}

/// A child of an old stem that has not changed is still sound.
pub proof fn lemma_slot_kept(
    a: &IncrementalOctree,
    b: &IncrementalOctree,
    top: int,
    k_lo: int,
    trail: Seq<usize>,
    p: Point,
    s: int,
    o2: int,
)
    requires
        a.region_wf(top, a.stems(), k_lo),
        a.is_trail(top, p, trail),
        b.changed_along(a, trail, p),
        top <= s < a.stems(),
        0 <= o2 < 8,
        s != trail.last() || o2 != a.turn(trail.last() as int, p),
    ensures
        b.slot_ok(s, o2, k_lo),
        b.weight(b.slot(s, o2)) == a.weight(a.slot(s, o2)) + if IncrementalOctree::is_stem_ref(
            a.slot(s, o2),
        ) && trail.contains(IncrementalOctree::stem_of(a.slot(s, o2)) as usize) {
            1int
        } else {
            0int
        },
{
    reveal(IncrementalOctree::distinct);
    let hit = trail.last() as int;
    let o = a.turn(hit, p);
    let r = a.slot(s, o2);
    lemma_turn_in_range(a, top, k_lo, hit, p);
    assert(a.slot_ok(s, o2, k_lo));
    assert(b.slot(s, o2) == r);
    if IncrementalOctree::is_empty_ref(r) {
    } else if IncrementalOctree::is_block_ref(r) {
        let k = IncrementalOctree::block_of(r);
        assert(r != a.slot(hit, o));
        assert(!a.lands_on(trail, p, k));
        assert(b.fill@[k] == a.fill@[k] && b.held(k) == a.held(k));
        assert forall|i: int| 0 <= i < b.fill@[k] implies b.placed(
            #[trigger] b.at(k, i),
            b.paths@[s].push(o2),
        ) by {
            assert(b.held(k)[i] == a.held(k)[i]);
            assert(a.placed(a.at(k, i), a.paths@[s].push(o2)));
        }
    } else {
        let s2 = IncrementalOctree::stem_of(r);
        assert(b.paths@[s2] == a.paths@[s2]);
        assert(b.paths@[s] == a.paths@[s]);
        assert(b.counts@[s2] >= a.counts@[s2]);
    }
}

/// After a point has been added along a trail, an old stem weighs one point
/// more if it lies on the trail, and what it did if not.
pub proof fn lemma_weight_step(
    a: &IncrementalOctree,
    b: &IncrementalOctree,
    top: int,
    k_lo: int,
    trail: Seq<usize>,
    p: Point,
    s: int,
)
    requires
        a.region_wf(top, a.stems(), k_lo),
        a.is_trail(top, p, trail),
        b.changed_along(a, trail, p),
        b.landed(a, k_lo, trail, p),
        top <= s < a.stems(),
    ensures
        b.weight_below(s) == a.weight_below(s) + if trail.contains(s as usize) {
            1int
        } else {
            0int
        },
{
    let hit = trail.last() as int;
    let o = a.turn(hit, p);
    let mine = a.turn(s, p);
    lemma_turn_in_range(a, top, k_lo, hit, p);
    lemma_turn_in_range(a, top, k_lo, s, p);
    assert(trail.contains(trail[trail.len() - 1]));
    assert forall|o2: int| 0 <= o2 < 8 implies b.weight(#[trigger] b.slot(s, o2)) == a.weight(
        a.slot(s, o2),
    ) + if trail.contains(s as usize) && o2 == mine {
        1int
    } else {
        0int
    } by {
        if s == hit && o2 == o {
        } else {
            lemma_slot_kept(a, b, top, k_lo, trail, p, s, o2);
            let r = a.slot(s, o2);
            if IncrementalOctree::is_stem_ref(r) && trail.contains(
                IncrementalOctree::stem_of(r) as usize,
            ) {
                lemma_trail_child(a, top, k_lo, p, trail, s, o2);
            } else if trail.contains(s as usize) && o2 == mine {
                // the way down goes on from here: the child is the next stem of the trail
                let i = choose|i: int| 0 <= i < trail.len() && trail[i] == s as usize;
                if i == trail.len() - 1 {
                    assert(s == hit);
                } else {
                    assert(a.leads(trail[i] as int, p, trail[i + 1] as int));
                    assert(trail.contains(trail[i + 1]));
                    assert(a.slot_ok(s, o2, k_lo));
                }
            }
        }
    }
}

/// After a point has been added along a trail, a stem off the trail holds
/// the points it did.
pub proof fn lemma_contents_clean(
    a: &IncrementalOctree,
    b: &IncrementalOctree,
    top: int,
    k_lo: int,
    trail: Seq<usize>,
    p: Point,
    s: int,
)
    requires
        a.region_wf(top, a.stems(), k_lo),
        a.is_trail(top, p, trail),
        b.changed_along(a, trail, p),
        top <= s < a.stems(),
        !trail.contains(s as usize),
    ensures
        b.contents_of(s) == a.contents_of(s),
    decreases a.stems() - s,
{
    assert(trail.contains(trail[trail.len() - 1]));
    lemma_child_clean(a, b, top, k_lo, trail, p, s, 0);
    lemma_child_clean(a, b, top, k_lo, trail, p, s, 1);
    lemma_child_clean(a, b, top, k_lo, trail, p, s, 2);
    lemma_child_clean(a, b, top, k_lo, trail, p, s, 3);
    lemma_child_clean(a, b, top, k_lo, trail, p, s, 4);
    lemma_child_clean(a, b, top, k_lo, trail, p, s, 5);
    lemma_child_clean(a, b, top, k_lo, trail, p, s, 6);
    lemma_child_clean(a, b, top, k_lo, trail, p, s, 7);
}

/// After a point has been added along a trail, a child that the trail does
/// not pass holds the points it did.
pub proof fn lemma_child_clean(
    a: &IncrementalOctree,
    b: &IncrementalOctree,
    top: int,
    k_lo: int,
    trail: Seq<usize>,
    p: Point,
    s: int,
    o2: int,
)
    requires
        a.region_wf(top, a.stems(), k_lo),
        a.is_trail(top, p, trail),
        b.changed_along(a, trail, p),
        top <= s < a.stems(),
        0 <= o2 < 8,
        !trail.contains(s as usize) || o2 != a.turn(s, p),
    ensures
        b.contents_under(s, o2) == a.contents_under(s, o2),
    decreases a.stems() - s, 0nat,
{
    reveal(IncrementalOctree::distinct);
    let hit = trail.last() as int;
    let r = a.slot(s, o2);
    assert(trail.contains(trail[trail.len() - 1]));
    lemma_turn_in_range(a, top, k_lo, hit, p);
    lemma_slot_kept(a, b, top, k_lo, trail, p, s, o2);
    assert(a.slot_ok(s, o2, k_lo));
    assert(b.slot(s, o2) == r);
    if IncrementalOctree::is_block_ref(r) {
        let k = IncrementalOctree::block_of(r);
        assert(r != a.slot(hit, a.turn(hit, p)));
        assert(!a.lands_on(trail, p, k));
        assert(b.held(k) == a.held(k));
    } else if IncrementalOctree::is_stem_ref(r) {
        let s2 = IncrementalOctree::stem_of(r);
        if trail.contains(s2 as usize) {
            lemma_trail_child(a, top, k_lo, p, trail, s, o2);
        }
        lemma_contents_clean(a, b, top, k_lo, trail, p, s2);
    }
}

/// After a point has been added along a trail, every stem of the trail
/// holds the points it did and the new one.
pub proof fn lemma_contents_trail(
    a: &IncrementalOctree,
    b: &IncrementalOctree,
    top: int,
    k_lo: int,
    trail: Seq<usize>,
    p: Point,
    i: int,
)
    requires
        a.region_wf(top, a.stems(), k_lo),
        a.is_trail(top, p, trail),
        b.changed_along(a, trail, p),
        0 <= i < trail.len(),
        b.contents_under(trail.last() as int, a.turn(trail.last() as int, p)) == a.contents_under(
            trail.last() as int,
            a.turn(trail.last() as int, p),
        ).insert(p),
    ensures
        b.contents_of(trail[i] as int) == a.contents_of(trail[i] as int).insert(p),
    decreases trail.len() - i,
{
    broadcast use vstd::multiset::group_multiset_axioms;

    let s = trail[i] as int;
    let mine = a.turn(s, p);
    lemma_turn_in_range(a, top, k_lo, s, p);
    assert forall|o2: int| 0 <= o2 < 8 && o2 != mine implies #[trigger] b.contents_under(s, o2)
        == a.contents_under(s, o2) by {
        lemma_child_clean(a, b, top, k_lo, trail, p, s, o2);
    }
    if i < trail.len() - 1 {
        let next = trail[i + 1] as int;
        assert(a.leads(s, p, next));
        assert(a.slot_ok(s, mine, k_lo));
        lemma_trail_rises(a, top, k_lo, p, trail, i, trail.len() - 1);
        assert(b.slot(s, mine) == a.slot(s, mine));
        lemma_contents_trail(a, b, top, k_lo, trail, p, i + 1);
        assert(b.contents_under(s, mine) == b.contents_of(next));
        assert(a.contents_under(s, mine) == a.contents_of(next));
    }
    assert(b.contents_under(s, mine) == a.contents_under(s, mine).insert(p));
    lemma_one_of_eight(
        Seq::new(8, |o: int| a.contents_under(s, o)),
        Seq::new(8, |o: int| b.contents_under(s, o)),
        mine,
        p,
    );
}

/// If one of eight multisets gains a value, so does their sum.
pub proof fn lemma_one_of_eight(
    a: Seq<vstd::multiset::Multiset<Point>>,
    b: Seq<vstd::multiset::Multiset<Point>>,
    at: int,
    p: Point,
)
    requires
        a.len() == 8,
        b.len() == 8,
        0 <= at < 8,
        forall|o: int| 0 <= o < 8 && o != at ==> b[o] == a[o],
        b[at] == a[at].insert(p),
    ensures
        b[0].add(b[1]).add(b[2]).add(b[3]).add(b[4]).add(b[5]).add(b[6]).add(b[7]) == a[0].add(
            a[1],
        ).add(a[2]).add(a[3]).add(a[4]).add(a[5]).add(a[6]).add(a[7]).insert(p),
{
    broadcast use vstd::multiset::group_multiset_axioms;

    assert(b[0].add(b[1]).add(b[2]).add(b[3]).add(b[4]).add(b[5]).add(b[6]).add(b[7]) =~= a[0].add(
        a[1],
    ).add(a[2]).add(a[3]).add(a[4]).add(a[5]).add(a[6]).add(a[7]).insert(p));
}

} // verus!
