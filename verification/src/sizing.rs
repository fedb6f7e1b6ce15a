//! Sizing a build before it is made: the number of nodes that the octree of
//! a set of points holds, counted without storing a node.

use crate::bulk::{all_ids, lemma_child_nodes, lemma_cuts_ordered, lemma_whole_is_stem, min_nat, MAX_NODES};
use crate::geometry::{lemma_room_at_root, lemma_room_less, room, Cube, Point, MAX_DEPTH};
use crate::model::{ideal, Tree};
use crate::octree::{lemma_split_frame, Octree};
use vstd::prelude::*;

verus! {

/// After the nodes of part `o` are counted, the parts up to `o` are all
/// that has moved since the range was cut up.
pub proof fn lemma_counted_child(
    mid: &Octree,
    prev: &Octree,
    now: &Octree,
    begin: int,
    end: int,
    cuts: Seq<u32>,
    cube: Cube,
    o: int,
)
    requires
        0 <= o < 8,
        mid.cut_up(begin, end, cuts, cube),
        prev.same_but_indices(mid),
        prev.same_outside(mid, begin, end),
        prev.same_outside(mid, begin, cuts[o] as int),
        prev.range_ok(begin, end),
        prev.ids(begin, end) == mid.ids(begin, end),
        now.same_but_indices(prev),
        now.same_outside(prev, cuts[o] as int, cuts[o + 1] as int),
        now.range_ok(cuts[o] as int, cuts[o + 1] as int),
        now.ids(cuts[o] as int, cuts[o + 1] as int) == prev.ids(
            cuts[o] as int,
            cuts[o + 1] as int,
        ),
    ensures
        now.same_but_indices(mid),
        now.same_outside(mid, begin, end),
        now.same_outside(mid, begin, cuts[o + 1] as int),
        now.range_ok(begin, end),
        now.ids(begin, end) == mid.ids(begin, end),
{
    let lo = cuts[o] as int;
    let hi = cuts[o + 1] as int;
    lemma_cuts_ordered(cuts, 0, o);
    lemma_cuts_ordered(cuts, o + 1, 8);
    assert(cuts[o] <= cuts[o + 1]);
    if lo >= hi {
        assert(now.indices@ =~= prev.indices@);
    }
    lemma_split_frame(mid, prev, now, lo, hi, begin, end);
    assert forall|i: int|
        0 <= i < now.indices@.len() && !(begin <= i < hi) implies #[trigger] now.indices@[i]
        == mid.indices@[i] by {
        assert(now.indices@[i] == prev.indices@[i]);
    }
}

impl Octree {
    /// Counts the nodes of the octree of positions `begin..end` inside
    /// `cube`, storing none: `Some` of their number where it is at most
    /// `limit`, else `None`.  The positions are rearranged among themselves.
    fn count_nodes(
        &mut self,
        begin: u32,
        end: u32,
        cube: Cube,
        bucket_size: u32,
        depth: u32,
        limit: u32,
    ) -> (r: Option<u32>)
        requires
            old(self).range_ok(begin as int, end as int),
            cube.wf(),
            room(cube.den as int, depth as nat),
        ensures
            final(self).same_but_indices(old(self)),
            final(self).same_outside(old(self), begin as int, end as int),
            final(self).range_ok(begin as int, end as int),
            final(self).ids(begin as int, end as int) == old(self).ids(begin as int, end as int),
            r is Some <==> ideal(
                old(self).points@,
                old(self).ids(begin as int, end as int),
                cube,
                depth as nat,
                bucket_size as nat,
            ).nodes() <= limit,
            r is Some ==> r->0 == ideal(
                old(self).points@,
                old(self).ids(begin as int, end as int),
                cube,
                depth as nat,
                bucket_size as nat,
            ).nodes(),
        decreases depth,
    {
        let ghost bucket = bucket_size as nat;
        let ghost deeper = (depth - 1) as nat;
        let ghost whole = ideal(
            old(self).points@,
            old(self).ids(begin as int, end as int),
            cube,
            depth as nat,
            bucket,
        );
        if limit == 0 {
            return None;
        }
        if depth == 0 || (end - begin) <= bucket_size {
            proof {
                vstd::seq_lib::to_multiset_len(self.indices@.subrange(begin as int, end as int));
            }
            return Some(1);
        }
        let mut sub = self.subdivide(begin, end, cube);
        let ghost mid = *self;
        let ghost cuts = sub.delimiter@;
        let mut used: u32 = 1;
        let mut o: usize = 0;
        proof {
            assert(mid.cut_up(begin as int, end as int, cuts, cube)) by {
                assert forall|j: int| 0 <= j < 8 implies cuts[j] <= #[trigger] cuts[j + 1] by {
                    assert(sub.delimiter[j] <= sub.delimiter[j + 1]);
                }
                assert forall|p: int, i: int|
                    #![trigger cuts[p], mid.point_at(i)]
                    0 <= p < 8 && cuts[p] <= i < cuts[p + 1] implies cube.octant_of(
                    mid.point_at(i),
                ) == p by {
                    assert(sub.delimiter[p] <= i < sub.delimiter[p + 1]);
                }
            }
            lemma_whole_is_stem(&mid, begin as int, end as int, cube, depth as nat, bucket);
        }
        while o < 8
            invariant
                0 <= o <= 8,
                depth > 0,
                deeper == depth - 1,
                bucket == bucket_size,
                end - begin > bucket,
                cube.wf(),
                room(cube.den as int, depth as nat),
                sub.current == o,
                sub.cube == cube,
                sub.delimiter@ == cuts,
                mid.cut_up(begin as int, end as int, cuts, cube),
                mid.same_but_indices(old(self)),
                mid.same_outside(old(self), begin as int, end as int),
                mid.ids(begin as int, end as int) == old(self).ids(begin as int, end as int),
                self.same_but_indices(&mid),
                self.same_outside(&mid, begin as int, end as int),
                self.same_outside(&mid, begin as int, cuts[o as int] as int),
                self.range_ok(begin as int, end as int),
                self.ids(begin as int, end as int) == mid.ids(begin as int, end as int),
                whole == ideal(mid.points@, mid.ids(begin as int, end as int), cube, depth as nat, bucket),
                whole is Stem,
                whole->children.len() == 8,
                whole.nodes() == 1 + Tree::nodes_of(whole->children, 8),
                used == 1 + Tree::nodes_of(whole->children, o as nat),
                used <= limit,
            decreases 8 - o,
        {
            let ghost prev = *self;
            proof {
                assert(cuts[o as int] <= cuts[o + 1]);
                lemma_cuts_ordered(cuts, 0, o as int);
                lemma_cuts_ordered(cuts, o + 1, 8);
                lemma_child_nodes(
                    &mid,
                    self,
                    begin as int,
                    end as int,
                    cuts,
                    cube,
                    depth as nat,
                    bucket,
                    o as int,
                );
                crate::geometry::lemma_cube_nesting(cube, o as int);
                assert(room(4 * cube.den, deeper));
            }
            let space = sub.next().unwrap();
            let got = self.count_nodes(
                space.begin,
                space.end,
                space.cube,
                bucket_size,
                depth - 1,
                limit - used,
            );
            proof {
                lemma_counted_child(
                    &mid,
                    &prev,
                    self,
                    begin as int,
                    end as int,
                    cuts,
                    cube,
                    o as int,
                );
            }
            match got {
                None => {
                    return None;
                },
                Some(k) => {
                    used = used + k;
                },
            }
            o += 1;
        }
        Some(used)
    }

    /// The number of nodes, stems and leaves together, of the octree of
    /// `points`, `depth` levels deep at most and with buckets of
    /// `bucket_size`: `Some` of it where the points can be numbered and it is
    /// at most `limit`, else `None`.  The count goes through the points as a
    /// build does, but stores no node.
    pub fn node_count(points: &[Point], depth: u32, bucket_size: u32, limit: u32) -> (r: Option<
        u32,
    >)
        ensures
            r is Some <==> points@.len() <= u32::MAX && ideal(
                points@,
                all_ids(points@.len()),
                Cube::bounding_spec(points@),
                min_nat(depth as nat, MAX_DEPTH as nat),
                bucket_size as nat,
            ).nodes() <= limit,
            r is Some ==> r->0 == ideal(
                points@,
                all_ids(points@.len()),
                Cube::bounding_spec(points@),
                min_nat(depth as nat, MAX_DEPTH as nat),
                bucket_size as nat,
            ).nodes(),
    {
        if points.len() > u32::MAX as usize {
            return None;
        }
        let levels: u32 = if depth > MAX_DEPTH {
            MAX_DEPTH
        } else {
            depth
        };
        let mut tree = Octree::with_points(points);
        let n: u32 = points.len() as u32;
        proof {
            lemma_room_at_root(tree.bounds.den as int);
            lemma_room_less(tree.bounds.den as int, MAX_DEPTH as nat, levels as nat);
            assert(tree.indices@.subrange(0, n as int) =~= tree.indices@);
            assert(tree.ids(0, n as int) == all_ids(points@.len()));
            assert(levels as nat == min_nat(depth as nat, MAX_DEPTH as nat));
        }
        tree.count_nodes(0, n, tree.bounds, bucket_size, levels, limit)
    }

    /// Whether the octree of `points`, `depth` levels deep at most and with
    /// buckets of `bucket_size`, can be built: the exact test, by the number
    /// of its nodes.
    pub fn fits(points: &[Point], depth: u32, bucket_size: u32) -> (b: bool)
        ensures
            b == Self::buildable(points@, depth as nat, bucket_size as nat),
    {
        Self::node_count(points, depth, bucket_size, MAX_NODES).is_some()
    }
}

} // verus!
