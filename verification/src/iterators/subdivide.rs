//! The eight sub-ranges and sub-cubes that one subdivision produces.

use crate::geometry::{Cube, Point, DEN_MAX, octant_sign};
use vstd::prelude::*;

verus! {

/// The outcome of subdividing a range of points around a cube's centre:
/// nine delimiters, whose consecutive pairs bound the ranges of octants 0 to
/// 7, and a cursor over the octants not yet handed out.
#[derive(Clone, Copy, Debug)]
pub struct Subdivide {
    pub current: u32,
    pub delimiter: [u32; 9],
    pub cube: Cube,
}

/// One octant of a subdivision: its range of positions and its cube.
#[derive(Clone, Copy, Debug)]
pub struct Subspace {
    pub begin: u32,
    pub end: u32,
    pub cube: Cube,
}

impl Subdivide {
    /// The signs of octant `idx` along the three axes.
    pub open spec fn offset_spec(idx: int) -> Point {
        Point {
            x: octant_sign(idx, 0) as i32,
            y: octant_sign(idx, 1) as i32,
            z: octant_sign(idx, 2) as i32,
        }
    }

    /// The direction, one unit along each axis, from a cube's centre towards
    /// octant `idx`.
    pub fn offset(idx: usize) -> (p: Point)
        requires
            idx < 8,
        ensures
            p == Self::offset_spec(idx as int),
    {
        match idx {
            0 => Point { x: -1, y: -1, z: -1 },
            1 => Point { x: -1, y: -1, z: 1 },
            2 => Point { x: -1, y: 1, z: -1 },
            3 => Point { x: -1, y: 1, z: 1 },
            4 => Point { x: 1, y: -1, z: -1 },
            5 => Point { x: 1, y: -1, z: 1 },
            6 => Point { x: 1, y: 1, z: -1 },
            _ => Point { x: 1, y: 1, z: 1 },
        }
    }

    /// Hands out the next octant, from 0 to 7, then nothing.
    pub fn next(&mut self) -> (item: Option<Subspace>)
        requires
            old(self).current < 8 ==> old(self).cube.wf() && 4 * old(self).cube.den <= DEN_MAX,
        ensures
            final(self).delimiter == old(self).delimiter,
            final(self).cube == old(self).cube,
            old(self).current >= 8 ==> item is None && final(self).current == old(self).current,
            old(self).current < 8 ==> final(self).current == old(self).current + 1 && item == Some(
                Subspace {
                    begin: old(self).delimiter[old(self).current as int],
                    end: old(self).delimiter[old(self).current + 1],
                    cube: old(self).cube.child(old(self).current as int),
                },
            ),
            old(self).current < 8 ==> old(self).cube.nests(
                item->0.cube,
                old(self).current as int,
            ),
    {
        if self.current >= 8 {
            return None;
        }
        let idx: u32 = self.current;
        proof {
            crate::geometry::lemma_cube_nesting(self.cube, idx as int);
        }
        self.current += 1;

        Some(
            Subspace {
                begin: self.delimiter[idx as usize],
                end: self.delimiter[(idx + 1) as usize],
                cube: self.cube.child_cube(idx as usize),
            },
        )
    }
}

} // verus!
