//! A spatial index over three-dimensional lattice points: the octree.
//!
//! Points have integer coordinates, and the cubes that a tree cuts space into
//! are exact fractions, so that every comparison and every halving is exact.
//!
//! Two kinds of tree are offered.  [`octree::Octree`] is built in one pass
//! over a fixed set of points, to a fixed depth or until no leaf holds more
//! than a bucket of points; its leaves are ranges of a permutation of the
//! points.  [`incremental::IncrementalOctree`] grows by one point at a time;
//! its leaves are blocks of slots, and a full leaf gives way to a stem.
//! Either kind can be walked from the top down, from the bottom up, and node
//! by node with the points of each leaf.
//!
//! - [`types`]: the tagged index that names stems, leaves and empty children.
//! - [`geometry`]: points, scalars, cubes and their octants.
//! - [`octree`], [`arena`], [`bulk`], [`model`], [`layout`], [`sizing`]: the
//!   tree built in one pass, what it stands for, how it is stored, and how
//!   many nodes it takes.
//! - [`incremental`], [`insert`], [`contents`], [`canon`], [`lines`]: the
//!   tree that grows, the points it holds, its shape, and the order of the
//!   points in its leaves.
//! - [`iterators`]: the walks, and what they promise.

pub mod arena;
pub mod bulk;
pub mod canon;
pub mod contents;
pub mod geometry;
pub mod incremental;
pub mod insert;
pub mod iterators;
pub mod layout;
pub mod lines;
pub mod model;
pub mod octree;
pub mod sizing;
pub mod types;
