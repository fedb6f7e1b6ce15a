//! Walks over a tree and over the eight parts of a subdivided cube.

pub mod down;
pub mod growing;
pub mod iter;
pub mod order;
pub mod reach;
pub mod subdivide;
pub mod tree;
pub mod up;
