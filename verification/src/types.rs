//! Tagged node indices: one unsigned integer that names a stem slot, a block
//! of points, the empty child or the root sentinel.

use vstd::prelude::*;

verus! {

/// A tagged index packed into one unsigned integer.
///
/// The most significant bit tells a points block from a stem slot.  A stem
/// slot packs the number of its block with the position of one of the eight
/// children in the three low bits.  The all-ones value is reserved for the
/// empty child, the largest value with a clear top bit for the root.
pub trait Index: Sized {
    /// The integer that this index is.
    spec fn value(&self) -> nat;

    /// The tag: the value of the most significant bit.
    spec fn leaf_bit() -> nat;

    /// The three low bits, which hold the position of a child in its block.
    fn mask() -> (m: Self)
        ensures
            m.value() == 7,
    ;

    /// The reference of a child that is not there: every bit set.
    fn empty() -> (e: Self)
        ensures
            e.value() == 2 * Self::leaf_bit() - 1,
    ;

    /// The sentinel for the root: every bit set but the most significant.
    fn root() -> (r: Self)
        ensures
            r.value() == Self::leaf_bit() - 1,
    ;

    /// The reference of child `child` of stem block `block`.  The reference
    /// must leave the tag bit clear and differ from the root sentinel.
    fn node_idx(block: usize, child: usize) -> (idx: Self)
        requires
            child < 8,
            8 * block + child < Self::leaf_bit() - 1,
        ensures
            idx.value() == 8 * block + child,
    ;

    /// The reference of points block `block`.  The reference must differ from
    /// the empty reference.
    fn points_idx(block: usize) -> (idx: Self)
        requires
            block < Self::leaf_bit() - 1,
        ensures
            idx.value() == Self::leaf_bit() + block,
    ;

    /// The position of the child that a stem reference names.
    fn child(&self) -> (c: usize)
        ensures
            c == self.value() % 8,
    ;

    /// The stem block that a stem reference names.
    fn node_block(&self) -> (b: usize)
        ensures
            b == self.value() / 8,
    ;

    /// The points block that a leaf reference names: the reference without
    /// its tag bit.
    fn points_block(&self) -> (b: usize)
        ensures
            b == self.value() % Self::leaf_bit(),
    ;

    /// The stem block and the position of the child that a stem reference
    /// names.
    fn to_tuple(&self) -> (t: (usize, usize))
        ensures
            t.0 == self.value() / 8,
            t.1 == self.value() % 8,
    ;

    /// Whether the tag bit is set.  It is set in the empty reference too.
    fn is_leaf(&self) -> (b: bool)
        ensures
            b == (self.value() >= Self::leaf_bit()),
    ;

    /// Whether this is the reference of a child that is not there.
    fn is_empty(&self) -> (b: bool)
        ensures
            b == (self.value() == 2 * Self::leaf_bit() - 1),
    ;

    /// Whether this is the sentinel for the root.
    fn is_root(&self) -> (b: bool)
        ensures
            b == (self.value() == Self::leaf_bit() - 1),
    ;
}

/// On either word size the largest `usize` has every bit set.
proof fn lemma_max_is_all_ones()
    ensures
        usize::MAX == !0usize,
{
    let m = usize::MAX;
    assert(m == !0usize) by (bit_vector)
        requires
            usize::BITS == 64 ==> m as u64 == 0xffff_ffff_ffff_ffffu64,
            usize::BITS == 32 ==> m == 0xffff_ffffusize,
    ;
}

impl Index for usize {
    open spec fn value(&self) -> nat {
        *self as nat
    }

    open spec fn leaf_bit() -> nat {
        (usize::MAX / 2 + 1) as nat
    }

    #[inline]
    fn mask() -> (m: Self) {
        let all: usize = usize::MAX;
        proof {
            lemma_max_is_all_ones();
            assert(!(all << 3) == 7usize) by (bit_vector)
                requires
                    all == !0usize,
            ;
        }
        !(all << 3)
    }

    #[inline]
    fn empty() -> (e: Self) {
        usize::MAX
    }

    #[inline]
    fn root() -> (r: Self) {
        let all: usize = usize::MAX;
        assert(all >> 1 == all / 2) by (bit_vector);
        all >> 1
    }

    #[inline]
    fn node_idx(block: usize, child: usize) -> (idx: Self) {
        let all: usize = usize::MAX;
        proof {
            lemma_max_is_all_ones();
            assert((block << 3) | child == 8 * block + child) by (bit_vector)
                requires
                    all == !0usize,
                    child < 8,
                    8 * block + child < all / 2,
            ;
        }
        (block << 3) | child
    }

    #[inline]
    fn points_idx(block: usize) -> (idx: Self) {
        let all: usize = usize::MAX;
        proof {
            lemma_max_is_all_ones();
            assert(block | (!(all >> 1)) == all / 2 + 1 + block) by (bit_vector)
                requires
                    all == !0usize,
                    block < all / 2,
            ;
        }
        block | (!(all >> 1))
    }

    #[inline]
    fn child(&self) -> (c: usize) {
        let x: usize = *self;
        assert(x & 7 == x % 8) by (bit_vector);
        x & Self::mask()
    }

    #[inline]
    fn node_block(&self) -> (b: usize) {
        let x: usize = *self;
        assert(x >> 3 == x / 8) by (bit_vector);
        x >> 3
    }

    #[inline]
    fn points_block(&self) -> (b: usize) {
        let x: usize = *self;
        let all: usize = usize::MAX;
        proof {
            lemma_max_is_all_ones();
            assert(x & (all >> 1) == (x as int) % (all / 2 + 1)) by (bit_vector)
                requires
                    all == !0usize,
            ;
        }
        x & (all >> 1)
    }

    #[inline]
    fn to_tuple(&self) -> (t: (usize, usize)) {
        (self.node_block(), self.child())
    }

    #[inline]
    fn is_leaf(&self) -> (b: bool) {
        let x: usize = *self;
        let all: usize = usize::MAX;
        proof {
            lemma_max_is_all_ones();
            assert(((x & (!(all >> 1))) != 0usize) == (x >= all / 2 + 1)) by (bit_vector)
                requires
                    all == !0usize,
            ;
        }
        (x & (!(all >> 1))) != 0usize
    }

    #[inline]
    fn is_empty(&self) -> (b: bool) {
        *self == Self::empty()
    }

    #[inline]
    fn is_root(&self) -> (b: bool) {
        *self == Self::root()
    }
}

} // verus!
