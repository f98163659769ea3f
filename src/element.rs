//! Elements that a hay is made of, with the order and the byteset
//! fingerprint that the Two-Way engine uses.

use vstd::prelude::*;

verus! {

/// An element of a hay: copyable, totally ordered, with a 64-bit fingerprint.
pub trait Element: Sized + Copy {
    /// The element's position in its type's total order.
    spec fn rank(self) -> int;

    /// The bits that the element sets in a byteset fingerprint.
    spec fn spec_mask(self) -> u64;

    /// Two elements of the same rank are the same element.
    proof fn lemma_rank_injective(a: Self, b: Self)
        ensures
            a.rank() == b.rank() ==> a == b,
    ;

    /// Every element sets at least one bit.
    proof fn lemma_mask_nonzero(a: Self)
        ensures
            a.spec_mask() != 0,
    ;

    fn same(&self, other: &Self) -> (r: bool)
        ensures
            r == (*self == *other),
    ;

    fn compare(&self, other: &Self) -> (r: core::cmp::Ordering)
        ensures
            r == core::cmp::Ordering::Less <==> self.rank() < other.rank(),
            r == core::cmp::Ordering::Equal <==> self.rank() == other.rank(),
            r == core::cmp::Ordering::Greater <==> self.rank() > other.rank(),
    ;

    fn byteset_mask(&self) -> (r: u64)
        ensures
            r == self.spec_mask(),
    ;
}

/// The fingerprint that all types but bytes give: every bit set, so that no
/// alignment is ever skipped on its account.
pub const FULL_MASK: u64 = 0xffff_ffff_ffff_ffff;

impl Element for u8 {
    open spec fn rank(self) -> int {
        self as int
    }

    open spec fn spec_mask(self) -> u64 {
        1u64 << ((self & 63u8) as u64)
    }

    proof fn lemma_rank_injective(a: Self, b: Self) {
    }

    proof fn lemma_mask_nonzero(a: Self) {
        let s: u64 = (a & 63u8) as u64;
        assert(s < 64) by (bit_vector)
            requires
                s == (a & 63u8) as u64,
        ;
        assert(1u64 << s != 0) by (bit_vector)
            requires
                s < 64,
        ;
    }

    fn same(&self, other: &Self) -> (r: bool) {
        *self == *other
    }

    fn compare(&self, other: &Self) -> (r: core::cmp::Ordering) {
        if *self < *other {
            core::cmp::Ordering::Less
        } else if *self == *other {
            core::cmp::Ordering::Equal
        } else {
            core::cmp::Ordering::Greater
        }
    }

    fn byteset_mask(&self) -> (r: u64) {
        let b: u8 = *self;
        let s: u64 = (b & 63u8) as u64;
        assert(s < 64) by (bit_vector)
            requires
                s == (b & 63u8) as u64,
        ;
        1u64 << s
    }
}

impl Element for u16 {
    open spec fn rank(self) -> int {
        self as int
    }

    open spec fn spec_mask(self) -> u64 {
        FULL_MASK
    }

    proof fn lemma_rank_injective(a: Self, b: Self) {
    }

    proof fn lemma_mask_nonzero(a: Self) {
    }

    fn same(&self, other: &Self) -> (r: bool) {
        *self == *other
    }

    fn compare(&self, other: &Self) -> (r: core::cmp::Ordering) {
        if *self < *other {
            core::cmp::Ordering::Less
        } else if *self == *other {
            core::cmp::Ordering::Equal
        } else {
            core::cmp::Ordering::Greater
        }
    }

    fn byteset_mask(&self) -> (r: u64) {
        FULL_MASK
    }
}

impl Element for u32 {
    open spec fn rank(self) -> int {
        self as int
    }

    open spec fn spec_mask(self) -> u64 {
        FULL_MASK
    }

    proof fn lemma_rank_injective(a: Self, b: Self) {
    }

    proof fn lemma_mask_nonzero(a: Self) {
    }

    fn same(&self, other: &Self) -> (r: bool) {
        *self == *other
    }

    fn compare(&self, other: &Self) -> (r: core::cmp::Ordering) {
        if *self < *other {
            core::cmp::Ordering::Less
        } else if *self == *other {
            core::cmp::Ordering::Equal
        } else {
            core::cmp::Ordering::Greater
        }
    }

    fn byteset_mask(&self) -> (r: u64) {
        FULL_MASK
    }
}

impl Element for u64 {
    open spec fn rank(self) -> int {
        self as int
    }

    open spec fn spec_mask(self) -> u64 {
        FULL_MASK
    }

    proof fn lemma_rank_injective(a: Self, b: Self) {
    }

    proof fn lemma_mask_nonzero(a: Self) {
    }

    fn same(&self, other: &Self) -> (r: bool) {
        *self == *other
    }

    fn compare(&self, other: &Self) -> (r: core::cmp::Ordering) {
        if *self < *other {
            core::cmp::Ordering::Less
        } else if *self == *other {
            core::cmp::Ordering::Equal
        } else {
            core::cmp::Ordering::Greater
        }
    }

    fn byteset_mask(&self) -> (r: u64) {
        FULL_MASK
    }
}

impl Element for char {
    open spec fn rank(self) -> int {
        self as int
    }

    open spec fn spec_mask(self) -> u64 {
        FULL_MASK
    }

    proof fn lemma_rank_injective(a: Self, b: Self) {
        vstd::utf8::char_u32_cast(a, a as u32);
        vstd::utf8::char_u32_cast(b, b as u32);
    }

    proof fn lemma_mask_nonzero(a: Self) {
    }

    fn same(&self, other: &Self) -> (r: bool) {
        *self == *other
    }

    fn compare(&self, other: &Self) -> (r: core::cmp::Ordering) {
        if *self < *other {
            core::cmp::Ordering::Less
        } else if *self == *other {
            core::cmp::Ordering::Equal
        } else {
            core::cmp::Ordering::Greater
        }
    }

    fn byteset_mask(&self) -> (r: u64) {
        FULL_MASK
    }
}

} // verus!
