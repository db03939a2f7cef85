//! Integer widths for the index column of the key table built by the in-memory sorter.

use vstd::prelude::*;

verus! {

/// An unsigned integer type that can stand for a position in a list.
pub trait IndexWidth: Copy {
    /// The position this value stands for.
    spec fn position(self) -> nat;

    /// The largest position the type can hold.
    spec fn ceiling() -> nat;

    fn to_usize(self) -> (u: usize)
        ensures
            u == self.position(),
    ;

    fn from_usize(u: usize) -> (s: Self)
        requires
            u <= Self::ceiling(),
        ensures
            s.position() == u,
    ;
}

impl IndexWidth for u8 {
    open spec fn position(self) -> nat {
        self as nat
    }

    open spec fn ceiling() -> nat {
        0xff
    }

    fn to_usize(self) -> (u: usize) {
        self as usize
    }

    fn from_usize(u: usize) -> (s: u8) {
        u as u8
    }
}

impl IndexWidth for u16 {
    open spec fn position(self) -> nat {
        self as nat
    }

    open spec fn ceiling() -> nat {
        0xffff
    }

    fn to_usize(self) -> (u: usize) {
        self as usize
    }

    fn from_usize(u: usize) -> (s: u16) {
        u as u16
    }
}

impl IndexWidth for u32 {
    open spec fn position(self) -> nat {
        self as nat
    }

    open spec fn ceiling() -> nat {
        0xffff_ffff
    }

    fn to_usize(self) -> (u: usize) {
        self as usize
    }

    fn from_usize(u: usize) -> (s: u32) {
        u as u32
    }
}

impl IndexWidth for usize {
    open spec fn position(self) -> nat {
        self as nat
    }

    open spec fn ceiling() -> nat {
        usize::MAX as nat
    }

    fn to_usize(self) -> (u: usize) {
        self
    }

    fn from_usize(u: usize) -> (s: usize) {
        u
    }
}

} // verus!
