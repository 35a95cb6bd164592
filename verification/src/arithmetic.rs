//! The arithmetic that the tape chain is built from.
//!
//! A sample is an IEEE 754 binary32 value, held as its bit pattern. The chain
//! needs four operations on such values. The processor does not compute them
//! itself: the host hands them in, and every contract of this crate speaks of
//! what the host's operations return.

use vstd::prelude::*;

verus! {

/// The bit pattern of positive zero.
pub const ZERO: u32 = 0x0000_0000;

/// The bit pattern of `1.0`.
pub const ONE: u32 = 0x3f80_0000;

/// The bit pattern of the drive gain, `1.5`.
pub const DRIVE: u32 = 0x3fc0_0000;

/// The bit pattern of the warmth filter's coefficient, the binary32 value
/// nearest to `0.19`. It stands for a cutoff of about 18 kHz at a sample rate
/// of 48 kHz.
pub const COEFFICIENT: u32 = 0x3e42_8f5c;

/// The bit pattern of the limiter's gain, the binary32 value nearest to `0.9`.
pub const GAIN: u32 = 0x3f66_6666;

/// The four operations of the chain, each from bit patterns to a bit pattern.
pub struct Arithmetic<M, A, S, T> {
    /// The product of two values.
    pub mul: M,
    /// The sum of two values.
    pub add: A,
    /// The first value less the second.
    pub sub: S,
    /// The hyperbolic tangent of a value.
    pub tanh: T,
}

impl<M, A, S, T> Arithmetic<M, A, S, T> where
    M: Fn(u32, u32) -> u32,
    A: Fn(u32, u32) -> u32,
    S: Fn(u32, u32) -> u32,
    T: Fn(u32) -> u32,
 {
    /// Every operation accepts every bit pattern.
    pub open spec fn total(&self) -> bool {
        &&& forall|a: u32, b: u32| self.mul.requires((a, b))
        &&& forall|a: u32, b: u32| self.add.requires((a, b))
        &&& forall|a: u32, b: u32| self.sub.requires((a, b))
        &&& forall|a: u32| self.tanh.requires((a,))
    }

    /// `mul` may return `r` for `a` and `b`.
    pub open spec fn product(&self, a: u32, b: u32, r: u32) -> bool {
        self.mul.ensures((a, b), r)
    }

    /// `add` may return `r` for `a` and `b`.
    pub open spec fn sum(&self, a: u32, b: u32, r: u32) -> bool {
        self.add.ensures((a, b), r)
    }

    /// `sub` may return `r` for `a` and `b`.
    pub open spec fn difference(&self, a: u32, b: u32, r: u32) -> bool {
        self.sub.ensures((a, b), r)
    }

    /// `tanh` may return `r` for `a`.
    pub open spec fn tangent(&self, a: u32, r: u32) -> bool {
        self.tanh.ensures((a,), r)
    }

    /// No operation has two results for one argument.
    pub open spec fn deterministic(&self) -> bool {
        &&& forall|a: u32, b: u32, r: u32, s: u32|
            #[trigger] self.product(a, b, r) && #[trigger] self.product(a, b, s) ==> r == s
        &&& forall|a: u32, b: u32, r: u32, s: u32|
            #[trigger] self.sum(a, b, r) && #[trigger] self.sum(a, b, s) ==> r == s
        &&& forall|a: u32, b: u32, r: u32, s: u32|
            #[trigger] self.difference(a, b, r) && #[trigger] self.difference(a, b, s) ==> r == s
        &&& forall|a: u32, r: u32, s: u32|
            #[trigger] self.tangent(a, r) && #[trigger] self.tangent(a, s) ==> r == s
    }
}

} // verus!
