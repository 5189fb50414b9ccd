//! Verified arithmetic core of aggregate-public-key proofs over BW6 curves:
//! the prime fields, the smooth-order evaluation domain and its transforms,
//! the bitmask packing registers, and the constraint evaluations checked by
//! the verifier.
pub mod bitmask;
pub mod dft;
pub mod field;
pub mod instances;
pub mod limbs;
pub mod number_theory;
pub mod piop;
pub mod setup;
pub mod smooth_domain;
pub mod sums;
pub mod utils;
pub mod quotient_check;

pub use bitmask::Bitmask;

use vstd::prelude::*;
use crate::bitmask::count_true;

verus! {

/// What the verifier is given besides the proof: built from the aggregate
/// public key and the bitmask of signers.
pub trait PublicInput<A>: Sized {
    fn new(apk: &A, bitmask: &Bitmask) -> Self;
}

/// Public input of the basic and packed schemes: the aggregate key and the
/// whole bitmask.
pub struct AccountablePublicInput<A> {
    pub apk: A,
    pub bitmask: Bitmask,
}

impl<A: Copy> PublicInput<A> for AccountablePublicInput<A> {
    fn new(apk: &A, bitmask: &Bitmask) -> (r: Self)
        ensures
            r.apk == *apk,
            r.bitmask@ == bitmask@,
    {
        let bits = bitmask.to_bits();
        AccountablePublicInput { apk: *apk, bitmask: Bitmask::from_bits(bits.as_slice()) }
    }
}

/// Public input of the counting scheme: the aggregate key and the number
/// of signers.
pub struct CountingPublicInput<A> {
    pub apk: A,
    pub count: usize,
}

impl<A: Copy> PublicInput<A> for CountingPublicInput<A> {
    fn new(apk: &A, bitmask: &Bitmask) -> (r: Self)
        ensures
            r.apk == *apk,
            r.count == count_true(bitmask@),
    {
        CountingPublicInput { apk: *apk, count: bitmask.count_ones() }
    }
}

} // verus!
