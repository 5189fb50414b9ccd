//! Polynomial interactive oracle proof: registers, constraints and their
//! evaluations.
//!
//! The computation state is a table of registers over a domain of size `n`;
//! each constraint is a small polynomial in the registers at ζ and ζω that
//! vanishes on the whole domain exactly when the computation is valid. The
//! verifier checks the aggregated constraint against the quotient by the
//! vanishing polynomial at a random point ζ.
use vstd::prelude::*;
use crate::field::PrimeFieldElement;

pub mod affine_addition;
pub mod basic;
pub mod bitmask_packing;
pub mod counting;

verus! {

/// Commitments to a group of register polynomials, in a fixed order.
pub trait RegisterCommitments<G> {
    /// The commitments, in the order the verifier aggregates them.
    spec fn commitments(&self) -> Seq<G>;

    fn as_vec(&self) -> (r: Vec<G>)
        ensures
            r@ == self.commitments();
}

impl<G> RegisterCommitments<G> for () {
    open spec fn commitments(&self) -> Seq<G> {
        Seq::empty()
    }

    fn as_vec(&self) -> (r: Vec<G>) {
        Vec::new()
    }
}

/// Evaluations at ζ of a group of register polynomials, in a fixed order.
pub trait RegisterEvaluations<F: PrimeFieldElement> {
    /// The evaluations, in the order the verifier aggregates them.
    spec fn evaluations(&self) -> Seq<F>;

    fn as_vec(&self) -> (r: Vec<F>)
        ensures
            r@ == self.evaluations();
}

/// The verifier's side of a PIOP: it restores the commitment to the
/// linearization polynomial from the register commitments, as a linear
/// combination `Σ s_i · C_i` given by its terms `(s_i, C_i)`.
pub trait VerifierProtocol<F: PrimeFieldElement, G: Copy> {
    /// Commitments sent in the first round.
    type C1: RegisterCommitments<G>;
    /// Commitments sent in the second round.
    type C2: RegisterCommitments<G>;

    /// The number of polynomials opened at ζ.
    spec fn polys_opened_at_zeta_spec() -> nat;

    fn polys_opened_at_zeta() -> (r: usize)
        ensures
            r == Self::polys_opened_at_zeta_spec();

    fn restore_commitment_to_linearization_polynomial(
        &self,
        phi: &F,
        zeta_minus_omega_inv: &F,
        commitments: &Self::C1,
        extra_commitments: &Self::C2,
    ) -> (r: Vec<(F, G)>);
}

/// Values at ζ of the polynomials the verifier evaluates itself.
#[derive(Debug, PartialEq, Eq)]
pub struct LagrangeEvaluations<F> {
    /// `ζ^n - 1`
    pub vanishing_polynomial: F,
    /// The first Lagrange basis polynomial at ζ.
    pub l_first: F,
    /// The last Lagrange basis polynomial at ζ.
    pub l_last: F,
    /// The selector `ζ - ω^(n-1)`.
    pub zeta_minus_omega_inv: F,
    /// `ζ·ω`
    pub zeta_omega: F,
}

} // verus!
