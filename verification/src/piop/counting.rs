//! The counting scheme: only the number of signers is public; a register
//! of partial counts is added to the affine-addition registers.
use vstd::prelude::*;
use crate::field::{PrimeFieldElement, fmod};
use crate::piop::{RegisterCommitments, RegisterEvaluations, VerifierProtocol};
use crate::piop::affine_addition::{
    AffineAdditionEvaluations, PartialSumsAndBitmaskCommitments, linearization_x_scalar, linearization_y_scalar,
};
use crate::utils::powers;
use vstd::arithmetic::power::pow;

verus! {

/// Commitments to the affine-addition registers and to the partial counts.
#[derive(Debug, PartialEq, Eq)]
pub struct CountingCommitments<G> {
    pub affine_addition_commitments: PartialSumsAndBitmaskCommitments<G>,
    pub partial_counts_commitment: G,
}

impl<G: Copy> RegisterCommitments<G> for CountingCommitments<G> {
    open spec fn commitments(&self) -> Seq<G> {
        self.affine_addition_commitments.commitments().push(self.partial_counts_commitment)
    }

    fn as_vec(&self) -> (r: Vec<G>) {
        let mut commitments = self.affine_addition_commitments.as_vec();
        commitments.push(self.partial_counts_commitment);
        commitments
    }
}

/// The evaluation at ζ of the partial-counts register.
#[derive(Debug, PartialEq, Eq)]
pub struct BitCountingEvaluation<F>(pub F);

/// Evaluations at ζ of the affine-addition and partial-counts registers.
#[derive(Debug, PartialEq, Eq)]
pub struct CountingEvaluations<F> {
    pub affine_addition_evaluations: AffineAdditionEvaluations<F>,
    pub partial_counts_evaluation: BitCountingEvaluation<F>,
}

impl<F: PrimeFieldElement> RegisterEvaluations<F> for CountingEvaluations<F> {
    open spec fn evaluations(&self) -> Seq<F> {
        self.affine_addition_evaluations.evaluations().push(self.partial_counts_evaluation.0)
    }

    fn as_vec(&self) -> (r: Vec<F>) {
        let mut evals = self.affine_addition_evaluations.as_vec();
        evals.push(self.partial_counts_evaluation.0);
        evals
    }
}

impl<F: PrimeFieldElement, G: Copy> VerifierProtocol<F, G> for CountingEvaluations<F> {
    type C1 = CountingCommitments<G>;
    type C2 = ();

    open spec fn polys_opened_at_zeta_spec() -> nat {
        7
    }

    fn polys_opened_at_zeta() -> (r: usize) {
        7
    }

    /// The affine-addition terms, and `φ^5` times the partial-counts commitment.
    fn restore_commitment_to_linearization_polynomial(
        &self,
        phi: &F,
        zeta_minus_omega_inv: &F,
        commitments: &CountingCommitments<G>,
        _extra_commitments: &(),
    ) -> (r: Vec<(F, G)>)
        ensures
            r@.len() == 3,
            r@[0].1 == commitments.affine_addition_commitments.partial_sums.0,
            r@[1].1 == commitments.affine_addition_commitments.partial_sums.1,
            r@[2].1 == commitments.partial_counts_commitment,
            ({
                let e = self.affine_addition_evaluations;
                &&& r@[0].0.value() == fmod::<F>(linearization_x_scalar(e.bitmask.value() as int,
                    e.partial_sums.0.value() as int, e.partial_sums.1.value() as int,
                    e.keyset.0.value() as int, e.keyset.1.value() as int, phi.value() as int,
                    zeta_minus_omega_inv.value() as int))
                &&& r@[1].0.value() == fmod::<F>(linearization_y_scalar(e.bitmask.value() as int,
                    e.partial_sums.0.value() as int, e.partial_sums.1.value() as int,
                    e.keyset.0.value() as int, e.keyset.1.value() as int, phi.value() as int,
                    zeta_minus_omega_inv.value() as int))
            }),
            r@[2].0.value() == fmod::<F>(pow(phi.value() as int, 5)),
    {
        let powers_of_phi = powers(phi, 6);
        let (s0, s1) = self.affine_addition_evaluations.linearization_scalars(phi, zeta_minus_omega_inv);
        let c0 = commitments.affine_addition_commitments.partial_sums.0;
        let c1 = commitments.affine_addition_commitments.partial_sums.1;
        vec![(s0, c0), (s1, c1), (powers_of_phi[5], commitments.partial_counts_commitment)]
    }
}

} // verus!
