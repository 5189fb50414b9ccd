//! The basic (accountable) scheme: the bitmask is public, so its register
//! is evaluated by the verifier and not sent.
use vstd::prelude::*;
use crate::field::PrimeFieldElement;
use crate::piop::RegisterEvaluations;
use crate::piop::affine_addition::AffineAdditionEvaluations;

verus! {

/// Evaluations at ζ of the keyset and partial-sum registers.
#[derive(Debug, PartialEq, Eq)]
pub struct AffineAdditionEvaluationsWithoutBitmask<F> {
    pub keyset: (F, F),
    pub partial_sums: (F, F),
}

impl<F: PrimeFieldElement> RegisterEvaluations<F> for AffineAdditionEvaluationsWithoutBitmask<F> {
    open spec fn evaluations(&self) -> Seq<F> {
        seq![self.keyset.0, self.keyset.1, self.partial_sums.0, self.partial_sums.1]
    }

    fn as_vec(&self) -> (r: Vec<F>) {
        vec![self.keyset.0, self.keyset.1, self.partial_sums.0, self.partial_sums.1]
    }
}

/// The basic scheme's evaluations are those of the affine-addition registers
/// without the bitmask, which the verifier computes itself: the same
/// registers in the same order, with the bitmask entry removed.
pub proof fn lemma_evaluations_without_bitmask<F: PrimeFieldElement>(
    e: AffineAdditionEvaluationsWithoutBitmask<F>,
    full: AffineAdditionEvaluations<F>,
)
    requires
        full.keyset == e.keyset,
        full.partial_sums == e.partial_sums,
    ensures
        e.evaluations() == full.evaluations().remove(2),
{
    assert(e.evaluations() =~= full.evaluations().remove(2));
}

} // verus!
