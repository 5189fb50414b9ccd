//! The verifier's final algebraic check.
use vstd::prelude::*;
use crate::field::{PrimeFieldElement, fmod, lemma_fmod_ops, lemma_fmod_value};
use crate::utils::{horner_field, poly_eval, field_values};
use crate::sums::sum;

verus! {

/// The aggregated constraint identity at ζ: the constraint evaluations
/// `c_i`, aggregated as `w = Σ_i φ^i · c_i`, must satisfy
/// `r(ζω) + w = q(ζ) · (ζ^n - 1)`.
pub fn check_aggregated_constraint<F: PrimeFieldElement>(
    constraint_evals: &Vec<F>,
    phi: &F,
    r_zeta_omega: &F,
    q_zeta: &F,
    vanishing_polynomial: &F,
) -> (r: bool)
    ensures
        r == (fmod::<F>(r_zeta_omega.value() + poly_eval(field_values(constraint_evals@), phi.value() as int))
            == fmod::<F>((q_zeta.value() * vanishing_polynomial.value()) as int)),
{
    let w = horner_field(constraint_evals, phi);
    let lhs = r_zeta_omega.add(&w);
    let rhs = q_zeta.mul(vanishing_polynomial);
    proof {
        lemma_fmod_value(*r_zeta_omega);
        lemma_fmod_ops::<F>(r_zeta_omega.value() as int, poly_eval(field_values(constraint_evals@), phi.value() as int));
    }
    lhs.equals(&rhs)
}


/// The evaluation claims at ζ, aggregated with the challenges `nus` as the
/// verifier combines them before the batched opening check:
/// `Σ_i ν_i·v_i` over the register evaluations followed by `q(ζ)`.
pub fn aggregate_evaluations_at_zeta<F: PrimeFieldElement>(register_evals: &Vec<F>, q_zeta: &F, nus: &Vec<F>) -> (r: F)
    requires
        nus@.len() == register_evals@.len() + 1,
    ensures
        r.value() == fmod::<F>(sum(|i: int| (nus@[i].value() * register_evals@.push(*q_zeta)[i].value()) as int, nus@.len())),
{
    let ghost claims = register_evals@.push(*q_zeta);
    let ghost f = |i: int| (nus@[i].value() * claims[i].value()) as int;
    let n = nus.len();
    let mut acc = F::zero();
    let mut i: usize = 0;
    proof {
        lemma_fmod_value(acc);
    }
    while i < n
        invariant
            n == nus@.len(),
            n == register_evals@.len() + 1,
            claims == register_evals@.push(*q_zeta),
            f == (|i: int| (nus@[i].value() * claims[i].value()) as int),
            0 <= i <= n,
            acc.value() == fmod::<F>(sum(f, i as nat)),
        decreases n - i,
    {
        let v = if i + 1 < n { register_evals[i] } else { *q_zeta };
        let term = nus[i].mul(&v);
        proof {
            assert(v == claims[i as int]);
            lemma_fmod_value(nus@[i as int]);
            lemma_fmod_value(v);
            lemma_fmod_ops::<F>(nus@[i as int].value() as int, v.value() as int);
            lemma_fmod_ops::<F>(sum(f, i as nat), f(i as int));
            lemma_fmod_value(acc);
            lemma_fmod_value(term);
        }
        acc = acc.add(&term);
        i += 1;
    }
    acc
}

} // verus!
