//! Constants of the BLS12-381 / BW6-767 curve pair.
use vstd::prelude::*;
use vstd::arithmetic::power::*;
use crate::field::{PrimeFieldElement, Fr767, Fq767, bw6_767_fr_modulus, bw6_767_fq_modulus};
use crate::limbs::limbs_value;

verus! {

/// The value of `lambda()`.
pub open spec fn lambda_value() -> nat {
    4002409555221667392624310435006688643935503118305586438271171395842971157480381377015405980053539358417135540939436nat
}

/// GLV endomorphism eigenvalue λ on BLS12-381 G1: for φ(x, y) = (ωx, y), φ(P) = λP on G1. It is a nontrivial cube root of unity.
pub fn lambda() -> (r: Fr767)
    ensures
        r.value() == lambda_value(),
        r.value() != 1,
        pow(r.value() as int, 3) % (bw6_767_fr_modulus() as int) == 1,
{
    let limbs: [u64; 6] = [0x8bfd00000000aaac, 0x409427eb4f49fffd, 0x897d29650fb85f9b, 0xaa0d857d89759ad4, 0xec02408663d4de85, 0x1a0111ea397fe699];
    proof {
        assert(limbs_value(limbs@) == lambda_value()) by {
            reveal_with_fuel(limbs_value, 7);
        }
    }
    let r = Fr767::from_canonical_limbs(limbs).unwrap();
    proof {
        assert(pow(lambda_value() as int, 3) % (bw6_767_fr_modulus() as int) == 1) by {
            reveal_with_fuel(pow, 4);
        }
    }
    r
}

/// The value of `omega()`.
pub open spec fn omega_value() -> nat {
    451452499708746243421442696394275804592767119751118962106882058158528025766103643615697202253207413006991058800455542766924935899310685166148099708594514571753800103096705086912881023032622324847956780035251378028187894066092550170nat
}

/// Eigenvalue ω of the endomorphism on BW6-767, acting by multiplication on the x-coordinate. It is a nontrivial cube root of unity.
pub fn omega() -> (r: Fq767)
    ensures
        r.value() == omega_value(),
        r.value() != 1,
        pow(r.value() as int, 3) % (bw6_767_fq_modulus() as int) == 1,
{
    let limbs: [u64; 12] = [0xe40326ccf309a81a, 0x5a594f723162ca74, 0x1e63601ff328f27c, 0x6d9cd8a33550dbe0, 0xf0bb174392eb6c80, 0x3dae358b1b36f832, 0x8e38b5b4682991ce, 0x28456c117f8e9350, 0xa011051b5f65b0b7, 0x42e1d6e9ef88f166, 0xa3748933617f8fb5, 0x4a7108dc56f65caa];
    proof {
        assert(limbs_value(limbs@) == omega_value()) by {
            reveal_with_fuel(limbs_value, 13);
        }
    }
    let r = Fq767::from_canonical_limbs(limbs).unwrap();
    proof {
        assert(pow(omega_value() as int, 3) % (bw6_767_fq_modulus() as int) == 1) by {
            reveal_with_fuel(pow, 4);
        }
    }
    r
}

/// BLS12-381 curve parameter u (its absolute value; the parameter is negative), used for the GLV endomorphism.
pub fn u() -> (r: [u64; 1])
    ensures
        r@ == seq![0xd201000000010000u64],
{
    [0xd201000000010000]
}

} // verus!
