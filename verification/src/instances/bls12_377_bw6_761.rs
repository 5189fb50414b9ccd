//! Constants of the BLS12-377 / BW6-761 curve pair.
use vstd::prelude::*;
use vstd::arithmetic::power::*;
use crate::field::{PrimeFieldElement, Fr761, Fq761, bw6_761_fr_modulus, bw6_761_fq_modulus};
use crate::limbs::limbs_value;

verus! {

/// The value of `lambda()`.
pub open spec fn lambda_value() -> nat {
    80949648264912719408558363140637477264845294720710499478137287262712535938301461879813459410945nat
}

/// GLV endomorphism eigenvalue λ on BLS12-377 G1: for φ(x, y) = (ωx, y), φ(P) = λP on G1. It is a nontrivial cube root of unity.
pub fn lambda() -> (r: Fr761)
    ensures
        r.value() == lambda_value(),
        r.value() != 1,
        pow(r.value() as int, 3) % (bw6_761_fr_modulus() as int) == 1,
{
    let limbs: [u64; 6] = [0x8508c00000000001, 0x452217cc90000000, 0xc5ed1347970dec00, 0x619aaf7d34594aab, 0x9b3af05dd14f6ec, 0x0];
    proof {
        assert(limbs_value(limbs@) == lambda_value()) by {
            reveal_with_fuel(limbs_value, 7);
        }
    }
    let r = Fr761::from_canonical_limbs(limbs).unwrap();
    proof {
        assert(pow(lambda_value() as int, 3) % (bw6_761_fr_modulus() as int) == 1) by {
            reveal_with_fuel(pow, 4);
        }
    }
    r
}

/// The value of `omega()`.
pub open spec fn omega_value() -> nat {
    1968985824090209297278610739700577151397666382303825728450741611566800370218827257750865013421937292370006175842381275743914023380727582819905021229583192207421122272650305267822868639090213645505120388400344940985710520836292650nat
}

/// Eigenvalue ω of the endomorphism on BW6-761, acting by multiplication on the x-coordinate. It is a nontrivial cube root of unity.
pub fn omega() -> (r: Fq761)
    ensures
        r.value() == omega_value(),
        r.value() != 1,
        pow(r.value() as int, 3) % (bw6_761_fq_modulus() as int) == 1,
{
    let limbs: [u64; 12] = [0x962140000000002a, 0xc547ba8a4000002f, 0xb6290012d96f8819, 0xf2f082d4dcb5e37c, 0xc65759fc45183151, 0x8e0a235a0a398300, 0xab5e57926fa70184, 0xee4a737f73b6f952, 0x2d17be416c5e4426, 0x6c1f31e53bd9603c, 0xaa846c61024e4cca, 0x531dc16c6ecd27];
    proof {
        assert(limbs_value(limbs@) == omega_value()) by {
            reveal_with_fuel(limbs_value, 13);
        }
    }
    let r = Fq761::from_canonical_limbs(limbs).unwrap();
    proof {
        assert(pow(omega_value() as int, 3) % (bw6_761_fq_modulus() as int) == 1) by {
            reveal_with_fuel(pow, 4);
        }
    }
    r
}

/// BLS12-377 curve parameter u, used for the GLV endomorphism.
pub fn u() -> (r: [u64; 1])
    ensures
        r@ == seq![0x8508c00000000001u64],
{
    [0x8508c00000000001]
}

} // verus!
