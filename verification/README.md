# apk_proofs

The arithmetic core of succinct proofs that a BLS public key is the aggregate
of a subset of signers' keys, over the BW6-761 and BW6-767 curves, written in
Verus with its behaviour stated as contracts and proved.

## Layout

- `src/field.rs` – the prime fields (scalar and base fields of BW6-761 and
  BW6-767), their values as integers below the modulus, and the arkworks
  calls that do the arithmetic.
- `src/limbs.rs`, `src/number_theory.rs`, `src/sums.rs`, `src/dft.rs` –
  multi-limb integers, primes, gcd and Bezout, primitive roots, finite sums
  and products, and the discrete Fourier transform over the integers modulo
  a prime with the index maps of the fast algorithms.
- `src/smooth_domain.rs` – evaluation domains of smooth order (BW6-767 has
  two-adicity 1): roots of unity, naive, Rader, Good-Thomas and Cooley-Tukey
  transforms, and the domain's forward and inverse transforms, with the
  proofs that they compute the transform, evaluate the polynomial on the
  domain, and invert each other.
- `src/piop/` – the registers and the constraints of the protocol as the
  verifier evaluates them (affine addition, bitmask packing, counting), the
  prover's constraint polynomials (conditional addition, booleanity, public
  inputs, inner product, multipacking mask, and the linearized addition
  constraints) computed from register values on the amplified domain, and
  the proofs that the constraints characterise what they enforce.
- `src/bitmask.rs`, `src/utils.rs`, `src/setup.rs`, `src/quotient_check.rs`,
  `src/instances/` – bitmasks, powers, Horner evaluation and multiplication
  by `X - w`, commitment parameter sizes (power-of-two and smooth domains),
  the verifier's aggregated evaluation claim and final identity, and curve
  constants.
- Results about the transforms that need a prime modulus take it as a
  hypothesis: the moduli are prime, but that is not proved here.
- `tests/` – tests run against the compiled library.
- `app/` – conversions to and from arkworks types and the curve-point
  operations (multi-scalar combination, aggregation) that stay unverified.
