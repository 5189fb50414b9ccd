//! Constants of the supported curve pairs.
pub mod bls12_377_bw6_761;
pub mod bls12_381_bw6_767;
