//! Programmable bootstrapping of LWE ciphertexts, shares of keys and of decryptions for a secret
//! that several parties hold together, and measurement of the noise in the keys of a server.
//!
//! Ciphertexts and keys are rows of residues. Contracts speak of the integers that they stand for:
//! `ring` defines the arithmetic of `Z_q[X]/(X^n + 1)` that they are stated with. What the
//! operations do to the polynomials and numbers that ciphertexts decrypt to is stated and proved
//! in `automorphism`, `decryption` and `rotation`. What a whole bootstrapping makes of the number
//! that its input decrypts to, with bounds on the noise, stands in `bootstrap`, and for digits
//! that recompose only approximately in `approximate`; what the collected noise samples are made
//! of stands in `samples`.
pub mod approximate;
pub mod automorphism;
pub mod backend;
pub mod bootstrap;
pub mod decomposer;
pub mod decryption;
pub mod double;
pub mod keys;
pub mod lwe;
pub mod multi_party;
pub mod ntt;
pub mod pbs;
pub mod poly;
pub mod print_noise;
pub mod random;
pub mod rgsw;
pub mod ring;
pub mod rotation;
pub mod samples;
pub mod small;
pub mod utils;
