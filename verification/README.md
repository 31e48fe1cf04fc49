# noisy_bootstrap

Programmable bootstrapping of LWE ciphertexts, shares of keys and of decryptions for a secret that
several parties hold together, and measurement of the noise in the keys of a server. The library
under `src/` is verified with Verus.

| module | contents |
| --- | --- |
| `poly`, `ring` | polynomials over the integers and in `Z_q[X]/(X^n + 1)`, and their laws |
| `backend` | modular arithmetic: traits, and their implementation on `u64` |
| `ntt` | the number-theoretic transform |
| `decomposer` | gadget decomposition |
| `double` | rescaling in double precision, on integers |
| `random` | sources of random residues, modelled by their state |
| `utils` | rows of residues and conversions |
| `lwe`, `rgsw` | operations on LWE, RLWE and RGSW ciphertexts |
| `multi_party` | key shares and decryption shares |
| `pbs` | blind rotation and bootstrapping |
| `print_noise` | noise in server keys |
| `keys` | keys and parameters on `u64` |
| `automorphism`, `decryption`, `rotation` | laws: what the operations do to the plaintexts |

`app/` holds statistics in floating point numbers and the random number generator.
