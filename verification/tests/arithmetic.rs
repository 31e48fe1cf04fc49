use noisy_bootstrap::backend::{
    ArithmeticOps, CiphertextModulus, Element, GetModulus, ModInit, ModularOpsU64, Modulus,
    ShoupMatrixFMA, VectorOps,
};
use noisy_bootstrap::decomposer::{Decomposer, DefaultDecomposer};
use noisy_bootstrap::lwe::{decrypt_lwe, lwe_key_switch};
use noisy_bootstrap::ntt::{transform_exists, Ntt, NttBackendU64, NttInit};
use noisy_bootstrap::rgsw::{apply_auto, auto_element, decrypt_rlwe, generate_auto_map};
use noisy_bootstrap::utils::{
    encode_x_pow_si_with_emebedding_factor, pow_mod, try_convert_from, try_convert_to_signed, zeros,
};

fn q17() -> CiphertextModulus {
    CiphertextModulus::new_non_native(17)
}

fn ops17() -> ModularOpsU64 {
    ModularOpsU64::new(q17())
}

/// The schoolbook product modulo X^n + 1.
fn naive(a: &[u64], b: &[u64], q: u64) -> Vec<u64> {
    let n = a.len();
    let mut r = vec![0u64; n];
    for i in 0..n {
        for j in 0..n {
            let p = ((a[i] as u128 * b[j] as u128) % q as u128) as u64;
            if i + j < n {
                r[i + j] = (r[i + j] + p) % q;
            } else {
                r[i + j - n] = (r[i + j - n] + q - p) % q;
            }
        }
    }
    r
}

#[test]
fn zero_rows_hold_zeros() {
    assert_eq!(zeros::<u64>(3), vec![0, 0, 0]);
    assert_eq!(<u64 as Element>::zero(), 0);
}

#[test]
fn signed_numbers_map_to_residues_and_back() {
    let q = q17();
    assert_eq!(q.map_element_from_i64(-1), 16);
    assert_eq!(q.map_element_from_i64(5), 5);
    assert_eq!(q.map_element_to_i64(&8), 8);
    assert_eq!(q.map_element_to_i64(&9), -8);
    assert_eq!(q.map_element_to_i64(&16), -1);
    assert_eq!(try_convert_from(&[-1, 0, 3], &q), vec![16, 0, 3]);
    assert_eq!(try_convert_to_signed(&[16, 0, 3], &q), vec![-1, 0, 3]);
}

#[test]
fn residues_add_subtract_multiply_and_negate() {
    let ops = ops17();
    assert_eq!(ops.add(&9, &9), 1);
    // A summand may be the modulus itself.
    assert_eq!(ops.add(&17, &3), 3);
    assert_eq!(ops.sub(&3, &5), 15);
    assert_eq!(ops.mul(&6, &7), 8);
    assert_eq!(ops.neg(&0), 0);
    assert_eq!(ops.neg(&4), 13);
    assert_eq!(ops.modulus().q, 17);
}

#[test]
fn rows_of_residues() {
    let ops = ops17();
    let mut a = vec![1u64, 2, 3];
    ops.elwise_add_mut(&mut a, &[16, 16, 16]);
    assert_eq!(a, vec![0, 1, 2]);
    ops.elwise_sub_mut(&mut a, &[1, 1, 1]);
    assert_eq!(a, vec![16, 0, 1]);
    ops.elwise_mul_mut(&mut a, &[2, 5, 7]);
    assert_eq!(a, vec![15, 0, 7]);
    ops.elwise_neg_mut(&mut a);
    assert_eq!(a, vec![2, 0, 10]);
    ops.elwise_scalar_mul_mut(&mut a, &3);
    assert_eq!(a, vec![6, 0, 13]);
    ops.elwise_fma_scalar_mut(&mut a, &[1, 2, 3], &2);
    assert_eq!(a, vec![8, 4, 2]);
    ops.elwise_fma_mut(&mut a, &[1, 2, 3], &[4, 5, 6]);
    assert_eq!(a, vec![12, 14, 3]);
    let mut out = vec![0u64; 3];
    ops.elwise_scalar_mul(&mut out, &[1, 2, 3], &6);
    assert_eq!(out, vec![6, 12, 1]);
}

#[test]
fn shoup_products_are_products() {
    let q = 18014398509404161u64;
    let ops = ModularOpsU64::new(CiphertextModulus::new_non_native(q));
    let b = vec![q - 1, 123456789012345678 % q, 1];
    let c = vec![q - 1, 987654321098765432 % q, q - 2];
    let shoup: Vec<u64> = b.iter().map(|w| ops.shoup_repr(w)).collect();
    let mut fast = vec![5u64, 6, 7];
    let mut slow = fast.clone();
    ops.shoup_fma_mut(&mut fast, &b, &shoup, &c);
    ops.elwise_fma_mut(&mut slow, &b, &c);
    assert_eq!(fast, slow);
    assert_eq!(fast[0], 6);
}

#[test]
fn digits_recompose() {
    let q = 1u64 << 20;
    let d = DefaultDecomposer::new(q, 16, 5);
    assert_eq!(d.decomposition_count(), 5);
    assert_eq!(d.gadget_vector(), vec![1, 16, 256, 4096, 65536]);
    assert_eq!(d.decompose(&0x12345), vec![5, 4, 3, 2, 1]);
    let v = 987654u64;
    let sum: u64 = d
        .decompose(&v)
        .iter()
        .zip(d.gadget_vector().iter())
        .map(|(x, g)| x * g)
        .sum();
    assert_eq!(sum % q, v);
    // The modulus itself stands for zero.
    let d = DefaultDecomposer::new(17, 2, 5);
    assert_eq!(d.decompose(&17), vec![0, 0, 0, 0, 0]);
}

#[test]
fn digits_are_signed() {
    let q = 1u64 << 20;
    let d = DefaultDecomposer::new(q, 16, 5);
    // 0x9 = -7 + 16, and 8 stays positive
    assert_eq!(d.decompose(&0x9), vec![q - 7, 1, 0, 0, 0]);
    assert_eq!(d.decompose(&0x8), vec![8, 0, 0, 0, 0]);
    // 0xff8 = 8 - 16 + 4096
    assert_eq!(d.decompose(&0xff8), vec![8, q - 1, 0, 1, 0]);
    // Residues above half of the modulus stand for negative numbers.
    assert_eq!(d.decompose(&(q - 1)), vec![q - 1, 0, 0, 0, 0]);
    assert_eq!(d.decompose(&(q - 9)), vec![7, q - 1, 0, 0, 0]);
    let q = 97u64;
    let d = DefaultDecomposer::new(q, 5, 3);
    let gadget = d.gadget_vector();
    for v in 0..=q {
        let digits = d.decompose(&v);
        assert!(digits.iter().all(|x| *x <= 2 || *x >= q - 2));
        let sum: u64 = digits.iter().zip(gadget.iter()).map(|(x, g)| x * g).sum();
        assert_eq!(sum % q, v % q);
    }
}

#[test]
fn transforms_need_a_root() {
    let q = CiphertextModulus::new_non_native;
    assert!(transform_exists(&q(17), 4));
    assert!(transform_exists(&q(17), 8));
    assert!(transform_exists(&q(18014398509404161), 1024));
    // Not a power of two, an even modulus, no root of the order.
    assert!(!transform_exists(&q(17), 6));
    assert!(!transform_exists(&q(17), 0));
    assert!(!transform_exists(&q(16), 4));
    assert!(!transform_exists(&q(17), 16));
    assert!(!transform_exists(&q(19), 4));
}

#[test]
fn transform_turns_products_into_entrywise_products() {
    let ntt = NttBackendU64::new(&q17(), 4);
    let ops = ops17();
    let mut a = vec![1u64, 2, 3, 4];
    let mut b = vec![5u64, 6, 7, 8];
    ntt.forward(&mut a);
    ntt.forward(&mut b);
    ops.elwise_mul_mut(&mut a, &b);
    ntt.backward(&mut a);
    assert_eq!(a, vec![12, 15, 2, 9]);
}

#[test]
fn transform_undoes_itself() {
    let q = 18014398509404161u64;
    let ntt = NttBackendU64::new(&CiphertextModulus::new_non_native(q), 64);
    let ops = ModularOpsU64::new(CiphertextModulus::new_non_native(q));
    let a: Vec<u64> = (0..64u64).map(|i| (i * 1234567891011 + 17) % q).collect();
    let b: Vec<u64> = (0..64u64).map(|i| (i * i * 987654321987 + 5) % q).collect();
    let mut v = a.clone();
    ntt.forward(&mut v);
    assert_ne!(v, a);
    let mut w = v.clone();
    ntt.backward(&mut w);
    assert_eq!(w, a);
    let mut u = b.clone();
    ntt.forward(&mut u);
    ops.elwise_mul_mut(&mut v, &u);
    ntt.backward(&mut v);
    assert_eq!(v, naive(&a, &b, q));
}

#[test]
fn lwe_decrypts_to_body_minus_product() {
    // 10 - (3 * 1 + 5 * (-1) + 7 * 2) = -2
    assert_eq!(decrypt_lwe(&[10, 3, 5, 7], &[1, -1, 2], &ops17()), 15);
}

#[test]
fn key_switch_without_errors_keeps_the_phase() {
    let q = 257u64;
    let ops = ModularOpsU64::new(CiphertextModulus::new_non_native(q));
    let dec = DefaultDecomposer::new(q, 4, 5);
    let (s, z) = ([1i32, -1, 0], [1i32, 1]);
    let gadget = dec.gadget_vector();
    let mut ksk = Vec::new();
    for (i, si) in s.iter().enumerate() {
        for (j, g) in gadget.iter().enumerate() {
            let (a0, a1) = ((i * 31 + j * 7 + 3) as u64 % q, (i * 11 + j * 29 + 1) as u64 % q);
            let m = (*g as i64 * -(*si as i64)).rem_euclid(q as i64) as u64;
            ksk.push(vec![(a0 + a1 + m) % q, a0, a1]);
        }
    }
    // The last entry is the modulus itself.
    let lwe_in = [100u64, 200, 31, 257];
    let mut out = vec![0u64; 3];
    lwe_key_switch(&mut out, &lwe_in, &ksk, &ops, &dec);
    // 100 - (200 - 31)
    let want = (100i64 - 169).rem_euclid(257) as u64;
    assert_eq!(decrypt_lwe(&out, &z, &ops), want);
}

#[test]
fn rlwe_decrypts_to_b_minus_s_a() {
    let ntt = NttBackendU64::new(&q17(), 4);
    let ops = ops17();
    let s = [1i32, 0, -1, 1];
    let a = vec![3u64, 5, 7, 11];
    let sa = naive(&[1, 0, 16, 1], &a, 17);
    let m = [4u64, 3, 2, 1];
    let b: Vec<u64> = sa.iter().zip(m.iter()).map(|(x, y)| (x + y) % 17).collect();
    assert_eq!(decrypt_rlwe(&vec![a, b], &s, &ntt, &ops), m.to_vec());
}

#[test]
fn automorphism_moves_powers() {
    // X -> X^3 modulo X^4 + 1: X^2 goes to X^6 = -X^2, X^3 to X^9 = X.
    let (index, sign) = generate_auto_map(4, 3);
    assert_eq!(index, vec![0, 3, 2, 1]);
    assert_eq!(sign, vec![true, true, false, true]);
    assert_eq!(apply_auto(&[1, 2, 3, 4], &index, &sign, &ops17()), vec![1, 4, 14, 2]);
    // X -> X^-5 is X -> X^3 in this ring.
    assert_eq!(generate_auto_map(4, -5), (index, sign));
}

#[test]
fn automorphism_with_inverse_exponent_undoes_it() {
    // 5 * 13 = 65 = 1 modulo 16.
    let ops = ops17();
    let p = [1u64, 2, 3, 4, 5, 6, 7, 8];
    let (i, s) = generate_auto_map(8, 5);
    let (j, t) = generate_auto_map(8, 13);
    let image = apply_auto(&p, &i, &s, &ops);
    assert_ne!(image, p.to_vec());
    assert_eq!(apply_auto(&image, &j, &t, &ops), p.to_vec());
}

#[test]
fn automorphism_respects_products_and_sums() {
    let ops = ops17();
    let (i, s) = generate_auto_map(8, 5);
    let (a, b) = ([1u64, 2, 3, 4, 5, 6, 7, 8], [9u64, 0, 16, 3, 2, 1, 11, 4]);
    let image = |p: &[u64]| apply_auto(p, &i, &s, &ops);
    assert_eq!(image(&naive(&a, &b, 17)), naive(&image(&a), &image(&b), 17));
    let mut sum = a.to_vec();
    ops.elwise_add_mut(&mut sum, &b);
    let mut images = image(&a);
    ops.elwise_add_mut(&mut images, &image(&b));
    assert_eq!(image(&sum), images);
}

#[test]
fn automorphism_exponents() {
    assert_eq!(auto_element(5, 32, 0), -5);
    assert_eq!(auto_element(5, 32, 1), 5);
    assert_eq!(auto_element(5, 32, 3), 29);
    assert_eq!(pow_mod(5, 8, 32), 1);
}

#[test]
fn monomials_of_secret_elements() {
    let q = q17();
    assert_eq!(encode_x_pow_si_with_emebedding_factor(1, 2, 4, &q), vec![0, 0, 1, 0]);
    assert_eq!(encode_x_pow_si_with_emebedding_factor(0, 2, 4, &q), vec![1, 0, 0, 0]);
    // X^-1 = -X^3
    assert_eq!(encode_x_pow_si_with_emebedding_factor(-1, 1, 4, &q), vec![0, 0, 0, 16]);
}
