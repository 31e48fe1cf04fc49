use noisy_bootstrap::backend::{CiphertextModulus, ModInit, ModularOpsU64, Modulus, VectorOps};
use noisy_bootstrap::double::rescale;
use noisy_bootstrap::keys::generate_dlog_map;
use noisy_bootstrap::lwe::decrypt_lwe;
use noisy_bootstrap::ntt::{Ntt, NttBackendU64, NttInit};
use noisy_bootstrap::pbs::{mod_switch_odd, monomial_mul, sample_extract};
use noisy_bootstrap::rgsw::decrypt_rlwe;
use noisy_bootstrap::utils::encode_x_pow_si_with_emebedding_factor;

fn ops17() -> ModularOpsU64 {
    ModularOpsU64::new(CiphertextModulus::new_non_native(17))
}

#[test]
fn monomial_mul_wraps_with_sign() {
    let ops = ops17();
    let mut out = vec![9u64; 4];
    monomial_mul(&[1, 2, 3, 4], &mut out, 1, true, 4, &ops);
    assert_eq!(out, vec![13, 1, 2, 3]);
    monomial_mul(&[1, 2, 3, 4], &mut out, 1, false, 4, &ops);
    assert_eq!(out, vec![4, 16, 15, 14]);
    monomial_mul(&[1, 2, 3, 4], &mut out, 0, true, 4, &ops);
    assert_eq!(out, vec![1, 2, 3, 4]);
    monomial_mul(&[1, 0, 0, 0], &mut out, 3, false, 4, &ops);
    assert_eq!(out, vec![0, 0, 0, 16]);
}

#[test]
fn monomials_compose() {
    let ops = ops17();
    let p = [1u64, 2, 3, 4];
    let (mut one, mut two, mut both) = (vec![0u64; 4], vec![0u64; 4], vec![0u64; 4]);
    monomial_mul(&p, &mut one, 3, true, 4, &ops);
    monomial_mul(&one, &mut two, 2, true, 4, &ops);
    // X^5 = -X
    monomial_mul(&p, &mut both, 1, false, 4, &ops);
    assert_eq!(two, both);
}

#[test]
fn sample_extract_reverses_and_negates() {
    let rlwe = vec![vec![1u64, 2, 3, 4], vec![5, 6, 7, 8]];
    let mut out = vec![0u64; 5];
    sample_extract(&mut out, &rlwe, &ops17(), 0);
    assert_eq!(out, vec![5, 1, 13, 14, 15]);
    sample_extract(&mut out, &rlwe, &ops17(), 1);
    assert_eq!(out, vec![6, 2, 1, 13, 14]);
    sample_extract(&mut out, &rlwe, &ops17(), 3);
    assert_eq!(out, vec![8, 4, 3, 2, 1]);
}

#[test]
fn extracted_sample_decrypts_to_the_coefficient() {
    let ops = ops17();
    let ntt = NttBackendU64::new(&CiphertextModulus::new_non_native(17), 4);
    let rlwe = vec![vec![3u64, 5, 7, 11], vec![1, 2, 13, 4]];
    let s = [1i32, 0, -1, 1];
    let phase = decrypt_rlwe(&rlwe, &s, &ntt, &ops);
    for index in 0..4 {
        let mut lwe = vec![0u64; 5];
        sample_extract(&mut lwe, &rlwe, &ops, index);
        assert_eq!(decrypt_lwe(&lwe, &s, &ops), phase[index]);
    }
}

#[test]
fn rescaled_numbers_are_rounded() {
    let q = CiphertextModulus::new_non_native;
    let (from, to) = (q(100), q(10));
    assert_eq!(from.switch_rounded(&14, &to), 1);
    assert_eq!(from.switch_rounded(&15, &to), 2);
    // The closest number may be the modulus itself.
    assert_eq!(from.switch_rounded(&99, &to), 10);
    assert_eq!(from.switch_floored(&99, 10), 9);
    assert_eq!(from.switch_floored(&0, 10), 0);
    // Numbers of more than 53 bits are rounded first.
    assert_eq!(q(1 << 60).switch_rounded(&((1 << 58) - 1), &q(2)), 1);
    assert_eq!(q(1 << 60).switch_floored(&((1 << 60) - 1), 16), 16);
}

#[test]
fn rescaled_numbers_are_made_odd() {
    let q = CiphertextModulus::new_non_native;
    let from = q(1 << 10);
    // 100 * 16 / 1024 = 1.56 and 200 * 16 / 1024 = 3.1 stay odd
    assert_eq!(mod_switch_odd(&100, &from, 16), 1);
    assert_eq!(mod_switch_odd(&200, &from, 16), 3);
    // 0 and 128 * 16 / 1024 = 2 become odd
    assert_eq!(mod_switch_odd(&0, &from, 16), 1);
    assert_eq!(mod_switch_odd(&128, &from, 16), 3);
    assert_eq!(mod_switch_odd(&1023, &from, 16), 15);
    // Numbers at or above the modulus, and odd or zero targets: 2000 * 16 / 1024 = 31.25,
    // 1024 * 16 / 1024 = 16, 1023 * 15 / 1024 = 14.98
    assert_eq!(mod_switch_odd(&2000, &from, 16), 31);
    assert_eq!(mod_switch_odd(&1024, &from, 16), 17);
    assert_eq!(mod_switch_odd(&1023, &from, 15), 15);
    assert_eq!(mod_switch_odd(&1023, &from, 0), 1);
    // Numbers of more than 53 bits are rounded first.
    assert_eq!(mod_switch_odd(&((1 << 60) - 1), &q(1 << 60), 16), 17);
    assert_eq!(mod_switch_odd(&((1 << 53) + 1), &q(1), 1), (1 << 53) + 1);
    assert_eq!(mod_switch_odd(&((1 << 53) + 3), &q(1), 1), (1 << 53) + 5);
}

/// The odd number `r` with `r - 1 <= x < r + 1`, and in order.
#[test]
fn odd_rescaling_is_close_and_ordered() {
    for to in [1usize, 7, 16, 30] {
        let from = CiphertextModulus::new_non_native(97);
        let mut last = 0;
        for v in 0..400u64 {
            let r = mod_switch_odd(&v, &from, to);
            assert_eq!(r % 2, 1);
            let x = v as usize * to;
            assert!((r - 1) * 97 <= x && x < (r + 1) * 97);
            assert!(last <= r);
            last = r;
        }
    }
}

/// `v * to / from` is rounded as floating point arithmetic rounds it.
fn check_rescale(v: u64, from: u64, to: u64) {
    let x = (v as f64 * to as f64) / from as f64;
    let fits = |y: f64| if y < 18446744073709551616.0 { Some(y as u64) } else { None };
    let y = rescale(v, from, to);
    assert_eq!(y.round(), fits(x.round()));
    assert_eq!(y.floor(), fits(x.floor()));
}

#[test]
fn rescaling_is_in_double_precision() {
    let edges = [
        0u64,
        1,
        2,
        3,
        5,
        (1 << 52) - 1,
        1 << 52,
        (1 << 53) - 1,
        1 << 53,
        (1 << 53) + 1,
        (1 << 53) + 2,
        (1 << 53) + 3,
        (1 << 54) + 6,
        (1 << 60) - 1,
        1 << 63,
        u64::MAX - 1024,
        u64::MAX - 1023,
        u64::MAX,
    ];
    for v in edges {
        for from in edges {
            for to in edges {
                if from > 0 {
                    check_rescale(v, from, to);
                }
            }
        }
    }
    let mut x = 1u64;
    let mut next = || {
        x = x.wrapping_mul(6364136223846793005).wrapping_add(1442695040888963407);
        let shift = (x >> 58) as u32;
        (x ^ (x >> 31)) >> shift
    };
    for _ in 0..100000 {
        let (v, from, to) = (next(), next(), next());
        if from > 0 {
            check_rescale(v, from, to);
        }
    }
}

#[test]
fn discrete_logarithms() {
    let map = generate_dlog_map(5, 32);
    assert_eq!(map.len(), 32);
    assert_eq!(map[1], 0);
    assert_eq!(map[5], 1);
    assert_eq!(map[25], 2);
    assert_eq!(map[31], 8);
    assert_eq!(map[27], 9);
    for a in (1..32usize).step_by(2) {
        let k = map[a];
        let mut p = 1usize;
        for _ in 0..k % 8 {
            p = p * 5 % 32;
        }
        assert_eq!(a, if k < 8 { p } else { 32 - p });
    }
}

#[test]
fn monomial_mul_is_the_product_with_the_power() {
    let q = CiphertextModulus::new_non_native(17);
    let (ops, ntt) = (ops17(), NttBackendU64::new(&q, 4));
    let p = [1u64, 2, 3, 4];
    for e in 0..4i32 {
        let mut x = encode_x_pow_si_with_emebedding_factor(e, 1, 4, &q);
        let mut v = p.to_vec();
        ntt.forward(&mut x);
        ntt.forward(&mut v);
        ops.elwise_mul_mut(&mut v, &x);
        ntt.backward(&mut v);
        let mut out = vec![0u64; 4];
        monomial_mul(&p, &mut out, e as usize, true, 4, &ops);
        assert_eq!(out, v);
    }
}

#[test]
fn decryption_is_linear() {
    let q = CiphertextModulus::new_non_native(17);
    let (ops, ntt) = (ops17(), NttBackendU64::new(&q, 4));
    let s = [1i32, 0, -1, 1];
    let product = |a: &[u64], b: &[u64]| {
        let (mut x, mut y) = (a.to_vec(), b.to_vec());
        ntt.forward(&mut x);
        ntt.forward(&mut y);
        ops.elwise_mul_mut(&mut x, &y);
        ntt.backward(&mut x);
        x
    };
    let (ct, row) = (
        vec![vec![3u64, 5, 7, 11], vec![1, 2, 13, 4]],
        vec![vec![2u64, 2, 9, 0], vec![16, 4, 6, 1]],
    );
    let d = [5u64, 0, 1, 12];
    let mut sum = ct.clone();
    for i in 0..2 {
        ops.elwise_add_mut(&mut sum[i], &product(&d, &row[i]));
    }
    let mut want = decrypt_rlwe(&ct, &s, &ntt, &ops);
    ops.elwise_add_mut(&mut want, &product(&d, &decrypt_rlwe(&row, &s, &ntt, &ops)));
    assert_eq!(decrypt_rlwe(&sum, &s, &ntt, &ops), want);
}
