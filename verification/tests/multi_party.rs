use noisy_bootstrap::backend::{CiphertextModulus, ModInit, ModularOpsU64};
use noisy_bootstrap::lwe::decrypt_lwe;
use noisy_bootstrap::multi_party::{
    multi_party_aggregate_decryption_shares_and_decrypt, multi_party_decryption_share,
    non_interactive_ksk_gen, non_interactive_ksk_zero_encryptions_for_other_party_i,
    non_interactive_rgsw_ct, public_key_share,
};
use noisy_bootstrap::ntt::{NttBackendU64, NttInit};
use noisy_bootstrap::random::SampleTape;
use noisy_bootstrap::rgsw::decrypt_rlwe;

fn operators() -> (ModularOpsU64, NttBackendU64) {
    let q = CiphertextModulus::new_non_native(17);
    (ModularOpsU64::new(q), NttBackendU64::new(&q, 4))
}

#[test]
fn public_key_share_is_product_plus_error() {
    let (modop, nttop) = operators();
    let mut share = vec![0u64; 4];
    let mut p_rng = SampleTape::new(vec![3, 5, 7, 11, 1]);
    let mut rng = SampleTape::new(vec![1, -1, 0, 2]);
    public_key_share(&mut share, &[1, 0, -1, 1], &modop, &nttop, &mut p_rng, &mut rng);
    assert_eq!(share, vec![6, 8, 10, 11]);
    assert_eq!(p_rng.position, 4);
    assert_eq!(rng.position, 4);
}

#[test]
fn public_key_shares_add_up_to_a_key_of_the_sum() {
    let (modop, nttop) = operators();
    let share = |s: &[i32], e: Vec<i64>| {
        let mut out = vec![0u64; 4];
        let mut p_rng = SampleTape::new(vec![3, 5, 7, 11]);
        public_key_share(&mut out, s, &modop, &nttop, &mut p_rng, &mut SampleTape::new(e));
        out
    };
    let x = share(&[1, 0, -1, 1], vec![1, -1, 0, 2]);
    let y = share(&[0, 1, 1, -1], vec![2, 0, 0, -1]);
    let both = share(&[1, 1, 0, 0], vec![3, -1, 0, 1]);
    let sum: Vec<u64> = x.iter().zip(y.iter()).map(|(a, b)| (a + b) % 17).collect();
    assert_eq!(sum, both);
}

#[test]
fn decryption_share_is_error_minus_product() {
    let (modop, _) = operators();
    let mut rng = SampleTape::new(vec![2]);
    // 2 - (3 * 1 + 5 * (-1) + 7 * 1) = -3
    let share = multi_party_decryption_share(&[10, 3, 5, 7], &[1, -1, 1], &modop, &mut rng);
    assert_eq!(share, 14);
    assert_eq!(rng.position, 1);
}

#[test]
fn aggregated_shares_decrypt_under_the_sum_of_the_secrets() {
    let (modop, _) = operators();
    let ct = [10u64, 3, 5, 7];
    let (s, t) = ([1i32, -1, 1], [0i32, 1, 1]);
    let mut rng = SampleTape::new(vec![2, -1]);
    let shares = vec![
        multi_party_decryption_share(&ct, &s, &modop, &mut rng),
        multi_party_decryption_share(&ct, &t, &modop, &mut rng),
    ];
    let m = multi_party_aggregate_decryption_shares_and_decrypt(&ct, &shares, &modop);
    let clear = decrypt_lwe(&ct, &[1, 0, 2], &modop);
    assert_eq!(m, (clear + 1) % 17);
    // Without shares only the body is left.
    assert_eq!(multi_party_aggregate_decryption_shares_and_decrypt(&ct, &[], &modop), 10);
}

#[test]
fn rgsw_rows_decrypt_to_scaled_messages() {
    let (modop, nttop) = operators();
    let (s, u) = ([1i32, 0, -1, 1], [0i32, 1, 1, -1]);
    let masks = vec![3, 5, 7, 11, 13, 2, 4, 6];
    let mut p_rng = SampleTape::new(masks.clone());
    let mut rng = SampleTape::new(vec![1, -1, 0, 2, 0, 0, 1, 0, -2, 0, 0, 0, 3, 0, 0, 1]);
    let (enc, zero) = non_interactive_rgsw_ct(
        &s,
        &u,
        &[1, 2, 3, 4],
        &[1, 4],
        &mut p_rng,
        &mut rng,
        &nttop,
        &modop,
    );
    let a = |i: usize| masks[4 * i..4 * i + 4].iter().map(|v| *v as u64).collect::<Vec<u64>>();
    // beta * m + e, with the first and the third error
    assert_eq!(
        decrypt_rlwe(&vec![a(0), enc[0].clone()], &u, &nttop, &modop),
        vec![2, 1, 3, 6]
    );
    assert_eq!(
        decrypt_rlwe(&vec![a(1), enc[1].clone()], &u, &nttop, &modop),
        vec![2, 8, 12, 16]
    );
    // e', the second and the fourth error
    assert_eq!(
        decrypt_rlwe(&vec![a(0), zero[0].clone()], &s, &nttop, &modop),
        vec![0, 0, 1, 0]
    );
    assert_eq!(
        decrypt_rlwe(&vec![a(1), zero[1].clone()], &s, &nttop, &modop),
        vec![3, 0, 0, 1]
    );
    assert_eq!(p_rng.position, 8);
    assert_eq!(rng.position, 16);
}

#[test]
fn key_switching_rows_decrypt_to_the_scaled_secret() {
    let (modop, nttop) = operators();
    let (s, u) = ([1i32, 0, -1, 1], [0i32, 1, 1, -1]);
    let masks = vec![3, 5, 7, 11, 13, 2, 4, 6];
    let ksk = non_interactive_ksk_gen(
        &s,
        &u,
        &[1, 4],
        &mut SampleTape::new(masks.clone()),
        &mut SampleTape::new(vec![1, 0, 0, 0, 0, 0, 0, -1]),
        &nttop,
        &modop,
    );
    assert_eq!(
        decrypt_rlwe(&vec![vec![3, 5, 7, 11], ksk[0].clone()], &s, &nttop, &modop),
        vec![1, 1, 1, 16]
    );
    assert_eq!(
        decrypt_rlwe(&vec![vec![13, 2, 4, 6], ksk[1].clone()], &s, &nttop, &modop),
        vec![0, 4, 4, 12]
    );
    let zero = non_interactive_ksk_zero_encryptions_for_other_party_i(
        &s,
        &[1, 4],
        &mut SampleTape::new(masks),
        &mut SampleTape::new(vec![1, 0, 0, 0, 0, 0, 0, -1]),
        &nttop,
        &modop,
    );
    assert_eq!(
        decrypt_rlwe(&vec![vec![3, 5, 7, 11], zero[0].clone()], &s, &nttop, &modop),
        vec![1, 0, 0, 0]
    );
    assert_eq!(
        decrypt_rlwe(&vec![vec![13, 2, 4, 6], zero[1].clone()], &s, &nttop, &modop),
        vec![0, 0, 0, 16]
    );
}

#[test]
fn no_gadget_factors_give_no_rows() {
    let (modop, nttop) = operators();
    let mut p_rng = SampleTape::new(vec![3]);
    let rows = non_interactive_ksk_zero_encryptions_for_other_party_i(
        &[1, 0, -1, 1],
        &[],
        &mut p_rng,
        &mut SampleTape::new(vec![]),
        &nttop,
        &modop,
    );
    assert!(rows.is_empty());
    assert_eq!(p_rng.position, 0);
}

#[test]
fn tape_hands_out_residues_and_then_zeros() {
    let (modop, nttop) = operators();
    let mut share = vec![9u64; 4];
    let mut p_rng = SampleTape::new(vec![]);
    let mut rng = SampleTape::new(vec![-18, 34, 16]);
    public_key_share(&mut share, &[1, 1, 1, 1], &modop, &nttop, &mut p_rng, &mut rng);
    assert_eq!(share, vec![16, 0, 16, 0]);
    assert_eq!(rng.position, 3);
}

#[test]
fn encryptions_of_two_parties_add_up() {
    let (modop, nttop) = operators();
    let (s, t, u) = ([1i32, 0, -1, 1], [0i32, 1, 1, -1], [1i32, 1, 0, -1]);
    let masks = vec![3, 5, 7, 11];
    let one = non_interactive_ksk_gen(
        &s,
        &u,
        &[4],
        &mut SampleTape::new(masks.clone()),
        &mut SampleTape::new(vec![1, 0, 0, 0]),
        &nttop,
        &modop,
    );
    let other = non_interactive_ksk_zero_encryptions_for_other_party_i(
        &t,
        &[4],
        &mut SampleTape::new(masks.clone()),
        &mut SampleTape::new(vec![0, -1, 0, 2]),
        &nttop,
        &modop,
    );
    let both = non_interactive_ksk_gen(
        &[1, 1, 0, 0],
        &u,
        &[4],
        &mut SampleTape::new(masks),
        &mut SampleTape::new(vec![1, -1, 0, 2]),
        &nttop,
        &modop,
    );
    let sum: Vec<u64> = one[0].iter().zip(other[0].iter()).map(|(a, b)| (a + b) % 17).collect();
    assert_eq!(sum, both[0]);
}

/// The key of the party in the middle and encryptions of zero of the others.
#[test]
fn encryptions_of_three_parties_add_up() {
    let (modop, nttop) = operators();
    let secrets = [[1i32, 0, -1, 1], [0i32, 1, 1, -1], [1i32, -1, 1, 0]];
    let errors = [vec![1i64, 0, 0, 0], vec![0, -1, 0, 2], vec![0, 3, -1, 0]];
    let (u, gadget) = ([1i32, 1, 0, -1], [1u64, 4]);
    let masks = vec![3, 5, 7, 11, 13, 2, 4, 6];
    let twice = |e: &Vec<i64>| SampleTape::new([e.clone(), e.clone()].concat());
    let rows: Vec<Vec<Vec<u64>>> = (0..3)
        .map(|p| {
            let mut p_rng = SampleTape::new(masks.clone());
            let mut rng = twice(&errors[p]);
            if p == 1 {
                let s = &secrets[p];
                non_interactive_ksk_gen(s, &u, &gadget, &mut p_rng, &mut rng, &nttop, &modop)
            } else {
                non_interactive_ksk_zero_encryptions_for_other_party_i(
                    &secrets[p],
                    &gadget,
                    &mut p_rng,
                    &mut rng,
                    &nttop,
                    &modop,
                )
            }
        })
        .collect();
    let sum = |j: usize| -> Vec<u64> {
        (0..4).map(|i| rows.iter().map(|r| r[j][i]).sum::<u64>() % 17).collect()
    };
    // The sum of the secrets and the sum of the errors
    let s = [2i32, 0, 1, 0];
    let both = non_interactive_ksk_gen(
        &s,
        &u,
        &gadget,
        &mut SampleTape::new(masks),
        &mut twice(&vec![1, 2, -1, 2]),
        &nttop,
        &modop,
    );
    assert_eq!(sum(0), both[0]);
    assert_eq!(sum(1), both[1]);
    // beta * u + e
    assert_eq!(
        decrypt_rlwe(&vec![vec![13, 2, 4, 6], sum(1)], &s, &nttop, &modop),
        vec![5, 6, 16, 15]
    );
}
