use noisy_bootstrap::backend::{
    ArithmeticOps, CiphertextModulus, ModInit, ModularOpsU64, Modulus, VectorOps,
};
use noisy_bootstrap::decomposer::{Decomposer, DefaultDecomposer};
use noisy_bootstrap::keys::{BootstrapInfo, ServerKeyEvaluationDomain, ShoupMatrix};
use noisy_bootstrap::lwe::{decrypt_lwe, lwe_key_switch};
use noisy_bootstrap::multi_party::{
    non_interactive_ksk_gen, non_interactive_ksk_zero_encryptions_for_other_party_i,
    non_interactive_rgsw_ct, public_key_share,
};
use noisy_bootstrap::ntt::{Ntt, NttBackendU64, NttInit};
use noisy_bootstrap::pbs::{blind_rotation, mod_switch_odd, pbs, PbsInfo, WithShoupRepr};
use noisy_bootstrap::print_noise::{
    collect_server_key_stats, collect_server_key_stats_with, ideal_sk_lwe, ideal_sk_rlwe,
    BoolParameters, ClientKey, ServerKeyStats, Stats,
};
use noisy_bootstrap::random::{RandomFillUniformInModulus, SampleTape};
use noisy_bootstrap::rgsw::{
    apply_auto, auto_element, decrypt_rlwe, generate_auto_map, rlwe_auto, rlwe_auto_shoup,
    rlwe_by_rgsw_shoup,
};
use noisy_bootstrap::utils::{
    encode_x_pow_si_with_emebedding_factor, try_convert_from, try_convert_to_signed,
};

const RLWE_Q: u64 = 18014398509404161;
const LWE_Q: u64 = 1 << 30;
const G: usize = 5;
const W: usize = 10;

type Parameters = BoolParameters<CiphertextModulus, DefaultDecomposer>;

/// A linear congruential generator.
struct Lcg(u64);

impl Lcg {
    fn next(&mut self) -> u64 {
        self.0 = self.0.wrapping_mul(6364136223846793005).wrapping_add(1442695040888963407);
        self.0 >> 11
    }

    fn masks(&mut self, n: usize) -> Vec<i64> {
        (0..n).map(|_| self.next() as i64).collect()
    }

    fn errors(&mut self, n: usize) -> Vec<i64> {
        (0..n).map(|_| (self.next() % 7) as i64 - 3).collect()
    }

    fn secret(&mut self, n: usize) -> Vec<i32> {
        (0..n).map(|_| (self.next() % 3) as i32 - 1).collect()
    }
}

fn parameters(rlwe_n: usize, lwe_n: usize, br_q: usize) -> Parameters {
    BoolParameters {
        rlwe_q: CiphertextModulus::new_non_native(RLWE_Q),
        lwe_q: CiphertextModulus::new_non_native(LWE_Q),
        br_q,
        rlwe_n,
        lwe_n,
        g: G,
        w: W,
        rlwe_rgsw_decomposer: (
            DefaultDecomposer::new(RLWE_Q, 1 << 7, 8),
            DefaultDecomposer::new(RLWE_Q, 1 << 7, 8),
        ),
        auto_decomposer: DefaultDecomposer::new(RLWE_Q, 1 << 6, 10),
        lwe_decomposer: DefaultDecomposer::new(LWE_Q, 1 << 4, 8),
    }
}

struct Operators {
    rlwe_modop: ModularOpsU64,
    lwe_modop: ModularOpsU64,
    nttop: NttBackendU64,
}

fn operators(p: &Parameters) -> Operators {
    Operators {
        rlwe_modop: ModularOpsU64::new(p.rlwe_q),
        lwe_modop: ModularOpsU64::new(p.lwe_q),
        nttop: NttBackendU64::new(&p.rlwe_q, p.rlwe_n),
    }
}

/// The product of two small polynomials modulo X^n + 1.
fn small_product(a: &[i32], b: &[i32]) -> Vec<i32> {
    let n = a.len();
    let mut r = vec![0i32; n];
    for i in 0..n {
        if a[i] != 0 {
            for j in 0..n {
                if i + j < n {
                    r[i + j] += a[i] * b[j];
                } else {
                    r[i + j - n] -= a[i] * b[j];
                }
            }
        }
    }
    r
}

/// X^e modulo X^n + 1.
fn small_monomial(e: i64, n: usize) -> Vec<i32> {
    let e = e.rem_euclid(2 * n as i64) as usize;
    let mut r = vec![0i32; n];
    if e < n {
        r[e] = 1;
    } else {
        r[e - n] = -1;
    }
    r
}

fn small_auto(p: &[i32], k: isize) -> Vec<i32> {
    let (index, sign) = generate_auto_map(p.len(), k);
    let mut r = vec![0i32; p.len()];
    for i in 0..p.len() {
        r[index[i]] = if sign[i] { p[i] } else { -p[i] };
    }
    r
}

fn negated(p: &[i32]) -> Vec<i32> {
    p.iter().map(|v| -v).collect()
}

fn add_rows(a: &mut Vec<Vec<u64>>, b: &[Vec<u64>], modop: &ModularOpsU64) {
    for (x, y) in a.iter_mut().zip(b.iter()) {
        modop.elwise_add_mut(x, y);
    }
}

/// The masks that were drawn from `tape`, then the rows `b`, all as values.
fn key_rows(tape: &[i64], b: Vec<Vec<u64>>, p: &Parameters, ops: &Operators) -> Vec<Vec<u64>> {
    let mut p_rng = SampleTape::new(tape.to_vec());
    let mut rows: Vec<Vec<u64>> = Vec::new();
    for _ in 0..b.len() {
        let mut a = vec![0u64; p.rlwe_n];
        RandomFillUniformInModulus::random_fill(&mut p_rng, &p.rlwe_q, &mut a);
        rows.push(a);
    }
    rows.extend(b);
    for row in rows.iter_mut() {
        ops.nttop.forward(row);
    }
    rows
}

/// The LWE key switching key from the secret `s` to the secret `z`.
fn lwe_key(s: &[i32], z: &[i32], p: &Parameters, ops: &Operators, r: &mut Lcg) -> Vec<Vec<u64>> {
    let gadget = p.lwe_decomposer.gadget_vector();
    let mut rows = Vec::new();
    for si in s {
        for beta in &gadget {
            let mut row = vec![0u64; z.len() + 1];
            for (i, zi) in z.iter().enumerate() {
                row[i + 1] = r.next() % LWE_Q;
                let t = ops.lwe_modop.mul(&row[i + 1], &p.lwe_q.map_element_from_i64(*zi as i64));
                row[0] = ops.lwe_modop.add(&row[0], &t);
            }
            let m = ops.lwe_modop.mul(beta, &p.lwe_q.map_element_from_i64(-*si as i64));
            row[0] = ops.lwe_modop.add(&row[0], &m);
            let e = p.lwe_q.map_element_from_i64(r.errors(1)[0]);
            row[0] = ops.lwe_modop.add(&row[0], &e);
            rows.push(row);
        }
    }
    rows
}

/// Encryptions under the sum of two secrets of `target` times each gadget factor.
type Encrypt<'a> = &'a dyn Fn(&[i32], &[u64], &mut Lcg) -> Vec<Vec<u64>>;

fn server_key(
    p: &Parameters,
    ops: &Operators,
    s: &[i32],
    z: &[i32],
    encrypt: Encrypt,
    r: &mut Lcg,
) -> ServerKeyEvaluationDomain {
    let factor = (2 * p.rlwe_n / p.br_q) as i64;
    let gadget_a = p.rlwe_rgsw_decomposer.0.gadget_vector();
    let gadget_b = p.rlwe_rgsw_decomposer.1.gadget_vector();
    let gadget = p.auto_decomposer.gadget_vector();
    let mut rgsw_cts = Vec::new();
    for zi in z {
        let m = small_monomial(*zi as i64 * factor, p.rlwe_n);
        let mut rows = encrypt(&small_product(&m, &negated(s)), &gadget_a, r);
        rows.extend(encrypt(&m, &gadget_b, r));
        rgsw_cts.push(ShoupMatrix::new(rows, &ops.rlwe_modop));
    }
    let mut galois_keys = Vec::new();
    // Without a window gaps of any length are closed at once.
    let autos = if p.w == 0 { p.br_q / 4 } else { p.w + 1 };
    for k in 0..autos {
        let target = negated(&small_auto(s, auto_element(p.g, p.br_q, k)));
        galois_keys.push(ShoupMatrix::new(encrypt(&target, &gadget, r), &ops.rlwe_modop));
    }
    ServerKeyEvaluationDomain { rgsw_cts, galois_keys, lwe_ksk: lwe_key(s, z, p, ops, r) }
}

fn client_keys(p: &Parameters, r: &mut Lcg) -> Vec<ClientKey> {
    // The sums of the LWE secrets stay in -1..=1.
    let z = r.secret(p.lwe_n);
    let half: Vec<i32> = z.iter().map(|v| if v % 2 == 0 { 1 } else { *v }).collect();
    let rest = z.iter().zip(half.iter()).map(|(a, b)| a - b).collect();
    vec![
        ClientKey { sk_rlwe: r.secret(p.rlwe_n), sk_lwe: half },
        ClientKey { sk_rlwe: r.secret(p.rlwe_n), sk_lwe: rest },
    ]
}

fn std_dev(stats: &Stats<i64>) -> f64 {
    let n = stats.samples.len() as f64;
    let mean = stats.samples.iter().map(|v| *v as f64).sum::<f64>() / n;
    let sum = stats.samples.iter().map(|v| (*v as f64 - mean) * (*v as f64 - mean)).sum::<f64>();
    (sum / (n - 1.0)).sqrt()
}

fn print_stats(server_key_stats: &ServerKeyStats<i64>) {
    println!(
        "Rgsw nsm std log2 {}",
        std_dev(&server_key_stats.brk_rgsw_cts.0).abs().log2()
    );
    println!(
        "Rgsw m std log2 {}",
        std_dev(&server_key_stats.brk_rgsw_cts.1).abs().log2()
    );
    println!(
        "rlwe post 1 auto std log2 {}",
        std_dev(&server_key_stats.post_1_auto).abs().log2()
    );
    println!(
        "key switching noise rlwe secret s to lwe secret z std log2 {}",
        std_dev(&server_key_stats.post_lwe_key_switch).abs().log2()
    );
}

fn check_stats(stats: &ServerKeyStats<i64>, p: &Parameters) {
    assert_eq!(stats.brk_rgsw_cts.0.samples.len(), p.lwe_n * 8 * p.rlwe_n);
    assert_eq!(stats.brk_rgsw_cts.1.samples.len(), p.lwe_n * 8 * p.rlwe_n);
    assert_eq!(stats.post_1_auto.samples.len(), (p.w + 1) * p.rlwe_n);
    assert_eq!(stats.post_lwe_key_switch.samples.len(), 10);
    // Two parties with errors of at most three.
    assert!(stats.brk_rgsw_cts.0.samples.iter().all(|v| v.abs() <= 6));
    assert!(stats.brk_rgsw_cts.1.samples.iter().all(|v| v.abs() <= 6));
    assert!(std_dev(&stats.brk_rgsw_cts.0) > 1.0);
    assert!(std_dev(&stats.brk_rgsw_cts.1) > 1.0);
    // Ten digits below 2^6 on each of the coefficients.
    let bound = 10 * 64 * 6 * p.rlwe_n as i64;
    assert!(stats.post_1_auto.samples.iter().all(|v| v.abs() <= bound));
    assert!(std_dev(&stats.post_1_auto) > 100.0);
    let bound = 8 * 16 * 3 * p.rlwe_n as i64;
    assert!(stats.post_lwe_key_switch.samples.iter().all(|v| v.abs() <= bound));
    assert!(stats.post_lwe_key_switch.samples.iter().any(|v| *v != 0));
}

fn collect(
    p: Parameters,
    cks: &[ClientKey],
    key: &ServerKeyEvaluationDomain,
    seed: u64,
) -> ServerKeyStats<i64> {
    let draws = (p.w + 1 + 10) * p.rlwe_n;
    let mut rng = SampleTape::new(Lcg(seed).masks(draws));
    let stats = collect_server_key_stats::<
        u64,
        CiphertextModulus,
        DefaultDecomposer,
        NttBackendU64,
        ModularOpsU64,
        ServerKeyEvaluationDomain,
        SampleTape,
    >(p, cks, key, &mut rng);
    assert_eq!(rng.position, draws);
    stats
}

#[test]
fn qwerty() {
    let p = parameters(128, 12, 256);
    let ops = operators(&p);
    let mut r = Lcg(1);
    let cks = client_keys(&p, &mut r);
    let (s, z) = (ideal_sk_rlwe(&cks), ideal_sk_lwe(&cks));
    // Every party publishes a share of a public key for the same mask; the sum of the shares and
    // the scaled target is an encryption under the sum of the secrets.
    let encrypt = |target: &[i32], gadget: &[u64], r: &mut Lcg| {
        let tape = r.masks(gadget.len() * p.rlwe_n);
        let t = try_convert_from(target, &p.rlwe_q);
        let mut b = Vec::new();
        for (j, beta) in gadget.iter().enumerate() {
            let mut row = vec![0u64; p.rlwe_n];
            ops.rlwe_modop.elwise_scalar_mul(&mut row, &t, beta);
            for ck in &cks {
                let mut share = vec![0u64; p.rlwe_n];
                let mut p_rng = SampleTape::new(tape[j * p.rlwe_n..(j + 1) * p.rlwe_n].to_vec());
                let mut rng = SampleTape::new(r.errors(p.rlwe_n));
                public_key_share(
                    &mut share,
                    &ck.sk_rlwe,
                    &ops.rlwe_modop,
                    &ops.nttop,
                    &mut p_rng,
                    &mut rng,
                );
                ops.rlwe_modop.elwise_add_mut(&mut row, &share);
            }
            b.push(row);
        }
        key_rows(&tape, b, &p, &ops)
    };
    let key = server_key(&p, &ops, &s, &z, &encrypt, &mut r);
    let server_key_stats = collect(parameters(128, 12, 256), &cks, &key, 7);
    print_stats(&server_key_stats);
    check_stats(&server_key_stats, &p);
}

/// Encryptions under the sum of the secrets of two parties that do not interact: one party
/// encrypts the target, the other zero, with the same masks.
fn non_interactive<'a>(
    p: &'a Parameters,
    ops: &'a Operators,
    cks: &'a [ClientKey],
) -> impl Fn(&[i32], &[u64], &mut Lcg) -> Vec<Vec<u64>> + 'a {
    move |target: &[i32], gadget: &[u64], r: &mut Lcg| {
        let count = gadget.len() * p.rlwe_n;
        let tape = r.masks(count);
        let mut b = non_interactive_ksk_gen(
            &cks[0].sk_rlwe,
            target,
            gadget,
            &mut SampleTape::new(tape.clone()),
            &mut SampleTape::new(r.errors(count)),
            &ops.nttop,
            &ops.rlwe_modop,
        );
        let zero = non_interactive_ksk_zero_encryptions_for_other_party_i(
            &cks[1].sk_rlwe,
            gadget,
            &mut SampleTape::new(tape.clone()),
            &mut SampleTape::new(r.errors(count)),
            &ops.nttop,
            &ops.rlwe_modop,
        );
        add_rows(&mut b, &zero, &ops.rlwe_modop);
        key_rows(&tape, b, p, ops)
    }
}

#[test]
fn querty2() {
    let p = parameters(128, 12, 256);
    let ops = operators(&p);
    let mut r = Lcg(2);
    let cks = client_keys(&p, &mut r);
    let (s, z) = (ideal_sk_rlwe(&cks), ideal_sk_lwe(&cks));
    // One call gives the encryption under one secret and the encryption of zero under the other.
    let encrypt = |target: &[i32], gadget: &[u64], r: &mut Lcg| {
        let count = gadget.len() * p.rlwe_n;
        let tape = r.masks(count);
        let (mut b, zero) = non_interactive_rgsw_ct(
            &cks[1].sk_rlwe,
            &cks[0].sk_rlwe,
            &try_convert_from(target, &p.rlwe_q),
            gadget,
            &mut SampleTape::new(tape.clone()),
            &mut SampleTape::new(r.errors(2 * count)),
            &ops.nttop,
            &ops.rlwe_modop,
        );
        add_rows(&mut b, &zero, &ops.rlwe_modop);
        key_rows(&tape, b, &p, &ops)
    };
    let key = server_key(&p, &ops, &s, &z, &encrypt, &mut r);
    let server_key_stats = collect(parameters(128, 12, 256), &cks, &key, 8);
    print_stats(&server_key_stats);
    check_stats(&server_key_stats, &p);
}

#[test]
fn stats_collect_samples() {
    let mut stats = ServerKeyStats::<i64>::new();
    assert!(stats.brk_rgsw_cts.0.samples.is_empty());
    stats.add_noise_brk_rgsw_cts_nsm(&[1, 2]);
    stats.add_noise_brk_rgsw_cts_nsm(&[3]);
    stats.add_noise_brk_rgsw_cts_m(&[4]);
    stats.add_noise_post_1_auto(&[5, 6]);
    stats.add_noise_post_kwe_key_switch(&[7]);
    assert_eq!(stats.brk_rgsw_cts.0.samples, vec![1, 2, 3]);
    assert_eq!(stats.brk_rgsw_cts.1.samples, vec![4]);
    assert_eq!(stats.post_1_auto.samples, vec![5, 6]);
    assert_eq!(stats.post_lwe_key_switch.samples, vec![7]);
}

#[test]
fn shared_secrets_are_sums() {
    let cks = vec![
        ClientKey { sk_rlwe: vec![1, -1, 0], sk_lwe: vec![2] },
        ClientKey { sk_rlwe: vec![1, 1, -1], sk_lwe: vec![-3] },
    ];
    assert_eq!(ideal_sk_rlwe(&cks), vec![2, 0, -1]);
    assert_eq!(ideal_sk_lwe(&cks), vec![-1]);
}

#[test]
fn automorphisms_of_the_parameters() {
    let p = parameters(128, 12, 256);
    assert_eq!(p.auto_element_dlogs(), (0..=W).collect::<Vec<usize>>());
}

/// With one party and known errors the samples are the errors.
#[test]
fn samples_are_the_errors_of_the_keys() {
    let p = parameters(16, 2, 32);
    let ops = operators(&p);
    let mut r = Lcg(3);
    let cks = vec![ClientKey { sk_rlwe: r.secret(16), sk_lwe: vec![1, -1] }];
    let errors: std::cell::RefCell<Vec<i64>> = std::cell::RefCell::new(Vec::new());
    let encrypt = |target: &[i32], gadget: &[u64], r: &mut Lcg| {
        let count = gadget.len() * p.rlwe_n;
        let tape = r.masks(count);
        let e = r.errors(count);
        errors.borrow_mut().extend(e.iter());
        let b = non_interactive_ksk_gen(
            &cks[0].sk_rlwe,
            target,
            gadget,
            &mut SampleTape::new(tape.clone()),
            &mut SampleTape::new(e),
            &ops.nttop,
            &ops.rlwe_modop,
        );
        key_rows(&tape, b, &p, &ops)
    };
    let key = server_key(&p, &ops, &cks[0].sk_rlwe, &cks[0].sk_lwe, &encrypt, &mut r);
    let mut rng = SampleTape::new(Lcg(4).masks(21 * 16));
    let stats = collect_server_key_stats_with(
        &p,
        &cks,
        &key,
        &ops.rlwe_modop,
        &ops.nttop,
        &ops.lwe_modop,
        &mut rng,
    );
    let rows = 8 * 16;
    let e = errors.borrow();
    let want_nsm: Vec<i64> = [&e[0..rows], &e[2 * rows..3 * rows]].concat();
    let want_m: Vec<i64> = [&e[rows..2 * rows], &e[3 * rows..4 * rows]].concat();
    assert_eq!(stats.brk_rgsw_cts.0.samples, want_nsm);
    assert_eq!(stats.brk_rgsw_cts.1.samples, want_m);
}

/// The shared secrets of two parties and the keys of their server.
fn two_parties(
    p: &Parameters,
    ops: &Operators,
    seed: u64,
) -> (Vec<i32>, Vec<i32>, ServerKeyEvaluationDomain) {
    let mut r = Lcg(seed);
    let cks = client_keys(p, &mut r);
    let (s, z) = (ideal_sk_rlwe(&cks), ideal_sk_lwe(&cks));
    let encrypt = non_interactive(p, ops, &cks);
    let key = server_key(p, ops, &s, &z, &encrypt, &mut r);
    (s, z, key)
}

/// An RLWE encryption of `m` under `s`.
fn rlwe_encrypt(
    m: &[u64],
    s: &[i32],
    p: &Parameters,
    ops: &Operators,
    r: &mut Lcg,
) -> Vec<Vec<u64>> {
    let tape = r.masks(p.rlwe_n);
    let mut a = vec![0u64; p.rlwe_n];
    RandomFillUniformInModulus::random_fill(
        &mut SampleTape::new(tape.clone()),
        &p.rlwe_q,
        &mut a,
    );
    let mut b = vec![0u64; p.rlwe_n];
    public_key_share(
        &mut b,
        s,
        &ops.rlwe_modop,
        &ops.nttop,
        &mut SampleTape::new(tape),
        &mut SampleTape::new(r.errors(p.rlwe_n)),
    );
    ops.rlwe_modop.elwise_add_mut(&mut b, m);
    vec![a, b]
}

fn close(a: &[u64], b: &[u64], bound: u64) -> bool {
    a.iter().zip(b.iter()).all(|(x, y)| {
        let d = (x + RLWE_Q - y) % RLWE_Q;
        d <= bound || RLWE_Q - d <= bound
    })
}

#[test]
fn rgsw_product_multiplies_by_the_encrypted_monomial() {
    let p = parameters(64, 4, 128);
    let ops = operators(&p);
    let (s, z, key) = two_parties(&p, &ops, 5);
    let mut r = Lcg(6);
    let m: Vec<u64> = (0..64u64).map(|i| (i << 40) % RLWE_Q).collect();
    for i in 0..p.lwe_n {
        let mut want = encode_x_pow_si_with_emebedding_factor(z[i], 1, p.rlwe_n, &p.rlwe_q);
        let mut me = m.clone();
        ops.nttop.forward(&mut want);
        ops.nttop.forward(&mut me);
        ops.rlwe_modop.elwise_mul_mut(&mut want, &me);
        ops.nttop.backward(&mut want);
        let mut ct = rlwe_encrypt(&m, &s, &p, &ops, &mut r);
        let rgsw = &key.rgsw_cts[i];
        rlwe_by_rgsw_shoup(
            &mut ct,
            rgsw.as_ref(),
            rgsw.shoup_repr(),
            &p.rlwe_rgsw_decomposer,
            &ops.nttop,
            &ops.rlwe_modop,
            false,
        );
        let back = decrypt_rlwe(&ct, &s, &ops.nttop, &ops.rlwe_modop);
        assert!(close(&back, &want, 1 << 30));
        assert!(back != want);
        // A trivial ciphertext.
        let mut ct = vec![vec![0u64; p.rlwe_n], m.clone()];
        rlwe_by_rgsw_shoup(
            &mut ct,
            rgsw.as_ref(),
            rgsw.shoup_repr(),
            &p.rlwe_rgsw_decomposer,
            &ops.nttop,
            &ops.rlwe_modop,
            true,
        );
        assert!(close(&decrypt_rlwe(&ct, &s, &ops.nttop, &ops.rlwe_modop), &want, 1 << 30));
    }
}

#[test]
fn automorphism_of_a_ciphertext_decrypts_to_the_image() {
    let p = parameters(64, 4, 128);
    let ops = operators(&p);
    let (s, _, key) = two_parties(&p, &ops, 9);
    let mut r = Lcg(10);
    let m: Vec<u64> = (0..64u64).map(|i| (i << 40) % RLWE_Q).collect();
    for k in [0usize, 1, 3] {
        let (index, sign) = generate_auto_map(p.rlwe_n, auto_element(p.g, p.br_q, k));
        let want = apply_auto(&m, &index, &sign, &ops.rlwe_modop);
        let ct = rlwe_encrypt(&m, &s, &p, &ops, &mut r);
        let galois = &key.galois_keys[k];
        let mut fast = ct.clone();
        rlwe_auto_shoup(
            &mut fast,
            galois.as_ref(),
            galois.shoup_repr(),
            &index,
            &sign,
            &ops.rlwe_modop,
            &ops.nttop,
            &p.auto_decomposer,
            false,
        );
        let mut slow = ct.clone();
        rlwe_auto(
            &mut slow,
            galois.as_ref(),
            &index,
            &sign,
            &ops.rlwe_modop,
            &ops.nttop,
            &p.auto_decomposer,
            false,
        );
        assert_eq!(fast, slow);
        assert!(close(&decrypt_rlwe(&fast, &s, &ops.nttop, &ops.rlwe_modop), &want, 1 << 30));
        // A trivial ciphertext stays trivial, and no noise is added.
        let mut trivial = vec![vec![0u64; p.rlwe_n], m.clone()];
        rlwe_auto(
            &mut trivial,
            galois.as_ref(),
            &index,
            &sign,
            &ops.rlwe_modop,
            &ops.nttop,
            &p.auto_decomposer,
            true,
        );
        assert_eq!(trivial, vec![vec![0u64; p.rlwe_n], want]);
    }
}

/// The coefficient of X^e for any e.
fn coeff_at(p: &[u64], e: i64, q: u64) -> u64 {
    let n = p.len() as i64;
    let r = e.rem_euclid(2 * n);
    if r < n {
        p[r as usize]
    } else {
        (q - p[(r - n) as usize]) % q
    }
}

#[test]
fn blind_rotation_turns_the_exponent() {
    let p = parameters(64, 4, 128);
    let ops = operators(&p);
    let (s, z, key) = two_parties(&p, &ops, 11);
    let info = BootstrapInfo::new(&p);
    let odds = [1usize, 127, 5, 77];
    let mut gk_to_si: Vec<Vec<usize>> = vec![vec![]; 64];
    for (i, a) in odds.iter().enumerate() {
        gk_to_si[info.g_k_dlog_map()[*a]].push(i);
    }
    let t: Vec<u64> = (0..64u64).map(|i| (i << 40) % RLWE_Q).collect();
    let mut ct = vec![vec![0u64; 64], t.clone()];
    blind_rotation(
        &mut ct,
        info.g(),
        info.w(),
        info.br_q(),
        &gk_to_si,
        info.rlwe_rgsw_decomposer(),
        info.auto_decomposer(),
        info.nttop_rlweq(),
        info.modop_rlweq(),
        &info,
        &key,
    );
    // X^e t(X^k) with e = sum a_i z_i and k = -1/g modulo 128
    let e: i64 = odds.iter().zip(z.iter()).map(|(a, b)| *a as i64 * *b as i64).sum();
    let want: Vec<u64> =
        (0..64i64).map(|j| coeff_at(&t, -(G as i64) * (j - e), RLWE_Q)).collect();
    let back = decrypt_rlwe(&ct, &s, &ops.nttop, &ops.rlwe_modop);
    assert!(close(&back, &want, 1 << 36));
}

/// No secret element is looked up and only automorphisms are applied.
#[test]
fn blind_rotation_of_no_elements_is_exact() {
    let p = parameters(64, 4, 128);
    let ops = operators(&p);
    let (s, _, key) = two_parties(&p, &ops, 12);
    let info = BootstrapInfo::new(&p);
    let t: Vec<u64> = (0..64u64).map(|i| (i << 40) % RLWE_Q).collect();
    let mut ct = vec![vec![0u64; 64], t.clone()];
    blind_rotation(
        &mut ct,
        info.g(),
        info.w(),
        info.br_q(),
        &vec![vec![]; 64],
        info.rlwe_rgsw_decomposer(),
        info.auto_decomposer(),
        info.nttop_rlweq(),
        info.modop_rlweq(),
        &info,
        &key,
    );
    let want: Vec<u64> = (0..64i64).map(|j| coeff_at(&t, -(G as i64) * j, RLWE_Q)).collect();
    assert_eq!(ct, vec![vec![0u64; 64], want.clone()]);
    assert_eq!(decrypt_rlwe(&ct, &s, &ops.nttop, &ops.rlwe_modop), want);
}

fn check_bootstrap(rlwe_n: usize, lwe_n: usize, br_q: usize, w: usize, seed: u64) {
    let p = Parameters { w, ..parameters(rlwe_n, lwe_n, br_q) };
    let ops = operators(&p);
    let (s, z, key) = two_parties(&p, &ops, seed);
    let info = BootstrapInfo::new(&p);
    let test_vec: Vec<u64> = (0..br_q as u64 / 2).map(|i| ((i + 1) << 40) % RLWE_Q).collect();
    let mut r = Lcg(seed + 1);
    for _ in 0..3 {
        let mut lwe: Vec<u64> = (0..rlwe_n + 1).map(|_| r.next() % RLWE_Q).collect();
        let phase_in = decrypt_lwe(&lwe, &s, &ops.rlwe_modop);
        let mut scratch = vec![77u64; lwe_n + 1];
        pbs(&info, &test_vec, &mut lwe, &key, &mut scratch);
        // The key switch keeps the phase up to noise.
        let phase_ks = decrypt_lwe(&scratch, &z, &ops.lwe_modop);
        let scaled = (phase_in as u128 * LWE_Q as u128 / RLWE_Q as u128) as u64;
        let d = (phase_ks + LWE_Q - scaled) % LWE_Q;
        assert!(d < 1 << 18 || LWE_Q - d < 1 << 18);
        // The result decrypts to the coefficient at -g times the rescaled phase.
        let odd: Vec<i64> = scratch
            .iter()
            .map(|v| mod_switch_odd(v, &p.lwe_q, br_q) as i64)
            .collect();
        let phase: i64 =
            odd[0] - odd[1..].iter().zip(z.iter()).map(|(a, b)| a * *b as i64).sum::<i64>();
        let want = coeff_at(&test_vec, -(G as i64) * phase, RLWE_Q);
        let back = decrypt_lwe(&lwe, &s, &ops.rlwe_modop);
        assert!(close(&[back], &[want], 1 << 36));
    }
}

#[test]
fn bootstrap_evaluates_the_test_polynomial() {
    check_bootstrap(64, 6, 128, W, 20);
}

#[test]
fn bootstrap_in_an_embedded_ring() {
    check_bootstrap(128, 5, 64, W, 30);
}

#[test]
fn bootstrap_without_a_window() {
    check_bootstrap(32, 4, 64, 0, 35);
}

#[test]
fn bootstrap_with_the_smallest_window() {
    check_bootstrap(32, 4, 64, 1, 36);
}

/// The first stages of a bootstrapping are the rescaling in double precision and the key switch.
#[test]
fn bootstrap_rescales_in_double_precision() {
    let p = parameters(64, 6, 128);
    let ops = operators(&p);
    let (_, _, key) = two_parties(&p, &ops, 40);
    let info = BootstrapInfo::new(&p);
    let test_vec: Vec<u64> = (0..64u64).map(|i| ((i + 1) << 40) % RLWE_Q).collect();
    let mut r = Lcg(41);
    let mut lwe: Vec<u64> = (0..65).map(|_| r.next() % RLWE_Q).collect();
    let (q, ks_q) = (RLWE_Q as f64, LWE_Q as f64);
    let scaled: Vec<u64> = lwe.iter().map(|v| ((*v as f64 * ks_q) / q).round() as u64).collect();
    let mut switched = vec![0u64; 7];
    lwe_key_switch(&mut switched, &scaled, &key.lwe_ksk, &ops.lwe_modop, &p.lwe_decomposer);
    let mut scratch = vec![0u64; 7];
    pbs(&info, &test_vec, &mut lwe, &key, &mut scratch);
    assert_eq!(scratch, switched);
}

/// A client encrypts bits under its own secret; the ciphertext is switched to the secret of all
/// clients.
#[test]
fn enc_under_sk_and_key_switch() {
    let p = parameters(128, 12, 256);
    let ops = operators(&p);
    let mut r = Lcg(2);
    let cks = client_keys(&p, &mut r);
    let ideal_rlwe_sk = ideal_sk_rlwe(&cks);
    let encrypt = non_interactive(&p, &ops, &cks);
    // The key switch is the automorphism X -> X with a key of the negated secret of the client.
    let gadget = p.auto_decomposer.gadget_vector();
    let ksk = encrypt(&negated(&cks[0].sk_rlwe), &gadget, &mut r);
    let (index, sign) = generate_auto_map(p.rlwe_n, 1);
    let message: Vec<u64> = (0..p.rlwe_n)
        .map(|_| if r.next() % 2 == 0 { RLWE_Q / 8 } else { RLWE_Q - RLWE_Q / 8 })
        .collect();
    let mut ct = rlwe_encrypt(&message, &cks[0].sk_rlwe, &p, &ops, &mut r);
    rlwe_auto(
        &mut ct,
        &ksk,
        &index,
        &sign,
        &ops.rlwe_modop,
        &ops.nttop,
        &p.auto_decomposer,
        false,
    );
    let mut diff = decrypt_rlwe(&ct, &ideal_rlwe_sk, &ops.nttop, &ops.rlwe_modop);
    ops.rlwe_modop.elwise_sub_mut(&mut diff, &message);
    let mut stats = Stats::default();
    stats.add_more(&try_convert_to_signed(&diff, &p.rlwe_q));
    println!("Noise std log2: {}", std_dev(&stats).abs().log2());
    let bound = 10 * 64 * 6 * p.rlwe_n as i64 + 3;
    assert!(stats.samples.iter().all(|v| v.abs() <= bound));
    assert!(std_dev(&stats) > 100.0);
}

/// With a single error in the key the sample of a key switch is minus its digit times the error.
#[test]
fn key_switch_samples_are_minus_the_noise() {
    let p = parameters(16, 2, 32);
    let ops = operators(&p);
    let mut r = Lcg(50);
    let cks = vec![ClientKey { sk_rlwe: r.secret(16), sk_lwe: vec![1, -1] }];
    let encrypt = |target: &[i32], gadget: &[u64], r: &mut Lcg| {
        let tape = r.masks(gadget.len() * p.rlwe_n);
        let b = non_interactive_ksk_gen(
            &cks[0].sk_rlwe,
            target,
            gadget,
            &mut SampleTape::new(tape.clone()),
            &mut SampleTape::new(vec![]),
            &ops.nttop,
            &ops.rlwe_modop,
        );
        key_rows(&tape, b, &p, &ops)
    };
    let mut key = server_key(&p, &ops, &cks[0].sk_rlwe, &cks[0].sk_lwe, &encrypt, &mut r);
    // Rows without errors, then an error of two in the row of the lowest digit of the first entry.
    for (i, row) in key.lwe_ksk.iter_mut().enumerate() {
        let beta = p.lwe_decomposer.gadget_vector()[i % 8];
        let m = ops.lwe_modop.mul(
            &beta,
            &p.lwe_q.map_element_from_i64(-cks[0].sk_rlwe[i / 8] as i64),
        );
        row[0] = ops.lwe_modop.add(&ops.lwe_modop.sub(&row[1], &row[2]), &m);
    }
    key.lwe_ksk[0][0] = ops.lwe_modop.add(&key.lwe_ksk[0][0], &2);
    let masks = Lcg(51).masks(21 * 16);
    let mut rng = SampleTape::new(masks.clone());
    let stats = collect_server_key_stats_with(
        &p,
        &cks,
        &key,
        &ops.rlwe_modop,
        &ops.nttop,
        &ops.lwe_modop,
        &mut rng,
    );
    for t in 0..10 {
        let first = masks[(11 + t) * 16] as u64 % LWE_Q;
        let (sign, m) = if first > LWE_Q / 2 { (-1, LWE_Q - first) } else { (1, first) };
        let low = (m % 16) as i64;
        let digit = if low > 8 { low - 16 } else { low };
        assert_eq!(stats.post_lwe_key_switch.samples[t], -2 * sign * digit);
    }
    // No errors in the other keys.
    assert!(stats.brk_rgsw_cts.0.samples.iter().all(|v| *v == 0));
    assert!(stats.brk_rgsw_cts.1.samples.iter().all(|v| *v == 0));
    assert!(stats.post_1_auto.samples.iter().all(|v| *v == 0));
}
