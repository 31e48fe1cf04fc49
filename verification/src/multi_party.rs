//! Shares of keys and of decryptions for a secret that is split among several parties.
use crate::backend::{self, ArithmeticOps, Element, GetModulus, Modulus, Residues, VectorOps};
use crate::lwe;
use crate::ntt::Ntt;
use crate::poly;
use crate::random::{
    self, RandomFillGaussianInModulus, RandomFillUniformInModulus, RandomGaussianElementInModulus,
};
use crate::rgsw;
use crate::ring;
use crate::utils::{copied, try_convert_from, zeros};
use vstd::arithmetic::div_mod::*;
use vstd::prelude::*;

verus! {

/// Replaces the polynomial `a` by `a * s`, given the values of `s`.
pub(crate) fn mul_by_evaluated<
    El: Element,
    ModOp: VectorOps<Element = El>,
    NttOp: Ntt<Element = El>,
>(a: &mut [El], s_eval: &[El], modop: &ModOp, nttop: &NttOp, Ghost(s): Ghost<Seq<int>>)
    requires
        modop.wf(),
        nttop.wf(),
        modop.q() == nttop.q(),
        old(a).len() == nttop.n(),
        s.len() == nttop.n(),
        ring::canonical(backend::vals(old(a)@), modop.q()),
        ring::canonical(s, modop.q()),
        backend::vals(s_eval@) == nttop.evals(s),
    ensures
        backend::vals(final(a)@) == ring::nega_mul(backend::vals(old(a)@), s, modop.q()),
        final(a).len() == nttop.n(),
        ring::canonical(backend::vals(final(a)@), modop.q()),
{
    let ghost p = backend::vals(a@);
    proof {
        nttop.lemma_positive();
        nttop.lemma_canonical(p);
        nttop.lemma_canonical(s);
        nttop.lemma_product(p, s);
        assert(backend::vals(s_eval@).len() == s_eval.len());
    }
    nttop.forward(a);
    assert(backend::vals(a@).len() == a.len());
    modop.elwise_mul_mut(a, s_eval);
    proof {
        let e = ring::pointwise(nttop.evals(p), nttop.evals(s), modop.q());
        assert(backend::vals(a@).len() == a.len());
        assert forall|i: int| 0 <= i < e.len() implies 0 <= #[trigger] e[i] < modop.q() by {
            lemma_mod_bound(nttop.evals(p)[i] * nttop.evals(s)[i], modop.q());
        }
        nttop.lemma_canonical(e);
    }
    nttop.backward(a);
    assert(backend::vals(a@).len() == a.len());
}

/// A share of the collective public key: `s_i * a + e`, where `a` is drawn from the common
/// source `p_rng` and `e` from the party's own source `rng`.
pub fn public_key_share<
    El: Element,
    ModOp: VectorOps<Element = El> + GetModulus<Element = El>,
    NttOp: Ntt<Element = El>,
    Rng: RandomFillGaussianInModulus<ModOp::M>,
    PRng: RandomFillUniformInModulus<ModOp::M>,
>(
    share_out: &mut [El],
    s_i: &[i32],
    modop: &ModOp,
    nttop: &NttOp,
    p_rng: &mut PRng,
    rng: &mut Rng,
)
    requires
        modop.wf(),
        nttop.wf(),
        modop.q() == nttop.q(),
        old(share_out).len() == nttop.n(),
        s_i.len() == old(share_out).len(),
        backend::within(s_i@, modop.q()),
    ensures
        backend::vals(final(share_out)@) == ring::poly_add(
            old(rng).gaussian(modop.q(), nttop.n()),
            ring::nega_mul(
                backend::residues(s_i@, modop.q()),
                old(p_rng).uniform(modop.q(), nttop.n()),
                modop.q(),
            ),
            modop.q(),
        ),
        final(share_out).len() == nttop.n(),
        *final(p_rng) == old(p_rng).after_uniform(modop.q(), nttop.n()),
        *final(rng) == old(rng).after_gaussian(modop.q(), nttop.n()),
{
    let ring_size: usize = share_out.len();
    let q = modop.modulus();
    // sample a
    let mut a: Vec<El> = zeros(ring_size);
    RandomFillUniformInModulus::random_fill(p_rng, q, a.as_mut_slice());
    let ghost av = backend::vals(a@);
    // s * a
    nttop.forward(a.as_mut_slice());
    let mut s: Vec<El> = try_convert_from(s_i, q);
    mul_by_evaluated(s.as_mut_slice(), a.as_slice(), modop, nttop, Ghost(av));
    RandomFillGaussianInModulus::random_fill(rng, q, share_out);
    modop.elwise_add_mut(share_out, s.as_slice());
    assert(backend::vals(share_out@).len() == share_out.len());
}

/// The first `j` entries of `v`, added up.
pub open spec fn total(v: Seq<int>, j: int) -> int
    decreases j,
{
    if j <= 0 {
        0
    } else {
        total(v, j - 1) + v[j - 1]
    }
}

/// A decryption share for `ct` under the secret `s` with the error `e`: `e - <a, s>`.
pub open spec fn decryption_share(ct: Seq<int>, s: Seq<int>, e: int, q: int) -> int {
    (e - lwe::dot(lwe::lwe_mask(ct), s, s.len() as int)) % q
}

/// Generate decryption share for LWE ciphertext `lwe_ct` with user's secret `s`
pub fn multi_party_decryption_share<
    El: Element,
    ModOp: ArithmeticOps<Element = El> + VectorOps<Element = El> + GetModulus<Element = El>,
    Rng: RandomGaussianElementInModulus<ModOp::M>,
>(lwe_ct: &[El], s: &[i32], mod_op: &ModOp, rng: &mut Rng) -> (share: El)
    requires
        mod_op.wf(),
        lwe_ct.len() == s.len() + 1,
        ring::canonical(backend::vals(lwe_ct@), mod_op.q()),
        backend::within(s@, mod_op.q()),
    ensures
        share.val() == decryption_share(
            backend::vals(lwe_ct@),
            lwe::signed(s@),
            old(rng).gaussian_element(mod_op.q()),
            mod_op.q(),
        ),
        *final(rng) == old(rng).after_gaussian_element(mod_op.q()),
{
    let n: usize = s.len();
    let ghost q = mod_op.q();
    let ghost a = lwe::lwe_mask(backend::vals(lwe_ct@));
    let ghost sv = lwe::signed(s@);
    proof {
        mod_op.lemma_q_positive();
    }
    let mut neg_s: Vec<El> = try_convert_from(s, mod_op.modulus());
    mod_op.elwise_neg_mut(neg_s.as_mut_slice());
    assert(backend::vals(neg_s@).len() == neg_s.len());
    // share = (sum of -s_i * a_i) + e
    let mut share: El = El::zero();
    proof {
        lemma_small_mod(0, q as nat);
    }
    for i in 0..n
        invariant
            mod_op.wf(),
            q == mod_op.q(),
            q > 0,
            n == s.len(),
            lwe_ct.len() == n + 1,
            neg_s.len() == n,
            ring::canonical(backend::vals(lwe_ct@), q),
            backend::vals(neg_s@) == ring::poly_neg(backend::residues(s@, q), q),
            a == lwe::lwe_mask(backend::vals(lwe_ct@)),
            sv == lwe::signed(s@),
            share.val() == (-lwe::dot(a, sv, i as int)) % q,
    {
        proof {
            let x = sv[i as int];
            let y = a[i as int];
            let d = -lwe::dot(a, sv, i as int);
            assert(y == lwe_ct[i + 1].val() == backend::vals(lwe_ct@)[i + 1]);
            assert(backend::vals(neg_s@)[i as int] == neg_s[i as int].val());
            assert(backend::residues(s@, q)[i as int] == x % q);
            assert(ring::poly_neg(backend::residues(s@, q), q)[i as int] == (-(x % q)) % q);
            lemma_mod_bound(-(x % q), q);
            lemma_mod_bound(d, q);
            lemma_sub_mod_noop(0, x, q);
            lemma_sub_mod_noop(0, x % q, q);
            lemma_mod_twice(x, q);
            assert((-(x % q)) % q == (-x) % q);
            lemma_mul_mod_noop_left(-x, y, q);
            lemma_mod_bound(neg_s[i as int].val() * y, q);
            lemma_add_mod_noop(d, (-x) * y, q);
            assert(d + (-x) * y == -(lwe::dot(a, sv, i as int) + y * x)) by (nonlinear_arith)
                requires
                    d == -lwe::dot(a, sv, i as int),
            ;
        }
        let t: El = mod_op.mul(&neg_s[i], &lwe_ct[i + 1]);
        share = mod_op.add(&share, &t);
    }
    let e: El = rng.random(mod_op.modulus());
    proof {
        let d = -lwe::dot(a, sv, n as int);
        lemma_mod_bound(d, q);
        lemma_add_mod_noop_right(e.val(), d, q);
    }
    mod_op.add(&share, &e)
}

/// Aggregate decryption shares for `lwe_ct` and return noisy decryption output
/// `m + e`
pub fn multi_party_aggregate_decryption_shares_and_decrypt<
    El: Element,
    ModOp: ArithmeticOps<Element = El>,
>(lwe_ct: &[El], shares: &[El], mod_op: &ModOp) -> (m: El)
    requires
        mod_op.wf(),
        lwe_ct.len() > 0,
        0 <= lwe_ct[0].val() < mod_op.q(),
        ring::canonical(backend::vals(shares@), mod_op.q()),
    ensures
        m.val() == (lwe_ct[0].val() + total(backend::vals(shares@), shares.len() as int))
            % mod_op.q(),
{
    let n: usize = shares.len();
    let ghost q = mod_op.q();
    proof {
        mod_op.lemma_q_positive();
        lemma_small_mod(0, q as nat);
    }
    let mut sum_shares: El = El::zero();
    for i in 0..n
        invariant
            mod_op.wf(),
            q == mod_op.q(),
            q > 0,
            n == shares.len(),
            ring::canonical(backend::vals(shares@), q),
            sum_shares.val() == total(backend::vals(shares@), i as int) % q,
    {
        proof {
            let t = total(backend::vals(shares@), i as int);
            assert(backend::vals(shares@)[i as int] == shares[i as int].val());
            lemma_mod_bound(t, q);
            lemma_add_mod_noop_right(shares[i as int].val(), t, q);
        }
        sum_shares = mod_op.add(&sum_shares, &shares[i]);
    }
    proof {
        let t = total(backend::vals(shares@), n as int);
        lemma_mod_bound(t, q);
        lemma_add_mod_noop_right(lwe_ct[0].val(), t, q);
    }
    mod_op.add(&lwe_ct[0], &sum_shares)
}

/// An encryption of zero under `s` without its mask: `a * s + e`.
pub open spec fn zero_encryption(a: Seq<int>, s: Seq<int>, e: Seq<int>, q: int) -> Seq<int> {
    ring::poly_add(ring::nega_mul(a, s, q), e, q)
}

/// An encryption of `beta * m` under `s` without its mask: `a * s + e + beta * m`.
pub open spec fn message_encryption(
    a: Seq<int>,
    s: Seq<int>,
    e: Seq<int>,
    beta: int,
    m: Seq<int>,
    q: int,
) -> Seq<int> {
    ring::poly_add(zero_encryption(a, s, e, q), ring::poly_scale(beta, m, q), q)
}

/// For each factor `beta` of the gadget, with a common mask `a` drawn from `p_rng`: an encryption
/// `a * u + e + beta * m` and an encryption of zero `a * s + e'`. For each mask two errors are
/// drawn from `rng`, `e` first.
pub fn non_interactive_rgsw_ct<
    El: Element,
    PRng: RandomFillUniformInModulus<ModOp::M>,
    Rng: RandomFillGaussianInModulus<ModOp::M>,
    NttOp: Ntt<Element = El>,
    ModOp: VectorOps<Element = El> + GetModulus<Element = El>,
>(
    s: &[i32],
    u: &[i32],
    m: &[El],
    gadget_vec: &[El],
    p_rng: &mut PRng,
    rng: &mut Rng,
    nttop: &NttOp,
    modop: &ModOp,
) -> (r: (Vec<Vec<El>>, Vec<Vec<El>>))
    requires
        modop.wf(),
        nttop.wf(),
        modop.q() == nttop.q(),
        s.len() == nttop.n(),
        u.len() == s.len(),
        m.len() == s.len(),
        backend::within(s@, modop.q()),
        backend::within(u@, modop.q()),
        ring::canonical(backend::vals(m@), modop.q()),
        ring::canonical(backend::vals(gadget_vec@), modop.q()),
    ensures
        r.0.len() == gadget_vec.len(),
        r.1.len() == gadget_vec.len(),
        forall|i: int|
            0 <= i < gadget_vec.len() ==> #[trigger] backend::mat(r.0@)[i] == message_encryption(
                random::uniform_fill::<ModOp::M, PRng>(*old(p_rng), modop.q(), nttop.n(), i as nat),
                backend::residues(u@, modop.q()),
                random::gaussian_fill::<ModOp::M, Rng>(
                    *old(rng),
                    modop.q(),
                    nttop.n(),
                    (2 * i) as nat,
                ),
                gadget_vec[i].val(),
                backend::vals(m@),
                modop.q(),
            ),
        forall|i: int|
            0 <= i < gadget_vec.len() ==> #[trigger] backend::mat(r.1@)[i] == zero_encryption(
                random::uniform_fill::<ModOp::M, PRng>(*old(p_rng), modop.q(), nttop.n(), i as nat),
                backend::residues(s@, modop.q()),
                random::gaussian_fill::<ModOp::M, Rng>(
                    *old(rng),
                    modop.q(),
                    nttop.n(),
                    (2 * i + 1) as nat,
                ),
                modop.q(),
            ),
        *final(p_rng) == random::after_uniforms::<ModOp::M, PRng>(
            *old(p_rng),
            modop.q(),
            nttop.n(),
            gadget_vec.len() as nat,
        ),
        *final(rng) == random::after_gaussians::<ModOp::M, Rng>(
            *old(rng),
            modop.q(),
            nttop.n(),
            (2 * gadget_vec.len()) as nat,
        ),
{
    let modulus = modop.modulus();
    let d: usize = gadget_vec.len();
    let ring_size: usize = s.len();
    let ghost q = modop.q();
    let ghost n = nttop.n();
    let ghost (p0, r0) = (*p_rng, *rng);
    let ghost (sv, uv) = (backend::residues(s@, q), backend::residues(u@, q));
    let ghost mv = backend::vals(m@);
    proof {
        modop.lemma_q_positive();
    }
    let mut s_poly_eval: Vec<El> = try_convert_from(s, modulus);
    let mut u_poly_eval: Vec<El> = try_convert_from(u, modulus);
    nttop.forward(s_poly_eval.as_mut_slice());
    nttop.forward(u_poly_eval.as_mut_slice());
    // encryptions of a_i*u + e + \beta m
    let mut enc_beta_m: Vec<Vec<El>> = Vec::new();
    // zero encryptions: a_i*s + e'
    let mut zero_encryptions: Vec<Vec<El>> = Vec::new();
    let mut scratch_space: Vec<El> = zeros(ring_size);
    for i in 0..d
        invariant
            modop.wf(),
            nttop.wf(),
            modulus.wf(),
            modulus.q() == q,
            q == modop.q(),
            q > 0,
            nttop.q() == q,
            n == nttop.n(),
            ring_size == n,
            d == gadget_vec.len(),
            m.len() == n,
            mv == backend::vals(m@),
            ring::canonical(mv, q),
            ring::canonical(backend::vals(gadget_vec@), q),
            ring::canonical(sv, q),
            ring::canonical(uv, q),
            sv.len() == n,
            uv.len() == n,
            backend::vals(s_poly_eval@) == nttop.evals(sv),
            backend::vals(u_poly_eval@) == nttop.evals(uv),
            scratch_space.len() == n,
            *p_rng == random::after_uniforms::<ModOp::M, PRng>(p0, q, n, i as nat),
            *rng == random::after_gaussians::<ModOp::M, Rng>(r0, q, n, (2 * i) as nat),
            enc_beta_m.len() == i,
            zero_encryptions.len() == i,
            forall|j: int|
                0 <= j < i ==> backend::vals((#[trigger] enc_beta_m[j])@) == message_encryption(
                    random::uniform_fill::<ModOp::M, PRng>(p0, q, n, j as nat),
                    uv,
                    random::gaussian_fill::<ModOp::M, Rng>(r0, q, n, (2 * j) as nat),
                    gadget_vec[j].val(),
                    mv,
                    q,
                ),
            forall|j: int|
                0 <= j < i ==> backend::vals((#[trigger] zero_encryptions[j])@) == zero_encryption(
                    random::uniform_fill::<ModOp::M, PRng>(p0, q, n, j as nat),
                    sv,
                    random::gaussian_fill::<ModOp::M, Rng>(r0, q, n, (2 * j + 1) as nat),
                    q,
                ),
    {
        // sample a_i
        let mut e_beta_m: Vec<El> = zeros(ring_size);
        RandomFillUniformInModulus::random_fill(p_rng, modulus, e_beta_m.as_mut_slice());
        let mut e_zero: Vec<El> = copied(e_beta_m.as_slice());
        let ghost a = backend::vals(e_beta_m@);
        // a_i * u
        mul_by_evaluated(
            e_beta_m.as_mut_slice(),
            u_poly_eval.as_slice(),
            modop,
            nttop,
            Ghost(uv),
        );
        // sample error e
        RandomFillGaussianInModulus::random_fill(rng, modulus, scratch_space.as_mut_slice());
        let ghost e = backend::vals(scratch_space@);
        // a_i * u + e
        modop.elwise_add_mut(e_beta_m.as_mut_slice(), scratch_space.as_slice());
        proof {
            ring::lemma_reduced_canonical(poly::plus(ring::nega_mul(a, uv, q), e), q);
            assert(backend::vals(e_beta_m@).len() == e_beta_m.len());
            assert(backend::vals(gadget_vec@)[i as int] == gadget_vec[i as int].val());
        }
        // beta * m
        modop.elwise_scalar_mul(scratch_space.as_mut_slice(), m, &gadget_vec[i]);
        proof {
            ring::lemma_reduced_canonical(poly::scaled(gadget_vec[i as int].val(), mv), q);
            assert(backend::vals(scratch_space@).len() == scratch_space.len());
        }
        // a_i * u + e + \beta m
        modop.elwise_add_mut(e_beta_m.as_mut_slice(), scratch_space.as_slice());
        // a_i * s
        mul_by_evaluated(
            e_zero.as_mut_slice(),
            s_poly_eval.as_slice(),
            modop,
            nttop,
            Ghost(sv),
        );
        // sample error e
        RandomFillGaussianInModulus::random_fill(rng, modulus, scratch_space.as_mut_slice());
        // a_i * s + e
        modop.elwise_add_mut(e_zero.as_mut_slice(), scratch_space.as_slice());
        enc_beta_m.push(e_beta_m);
        zero_encryptions.push(e_zero);
        assert(*rng == random::after_gaussians::<ModOp::M, Rng>(
            r0,
            q,
            n,
            (2 * (i + 1)) as nat,
        )) by {
            reveal_with_fuel(random::after_gaussians, 3);
        }
    }
    (enc_beta_m, zero_encryptions)
}

/// A key switching key from `u` to `s` without its masks: for each factor `beta` of the gadget
/// `a * s + e + beta * u`, with the mask `a` drawn from `p_rng` and the error `e` from `rng`.
pub fn non_interactive_ksk_gen<
    El: Element,
    PRng: RandomFillUniformInModulus<ModOp::M>,
    Rng: RandomFillGaussianInModulus<ModOp::M>,
    NttOp: Ntt<Element = El>,
    ModOp: VectorOps<Element = El> + GetModulus<Element = El>,
>(
    s: &[i32],
    u: &[i32],
    gadget_vec: &[El],
    p_rng: &mut PRng,
    rng: &mut Rng,
    nttop: &NttOp,
    modop: &ModOp,
) -> (r: Vec<Vec<El>>)
    requires
        modop.wf(),
        nttop.wf(),
        modop.q() == nttop.q(),
        s.len() == nttop.n(),
        backend::within(s@, modop.q()),
        u.len() == s.len(),
        backend::within(u@, modop.q()),
        ring::canonical(backend::vals(gadget_vec@), modop.q()),
    ensures
        r.len() == gadget_vec.len(),
        forall|i: int|
            0 <= i < gadget_vec.len() ==> #[trigger] backend::mat(r@)[i] == message_encryption(
                random::uniform_fill::<ModOp::M, PRng>(*old(p_rng), modop.q(), nttop.n(), i as nat),
                backend::residues(s@, modop.q()),
                random::gaussian_fill::<ModOp::M, Rng>(*old(rng), modop.q(), nttop.n(), i as nat),
                gadget_vec[i].val(),
                backend::residues(u@, modop.q()),
                modop.q(),
            ),
        *final(p_rng) == random::after_uniforms::<ModOp::M, PRng>(
            *old(p_rng),
            modop.q(),
            nttop.n(),
            gadget_vec.len() as nat,
        ),
        *final(rng) == random::after_gaussians::<ModOp::M, Rng>(
            *old(rng),
            modop.q(),
            nttop.n(),
            gadget_vec.len() as nat,
        ),
{
    let modulus = modop.modulus();
    let d: usize = gadget_vec.len();
    let ring_size: usize = s.len();
    let ghost q = modop.q();
    let ghost n = nttop.n();
    let ghost (p0, r0) = (*p_rng, *rng);
    let ghost sv = backend::residues(s@, q);
    proof {
        modop.lemma_q_positive();
    }
    let mut s_poly_eval: Vec<El> = try_convert_from(s, modulus);
    nttop.forward(s_poly_eval.as_mut_slice());
    let ghost uv = backend::residues(u@, q);
    let u_poly: Vec<El> = try_convert_from(u, modulus);
    // a_i * s + \beta u + e
    let mut rows: Vec<Vec<El>> = Vec::new();
    let mut scratch_space: Vec<El> = zeros(ring_size);
    for i in 0..d
        invariant
            modop.wf(),
            nttop.wf(),
            modulus.wf(),
            modulus.q() == q,
            q == modop.q(),
            q > 0,
            nttop.q() == q,
            n == nttop.n(),
            ring_size == n,
            d == gadget_vec.len(),
            ring::canonical(sv, q),
            sv.len() == n,
            backend::vals(s_poly_eval@) == nttop.evals(sv),
            scratch_space.len() == n,
            u_poly.len() == n,
            backend::vals(u_poly@) == uv,
            ring::canonical(uv, q),
            ring::canonical(backend::vals(gadget_vec@), q),
            *p_rng == random::after_uniforms::<ModOp::M, PRng>(p0, q, n, i as nat),
            *rng == random::after_gaussians::<ModOp::M, Rng>(r0, q, n, i as nat),
            rows.len() == i,
            forall|j: int|
                0 <= j < i ==> backend::vals((#[trigger] rows[j])@) == message_encryption(
                    random::uniform_fill::<ModOp::M, PRng>(p0, q, n, j as nat),
                    sv,
                    random::gaussian_fill::<ModOp::M, Rng>(r0, q, n, j as nat),
                    gadget_vec[j].val(),
                    uv,
                    q,
                ),
    {
        // sample a_i
        let mut row: Vec<El> = zeros(ring_size);
        RandomFillUniformInModulus::random_fill(p_rng, modulus, row.as_mut_slice());
        let ghost a = backend::vals(row@);
        // a_i * s
        mul_by_evaluated(
            row.as_mut_slice(),
            s_poly_eval.as_slice(),
            modop,
            nttop,
            Ghost(sv),
        );
        // sample error e
        RandomFillGaussianInModulus::random_fill(rng, modulus, scratch_space.as_mut_slice());
        // a_i * s + e
        modop.elwise_add_mut(row.as_mut_slice(), scratch_space.as_slice());
        proof {
            ring::lemma_reduced_canonical(
                poly::plus(ring::nega_mul(a, sv, q), backend::vals(scratch_space@)),
                q,
            );
            assert(backend::vals(row@).len() == row.len());
            assert(backend::vals(gadget_vec@)[i as int] == gadget_vec[i as int].val());
        }
        // \beta * u
        modop.elwise_scalar_mul(scratch_space.as_mut_slice(), u_poly.as_slice(), &gadget_vec[i]);
        proof {
            ring::lemma_reduced_canonical(poly::scaled(gadget_vec[i as int].val(), uv), q);
            assert(backend::vals(scratch_space@).len() == scratch_space.len());
        }
        // a_i * s + e + \beta * u
        modop.elwise_add_mut(row.as_mut_slice(), scratch_space.as_slice());
        rows.push(row);
    }
    rows
}

/// Encryptions of zero under `s` without their masks, one for each factor of the gadget: `a * s +
/// e`, with the mask `a` drawn from `p_rng` and the error `e` from `rng`.
pub fn non_interactive_ksk_zero_encryptions_for_other_party_i<
    El: Element,
    PRng: RandomFillUniformInModulus<ModOp::M>,
    Rng: RandomFillGaussianInModulus<ModOp::M>,
    NttOp: Ntt<Element = El>,
    ModOp: VectorOps<Element = El> + GetModulus<Element = El>,
>(
    s: &[i32],
    gadget_vec: &[El],
    p_rng: &mut PRng,
    rng: &mut Rng,
    nttop: &NttOp,
    modop: &ModOp,
) -> (r: Vec<Vec<El>>)
    requires
        modop.wf(),
        nttop.wf(),
        modop.q() == nttop.q(),
        s.len() == nttop.n(),
        backend::within(s@, modop.q()),
    ensures
        r.len() == gadget_vec.len(),
        forall|i: int|
            0 <= i < gadget_vec.len() ==> #[trigger] backend::mat(r@)[i] == zero_encryption(
                random::uniform_fill::<ModOp::M, PRng>(*old(p_rng), modop.q(), nttop.n(), i as nat),
                backend::residues(s@, modop.q()),
                random::gaussian_fill::<ModOp::M, Rng>(*old(rng), modop.q(), nttop.n(), i as nat),
                modop.q(),
            ),
        *final(p_rng) == random::after_uniforms::<ModOp::M, PRng>(
            *old(p_rng),
            modop.q(),
            nttop.n(),
            gadget_vec.len() as nat,
        ),
        *final(rng) == random::after_gaussians::<ModOp::M, Rng>(
            *old(rng),
            modop.q(),
            nttop.n(),
            gadget_vec.len() as nat,
        ),
{
    let modulus = modop.modulus();
    let d: usize = gadget_vec.len();
    let ring_size: usize = s.len();
    let ghost q = modop.q();
    let ghost n = nttop.n();
    let ghost (p0, r0) = (*p_rng, *rng);
    let ghost sv = backend::residues(s@, q);
    proof {
        modop.lemma_q_positive();
    }
    let mut s_poly_eval: Vec<El> = try_convert_from(s, modulus);
    nttop.forward(s_poly_eval.as_mut_slice());
    // a_i * s + e
    let mut rows: Vec<Vec<El>> = Vec::new();
    let mut scratch_space: Vec<El> = zeros(ring_size);
    for i in 0..d
        invariant
            modop.wf(),
            nttop.wf(),
            modulus.wf(),
            modulus.q() == q,
            q == modop.q(),
            q > 0,
            nttop.q() == q,
            n == nttop.n(),
            ring_size == n,
            d == gadget_vec.len(),
            ring::canonical(sv, q),
            sv.len() == n,
            backend::vals(s_poly_eval@) == nttop.evals(sv),
            scratch_space.len() == n,
            *p_rng == random::after_uniforms::<ModOp::M, PRng>(p0, q, n, i as nat),
            *rng == random::after_gaussians::<ModOp::M, Rng>(r0, q, n, i as nat),
            rows.len() == i,
            forall|j: int|
                0 <= j < i ==> backend::vals((#[trigger] rows[j])@) == zero_encryption(
                    random::uniform_fill::<ModOp::M, PRng>(p0, q, n, j as nat),
                    sv,
                    random::gaussian_fill::<ModOp::M, Rng>(r0, q, n, j as nat),
                    q,
                ),
    {
        // sample a_i
        let mut row: Vec<El> = zeros(ring_size);
        RandomFillUniformInModulus::random_fill(p_rng, modulus, row.as_mut_slice());
        let ghost a = backend::vals(row@);
        // a_i * s
        mul_by_evaluated(
            row.as_mut_slice(),
            s_poly_eval.as_slice(),
            modop,
            nttop,
            Ghost(sv),
        );
        // sample error e
        RandomFillGaussianInModulus::random_fill(rng, modulus, scratch_space.as_mut_slice());
        // a_i * s + e
        modop.elwise_add_mut(row.as_mut_slice(), scratch_space.as_slice());
        rows.push(row);
    }
    rows
}

/// The secret that the parties share: the sum of their secrets.
pub open spec fn collective_secret(secrets: Seq<Seq<int>>, n: nat, k: int) -> Seq<int>
    decreases k,
{
    if k <= 0 {
        poly::zeros(n)
    } else {
        poly::plus(collective_secret(secrets, n, k - 1), secrets[k - 1])
    }
}

/// The decryption shares of the parties for `ct`.
pub open spec fn decryption_shares(
    ct: Seq<int>,
    secrets: Seq<Seq<int>>,
    errors: Seq<int>,
    q: int,
) -> Seq<int> {
    Seq::new(secrets.len(), |p: int| decryption_share(ct, secrets[p], errors[p], q))
}

/// The sum of the decryption shares of all parties and the body of the ciphertext is what the
/// ciphertext decrypts to under the collective secret, plus the sum of the parties' errors.
pub proof fn lemma_aggregate_decryption(
    ct: Seq<int>,
    secrets: Seq<Seq<int>>,
    errors: Seq<int>,
    n: nat,
    q: int,
)
    requires
        q > 0,
        ct.len() == n + 1,
        errors.len() == secrets.len(),
        forall|p: int| 0 <= p < secrets.len() ==> (#[trigger] secrets[p]).len() == n,
    ensures
        (ct[0] + total(
            decryption_shares(ct, secrets, errors, q),
            secrets.len() as int,
        )) % q == (lwe::lwe_phase(
            ct,
            collective_secret(secrets, n, secrets.len() as int),
            q,
        ) + total(errors, secrets.len() as int)) % q,
{
    let k = secrets.len() as int;
    let s = collective_secret(secrets, n, k);
    let (x, y) = (total(decryption_shares(ct, secrets, errors, q), k), total(errors, k));
    lemma_aggregate_shares(ct, secrets, errors, n, k, q);
    lemma_collective_len(secrets, n, k);
    let d = lwe::dot(lwe::lwe_mask(ct), s, n as int);
    lemma_add_mod_noop(ct[0], x, q);
    lemma_add_mod_noop(ct[0], y - d, q);
    lemma_add_mod_noop(ct[0] - d, y, q);
    lemma_add_mod_noop((ct[0] - d) % q, y, q);
    lemma_mod_twice(ct[0] - d, q);
    assert(ct[0] + (y - d) == (ct[0] - d) + y);
}

proof fn lemma_collective_len(secrets: Seq<Seq<int>>, n: nat, k: int)
    ensures
        collective_secret(secrets, n, k).len() == n,
    decreases k,
{
    if k > 0 {
        lemma_collective_len(secrets, n, k - 1);
    }
}

proof fn lemma_aggregate_shares(
    ct: Seq<int>,
    secrets: Seq<Seq<int>>,
    errors: Seq<int>,
    n: nat,
    k: int,
    q: int,
)
    requires
        q > 0,
        0 <= k <= secrets.len(),
        errors.len() == secrets.len(),
        forall|p: int| 0 <= p < secrets.len() ==> (#[trigger] secrets[p]).len() == n,
    ensures
        total(decryption_shares(ct, secrets, errors, q), k) % q == (total(errors, k) - lwe::dot(
            lwe::lwe_mask(ct),
            collective_secret(secrets, n, k),
            n as int,
        )) % q,
    decreases k,
{
    let a = lwe::lwe_mask(ct);
    if k == 0 {
        lwe::lemma_dot_zeros(a, n, n as int);
    } else {
        lemma_aggregate_shares(ct, secrets, errors, n, k - 1, q);
        lemma_collective_len(secrets, n, k - 1);
        let s = collective_secret(secrets, n, k - 1);
        lwe::lemma_dot_plus(a, s, secrets[k - 1], n as int);
        let x = total(decryption_shares(ct, secrets, errors, q), k - 1);
        let y = total(errors, k - 1) - lwe::dot(a, s, n as int);
        let z = errors[k - 1] - lwe::dot(a, secrets[k - 1], n as int);
        lemma_add_mod_noop(x, z % q, q);
        lemma_add_mod_noop(y, z, q);
        lemma_mod_twice(z, q);
    }
}

/// An encryption under `s` decrypts to the message and the error.
pub proof fn lemma_encryption_decrypts(
    a: Seq<int>,
    s: Seq<int>,
    e: Seq<int>,
    beta: int,
    m: Seq<int>,
    q: int,
)
    requires
        q > 0,
        a.len() == s.len(),
        e.len() == s.len(),
        m.len() == s.len(),
        ring::canonical(e, q),
    ensures
        rgsw::rlwe_phase(seq![a, zero_encryption(a, s, e, q)], s, q) == e,
        rgsw::rlwe_phase(seq![a, message_encryption(a, s, e, beta, m, q)], s, q)
            == ring::poly_add(e, ring::poly_scale(beta, m, q), q),
{
    let sa = ring::nega_mul(s, a, q);
    ring::lemma_nega_mul_commutative(a, s, q);
    let z = zero_encryption(a, s, e, q);
    let bm = ring::poly_scale(beta, m, q);
    let (x, y) = (ring::poly_sub(z, sa, q), ring::poly_sub(ring::poly_add(z, bm, q), sa, q));
    assert forall|i: int| 0 <= i < s.len() implies #[trigger] x[i] == e[i] by {
        lemma_sub_mod_noop((sa[i] + e[i]) % q, sa[i], q);
        lemma_sub_mod_noop(sa[i] + e[i], sa[i], q);
        lemma_mod_twice(sa[i] + e[i], q);
        lemma_small_mod(e[i] as nat, q as nat);
    }
    assert(x =~= e);
    let r = ring::poly_add(e, bm, q);
    assert forall|i: int| 0 <= i < s.len() implies #[trigger] y[i] == r[i] by {
        lemma_add_mod_noop_right(bm[i], sa[i] + e[i], q);
        lemma_sub_mod_noop((sa[i] + e[i] + bm[i]) % q, sa[i], q);
        lemma_sub_mod_noop(sa[i] + e[i] + bm[i], sa[i], q);
        lemma_mod_twice(sa[i] + e[i] + bm[i], q);
    }
    assert(y =~= r);
}

/// The encryption of one party and the encryption of zero of another one, with the same mask, add
/// up to an encryption under the sum of their secrets.
pub proof fn lemma_joint_encryption(
    a: Seq<int>,
    s: Seq<int>,
    t: Seq<int>,
    e: Seq<int>,
    f: Seq<int>,
    beta: int,
    m: Seq<int>,
    q: int,
)
    requires
        q > 0,
        a.len() == s.len(),
        t.len() == s.len(),
        e.len() == s.len(),
        f.len() == s.len(),
        m.len() == s.len(),
    ensures
        ring::poly_add(message_encryption(a, s, e, beta, m, q), zero_encryption(a, t, f, q), q)
            == message_encryption(
            a,
            ring::poly_add(s, t, q),
            ring::poly_add(e, f, q),
            beta,
            m,
            q,
        ),
{
    let (x, y) = (ring::nega_mul(a, s, q), ring::nega_mul(a, t, q));
    let bm = ring::poly_scale(beta, m, q);
    let (zs, zt) = (zero_encryption(a, s, e, q), zero_encryption(a, t, f, q));
    ring::lemma_nega_mul_distributive(a, s, t, q);
    // (zs + bm) + zt = (zs + zt) + bm
    ring::lemma_poly_add_associative(zs, bm, zt, q);
    ring::lemma_poly_add_commutative(bm, zt, q);
    ring::lemma_poly_add_associative(zs, zt, bm, q);
    ring::lemma_poly_add_exchange(x, e, y, f, q);
}

/// The sum of the first `k` polynomials.
pub open spec fn poly_total(rows: Seq<Seq<int>>, n: nat, k: int, q: int) -> Seq<int>
    decreases k,
{
    if k <= 0 {
        poly::zeros(n)
    } else {
        ring::poly_add(poly_total(rows, n, k - 1, q), rows[k - 1], q)
    }
}

/// The rows of all parties for one factor of the gadget, with the common mask `a`: that of the
/// party `who` encrypts `beta * m`, those of the others encrypt zero.
pub open spec fn encryption_rows(
    a: Seq<int>,
    secrets: Seq<Seq<int>>,
    errors: Seq<Seq<int>>,
    who: int,
    beta: int,
    m: Seq<int>,
    q: int,
) -> Seq<Seq<int>> {
    Seq::new(
        secrets.len(),
        |p: int|
            if p == who {
                message_encryption(a, secrets[p], errors[p], beta, m, q)
            } else {
                zero_encryption(a, secrets[p], errors[p], q)
            },
    )
}

/// The rows of any number of parties add up to an encryption under the sum of their secrets, with
/// the sum of their errors: of `beta * m` once the row of the party `who` is among them, of zero
/// before.
pub proof fn lemma_joint_encryptions(
    a: Seq<int>,
    secrets: Seq<Seq<int>>,
    errors: Seq<Seq<int>>,
    who: int,
    beta: int,
    m: Seq<int>,
    k: int,
    q: int,
)
    requires
        q > 0,
        0 <= k <= secrets.len(),
        0 <= who < secrets.len(),
        errors.len() == secrets.len(),
        m.len() == a.len(),
        forall|p: int| 0 <= p < secrets.len() ==> (#[trigger] secrets[p]).len() == a.len(),
        forall|p: int| 0 <= p < errors.len() ==> (#[trigger] errors[p]).len() == a.len(),
    ensures
        ({
            let n = a.len();
            let sum = poly_total(encryption_rows(a, secrets, errors, who, beta, m, q), n, k, q);
            let (s, e) = (poly_total(secrets, n, k, q), poly_total(errors, n, k, q));
            &&& s.len() == n
            &&& e.len() == n
            &&& sum == if who < k {
                message_encryption(a, s, e, beta, m, q)
            } else {
                zero_encryption(a, s, e, q)
            }
        }),
    decreases k,
{
    let n = a.len();
    if k == 0 {
        let z = poly::zeros(n);
        assert(ring::canonical(z, q));
        ring::lemma_nega_mul_zeros(a, n, q);
        ring::lemma_poly_add_zeros(z, q);
    } else {
        lemma_joint_encryptions(a, secrets, errors, who, beta, m, k - 1, q);
        let (s, e) = (poly_total(secrets, n, k - 1, q), poly_total(errors, n, k - 1, q));
        let (sk, ek) = (secrets[k - 1], errors[k - 1]);
        if who < k - 1 {
            lemma_joint_encryption(a, s, sk, e, ek, beta, m, q);
        } else {
            let (x, y) = (ring::nega_mul(a, s, q), ring::nega_mul(a, sk, q));
            ring::lemma_nega_mul_distributive(a, s, sk, q);
            ring::lemma_poly_add_exchange(x, e, y, ek, q);
            if who == k - 1 {
                ring::lemma_poly_add_associative(
                    zero_encryption(a, s, e, q),
                    zero_encryption(a, sk, ek, q),
                    ring::poly_scale(beta, m, q),
                    q,
                );
            }
        }
    }
}

/// The sum of the rows of all parties decrypts under the sum of their secrets to the message of
/// the party `who` and the sum of their errors.
pub proof fn lemma_joint_encryptions_decrypt(
    a: Seq<int>,
    secrets: Seq<Seq<int>>,
    errors: Seq<Seq<int>>,
    who: int,
    beta: int,
    m: Seq<int>,
    q: int,
)
    requires
        q > 0,
        0 <= who < secrets.len(),
        errors.len() == secrets.len(),
        m.len() == a.len(),
        forall|p: int| 0 <= p < secrets.len() ==> (#[trigger] secrets[p]).len() == a.len(),
        forall|p: int| 0 <= p < errors.len() ==> (#[trigger] errors[p]).len() == a.len(),
    ensures
        ({
            let (n, k) = (a.len(), secrets.len() as int);
            let rows = encryption_rows(a, secrets, errors, who, beta, m, q);
            rgsw::rlwe_phase(
                seq![a, poly_total(rows, n, k, q)],
                poly_total(secrets, n, k, q),
                q,
            ) == ring::poly_add(poly_total(errors, n, k, q), ring::poly_scale(beta, m, q), q)
        }),
{
    let (n, k) = (a.len(), secrets.len() as int);
    let (s, e) = (poly_total(secrets, n, k, q), poly_total(errors, n, k, q));
    lemma_joint_encryptions(a, secrets, errors, who, beta, m, k, q);
    ring::lemma_reduced_canonical(
        poly::plus(poly_total(errors, n, k - 1, q), errors[k - 1]),
        q,
    );
    lemma_encryption_decrypts(a, s, e, beta, m, q);
}

/// The shares of the public key of the parties for the common polynomial `a`.
pub open spec fn public_key_shares(
    secrets: Seq<Seq<int>>,
    errors: Seq<Seq<int>>,
    a: Seq<int>,
    q: int,
) -> Seq<Seq<int>> {
    Seq::new(
        secrets.len(),
        |p: int| ring::poly_add(errors[p], ring::nega_mul(secrets[p], a, q), q),
    )
}

/// The sum of the shares of all parties is a public key of their collective secret: the product
/// of the sum of their secrets and `a`, plus the sum of their errors.
pub proof fn lemma_public_key_shares(
    secrets: Seq<Seq<int>>,
    errors: Seq<Seq<int>>,
    a: Seq<int>,
    k: int,
    q: int,
)
    requires
        q > 0,
        0 <= k <= secrets.len(),
        errors.len() == secrets.len(),
        forall|p: int| 0 <= p < secrets.len() ==> (#[trigger] secrets[p]).len() == a.len(),
        forall|p: int| 0 <= p < errors.len() ==> (#[trigger] errors[p]).len() == a.len(),
    ensures
        poly_total(public_key_shares(secrets, errors, a, q), a.len(), k, q) == ring::poly_add(
            poly_total(errors, a.len(), k, q),
            ring::nega_mul(poly_total(secrets, a.len(), k, q), a, q),
            q,
        ),
        poly_total(errors, a.len(), k, q).len() == a.len(),
        poly_total(secrets, a.len(), k, q).len() == a.len(),
    decreases k,
{
    let n = a.len();
    if k == 0 {
        let z = poly::zeros(n);
        assert(ring::canonical(z, q));
        ring::lemma_nega_mul_commutative(z, a, q);
        ring::lemma_nega_mul_zeros(a, n, q);
        ring::lemma_poly_add_zeros(z, q);
    } else {
        lemma_public_key_shares(secrets, errors, a, k - 1, q);
        let (e, s) = (poly_total(errors, n, k - 1, q), poly_total(secrets, n, k - 1, q));
        let (ek, sk) = (errors[k - 1], secrets[k - 1]);
        let (sa, ska) = (ring::nega_mul(s, a, q), ring::nega_mul(sk, a, q));
        ring::lemma_poly_add_exchange(e, sa, ek, ska, q);
        // (s + sk) * a = s * a + sk * a
        ring::lemma_nega_mul_commutative(ring::poly_add(s, sk, q), a, q);
        ring::lemma_nega_mul_distributive(a, s, sk, q);
        ring::lemma_nega_mul_commutative(a, s, q);
        ring::lemma_nega_mul_commutative(a, sk, q);
    }
}

/// Sums have one term for each party.
pub proof fn lemma_totals(v: Seq<int>, rows: Seq<Seq<int>>, n: nat, k: int, q: int)
    requires
        k >= 0,
    ensures
        total(v, 0) == 0,
        total(v, k + 1) == total(v, k) + v[k],
        poly_total(rows, n, 0, q) == poly::zeros(n),
        poly_total(rows, n, k + 1, q) == ring::poly_add(poly_total(rows, n, k, q), rows[k], q),
        collective_secret(rows, n, k).len() == n,
        forall|i: int| 0 <= i < n ==> #[trigger] collective_secret(rows, n, 0)[i] == 0,
        forall|i: int|
            0 <= i < n ==> #[trigger] collective_secret(rows, n, k + 1)[i] == collective_secret(
                rows,
                n,
                k,
            )[i] + rows[k][i],
{
    lemma_collective_len(rows, n, k);
}

/// A share of the public key decrypts, with the common polynomial as its mask, to the error.
pub proof fn lemma_public_key_share(share: Seq<int>, a: Seq<int>, s: Seq<int>, e: Seq<int>, q: int)
    requires
        q > 0,
        s.len() == a.len(),
        e.len() == a.len(),
        ring::canonical(e, q),
        share == ring::poly_add(e, ring::nega_mul(s, a, q), q),
    ensures
        rgsw::rlwe_phase(seq![a, share], s, q) == e,
{
    let sa = ring::nega_mul(s, a, q);
    let x = rgsw::rlwe_phase(seq![a, share], s, q);
    assert forall|i: int| 0 <= i < e.len() implies #[trigger] x[i] == e[i] by {
        lemma_add_mod_noop_right(-sa[i], e[i] + sa[i], q);
        lemma_small_mod(e[i] as nat, q as nat);
    }
    assert(x =~= e);
}

/// A decryption share is a residue that, added to the body, leaves what the ciphertext decrypts to
/// under the party's secret, and the party's error.
pub proof fn lemma_decryption_share(ct: Seq<int>, s: Seq<int>, e: int, q: int)
    requires
        q > 0,
    ensures
        0 <= decryption_share(ct, s, e, q) < q,
        (ct[0] + decryption_share(ct, s, e, q)) % q == (lwe::lwe_phase(ct, s, q) + e) % q,
{
    let d = lwe::dot(lwe::lwe_mask(ct), s, s.len() as int);
    lemma_mod_bound(e - d, q);
    lemma_add_mod_noop_right(ct[0], e - d, q);
    lemma_add_mod_noop_right(e, ct[0] - d, q);
}

/// The rows of a key switching key: with the polynomial that the common source gives in its state
/// after `i` fills as its mask, the row `i` decrypts under `s` to `beta_i * u` and the error that
/// the party's source gives in its state after `i` fills. `masks` and `errors` are the states that
/// the two sources go through.
pub proof fn lemma_ksk_rows<
    M: Modulus,
    P: RandomFillUniformInModulus<M>,
    R: RandomFillGaussianInModulus<M>,
>(
    rows: Seq<Seq<int>>,
    masks: Seq<P>,
    errors: Seq<R>,
    s: Seq<int>,
    u: Seq<int>,
    gadget: Seq<int>,
    n: nat,
    q: int,
)
    requires
        q > 0,
        s.len() == n,
        u.len() == n,
        rows.len() == gadget.len(),
        masks.len() == rows.len() + 1,
        errors.len() == rows.len() + 1,
        forall|t: int|
            0 <= t < masks.len() - 1 ==> #[trigger] masks[t + 1] == masks[t].after_uniform(q, n),
        forall|t: int|
            0 <= t < errors.len() - 1 ==> #[trigger] errors[t + 1] == errors[t].after_gaussian(
                q,
                n,
            ),
        forall|i: int|
            0 <= i < rows.len() ==> #[trigger] rows[i] == message_encryption(
                random::uniform_fill::<M, P>(masks[0], q, n, i as nat),
                s,
                random::gaussian_fill::<M, R>(errors[0], q, n, i as nat),
                gadget[i],
                u,
                q,
            ),
    ensures
        forall|i: int|
            #![trigger rows[i]]
            0 <= i < rows.len() ==> rgsw::rlwe_phase(seq![masks[i].uniform(q, n), rows[i]], s, q)
                == ring::poly_add(
                errors[i].gaussian(q, n),
                ring::poly_scale(gadget[i], u, q),
                q,
            ),
        random::after_uniforms::<M, P>(masks[0], q, n, rows.len()) == masks[rows.len() as int],
        random::after_gaussians::<M, R>(errors[0], q, n, rows.len()) == errors[rows.len() as int],
{
    assert forall|i: int|
        #![trigger rows[i]]
        0 <= i < rows.len() implies rgsw::rlwe_phase(seq![masks[i].uniform(q, n), rows[i]], s, q)
        == ring::poly_add(errors[i].gaussian(q, n), ring::poly_scale(gadget[i], u, q), q) by {
        let (a, e) = (masks[i].uniform(q, n), errors[i].gaussian(q, n));
        random::lemma_uniform_states::<M, P>(masks, q, n, i);
        random::lemma_gaussian_states::<M, R>(errors, q, n, i);
        masks[i].lemma_uniform(q, n);
        errors[i].lemma_gaussian(q, n);
        lemma_encryption_decrypts(a, s, e, gadget[i], u, q);
    }
    random::lemma_uniform_states::<M, P>(masks, q, n, rows.len() as int);
    random::lemma_gaussian_states::<M, R>(errors, q, n, rows.len() as int);
}

/// The encryptions of zero for the key of another party: with the polynomial that the common
/// source gives in its state after `i` fills as its mask, the row `i` decrypts under `s` to the
/// error that the party's source gives in its state after `i` fills.
pub proof fn lemma_zero_rows<
    M: Modulus,
    P: RandomFillUniformInModulus<M>,
    R: RandomFillGaussianInModulus<M>,
>(rows: Seq<Seq<int>>, masks: Seq<P>, errors: Seq<R>, s: Seq<int>, n: nat, q: int)
    requires
        q > 0,
        s.len() == n,
        masks.len() == rows.len() + 1,
        errors.len() == rows.len() + 1,
        forall|t: int|
            0 <= t < masks.len() - 1 ==> #[trigger] masks[t + 1] == masks[t].after_uniform(q, n),
        forall|t: int|
            0 <= t < errors.len() - 1 ==> #[trigger] errors[t + 1] == errors[t].after_gaussian(
                q,
                n,
            ),
        forall|i: int|
            0 <= i < rows.len() ==> #[trigger] rows[i] == zero_encryption(
                random::uniform_fill::<M, P>(masks[0], q, n, i as nat),
                s,
                random::gaussian_fill::<M, R>(errors[0], q, n, i as nat),
                q,
            ),
    ensures
        forall|i: int|
            #![trigger rows[i]]
            0 <= i < rows.len() ==> rgsw::rlwe_phase(seq![masks[i].uniform(q, n), rows[i]], s, q)
                == errors[i].gaussian(q, n),
        random::after_uniforms::<M, P>(masks[0], q, n, rows.len()) == masks[rows.len() as int],
        random::after_gaussians::<M, R>(errors[0], q, n, rows.len()) == errors[rows.len() as int],
{
    assert forall|i: int|
        #![trigger rows[i]]
        0 <= i < rows.len() implies rgsw::rlwe_phase(seq![masks[i].uniform(q, n), rows[i]], s, q)
        == errors[i].gaussian(q, n) by {
        let (a, e) = (masks[i].uniform(q, n), errors[i].gaussian(q, n));
        random::lemma_uniform_states::<M, P>(masks, q, n, i);
        random::lemma_gaussian_states::<M, R>(errors, q, n, i);
        masks[i].lemma_uniform(q, n);
        errors[i].lemma_gaussian(q, n);
        lemma_encryption_decrypts(a, s, e, 0, s, q);
    }
    random::lemma_uniform_states::<M, P>(masks, q, n, rows.len() as int);
    random::lemma_gaussian_states::<M, R>(errors, q, n, rows.len() as int);
}

/// The two matrices of a share of an RGSW ciphertext have common masks. With the polynomial that
/// the common source gives in its state after `i` fills, the row `i` of the first one decrypts
/// under `u` to `beta_i * m` and the error of the party's source in its state after `2i` fills,
/// that of the second one under `s` to the error in its state after `2i + 1` fills.
pub proof fn lemma_rgsw_rows<
    M: Modulus,
    P: RandomFillUniformInModulus<M>,
    R: RandomFillGaussianInModulus<M>,
>(
    rows: (Seq<Seq<int>>, Seq<Seq<int>>),
    masks: Seq<P>,
    errors: Seq<R>,
    s: Seq<int>,
    u: Seq<int>,
    m: Seq<int>,
    gadget: Seq<int>,
    n: nat,
    q: int,
)
    requires
        q > 0,
        s.len() == n,
        u.len() == n,
        m.len() == n,
        rows.0.len() == gadget.len(),
        rows.1.len() == gadget.len(),
        masks.len() == gadget.len() + 1,
        errors.len() == 2 * gadget.len() + 1,
        forall|t: int|
            0 <= t < masks.len() - 1 ==> #[trigger] masks[t + 1] == masks[t].after_uniform(q, n),
        forall|t: int|
            0 <= t < errors.len() - 1 ==> #[trigger] errors[t + 1] == errors[t].after_gaussian(
                q,
                n,
            ),
        forall|i: int|
            0 <= i < gadget.len() ==> #[trigger] rows.0[i] == message_encryption(
                random::uniform_fill::<M, P>(masks[0], q, n, i as nat),
                u,
                random::gaussian_fill::<M, R>(errors[0], q, n, (2 * i) as nat),
                gadget[i],
                m,
                q,
            ),
        forall|i: int|
            0 <= i < gadget.len() ==> #[trigger] rows.1[i] == zero_encryption(
                random::uniform_fill::<M, P>(masks[0], q, n, i as nat),
                s,
                random::gaussian_fill::<M, R>(errors[0], q, n, (2 * i + 1) as nat),
                q,
            ),
    ensures
        forall|i: int|
            #![trigger rows.0[i]]
            0 <= i < gadget.len() ==> rgsw::rlwe_phase(
                seq![masks[i].uniform(q, n), rows.0[i]],
                u,
                q,
            ) == ring::poly_add(
                errors[2 * i].gaussian(q, n),
                ring::poly_scale(gadget[i], m, q),
                q,
            ),
        forall|i: int|
            #![trigger rows.1[i]]
            0 <= i < gadget.len() ==> rgsw::rlwe_phase(
                seq![masks[i].uniform(q, n), rows.1[i]],
                s,
                q,
            ) == errors[2 * i + 1].gaussian(q, n),
        random::after_uniforms::<M, P>(masks[0], q, n, gadget.len()) == masks[gadget.len() as int],
        random::after_gaussians::<M, R>(errors[0], q, n, 2 * gadget.len()) == errors.last(),
{
    assert forall|i: int|
        #![trigger rows.0[i]]
        0 <= i < gadget.len() implies rgsw::rlwe_phase(
        seq![masks[i].uniform(q, n), rows.0[i]],
        u,
        q,
    ) == ring::poly_add(errors[2 * i].gaussian(q, n), ring::poly_scale(gadget[i], m, q), q) by {
        let (a, e) = (masks[i].uniform(q, n), errors[2 * i].gaussian(q, n));
        random::lemma_uniform_states::<M, P>(masks, q, n, i);
        random::lemma_gaussian_states::<M, R>(errors, q, n, 2 * i);
        masks[i].lemma_uniform(q, n);
        errors[2 * i].lemma_gaussian(q, n);
        lemma_encryption_decrypts(a, u, e, gadget[i], m, q);
    }
    assert forall|i: int|
        #![trigger rows.1[i]]
        0 <= i < gadget.len() implies rgsw::rlwe_phase(
        seq![masks[i].uniform(q, n), rows.1[i]],
        s,
        q,
    ) == errors[2 * i + 1].gaussian(q, n) by {
        let (a, e) = (masks[i].uniform(q, n), errors[2 * i + 1].gaussian(q, n));
        random::lemma_uniform_states::<M, P>(masks, q, n, i);
        random::lemma_gaussian_states::<M, R>(errors, q, n, 2 * i + 1);
        masks[i].lemma_uniform(q, n);
        errors[2 * i + 1].lemma_gaussian(q, n);
        lemma_encryption_decrypts(a, s, e, 0, m, q);
    }
    random::lemma_uniform_states::<M, P>(masks, q, n, gadget.len() as int);
    random::lemma_gaussian_states::<M, R>(errors, q, n, errors.len() - 1);
}

} // verus!
