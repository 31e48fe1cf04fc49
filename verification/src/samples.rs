//! What the noise samples that are collected from the keys of a server are made of.
//!
//! A key encrypts what it should up to its errors, whatever they are: the laws here take any
//! errors for which this holds, and say of each collected sample which errors it shows.
use crate::automorphism;
use crate::backend::{self, Modulus};
use crate::decomposer::Decomposer;
use crate::decryption;
use crate::lwe;
use crate::multi_party;
use crate::ntt::Ntt;
use crate::poly;
use crate::print_noise::{
    self, BoolParameters, ClientKey, CollectRuntimeServerKeyStats, NoiseModel, ServerKeyStats,
};
use crate::random::{self, RandomFillUniformInModulus};
use crate::rgsw;
use crate::ring;
use crate::utils;
use vstd::arithmetic::div_mod::*;
use vstd::arithmetic::mul::*;
use vstd::arithmetic::power::*;
use vstd::prelude::*;

verus! {

/// The secrets of the parties, element by element.
pub proof fn lemma_party_secrets(cks: Seq<ClientKey>, p: int)
    requires
        0 <= p < cks.len(),
    ensures
        print_noise::rlwe_secrets(cks).len() == cks.len(),
        print_noise::lwe_secrets(cks).len() == cks.len(),
        print_noise::rlwe_secrets(cks)[p].len() == cks[p].sk_rlwe.len(),
        print_noise::lwe_secrets(cks)[p].len() == cks[p].sk_lwe.len(),
        forall|i: int|
            0 <= i < cks[p].sk_rlwe.len() ==> #[trigger] print_noise::rlwe_secrets(cks)[p][i]
                == cks[p].sk_rlwe[i],
        forall|i: int|
            0 <= i < cks[p].sk_lwe.len() ==> #[trigger] print_noise::lwe_secrets(cks)[p][i]
                == cks[p].sk_lwe[i],
        print_noise::shared_sk_rlwe(cks) == multi_party::collective_secret(
            print_noise::rlwe_secrets(cks),
            cks[0].sk_rlwe.len() as nat,
            cks.len() as int,
        ),
        print_noise::shared_sk_lwe(cks) == multi_party::collective_secret(
            print_noise::lwe_secrets(cks),
            cks[0].sk_lwe.len() as nat,
            cks.len() as int,
        ),
{
}

/// The place `c` of the block `k` in rows of blocks of `n`.
proof fn lemma_place(k: int, n: nat, c: int, count: int)
    requires
        0 <= k < count,
        0 <= c < n,
    ensures
        0 <= k * n + c < count * n,
        k < count - 1 ==> k * n + c < (count - 1) * n,
        (count - 1) * n + n == count * n,
{
    assert(0 <= k * n) by (nonlinear_arith)
        requires
            0 <= k,
            0 <= n,
    ;
    assert(k * n + n <= count * n) by (nonlinear_arith)
        requires
            k + 1 <= count,
            0 <= n,
    ;
    assert((count - 1) * n + n == count * n) by (nonlinear_arith);
    if k < count - 1 {
        assert(k * n + n <= (count - 1) * n) by (nonlinear_arith)
            requires
                k + 1 <= count - 1,
                0 <= n,
        ;
    }
}

proof fn lemma_gadget_len<D: Decomposer, N: Ntt>(
    init: Seq<int>,
    x: Seq<int>,
    key: Seq<Seq<int>>,
    first: int,
    dec: D,
    ntt: N,
    j: int,
)
    ensures
        rgsw::gadget_sum(init, x, key, first, dec, ntt, j).len() == init.len(),
    decreases j,
{
    if j > 0 {
        lemma_gadget_len(init, x, key, first, dec, ntt, j - 1);
    }
}

/// The samples of the automorphism `k` stand at `k * n` and after.
proof fn lemma_auto_list<
    M: Modulus,
    S: CollectRuntimeServerKeyStats,
    D: Decomposer,
    N: Ntt,
    R: RandomFillUniformInModulus<M>,
>(model: NoiseModel<S, D, N>, rng: R, count: int, k: int, c: int)
    requires
        count >= 0,
    ensures
        model.auto_noises::<M, R>(rng, count).len() == count * model.ntt.n(),
        0 <= k < count && 0 <= c < model.ntt.n() ==> model.auto_noises::<M, R>(rng, count)[k
            * model.ntt.n() + c] == model.auto_noise(
            k,
            random::uniform_fill::<M, R>(rng, model.ntt.q(), model.ntt.n(), k as nat),
        )[c],
    decreases count,
{
    let n = model.ntt.n();
    if count > 0 {
        lemma_auto_list::<M, S, D, N, R>(model, rng, count - 1, k, c);
        let m = random::uniform_fill::<M, R>(rng, model.ntt.q(), n, (count - 1) as nat);
        let before = model.auto_noises::<M, R>(rng, count - 1);
        let last = model.auto_noise(count - 1, m);
        let u = model.auto_exponent(count - 1);
        let a = rgsw::auto_image(
            m,
            rgsw::auto_indices(n, u),
            rgsw::auto_signs(n, u),
            model.ntt.q(),
        );
        lemma_gadget_len(
            poly::zeros(n),
            a,
            model.server_key.galois_key(count - 1),
            model.auto_decomposer.count() as int,
            model.auto_decomposer,
            model.ntt,
            model.auto_decomposer.count() as int,
        );
        assert(last.len() == n);
        assert((count - 1) * n + n == count * n) by (nonlinear_arith);
        if 0 <= k < count && 0 <= c < n {
            lemma_place(k, n, c, count);
            if k < count - 1 {
                assert((before + last)[k * n + c] == before[k * n + c]);
            } else {
                assert((before + last)[k * n + c] == last[c]);
            }
        }
    } else {
        lemma_mul_basics(n as int);
    }
}

/// The samples after one automorphism: for each `k` up to `w`, `n` samples that are the centered
/// coefficients of the digits of the image of the `k`-th drawn polynomial, times the errors of
/// the key `k`. The image is that under `X -> X^(g^k)`, under `X -> X^(-g)` for `k = 0`, and
/// `states` are the states that the source goes through.
pub proof fn lemma_auto_samples_collected<
    M: Modulus,
    S: CollectRuntimeServerKeyStats,
    D: Decomposer,
    N: Ntt,
    R: RandomFillUniformInModulus<M>,
>(
    stats: ServerKeyStats<i64>,
    parameters: BoolParameters<M, D>,
    cks: Seq<ClientKey>,
    server_key: S,
    ntt: N,
    states: Seq<R>,
    after: R,
    k: int,
    inv: int,
    errors: Seq<Seq<int>>,
)
    requires
        print_noise::collected::<M, D, N, S, R>(
            stats,
            parameters,
            cks,
            server_key,
            ntt,
            states[0],
            after,
        ),
        ntt.q() == parameters.rlwe_q.q(),
        ntt.q() > 0,
        ntt.n() == parameters.rlwe_n,
        0 < ntt.n(),
        print_noise::shared_sk_rlwe(cks).len() == ntt.n(),
        states.len() == parameters.w + 2,
        forall|t: int|
            0 <= t < states.len() - 1 ==> #[trigger] states[t + 1] == states[t].after_uniform(
                ntt.q(),
                ntt.n(),
            ),
        parameters.auto_decomposer.q() == ntt.q(),
        decryption::recomposes(parameters.auto_decomposer),
        0 <= k <= parameters.w,
        ({
            let (g, br_q) = (parameters.g as int, parameters.br_q as int);
            let u = if k == 0 {
                -g
            } else {
                pow(g, k as nat) % br_q
            };
            (u * inv) % (2 * ntt.n() as int) == 1int % (2 * ntt.n() as int)
        }),
        ({
            let q = ntt.q();
            let s = ring::reduced(print_noise::shared_sk_rlwe(cks), q);
            let d = parameters.auto_decomposer.count() as int;
            let key = server_key.galois_key(k);
            forall|j: int|
                #![trigger errors[j]]
                0 <= j < d ==> errors[j].len() == ntt.n() && ntt.coeffs(key[j]).len() == ntt.n()
                    && ntt.coeffs(key[d + j]).len() == ntt.n() && rgsw::rlwe_phase(
                    seq![ntt.coeffs(key[j]), ntt.coeffs(key[d + j])],
                    s,
                    q,
                ) == ring::poly_add(
                    ring::poly_scale(
                        parameters.auto_decomposer.gadget()[j],
                        ring::poly_neg(automorphism::substituted(s, inv, q), q),
                        q,
                    ),
                    errors[j],
                    q,
                )
        }),
    ensures
        stats.post_1_auto.samples.len() == (parameters.w + 1) * ntt.n(),
        forall|c: int|
            #![trigger stats.post_1_auto.samples[k * ntt.n() + c]]
            0 <= c < ntt.n() ==> stats.post_1_auto.samples[k * ntt.n() + c] == backend::centered(
                decryption::digit_errors(
                    parameters.auto_decomposer,
                    automorphism::substituted(
                        states[k].uniform(ntt.q(), ntt.n()),
                        inv,
                        ntt.q(),
                    ),
                    errors,
                    parameters.auto_decomposer.count() as int,
                )[c],
                ntt.q(),
            ),
{
    let model = print_noise::noise_model(parameters, cks, server_key, ntt);
    let (q, n) = (ntt.q(), ntt.n());
    let count = parameters.w + 1;
    let list = utils::signed(stats.post_1_auto.samples@);
    let m = states[k].uniform(q, n);
    states[k].lemma_uniform(q, n);
    random::lemma_uniform_states::<M, R>(states, q, n, k);
    assert(decryption::auto_key_encrypts(
        server_key.galois_key(k),
        inv,
        errors,
        model.secret(),
        model.auto_decomposer,
        ntt,
    ));
    print_noise::lemma_auto_samples(model, k, inv, m, errors);
    let e = decryption::digit_errors(
        parameters.auto_decomposer,
        automorphism::substituted(m, inv, q),
        errors,
        parameters.auto_decomposer.count() as int,
    );
    lemma_digit_errors_len(
        parameters.auto_decomposer,
        automorphism::substituted(m, inv, q),
        errors,
        parameters.auto_decomposer.count() as int,
    );
    assert forall|c: int|
        #![trigger stats.post_1_auto.samples[k * n + c]]
        0 <= c < n implies stats.post_1_auto.samples[k * n + c] == backend::centered(e[c], q) by {
        lemma_auto_list::<M, S, D, N, R>(model, states[0], count, k, c);
        lemma_place(k, n, c, count);
        assert(list[k * n + c] == stats.post_1_auto.samples[k * n + c]);
        assert(utils::centered_row(e, q)[c] == backend::centered(e[c], q));
    }
    lemma_auto_list::<M, S, D, N, R>(model, states[0], count, 0, 0);
    assert(list.len() == stats.post_1_auto.samples.len());
}

/// The samples after one automorphism, with digits that need not recompose: they also hold the
/// image of the secret times what the digits miss of the image of the drawn polynomial.
pub proof fn lemma_auto_samples_collected_digits<
    M: Modulus,
    S: CollectRuntimeServerKeyStats,
    D: Decomposer,
    N: Ntt,
    R: RandomFillUniformInModulus<M>,
>(
    stats: ServerKeyStats<i64>,
    parameters: BoolParameters<M, D>,
    cks: Seq<ClientKey>,
    server_key: S,
    ntt: N,
    states: Seq<R>,
    after: R,
    k: int,
    inv: int,
    errors: Seq<Seq<int>>,
)
    requires
        print_noise::collected::<M, D, N, S, R>(
            stats,
            parameters,
            cks,
            server_key,
            ntt,
            states[0],
            after,
        ),
        ntt.q() == parameters.rlwe_q.q(),
        ntt.q() > 0,
        ntt.n() == parameters.rlwe_n,
        0 < ntt.n(),
        print_noise::shared_sk_rlwe(cks).len() == ntt.n(),
        states.len() == parameters.w + 2,
        forall|t: int|
            0 <= t < states.len() - 1 ==> #[trigger] states[t + 1] == states[t].after_uniform(
                ntt.q(),
                ntt.n(),
            ),
        parameters.auto_decomposer.q() == ntt.q(),
        0 <= k <= parameters.w,
        ({
            let (g, br_q) = (parameters.g as int, parameters.br_q as int);
            let u = if k == 0 {
                -g
            } else {
                pow(g, k as nat) % br_q
            };
            (u * inv) % (2 * ntt.n() as int) == 1int % (2 * ntt.n() as int)
        }),
        ({
            let q = ntt.q();
            let s = ring::reduced(print_noise::shared_sk_rlwe(cks), q);
            let d = parameters.auto_decomposer.count() as int;
            let key = server_key.galois_key(k);
            forall|j: int|
                #![trigger errors[j]]
                0 <= j < d ==> errors[j].len() == ntt.n() && ntt.coeffs(key[j]).len() == ntt.n()
                    && ntt.coeffs(key[d + j]).len() == ntt.n() && rgsw::rlwe_phase(
                    seq![ntt.coeffs(key[j]), ntt.coeffs(key[d + j])],
                    s,
                    q,
                ) == ring::poly_add(
                    ring::poly_scale(
                        parameters.auto_decomposer.gadget()[j],
                        ring::poly_neg(automorphism::substituted(s, inv, q), q),
                        q,
                    ),
                    errors[j],
                    q,
                )
        }),
    ensures
        stats.post_1_auto.samples.len() == (parameters.w + 1) * ntt.n(),
        forall|c: int|
            #![trigger stats.post_1_auto.samples[k * ntt.n() + c]]
            0 <= c < ntt.n() ==> stats.post_1_auto.samples[k * ntt.n() + c] == backend::centered(
                ({
                    let q = ntt.q();
                    let dec = parameters.auto_decomposer;
                    let d = dec.count() as int;
                    let s = ring::reduced(print_noise::shared_sk_rlwe(cks), q);
                    let a = automorphism::substituted(states[k].uniform(q, ntt.n()), inv, q);
                    ring::poly_add(
                        ring::nega_mul(
                            automorphism::substituted(s, inv, q),
                            ring::poly_sub(a, decryption::recomposed_poly(dec, a, d), q),
                            q,
                        ),
                        decryption::digit_errors(dec, a, errors, d),
                        q,
                    )
                })[c],
                ntt.q(),
            ),
{
    let model = print_noise::noise_model(parameters, cks, server_key, ntt);
    let (q, n) = (ntt.q(), ntt.n());
    let count = parameters.w + 1;
    let list = utils::signed(stats.post_1_auto.samples@);
    let m = states[k].uniform(q, n);
    states[k].lemma_uniform(q, n);
    random::lemma_uniform_states::<M, R>(states, q, n, k);
    assert(decryption::auto_key_encrypts(
        server_key.galois_key(k),
        inv,
        errors,
        model.secret(),
        model.auto_decomposer,
        ntt,
    ));
    print_noise::lemma_auto_samples_digits(model, k, inv, m, errors);
    let dec = parameters.auto_decomposer;
    let d = dec.count() as int;
    let a = automorphism::substituted(m, inv, q);
    let e = ring::poly_add(
        ring::nega_mul(
            automorphism::substituted(model.secret(), inv, q),
            ring::poly_sub(a, decryption::recomposed_poly(dec, a, d), q),
            q,
        ),
        decryption::digit_errors(dec, a, errors, d),
        q,
    );
    assert forall|c: int|
        #![trigger stats.post_1_auto.samples[k * n + c]]
        0 <= c < n implies stats.post_1_auto.samples[k * n + c] == backend::centered(e[c], q) by {
        lemma_auto_list::<M, S, D, N, R>(model, states[0], count, k, c);
        lemma_place(k, n, c, count);
        assert(list[k * n + c] == stats.post_1_auto.samples[k * n + c]);
        assert(utils::centered_row(e, q)[c] == backend::centered(e[c], q));
    }
    lemma_auto_list::<M, S, D, N, R>(model, states[0], count, 0, 0);
    assert(list.len() == stats.post_1_auto.samples.len());
}

proof fn lemma_digit_errors_len<D: Decomposer>(
    dec: D,
    x: Seq<int>,
    errors: Seq<Seq<int>>,
    j: int,
)
    ensures
        decryption::digit_errors(dec, x, errors, j).len() == x.len(),
    decreases j,
{
    if j > 0 {
        lemma_digit_errors_len(dec, x, errors, j - 1);
    }
}

/// Blocks of `b` numbers one after the other.
proof fn lemma_blocks(
    list: spec_fn(int) -> Seq<int>,
    block: spec_fn(int) -> Seq<int>,
    b: nat,
    count: int,
    k: int,
    c: int,
)
    requires
        count >= 0,
        list(0) == Seq::<int>::empty(),
        forall|t: int|
            0 <= t < count ==> (#[trigger] block(t)).len() == b && list(t + 1) == list(t) + block(
                t,
            ),
    ensures
        list(count).len() == count * b,
        0 <= k < count && 0 <= c < b ==> list(count)[k * b + c] == block(k)[c],
    decreases count,
{
    if count > 0 {
        lemma_blocks(list, block, b, count - 1, k, c);
        let (before, last) = (list(count - 1), block(count - 1));
        assert(list((count - 1) + 1) == before + last);
        assert((count - 1) * b + b == count * b) by (nonlinear_arith);
        if 0 <= k < count && 0 <= c < b {
            lemma_place(k, b, c, count);
            if k < count - 1 {
                assert((before + last)[k * b + c] == before[k * b + c]);
            } else {
                assert((before + last)[k * b + c] == last[c]);
            }
        }
    } else {
        lemma_mul_basics(b as int);
    }
}

/// The place of the row `j` of `d` in the block `i`.
proof fn lemma_row_place(i: int, j: int, c: int, d: nat, n: nat)
    requires
        0 <= j < d,
        0 <= c < n,
    ensures
        i * (d * n) + (j * n + c) == (i * d + j) * n + c,
        0 <= j * n + c < d * n,
{
    assert(i * (d * n) == (i * d) * n) by (nonlinear_arith);
    assert((i * d) * n + j * n == (i * d + j) * n) by (nonlinear_arith);
    lemma_place(j, n, c, d as int);
}

/// The samples of the rows of RLWE'(-sm): for each secret element `i` and each of the `d` rows
/// `j`, the `n` centered coefficients of the error with which the rows `j` and `d + j` of the
/// RGSW ciphertext of `X^{z_i}` encrypt `-s X^{z_i}` times the gadget factor `j`.
pub proof fn lemma_nsm_samples_collected<
    M: Modulus,
    S: CollectRuntimeServerKeyStats,
    D: Decomposer,
    N: Ntt,
    R: RandomFillUniformInModulus<M>,
>(
    stats: ServerKeyStats<i64>,
    parameters: BoolParameters<M, D>,
    cks: Seq<ClientKey>,
    server_key: S,
    ntt: N,
    rng: R,
    after: R,
    errors: Seq<Seq<Seq<int>>>,
)
    requires
        print_noise::collected::<M, D, N, S, R>(
            stats,
            parameters,
            cks,
            server_key,
            ntt,
            rng,
            after,
        ),
        ntt.q() > 0,
        0 < ntt.n(),
        print_noise::shared_sk_rlwe(cks).len() == ntt.n(),
        ({
            let (q, n) = (ntt.q(), ntt.n());
            let d = parameters.rlwe_rgsw_decomposer.0.count() as int;
            let s = ring::reduced(print_noise::shared_sk_rlwe(cks), q);
            let z = print_noise::shared_sk_lwe(cks);
            forall|i: int, j: int|
                #![trigger errors[i][j]]
                0 <= i < parameters.lwe_n && 0 <= j < d ==> errors[i][j].len() == n
                    && ring::canonical(errors[i][j], q) && ntt.coeffs(
                    server_key.rgsw_ct(i)[d + j],
                ).len() == n && rgsw::rlwe_phase(
                    seq![
                        ntt.coeffs(server_key.rgsw_ct(i)[j]),
                        ntt.coeffs(server_key.rgsw_ct(i)[d + j]),
                    ],
                    s,
                    q,
                ) == ring::poly_add(
                    ring::poly_scale(
                        parameters.rlwe_rgsw_decomposer.0.gadget()[j],
                        ring::poly_neg(
                            ring::monomial_times(
                                s,
                                z[i] * ((2 * n as int) / parameters.br_q as int),
                                q,
                            ),
                            q,
                        ),
                        q,
                    ),
                    errors[i][j],
                    q,
                )
        }),
    ensures
        stats.brk_rgsw_cts.0.samples.len() == parameters.lwe_n * (
        parameters.rlwe_rgsw_decomposer.0.count() * ntt.n()),
        forall|i: int, j: int, c: int|
            #![trigger errors[i][j][c]]
            0 <= i < parameters.lwe_n && 0 <= j < parameters.rlwe_rgsw_decomposer.0.count() && 0
                <= c < ntt.n() ==> stats.brk_rgsw_cts.0.samples[(i
                * parameters.rlwe_rgsw_decomposer.0.count() + j) * ntt.n() + c]
                == backend::centered(errors[i][j][c], ntt.q()),
{
    let model = print_noise::noise_model(parameters, cks, server_key, ntt);
    let (q, n) = (ntt.q(), ntt.n());
    let d = parameters.rlwe_rgsw_decomposer.0.count();
    let m = parameters.lwe_n as int;
    let s = model.secret();
    let list = utils::signed(stats.brk_rgsw_cts.0.samples@);
    ring::lemma_reduced_canonical(model.sk_rlwe, q);
    assert forall|i: int, j: int| 0 <= i < m && 0 <= j < d implies (#[trigger] model.nsm_noise(
        i,
        j,
    )) == utils::centered_row(errors[i][j], q) && errors[i][j].len() == n by {
        let e = errors[i][j];
        let x = model.message(i);
        automorphism::lemma_monomial_product(
            s,
            model.sk_lwe[i] * model.embedding_factor(),
            q,
        );
        ring::lemma_nega_mul_neg(x, s, q);
        ring::lemma_nega_mul_commutative(x, s, q);
        let want = ring::poly_scale(
            parameters.rlwe_rgsw_decomposer.0.gadget()[j],
            ring::nega_mul(x, ring::poly_neg(s, q), q),
            q,
        );
        print_noise::lemma_noise(want, e, q);
        assert(server_key.rgsw_ct(i)[d + j] == server_key.rgsw_ct(i)[j + d]);
    }
    let lists = |i: int| model.nsm_noises(i);
    let blocks = |i: int| model.nsm_row_noises(i, d as int);
    assert forall|i: int, j: int, c: int|
        0 <= i < m implies model.nsm_row_noises(i, d as int).len() == d * n && (0 <= j < d && 0
        <= c < n ==> model.nsm_row_noises(i, d as int)[j * n + c] == backend::centered(
        #[trigger] errors[i][j][c],
        q,
    )) by {
        let rows = |t: int| model.nsm_row_noises(i, t);
        let row = |t: int| model.nsm_noise(i, t);
        assert forall|t: int| 0 <= t < d implies (#[trigger] row(t)).len() == n && rows(t + 1)
            == rows(t) + row(t) by {
            assert(model.nsm_noise(i, t) == utils::centered_row(errors[i][t], q));
        }
        lemma_blocks(rows, row, n, d as int, j, c);
        if 0 <= j < d && 0 <= c < n {
            assert(model.nsm_noise(i, j) == utils::centered_row(errors[i][j], q));
        }
    }
    assert forall|t: int| 0 <= t < m implies (#[trigger] blocks(t)).len() == d * n && lists(t + 1)
        == lists(t) + blocks(t) by {
        let x = errors[t][0][0];
        assert(model.nsm_row_noises(t, d as int).len() == d * n);
    }
    lemma_blocks(lists, blocks, d * n, m, 0, 0);
    assert(list.len() == stats.brk_rgsw_cts.0.samples.len());
    assert forall|i: int, j: int, c: int|
        #![trigger errors[i][j][c]]
        0 <= i < m && 0 <= j < d && 0 <= c < n implies stats.brk_rgsw_cts.0.samples[(i * d + j)
        * n + c] == backend::centered(errors[i][j][c], q) by {
        lemma_row_place(i, j, c, d, n);
        lemma_blocks(lists, blocks, d * n, m, i, j * n + c);
        lemma_place(i, d * n, j * n + c, m);
        assert(blocks(i) == model.nsm_row_noises(i, d as int));
        assert(list[(i * d + j) * n + c] == stats.brk_rgsw_cts.0.samples[(i * d + j) * n + c]);
    }
}

/// The samples of the rows of RLWE'(m): for each secret element `i` and each of the `d` rows `j`,
/// the `n` centered coefficients of the error with which the rows `j` and `d + j` after those of
/// RLWE'(-sm) of the RGSW ciphertext of `X^{z_i}` encrypt `X^{z_i}` times the gadget factor `j`.
pub proof fn lemma_m_samples_collected<
    M: Modulus,
    S: CollectRuntimeServerKeyStats,
    D: Decomposer,
    N: Ntt,
    R: RandomFillUniformInModulus<M>,
>(
    stats: ServerKeyStats<i64>,
    parameters: BoolParameters<M, D>,
    cks: Seq<ClientKey>,
    server_key: S,
    ntt: N,
    rng: R,
    after: R,
    errors: Seq<Seq<Seq<int>>>,
)
    requires
        print_noise::collected::<M, D, N, S, R>(
            stats,
            parameters,
            cks,
            server_key,
            ntt,
            rng,
            after,
        ),
        ntt.q() > 0,
        0 < ntt.n(),
        print_noise::shared_sk_rlwe(cks).len() == ntt.n(),
        ({
            let (q, n) = (ntt.q(), ntt.n());
            let f = 2 * parameters.rlwe_rgsw_decomposer.0.count() as int;
            let d = parameters.rlwe_rgsw_decomposer.1.count() as int;
            let s = ring::reduced(print_noise::shared_sk_rlwe(cks), q);
            let z = print_noise::shared_sk_lwe(cks);
            forall|i: int, j: int|
                #![trigger errors[i][j]]
                0 <= i < parameters.lwe_n && 0 <= j < d ==> errors[i][j].len() == n
                    && ring::canonical(errors[i][j], q) && ntt.coeffs(
                    server_key.rgsw_ct(i)[f + d + j],
                ).len() == n && rgsw::rlwe_phase(
                    seq![
                        ntt.coeffs(server_key.rgsw_ct(i)[f + j]),
                        ntt.coeffs(server_key.rgsw_ct(i)[f + d + j]),
                    ],
                    s,
                    q,
                ) == ring::poly_add(
                    ring::poly_scale(
                        parameters.rlwe_rgsw_decomposer.1.gadget()[j],
                        ring::monomial_times(
                            poly::one(n),
                            z[i] * ((2 * n as int) / parameters.br_q as int),
                            q,
                        ),
                        q,
                    ),
                    errors[i][j],
                    q,
                )
        }),
    ensures
        stats.brk_rgsw_cts.1.samples.len() == parameters.lwe_n * (
        parameters.rlwe_rgsw_decomposer.1.count() * ntt.n()),
        forall|i: int, j: int, c: int|
            #![trigger errors[i][j][c]]
            0 <= i < parameters.lwe_n && 0 <= j < parameters.rlwe_rgsw_decomposer.1.count() && 0
                <= c < ntt.n() ==> stats.brk_rgsw_cts.1.samples[(i
                * parameters.rlwe_rgsw_decomposer.1.count() + j) * ntt.n() + c]
                == backend::centered(errors[i][j][c], ntt.q()),
{
    let model = print_noise::noise_model(parameters, cks, server_key, ntt);
    let (q, n) = (ntt.q(), ntt.n());
    let f = 2 * parameters.rlwe_rgsw_decomposer.0.count();
    let d = parameters.rlwe_rgsw_decomposer.1.count();
    let m = parameters.lwe_n as int;
    let list = utils::signed(stats.brk_rgsw_cts.1.samples@);
    assert forall|i: int, j: int| 0 <= i < m && 0 <= j < d implies (#[trigger] model.m_noise(
        i,
        j,
    )) == utils::centered_row(errors[i][j], q) && errors[i][j].len() == n by {
        let e = errors[i][j];
        let x = model.message(i);
        let want = ring::poly_scale(parameters.rlwe_rgsw_decomposer.1.gadget()[j], x, q);
        print_noise::lemma_noise(want, e, q);
        assert(server_key.rgsw_ct(i)[f + j] == server_key.rgsw_ct(i)[j + f]);
        assert(server_key.rgsw_ct(i)[f + d + j] == server_key.rgsw_ct(i)[j + f + d]);
    }
    let lists = |i: int| model.m_noises(i);
    let blocks = |i: int| model.m_row_noises(i, d as int);
    assert forall|i: int, j: int, c: int|
        0 <= i < m implies model.m_row_noises(i, d as int).len() == d * n && (0 <= j < d && 0
        <= c < n ==> model.m_row_noises(i, d as int)[j * n + c] == backend::centered(
        #[trigger] errors[i][j][c],
        q,
    )) by {
        let rows = |t: int| model.m_row_noises(i, t);
        let row = |t: int| model.m_noise(i, t);
        assert forall|t: int| 0 <= t < d implies (#[trigger] row(t)).len() == n && rows(t + 1)
            == rows(t) + row(t) by {
            assert(model.m_noise(i, t) == utils::centered_row(errors[i][t], q));
        }
        lemma_blocks(rows, row, n, d as int, j, c);
        if 0 <= j < d && 0 <= c < n {
            assert(model.m_noise(i, j) == utils::centered_row(errors[i][j], q));
        }
    }
    assert forall|t: int| 0 <= t < m implies (#[trigger] blocks(t)).len() == d * n && lists(t + 1)
        == lists(t) + blocks(t) by {
        let x = errors[t][0][0];
        assert(model.m_row_noises(t, d as int).len() == d * n);
    }
    lemma_blocks(lists, blocks, d * n, m, 0, 0);
    assert(list.len() == stats.brk_rgsw_cts.1.samples.len());
    assert forall|i: int, j: int, c: int|
        #![trigger errors[i][j][c]]
        0 <= i < m && 0 <= j < d && 0 <= c < n implies stats.brk_rgsw_cts.1.samples[(i * d + j)
        * n + c] == backend::centered(errors[i][j][c], q) by {
        lemma_row_place(i, j, c, d, n);
        lemma_blocks(lists, blocks, d * n, m, i, j * n + c);
        lemma_place(i, d * n, j * n + c, m);
        assert(blocks(i) == model.m_row_noises(i, d as int));
        assert(list[(i * d + j) * n + c] == stats.brk_rgsw_cts.1.samples[(i * d + j) * n + c]);
    }
}

proof fn lemma_switch_list<
    M: Modulus,
    S: CollectRuntimeServerKeyStats,
    D: Decomposer,
    N: Ntt,
    R: RandomFillUniformInModulus<M>,
>(model: NoiseModel<S, D, N>, rng: R, count: int, t: int)
    requires
        count >= 0,
    ensures
        model.key_switch_noises::<M, R>(rng, count).len() == count,
        0 <= t < count ==> model.key_switch_noises::<M, R>(rng, count)[t]
            == model.key_switch_noise(
            random::uniform_fill::<M, R>(rng, model.lwe_q, model.ntt.n(), t as nat),
        ),
    decreases count,
{
    if count > 0 {
        lemma_switch_list::<M, S, D, N, R>(model, rng, count - 1, t);
    }
}

/// The samples after the key switch: ten, each the centered sum of minus the digits of a drawn
/// mask times the errors of the key. The masks are drawn after the polynomials for the
/// automorphisms; `states` and `masks` are the states that the source goes through.
pub proof fn lemma_key_switch_samples_collected<
    M: Modulus,
    S: CollectRuntimeServerKeyStats,
    D: Decomposer,
    N: Ntt,
    R: RandomFillUniformInModulus<M>,
>(
    stats: ServerKeyStats<i64>,
    parameters: BoolParameters<M, D>,
    cks: Seq<ClientKey>,
    server_key: S,
    ntt: N,
    states: Seq<R>,
    masks: Seq<R>,
    after: R,
    errors: Seq<int>,
)
    requires
        print_noise::collected::<M, D, N, S, R>(
            stats,
            parameters,
            cks,
            server_key,
            ntt,
            states[0],
            after,
        ),
        parameters.lwe_q.q() > 0,
        ntt.n() == parameters.rlwe_n,
        print_noise::shared_sk_rlwe(cks).len() == ntt.n(),
        states.len() == parameters.w + 2,
        forall|t: int|
            0 <= t < states.len() - 1 ==> #[trigger] states[t + 1] == states[t].after_uniform(
                parameters.rlwe_q.q(),
                ntt.n(),
            ),
        masks.len() == 11,
        masks[0] == states[parameters.w + 1],
        forall|t: int|
            0 <= t < masks.len() - 1 ==> #[trigger] masks[t + 1] == masks[t].after_uniform(
                parameters.lwe_q.q(),
                ntt.n(),
            ),
        parameters.lwe_decomposer.q() == parameters.lwe_q.q(),
        decryption::recomposes(parameters.lwe_decomposer),
        ({
            let q = parameters.lwe_q.q();
            let d = parameters.lwe_decomposer.count();
            let (s, z) = (print_noise::shared_sk_rlwe(cks), print_noise::shared_sk_lwe(cks));
            let rows = server_key.lwe_ksk_rows();
            forall|i: int, j: int|
                0 <= i < s.len() && 0 <= j < d ==> (#[trigger] rows[i * d + j]).len() == z.len() + 1
                    && lwe::lwe_phase(rows[i * d + j], z, q) == (
                parameters.lwe_decomposer.gadget()[j] * (-s[i]) + errors[i * d + j]) % q
        }),
    ensures
        stats.post_lwe_key_switch.samples.len() == 10,
        forall|t: int|
            0 <= t < 10 ==> #[trigger] stats.post_lwe_key_switch.samples[t] == backend::centered(
                (-decryption::key_switch_error(
                    masks[t].uniform(parameters.lwe_q.q(), ntt.n()),
                    errors,
                    parameters.lwe_decomposer,
                    ntt.n() as int,
                )) % parameters.lwe_q.q(),
                parameters.lwe_q.q(),
            ),
        after == masks[10],
{
    let model = print_noise::noise_model(parameters, cks, server_key, ntt);
    let (q, n) = (parameters.lwe_q.q(), ntt.n());
    let w1 = parameters.w + 1;
    let list = utils::signed(stats.post_lwe_key_switch.samples@);
    random::lemma_uniform_states::<M, R>(states, parameters.rlwe_q.q(), n, w1);
    random::lemma_uniform_states::<M, R>(masks, q, n, 10);
    lemma_switch_list::<M, S, D, N, R>(model, masks[0], 10, 0);
    assert(list.len() == stats.post_lwe_key_switch.samples.len());
    assert forall|t: int|
        0 <= t < 10 implies #[trigger] stats.post_lwe_key_switch.samples[t] == backend::centered(
        (-decryption::key_switch_error(
            masks[t].uniform(q, n),
            errors,
            parameters.lwe_decomposer,
            n as int,
        )) % q,
        q,
    ) by {
        lemma_switch_list::<M, S, D, N, R>(model, masks[0], 10, t);
        random::lemma_uniform_states::<M, R>(masks, q, n, t);
        masks[t].lemma_uniform(q, n);
        print_noise::lemma_key_switch_sample(model, masks[t].uniform(q, n), errors);
        assert(list[t] == stats.post_lwe_key_switch.samples[t]);
    }
}

/// The samples after the key switch, with digits that need not recompose: each also holds what the
/// digits recompose to, minus the mask, times the secret.
pub proof fn lemma_key_switch_samples_collected_digits<
    M: Modulus,
    S: CollectRuntimeServerKeyStats,
    D: Decomposer,
    N: Ntt,
    R: RandomFillUniformInModulus<M>,
>(
    stats: ServerKeyStats<i64>,
    parameters: BoolParameters<M, D>,
    cks: Seq<ClientKey>,
    server_key: S,
    ntt: N,
    states: Seq<R>,
    masks: Seq<R>,
    after: R,
    errors: Seq<int>,
)
    requires
        print_noise::collected::<M, D, N, S, R>(
            stats,
            parameters,
            cks,
            server_key,
            ntt,
            states[0],
            after,
        ),
        parameters.lwe_q.q() > 0,
        ntt.n() == parameters.rlwe_n,
        print_noise::shared_sk_rlwe(cks).len() == ntt.n(),
        states.len() == parameters.w + 2,
        forall|t: int|
            0 <= t < states.len() - 1 ==> #[trigger] states[t + 1] == states[t].after_uniform(
                parameters.rlwe_q.q(),
                ntt.n(),
            ),
        masks.len() == 11,
        masks[0] == states[parameters.w + 1],
        forall|t: int|
            0 <= t < masks.len() - 1 ==> #[trigger] masks[t + 1] == masks[t].after_uniform(
                parameters.lwe_q.q(),
                ntt.n(),
            ),
        parameters.lwe_decomposer.q() == parameters.lwe_q.q(),
        ({
            let q = parameters.lwe_q.q();
            let d = parameters.lwe_decomposer.count();
            let (s, z) = (print_noise::shared_sk_rlwe(cks), print_noise::shared_sk_lwe(cks));
            let rows = server_key.lwe_ksk_rows();
            forall|i: int, j: int|
                0 <= i < s.len() && 0 <= j < d ==> (#[trigger] rows[i * d + j]).len() == z.len() + 1
                    && lwe::lwe_phase(rows[i * d + j], z, q) == (
                parameters.lwe_decomposer.gadget()[j] * (-s[i]) + errors[i * d + j]) % q
        }),
    ensures
        stats.post_lwe_key_switch.samples.len() == 10,
        forall|t: int|
            0 <= t < 10 ==> #[trigger] stats.post_lwe_key_switch.samples[t] == backend::centered(
                ({
                    let (q, n) = (parameters.lwe_q.q(), ntt.n() as int);
                    let dec = parameters.lwe_decomposer;
                    let s = print_noise::shared_sk_rlwe(cks);
                    let a = masks[t].uniform(q, ntt.n());
                    (lwe::dot(decryption::recomposed_mask(dec, a), s, n) - lwe::dot(a, s, n)
                        - decryption::key_switch_error(a, errors, dec, n)) % q
                }),
                parameters.lwe_q.q(),
            ),
        after == masks[10],
{
    let model = print_noise::noise_model(parameters, cks, server_key, ntt);
    let (q, n) = (parameters.lwe_q.q(), ntt.n());
    let w1 = parameters.w + 1;
    let list = utils::signed(stats.post_lwe_key_switch.samples@);
    random::lemma_uniform_states::<M, R>(states, parameters.rlwe_q.q(), n, w1);
    random::lemma_uniform_states::<M, R>(masks, q, n, 10);
    lemma_switch_list::<M, S, D, N, R>(model, masks[0], 10, 0);
    assert(list.len() == stats.post_lwe_key_switch.samples.len());
    assert forall|t: int|
        0 <= t < 10 implies #[trigger] stats.post_lwe_key_switch.samples[t] == backend::centered(
        ({
            let dec = parameters.lwe_decomposer;
            let s = print_noise::shared_sk_rlwe(cks);
            let a = masks[t].uniform(q, n);
            (lwe::dot(decryption::recomposed_mask(dec, a), s, n as int) - lwe::dot(a, s, n as int)
                - decryption::key_switch_error(a, errors, dec, n as int)) % q
        }),
        q,
    ) by {
        lemma_switch_list::<M, S, D, N, R>(model, masks[0], 10, t);
        random::lemma_uniform_states::<M, R>(masks, q, n, t);
        masks[t].lemma_uniform(q, n);
        print_noise::lemma_key_switch_sample_digits(model, masks[t].uniform(q, n), errors);
        assert(list[t] == stats.post_lwe_key_switch.samples[t]);
    }
}

/// The source after the collection: `w + 1` polynomials for the automorphisms, then ten masks for
/// the key switch are drawn, and a sample is taken of each coefficient or mask.
pub proof fn lemma_collected_draws<
    M: Modulus,
    S: CollectRuntimeServerKeyStats,
    D: Decomposer,
    N: Ntt,
    R: RandomFillUniformInModulus<M>,
>(
    stats: ServerKeyStats<i64>,
    parameters: BoolParameters<M, D>,
    cks: Seq<ClientKey>,
    server_key: S,
    ntt: N,
    states: Seq<R>,
    masks: Seq<R>,
    after: R,
)
    requires
        print_noise::collected::<M, D, N, S, R>(
            stats,
            parameters,
            cks,
            server_key,
            ntt,
            states[0],
            after,
        ),
        ntt.n() == parameters.rlwe_n,
        states.len() == parameters.w + 2,
        forall|t: int|
            0 <= t < states.len() - 1 ==> #[trigger] states[t + 1] == states[t].after_uniform(
                parameters.rlwe_q.q(),
                ntt.n(),
            ),
        masks.len() == 11,
        masks[0] == states[parameters.w + 1],
        forall|t: int|
            0 <= t < masks.len() - 1 ==> #[trigger] masks[t + 1] == masks[t].after_uniform(
                parameters.lwe_q.q(),
                ntt.n(),
            ),
    ensures
        after == masks[10],
        stats.post_1_auto.samples.len() == (parameters.w + 1) * ntt.n(),
        stats.post_lwe_key_switch.samples.len() == 10,
{
    let model = print_noise::noise_model(parameters, cks, server_key, ntt);
    let w1 = parameters.w + 1;
    random::lemma_uniform_states::<M, R>(states, parameters.rlwe_q.q(), ntt.n(), w1);
    random::lemma_uniform_states::<M, R>(masks, parameters.lwe_q.q(), ntt.n(), 10);
    lemma_auto_list::<M, S, D, N, R>(model, states[0], w1, 0, 0);
    lemma_switch_list::<M, S, D, N, R>(model, masks[0], 10, 0);
    assert(utils::signed(stats.post_1_auto.samples@).len() == stats.post_1_auto.samples.len());
    assert(utils::signed(stats.post_lwe_key_switch.samples@).len()
        == stats.post_lwe_key_switch.samples.len());
}

/// Noise can be collected from keys of the right shapes, for secrets whose sums fit in words.
pub proof fn lemma_collection_inputs<M: Modulus, D: Decomposer, S: CollectRuntimeServerKeyStats>(
    parameters: BoolParameters<M, D>,
    cks: Seq<ClientKey>,
    server_key: S,
)
    requires
        cks.len() > 0,
        forall|p: int|
            0 <= p < cks.len() ==> (#[trigger] cks[p]).sk_rlwe.len() == parameters.rlwe_n
                && cks[p].sk_lwe.len() == parameters.lwe_n,
        forall|k: int, i: int|
            0 <= k <= cks.len() && 0 <= i < parameters.rlwe_n ==> i32::MIN
                <= #[trigger] multi_party::collective_secret(
                print_noise::rlwe_secrets(cks),
                parameters.rlwe_n as nat,
                k,
            )[i] <= i32::MAX,
        forall|k: int, i: int|
            0 <= k <= cks.len() && 0 <= i < parameters.lwe_n ==> i32::MIN
                <= #[trigger] multi_party::collective_secret(
                print_noise::lwe_secrets(cks),
                parameters.lwe_n as nat,
                k,
            )[i] <= i32::MAX,
        parameters.rlwe_q.wf(),
        parameters.lwe_q.wf(),
        parameters.rlwe_q.q() > 1,
        2 * parameters.rlwe_n <= isize::MAX,
        0 < parameters.br_q <= isize::MAX,
        parameters.br_q % 2 == 0,
        parameters.g <= isize::MAX,
        parameters.g % 2 == 1,
        parameters.w < usize::MAX,
        parameters.lwe_n < usize::MAX,
        parameters.rlwe_rgsw_decomposer.0.wf(),
        parameters.rlwe_rgsw_decomposer.0.q() == parameters.rlwe_q.q(),
        parameters.rlwe_rgsw_decomposer.1.wf(),
        parameters.rlwe_rgsw_decomposer.1.q() == parameters.rlwe_q.q(),
        parameters.auto_decomposer.wf(),
        parameters.auto_decomposer.q() == parameters.rlwe_q.q(),
        parameters.lwe_decomposer.wf(),
        parameters.lwe_decomposer.q() == parameters.lwe_q.q(),
        2 * parameters.rlwe_rgsw_decomposer.0.count() + 2
            * parameters.rlwe_rgsw_decomposer.1.count() <= usize::MAX,
        ({
            let s = print_noise::shared_sk_rlwe(cks);
            forall|i: int|
                0 <= i < parameters.rlwe_n ==> -parameters.rlwe_q.q() < #[trigger] s[i]
                    && s[i] < parameters.rlwe_q.q() && -parameters.lwe_q.q() < s[i] && s[i]
                    < parameters.lwe_q.q()
        }),
        ({
            let z = print_noise::shared_sk_lwe(cks);
            let factor = (2 * parameters.rlwe_n as int) / parameters.br_q as int;
            forall|i: int|
                0 <= i < parameters.lwe_n ==> -parameters.lwe_q.q() < #[trigger] z[i] && z[i]
                    < parameters.lwe_q.q() && -parameters.rlwe_n < z[i] * factor && z[i] * factor
                    < parameters.rlwe_n
        }),
        forall|i: int|
            0 <= i < parameters.lwe_n ==> #[trigger] server_key.has_rgsw_ct(i)
                && server_key.rgsw_ct(i).len() >= 2 * parameters.rlwe_rgsw_decomposer.0.count() + 2
                * parameters.rlwe_rgsw_decomposer.1.count() && backend::rows_canonical(
                server_key.rgsw_ct(i),
                parameters.rlwe_n as nat,
                parameters.rlwe_q.q(),
            ),
        forall|k: int|
            0 <= k <= parameters.w ==> #[trigger] server_key.has_galois_key(k)
                && server_key.galois_key(k).len() == 2 * parameters.auto_decomposer.count()
                && backend::rows_canonical(
                server_key.galois_key(k),
                parameters.rlwe_n as nat,
                parameters.rlwe_q.q(),
            ),
        server_key.lwe_ksk_rows().len() == parameters.rlwe_n * parameters.lwe_decomposer.count(),
        backend::rows_canonical(
            server_key.lwe_ksk_rows(),
            (parameters.lwe_n + 1) as nat,
            parameters.lwe_q.q(),
        ),
    ensures
        print_noise::server_key_fits(parameters, cks, server_key),
{
    let (rs, zs) = (print_noise::rlwe_secrets(cks), print_noise::lwe_secrets(cks));
    assert(cks[0].sk_rlwe.len() == parameters.rlwe_n && cks[0].sk_lwe.len() == parameters.lwe_n);
    multi_party::lemma_totals(seq![], rs, parameters.rlwe_n as nat, cks.len() as int, 1);
    multi_party::lemma_totals(seq![], zs, parameters.lwe_n as nat, cks.len() as int, 1);
    assert(print_noise::sums_fit(rs, parameters.rlwe_n as nat));
    assert(print_noise::sums_fit(zs, parameters.lwe_n as nat));
}

} // verus!
