//! What a bootstrapping does to the number that its input decrypts to, and how much noise it
//! adds.
use crate::automorphism;
use crate::backend::{self, Residues};
use crate::decomposer::{self, Decomposer, DefaultDecomposer};
use crate::decryption;
use crate::double;
use crate::lwe;
use crate::ntt::Ntt;
use crate::pbs::{self, PbsInfo, PbsKey, Rotation, RotationStep, WithShoupRepr};
use crate::poly;
use crate::rgsw;
use crate::ring;
use crate::rotation::{self, RotationSecret};
use crate::small;
use vstd::arithmetic::div_mod::*;
use vstd::arithmetic::mul::*;
use vstd::arithmetic::power::*;
use vstd::prelude::*;

verus! {

/// The digits of residues are at most `b` in magnitude.
pub open spec fn digits_within<D: Decomposer>(dec: D, b: int) -> bool {
    forall|v: int, j: int|
        0 <= v <= dec.q() && 0 <= j < dec.count() ==> -b <= backend::centered(
            #[trigger] dec.digits(v)[j],
            dec.q(),
        ) <= b
}

/// The first `count` errors are at most `b` in magnitude.
pub open spec fn errors_within(errors: Seq<Seq<int>>, count: nat, b: int) -> bool {
    forall|j: int, i: int|
        0 <= j < count && 0 <= i < errors[j].len() ==> -b <= #[trigger] errors[j][i] <= b
}

proof fn lemma_small_digits<D: Decomposer>(dec: D, x: Seq<int>, j: int, b: int)
    requires
        dec.wf(),
        dec.q() > 0,
        0 <= j < dec.count(),
        digits_within(dec, b),
        forall|i: int| 0 <= i < x.len() ==> 0 <= #[trigger] x[i] < dec.q(),
    ensures
        small::all_small(rgsw::digit_poly(dec, x, j), b, dec.q()),
{
    let q = dec.q();
    let p = rgsw::digit_poly(dec, x, j);
    assert forall|i: int| 0 <= i < p.len() implies small::is_small(#[trigger] p[i], b, q) by {
        let v = x[i];
        dec.lemma_digits(v);
        let d = dec.digits(v)[j];
        assert(p[i] == d);
        backend::lemma_centered(d, q);
        lemma_small_mod(d as nat, q as nat);
        small::lemma_is_small(backend::centered(d, q), d, b, q);
    }
}

/// The noise of `j` digits: each adds at most `n` times the bounds of a digit and of an error.
pub proof fn lemma_small_digit_errors<D: Decomposer>(
    dec: D,
    x: Seq<int>,
    errors: Seq<Seq<int>>,
    j: int,
    b: int,
    c: int,
)
    requires
        dec.wf(),
        dec.q() > 0,
        0 <= j <= dec.count(),
        0 <= b,
        0 <= c,
        digits_within(dec, b),
        ring::canonical(x, dec.q()),
        forall|t: int| 0 <= t < dec.count() ==> (#[trigger] errors[t]).len() == x.len(),
        errors_within(errors, dec.count(), c),
    ensures
        decryption::digit_errors(dec, x, errors, j).len() == x.len(),
        small::all_small(
            decryption::digit_errors(dec, x, errors, j),
            j * (x.len() * (b * c)),
            dec.q(),
        ),
    decreases j,
{
    let q = dec.q();
    let s = x.len() * (b * c);
    assert(s >= 0) by (nonlinear_arith)
        requires
            s == x.len() * (b * c),
            b >= 0,
            c >= 0,
    ;
    if j > 0 {
        lemma_small_digit_errors(dec, x, errors, j - 1, b, c);
        let d = rgsw::digit_poly(dec, x, j - 1);
        let e = errors[j - 1];
        lemma_small_digits(dec, x, j - 1, b);
        assert forall|i: int| 0 <= i < e.len() implies small::is_small(#[trigger] e[i], c, q) by {
            assert(-c <= errors[j - 1][i] <= c);
            small::lemma_is_small(e[i], e[i], c, q);
        }
        small::lemma_small_nega_mul(d, e, b, c, q);
        assert((j - 1) * s >= 0) by (nonlinear_arith)
            requires
                j >= 1,
                s >= 0,
        ;
        assert((j - 1) * s + s == j * s) by (nonlinear_arith);
        small::lemma_small_poly_add(
            decryption::digit_errors(dec, x, errors, j - 1),
            ring::nega_mul(d, e, q),
            (j - 1) * s,
            s,
            q,
        );
    } else {
        lemma_small_mod(0, q as nat);
        assert(0 * s == 0) by (nonlinear_arith);
    }
}

/// The keys of a blind rotation have errors of at most `c` in magnitude.
pub open spec fn key_errors_within<K: PbsKey, D: Decomposer, A: Decomposer, N: Ntt>(
    rotation: Rotation<K, D, A, N>,
    secret: RotationSecret,
    step: RotationStep,
    c: int,
) -> bool {
    match step {
        RotationStep::Secret(i) => {
            let (d0, d1) = rotation.rlwe_rgsw_decomposer;
            &&& errors_within(secret.rgsw_errors[i].0, d0.count(), c)
            &&& errors_within(secret.rgsw_errors[i].1, d1.count(), c)
        },
        RotationStep::Auto(k) => errors_within(
            secret.auto_errors[k],
            rotation.auto_decomposer.count(),
            c,
        ),
    }
}

/// The digits of the decomposers of a blind rotation are at most `b` in magnitude.
pub open spec fn rotation_digits_within<K: PbsKey, D: Decomposer, A: Decomposer, N: Ntt>(
    rotation: Rotation<K, D, A, N>,
    b: int,
) -> bool {
    let (d0, d1) = rotation.rlwe_rgsw_decomposer;
    &&& d0.wf() && digits_within(d0, b)
    &&& d1.wf() && digits_within(d1, b)
    &&& rotation.auto_decomposer.wf() && digits_within(rotation.auto_decomposer, b)
}

/// The number of digits in all decomposers of a blind rotation.
pub open spec fn digit_count<K: PbsKey, D: Decomposer, A: Decomposer, N: Ntt>(
    rotation: Rotation<K, D, A, N>,
) -> nat {
    rotation.rlwe_rgsw_decomposer.0.count() + rotation.rlwe_rgsw_decomposer.1.count()
        + rotation.auto_decomposer.count()
}

/// What the bounds say, coefficient by coefficient.
pub proof fn lemma_bounds<K: PbsKey, D: Decomposer, A: Decomposer, N: Ntt>(
    rotation: Rotation<K, D, A, N>,
    secret: RotationSecret,
    i: int,
    b: int,
    dec: D,
    errors: Seq<Seq<int>>,
)
    ensures
        digits_within(dec, b) <==> (forall|v: int, j: int|
            0 <= v <= dec.q() && 0 <= j < dec.count() ==> -b <= backend::centered(
                #[trigger] dec.digits(v)[j],
                dec.q(),
            ) <= b),
        errors_within(errors, dec.count(), b) <==> (forall|j: int, t: int|
            0 <= j < dec.count() && 0 <= t < errors[j].len() ==> -b <= #[trigger] errors[j][t]
                <= b),
        key_errors_within(rotation, secret, RotationStep::Secret(i), b) <==> errors_within(
            secret.rgsw_errors[i].0,
            rotation.rlwe_rgsw_decomposer.0.count(),
            b,
        ) && errors_within(
            secret.rgsw_errors[i].1,
            rotation.rlwe_rgsw_decomposer.1.count(),
            b,
        ),
        key_errors_within(rotation, secret, RotationStep::Auto(i), b) <==> errors_within(
            secret.auto_errors[i],
            rotation.auto_decomposer.count(),
            b,
        ),
        rotation_digits_within(rotation, b) <==> rotation.rlwe_rgsw_decomposer.0.wf()
            && rotation.rlwe_rgsw_decomposer.1.wf() && rotation.auto_decomposer.wf()
            && digits_within(rotation.rlwe_rgsw_decomposer.0, b) && digits_within(
            rotation.rlwe_rgsw_decomposer.1,
            b,
        ) && digits_within(rotation.auto_decomposer, b),
        digit_count(rotation) == rotation.rlwe_rgsw_decomposer.0.count()
            + rotation.rlwe_rgsw_decomposer.1.count() + rotation.auto_decomposer.count(),
{
}

/// One step of a blind rotation adds little noise.
pub proof fn lemma_small_step<K: PbsKey, D: Decomposer, A: Decomposer, N: Ntt>(
    rotation: Rotation<K, D, A, N>,
    secret: RotationSecret,
    state: (Seq<Seq<int>>, bool),
    step: RotationStep,
    b: int,
    c: int,
)
    requires
        rotation.ntt.wf(),
        rotation.rlwe_rgsw_decomposer.0.q() == rotation.ntt.q(),
        rotation.rlwe_rgsw_decomposer.1.q() == rotation.ntt.q(),
        rotation.auto_decomposer.q() == rotation.ntt.q(),
        rotation::is_state(state, rotation.ntt.n(), rotation.ntt.q()),
        rotation::key_encrypts(rotation, secret, step),
        0 <= b,
        0 <= c,
        rotation_digits_within(rotation, b),
        key_errors_within(rotation, secret, step, c),
    ensures
        rotation::step_noise(rotation, secret, state, step).len() == rotation.ntt.n(),
        small::all_small(
            rotation::step_noise(rotation, secret, state, step),
            digit_count(rotation) * (rotation.ntt.n() * (b * c)),
            rotation.ntt.q(),
        ),
{
    let (n, q) = (rotation.ntt.n(), rotation.ntt.q());
    rotation.ntt.lemma_positive();
    let ct = state.0;
    let (d0, d1) = rotation.rlwe_rgsw_decomposer;
    let dec = rotation.auto_decomposer;
    let (k0, k1, k2) = (d0.count() as int, d1.count() as int, dec.count() as int);
    let s = n * (b * c);
    assert(s >= 0 && k0 * s >= 0 && k1 * s >= 0 && k2 * s >= 0) by (nonlinear_arith)
        requires
            s == n * (b * c),
            b >= 0,
            c >= 0,
            k0 >= 0,
            k1 >= 0,
            k2 >= 0,
    ;
    assert(k0 * s + k1 * s + k2 * s == (k0 + k1 + k2) * s) by (nonlinear_arith);
    assert(ct[0].len() == n && ct[1].len() == n);
    let r = rotation::step_noise(rotation, secret, state, step);
    match step {
        RotationStep::Secret(i) => {
            let errors = secret.rgsw_errors[i];
            lemma_small_digit_errors(d1, ct[1], errors.1, k1, b, c);
            if state.1 {
                small::lemma_larger_bound(r, k1 * s, (k0 + k1 + k2) * s, q);
            } else {
                lemma_small_digit_errors(d0, ct[0], errors.0, k0, b, c);
                small::lemma_small_poly_add(
                    decryption::digit_errors(d0, ct[0], errors.0, k0),
                    decryption::digit_errors(d1, ct[1], errors.1, k1),
                    k0 * s,
                    k1 * s,
                    q,
                );
                small::lemma_larger_bound(r, k0 * s + k1 * s, (k0 + k1 + k2) * s, q);
            }
        },
        RotationStep::Auto(k) => {
            let errors = secret.auto_errors[k];
            if state.1 {
                lemma_small_mod(0, q as nat);
            } else {
                let inv = secret.autos[k].1;
                let a = automorphism::substituted(ct[0], inv, q);
                decryption::lemma_substituted_canonical(ct[0], inv, q);
                lemma_small_digit_errors(dec, a, errors, k2, b, c);
                small::lemma_larger_bound(r, k2 * s, (k0 + k1 + k2) * s, q);
            }
        },
    }
}

/// A blind rotation adds to each coefficient, for every step, at most the number of digits times
/// the number of coefficients times the bounds on a digit and on an error of a key.
proof fn lemma_small_run<K: PbsKey, D: Decomposer, A: Decomposer, N: Ntt>(
    rotation: Rotation<K, D, A, N>,
    secret: RotationSecret,
    state: (Seq<Seq<int>>, bool),
    steps: Seq<RotationStep>,
    b: int,
    c: int,
)
    requires
        rotation::is_exact(rotation),
        rotation::is_state(state, rotation.ntt.n(), rotation.ntt.q()),
        secret.s.len() == rotation.ntt.n(),
        ring::canonical(secret.s, rotation.ntt.q()),
        forall|t: int|
            0 <= t < steps.len() ==> rotation::key_encrypts(
                rotation,
                secret,
                #[trigger] steps[t],
            ),
        0 <= b,
        0 <= c,
        rotation_digits_within(rotation, b),
        forall|t: int|
            0 <= t < steps.len() ==> key_errors_within(rotation, secret, #[trigger] steps[t], c),
    ensures
        rotation::run_noise(rotation, secret, state, steps).len() == rotation.ntt.n(),
        small::all_small(
            rotation::run_noise(rotation, secret, state, steps),
            steps.len() * (digit_count(rotation) * (rotation.ntt.n() * (b * c))),
            rotation.ntt.q(),
        ),
    decreases steps.len(),
{
    let (n, q) = (rotation.ntt.n(), rotation.ntt.q());
    rotation.ntt.lemma_positive();
    let s = digit_count(rotation) * (n * (b * c));
    assert(s >= 0) by (nonlinear_arith)
        requires
            s == digit_count(rotation) * (n * (b * c)),
            b >= 0,
            c >= 0,
    ;
    if steps.len() == 0 {
        lemma_small_mod(0, q as nat);
        assert(0 * s == 0) by (nonlinear_arith);
    } else {
        let before = steps.drop_last();
        let last = steps.last();
        assert forall|t: int| 0 <= t < before.len() implies rotation::key_encrypts(
            rotation,
            secret,
            #[trigger] before[t],
        ) && key_errors_within(rotation, secret, before[t], c) by {
            assert(before[t] == steps[t]);
        }
        assert(last == steps[steps.len() - 1]);
        lemma_small_run(rotation, secret, state, before, b, c);
        rotation::lemma_run_decrypts(rotation, secret, state, before);
        let mid = rotation.run(state, before);
        lemma_small_step(rotation, secret, mid, last, b, c);
        let e = rotation::run_noise(rotation, secret, state, before);
        let moved = secret.step(e, last, q);
        let k = before.len() as int;
        assert(k * s >= 0) by (nonlinear_arith)
            requires
                k >= 0,
                s >= 0,
        ;
        assert(k * s + s == (k + 1) * s) by (nonlinear_arith);
        assert forall|j: int| 0 <= j < moved.len() implies small::is_small(
            #[trigger] moved[j],
            k * s,
            q,
        ) by {
            match last {
                RotationStep::Secret(i) => {
                    small::lemma_small_coeff(e, j - secret.exponents[i], k * s, q);
                },
                RotationStep::Auto(i) => {
                    small::lemma_small_coeff(e, j * secret.autos[i].1, k * s, q);
                },
            }
        }
        small::lemma_small_poly_add(
            moved,
            rotation::step_noise(rotation, secret, mid, last),
            k * s,
            s,
            q,
        );
    }
}

/// The number of entries in the lists `from` to `to - 1`.
pub open spec fn total(gk: Seq<Seq<usize>>, from: int, to: int) -> nat
    decreases to - from,
{
    if to <= from {
        0
    } else {
        total(gk, from, to - 1) + gk[to - 1].len()
    }
}

proof fn lemma_total_split(gk: Seq<Seq<usize>>, a: int, b: int, c: int)
    requires
        a <= b <= c,
    ensures
        total(gk, a, b) + total(gk, b, c) == total(gk, a, c),
    decreases c - b,
{
    if c > b {
        lemma_total_split(gk, a, b, c - 1);
    }
}

proof fn lemma_descent_len(gk: Seq<Seq<usize>>, base: int, i: int, v: int, w: int)
    requires
        0 <= i,
    ensures
        pbs::descent(gk, base, i, v, w).len() + gk[base].len() <= total(gk, base, base + i + 1)
            + i,
    decreases i,
{
    if i > 0 {
        lemma_descent_len(gk, base, i - 1, 0, w);
        lemma_descent_len(gk, base, i - 1, v + 1, w);
        assert(pbs::secret_steps(gk[base + i]).len() == gk[base + i].len());
    } else {
        reveal_with_fuel(total, 2);
    }
}

/// A blind rotation has one step for each entry of the lists, and less than `q / 2`
/// automorphisms.
pub proof fn lemma_schedule_len(gk: Seq<Seq<usize>>, w: int, q: int)
    requires
        q >= 4,
    ensures
        pbs::schedule(gk, w, q).len() < total(gk, 0, 2 * (q / 4)) + 2 * (q / 4),
{
    let l = q / 4;
    lemma_descent_len(gk, l, l - 1, 0, w);
    lemma_descent_len(gk, 0, l - 1, 0, w);
    lemma_total_split(gk, 0, l, 2 * l);
}

proof fn lemma_total_step(odds: Seq<int>, dlog: Seq<usize>, count: int, j: int, c: int)
    requires
        0 < j,
        0 <= c <= count,
    ensures
        total(pbs::buckets(odds, dlog, count, j), 0, c) == total(
            pbs::buckets(odds, dlog, count, j - 1),
            0,
            c,
        ) + (if dlog[odds[j - 1]] < c {
            1nat
        } else {
            0nat
        }),
    decreases c,
{
    if c > 0 {
        lemma_total_step(odds, dlog, count, j, c - 1);
        assert(pbs::buckets(odds, dlog, count, j)[c - 1] == pbs::bucket(odds, dlog, c - 1, j));
        assert(pbs::buckets(odds, dlog, count, j - 1)[c - 1] == pbs::bucket(
            odds,
            dlog,
            c - 1,
            j - 1,
        ));
    }
}

/// The lists of `j` entries by their discrete logarithms hold each entry at most once.
pub proof fn lemma_total_buckets(odds: Seq<int>, dlog: Seq<usize>, count: int, j: int, c: int)
    requires
        0 <= j,
        0 <= c <= count,
    ensures
        total(pbs::buckets(odds, dlog, count, j), 0, c) <= j,
    decreases j, c,
{
    if j > 0 {
        lemma_total_buckets(odds, dlog, count, j - 1, c);
        lemma_total_step(odds, dlog, count, j, c);
    } else if c > 0 {
        lemma_total_buckets(odds, dlog, count, j, c - 1);
        assert(pbs::buckets(odds, dlog, count, 0)[c - 1] == pbs::bucket(odds, dlog, c - 1, 0));
    }
}

/// A blind rotation turns what the ciphertext decrypts to into its image under an automorphism
/// `X -> X^(1/v)` with `v` congruent to `-g`, times a power of `X` whose exponent is the factor
/// times a number `e`. That is congruent to the sum of `g^i` times the listed secret elements,
/// those of the second half negated. The noise that comes in is bounded: each entry of the lists
/// and each of less than `q / 2` automorphisms adds no more to a coefficient than the number of
/// digits times the number of coefficients times the bounds on a digit and on an error.
pub proof fn lemma_blind_rotation_bounded<K: PbsKey, D: Decomposer, A: Decomposer, N: Ntt>(
    rotation: Rotation<K, D, A, N>,
    secret: RotationSecret,
    secrets: Seq<int>,
    state: (Seq<Seq<int>>, bool),
    gk: Seq<Seq<usize>>,
    factor: int,
    w: int,
    g: int,
    q: int,
    b: int,
    c: int,
) -> (r: (int, int, Seq<int>))
    requires
        rotation::is_exact(rotation),
        rotation::is_state(state, rotation.ntt.n(), rotation.ntt.q()),
        secret.s.len() == rotation.ntt.n(),
        ring::canonical(secret.s, rotation.ntt.q()),
        q >= 4,
        factor > 0,
        2 * rotation.ntt.n() == factor * q,
        gk.len() >= 2 * (q / 4),
        pow(g, (q / 4) as nat) % q == 1,
        forall|i: int, j: int|
            0 <= i < gk.len() && 0 <= j < gk[i].len() ==> 0 <= #[trigger] gk[i][j]
                < secrets.len(),
        forall|i: int|
            0 <= i < secrets.len() ==> #[trigger] rotation::key_encrypts(
                rotation,
                secret,
                RotationStep::Secret(i),
            ) && secret.exponents[i] == factor * secrets[i],
        forall|k: int|
            pbs::in_window(k, w) && k < q / 4 ==> #[trigger] rotation::key_encrypts(
                rotation,
                secret,
                RotationStep::Auto(k),
            ),
        forall|k: int|
            pbs::in_window(k, w) && k < q / 4 ==> #[trigger] rotation::is_power(
                secret.autos,
                g,
                q,
                k,
            ),
        0 <= b,
        0 <= c,
        rotation_digits_within(rotation, b),
        forall|i: int|
            0 <= i < secrets.len() ==> #[trigger] key_errors_within(
                rotation,
                secret,
                RotationStep::Secret(i),
                c,
            ),
        forall|k: int|
            pbs::in_window(k, w) && k < q / 4 ==> #[trigger] key_errors_within(
                rotation,
                secret,
                RotationStep::Auto(k),
                c,
            ),
    ensures
        ({
            let (v, e, noise) = r;
            let rlwe_q = rotation.ntt.q();
            &&& rgsw::rlwe_phase(
                rotation.run(state, pbs::schedule(gk, w, q)).0,
                secret.s,
                rlwe_q,
            ) == ring::poly_add(
                automorphism::rotated(
                    rgsw::rlwe_phase(state.0, secret.s, rlwe_q),
                    v,
                    factor * e,
                    rlwe_q,
                ),
                noise,
                rlwe_q,
            )
            &&& v % 2 == 1
            &&& v % q == (-g) % q
            &&& e % q == (rotation::power_sum(secrets, gk, 0, g, q / 4) - rotation::power_sum(
                secrets,
                gk,
                q / 4,
                g,
                q / 4,
            )) % q
            &&& noise.len() == rotation.ntt.n()
            &&& forall|i: int|
                0 <= i < noise.len() ==> {
                    let bound = (total(gk, 0, 2 * (q / 4)) + 2 * (q / 4)) * (digit_count(rotation)
                        * (rotation.ntt.n() * (b * c)));
                    -bound <= #[trigger] noise[i] <= bound
                }
        }),
{
    let rlwe_q = rotation.ntt.q();
    let n = rotation.ntt.n();
    rotation.ntt.lemma_positive();
    let steps = pbs::schedule(gk, w, q);
    rotation::lemma_blind_rotation(rotation, secret, secrets, state, gk, factor, w, g, q);
    pbs::lemma_schedule_within(gk, w, q, secrets.len() as int);
    assert forall|t: int| 0 <= t < steps.len() implies rotation::key_encrypts(
        rotation,
        secret,
        #[trigger] steps[t],
    ) && key_errors_within(rotation, secret, steps[t], c) by {
        assert(pbs::step_within(steps[t], secrets.len() as int, w, q / 4));
        match steps[t] {
            RotationStep::Secret(i) => {
                assert(rotation::key_encrypts(rotation, secret, RotationStep::Secret(i)));
                assert(key_errors_within(rotation, secret, RotationStep::Secret(i), c));
            },
            RotationStep::Auto(k) => {
                assert(rotation::key_encrypts(rotation, secret, RotationStep::Auto(k)));
                assert(key_errors_within(rotation, secret, RotationStep::Auto(k), c));
            },
        }
    }
    lemma_small_run(rotation, secret, state, steps, b, c);
    lemma_schedule_len(gk, w, q);
    let s = digit_count(rotation) * (n * (b * c));
    let k = total(gk, 0, 2 * (q / 4)) + 2 * (q / 4);
    let bound = k * s;
    assert(0 <= s) by (nonlinear_arith)
        requires
            s == digit_count(rotation) * (n * (b * c)),
            b >= 0,
            c >= 0,
    ;
    assert(0 <= steps.len() * s <= bound) by (nonlinear_arith)
        requires
            bound == k * s,
            0 <= s,
            steps.len() <= k,
    ;
    let noise = rotation::run_noise(rotation, secret, state, steps);
    small::lemma_larger_bound(noise, steps.len() * s, bound, rlwe_q);
    let v = rotation::inverse_run(secret.autos, steps);
    let e = rotation::exponent_run(secrets, secret.autos, 0, steps);
    let moved = automorphism::rotated(
        rgsw::rlwe_phase(state.0, secret.s, rlwe_q),
        v,
        factor * e,
        rlwe_q,
    );
    assert(state.0[0].len() == n && state.0[1].len() == n);
    small::lemma_smallest(moved, noise, bound, rlwe_q);
    (v, e, small::smallest(noise, bound, rlwe_q))
}

/// The exponents that the blind rotation uses: for every entry of the ciphertext after the key
/// switch an odd one, not further than `5/4` from the entry times `br_q / lwe_q`. Where the
/// rescaling makes no rounding error there is only one such odd number less than one below and
/// at most one above.
pub proof fn lemma_exponents<P: PbsInfo, K: PbsKey>(info: P, key: K, lwe_in: Seq<int>, i: int)
    requires
        pbs::pbs_ready(info, key),
        32 * info.parameters().br_q <= double::HIGH,
        0 <= i <= info.parameters().lwe_n,
    ensures
        ({
            let p = info.parameters();
            let d = pbs::switched_down(info, key, lwe_in);
            let odds = pbs::rotation_exponents(info, key, lwe_in);
            &&& odds.len() == p.lwe_n + 1
            &&& d.len() == p.lwe_n + 1
            &&& odds[i] % 2 == 1
            &&& -5 * p.lwe_q <= 4 * (odds[i] * p.lwe_q - d[i] * p.br_q) <= 5 * p.lwe_q
            &&& double::is_exact(d[i], p.lwe_q, p.br_q) ==> (odds[i] - 1) * p.lwe_q <= d[i]
                * p.br_q < (odds[i] + 1) * p.lwe_q
            &&& odds[i] == pbs::odd_up(double::floored(d[i], p.lwe_q, p.br_q))
        }),
{
    let p = info.parameters();
    let d = pbs::switched_down(info, key, lwe_in);
    let odds = pbs::rotation_exponents(info, key, lwe_in);
    let (v, r) = (d[i], odds[i]);
    p.modop_lweq.lemma_q_positive();
    assert(ring::canonical(poly::zeros(p.lwe_n + 1), p.lwe_q));
    lwe::lemma_key_switched(
        poly::zeros(p.lwe_n + 1),
        pbs::rescaled(lwe_in, p.rlwe_q, p.lwe_q),
        key.lwe_ksk_rows(),
        p.lwe_decomposer,
        p.lwe_q,
    );
    assert(0 <= v < p.lwe_q);
    assert(32 * (v * p.br_q) <= 0x20_0000_0000_0000 * p.lwe_q) by (nonlinear_arith)
        requires
            32 * p.br_q <= 0x20_0000_0000_0000,
            0 <= v < p.lwe_q,
            0 < p.br_q,
    ;
    pbs::lemma_odd_rescaling_close(v, p.lwe_q, p.br_q);
    if double::is_exact(v, p.lwe_q, p.br_q) {
        pbs::lemma_odd_rescaling(v, p.lwe_q, p.br_q);
    }
    let x = v * p.br_q;
    assert((4 * r - 5) * p.lwe_q == 4 * (r * p.lwe_q) - 5 * p.lwe_q) by (nonlinear_arith);
    assert((4 * r + 5) * p.lwe_q == 4 * (r * p.lwe_q) + 5 * p.lwe_q) by (nonlinear_arith);
}

/// Inner products of entries that are close are close.
proof fn lemma_dot_close(
    a: Seq<int>,
    d: Seq<int>,
    s: Seq<int>,
    x: int,
    y: int,
    b: int,
    c: int,
    j: int,
)
    requires
        0 <= j <= s.len(),
        a.len() >= j,
        d.len() >= j,
        0 <= b,
        0 <= c,
        forall|i: int| 0 <= i < j ==> -b <= 4 * (#[trigger] a[i] * x - d[i] * y) <= b,
        forall|i: int| 0 <= i < j ==> -c <= #[trigger] s[i] <= c,
    ensures
        -(j * (b * c)) <= 4 * (lwe::dot(a, s, j) * x - lwe::dot(d, s, j) * y) <= j * (b * c),
    decreases j,
{
    if j > 0 {
        lemma_dot_close(a, d, s, x, y, b, c, j - 1);
        let (u, v, z) = (a[j - 1], d[j - 1], s[j - 1]);
        let m = 4 * (u * x - v * y);
        assert(-b <= m <= b);
        assert(-c <= z <= c);
        small::lemma_bounded_product(m, z, b, c);
        let (p, q) = (lwe::dot(a, s, j - 1), lwe::dot(d, s, j - 1));
        assert(4 * ((p + u * z) * x - (q + v * z) * y) == 4 * (p * x - q * y) + m * z)
            by (nonlinear_arith)
            requires
                m == 4 * (u * x - v * y),
        ;
        assert((j - 1) * (b * c) + b * c == j * (b * c)) by (nonlinear_arith);
    } else {
        assert(0 * x == 0 && 0 * y == 0 && 0 * (b * c) == 0) by (nonlinear_arith);
    }
}

/// The whole ciphertext: `b - <a, s>` for entries that are close.
pub proof fn lemma_phase_close(
    a: Seq<int>,
    d: Seq<int>,
    s: Seq<int>,
    x: int,
    y: int,
    b: int,
    c: int,
)
    requires
        a.len() == s.len() + 1,
        d.len() == s.len() + 1,
        0 <= b,
        0 <= c,
        forall|i: int| 0 <= i < a.len() ==> -b <= 4 * (#[trigger] a[i] * x - d[i] * y) <= b,
        forall|i: int| 0 <= i < s.len() ==> -c <= #[trigger] s[i] <= c,
    ensures
        ({
            let m = s.len() as int;
            let u = a[0] - lwe::dot(a.skip(1), s, m);
            let v = d[0] - lwe::dot(d.skip(1), s, m);
            -(b * (1 + m * c)) <= 4 * (u * x - v * y) <= b * (1 + m * c)
        }),
{
    let m = s.len() as int;
    let (a1, d1) = (a.skip(1), d.skip(1));
    assert forall|i: int| 0 <= i < m implies -b <= 4 * (#[trigger] a1[i] * x - d1[i] * y)
        <= b by {
        assert(a1[i] == a[i + 1] && d1[i] == d[i + 1]);
    }
    lemma_dot_close(a1, d1, s, x, y, b, c, m);
    let (u, v) = (lwe::dot(a1, s, m), lwe::dot(d1, s, m));
    assert(-b <= 4 * (a[0] * x - d[0] * y) <= b);
    let (a0, d0) = (a[0], d[0]);
    assert((a0 - u) * x - (d0 - v) * y == (a0 * x - d0 * y) - (u * x - v * y))
        by (nonlinear_arith);
    assert(b * (1 + m * c) == b + m * (b * c)) by (nonlinear_arith);
}

proof fn lemma_small_digit_sum(
    digits: Seq<int>,
    errors: Seq<int>,
    first: int,
    j: int,
    b: int,
    c: int,
    q: int,
)
    requires
        q > 0,
        0 <= b,
        0 <= c,
        0 <= j <= digits.len(),
        small::all_small(digits, b, q),
        forall|t: int| 0 <= t < j ==> -c <= #[trigger] errors[first + t] <= c,
    ensures
        small::is_small(decryption::digit_error_sum(digits, errors, first, j), j * (b * c), q),
    decreases j,
{
    if j > 0 {
        lemma_small_digit_sum(digits, errors, first, j - 1, b, c, q);
        let (x, y) = (digits[j - 1], errors[first + j - 1]);
        assert(small::is_small(x, b, q));
        assert(-c <= errors[first + (j - 1)] <= c);
        small::lemma_is_small(y, y, c, q);
        small::lemma_small_product(x, y, b, c, q);
        assert(0 <= b * c && (j - 1) * (b * c) >= 0) by (nonlinear_arith)
            requires
                0 <= b,
                0 <= c,
                j >= 1,
        ;
        assert((j - 1) * (b * c) + b * c == j * (b * c)) by (nonlinear_arith);
        small::lemma_small_sum(
            decryption::digit_error_sum(digits, errors, first, j - 1),
            x * y,
            (j - 1) * (b * c),
            b * c,
            q,
        );
    } else {
        lemma_small_mod(0, q as nat);
        assert(0 * (b * c) == 0) by (nonlinear_arith);
    }
}

/// The noise of a key switch of `i` entries: each digit adds at most the bounds of a digit and
/// of an error.
pub proof fn lemma_small_key_switch<D: Decomposer>(
    mask: Seq<int>,
    errors: Seq<int>,
    dec: D,
    i: int,
    b: int,
    c: int,
)
    requires
        dec.wf(),
        dec.q() > 0,
        0 <= b,
        0 <= c,
        0 <= i <= mask.len(),
        digits_within(dec, b),
        forall|t: int| 0 <= t < mask.len() ==> 0 <= #[trigger] mask[t] <= dec.q(),
        forall|t: int, j: int|
            0 <= t < i && 0 <= j < dec.count() ==> -c <= #[trigger] errors[t * dec.count() + j]
                <= c,
    ensures
        small::is_small(
            decryption::key_switch_error(mask, errors, dec, i),
            i * (dec.count() * (b * c)),
            dec.q(),
        ),
    decreases i,
{
    let q = dec.q();
    let s = dec.count() * (b * c);
    assert(s >= 0) by (nonlinear_arith)
        requires
            s == dec.count() * (b * c),
            b >= 0,
            c >= 0,
    ;
    if i > 0 {
        lemma_small_key_switch(mask, errors, dec, i - 1, b, c);
        let v = mask[i - 1];
        dec.lemma_digits(v);
        let digits = dec.digits(v);
        assert forall|j: int| 0 <= j < digits.len() implies small::is_small(
            #[trigger] digits[j],
            b,
            q,
        ) by {
            assert(0 <= digits[j] < q);
            backend::lemma_centered(digits[j], q);
            lemma_small_mod(digits[j] as nat, q as nat);
            small::lemma_is_small(backend::centered(dec.digits(v)[j], q), digits[j], b, q);
        }
        let first = (i - 1) * dec.count();
        lemma_small_digit_sum(digits, errors, first, dec.count() as int, b, c, q);
        assert((i - 1) * s >= 0) by (nonlinear_arith)
            requires
                i >= 1,
                s >= 0,
        ;
        assert((i - 1) * s + s == i * s) by (nonlinear_arith);
        small::lemma_small_sum(
            decryption::key_switch_error(mask, errors, dec, i - 1),
            decryption::digit_error_sum(digits, errors, first, dec.count() as int),
            (i - 1) * s,
            s,
            q,
        );
    } else {
        lemma_small_mod(0, q as nat);
        assert(0 * s == 0) by (nonlinear_arith);
    }
}

/// The ciphertext after the first two steps of a bootstrapping decrypts under the LWE secret to
/// `u + err`. Here `u` is close to `lwe_q / rlwe_q` times what the input decrypts to: rounding an
/// entry adds at most `3/4`, for `b` once and for the mask times a secret element. And `err` is
/// bounded by the errors of the key: each digit adds at most the bounds on a digit and an error.
pub proof fn lemma_switched_down<P: PbsInfo, K: PbsKey>(
    info: P,
    key: K,
    lwe_in: Seq<int>,
    s: Seq<int>,
    z: Seq<int>,
    errors: Seq<int>,
    s_bound: int,
    digit_bound: int,
    error_bound: int,
) -> (r: (int, int))
    requires
        pbs::pbs_ready(info, key),
        0 < info.parameters().rlwe_q,
        32 * info.parameters().lwe_q <= double::HIGH,
        lwe_in.len() == info.parameters().rlwe_n + 1,
        ring::canonical(lwe_in, info.parameters().rlwe_q),
        s.len() == info.parameters().rlwe_n,
        forall|i: int| 0 <= i < s.len() ==> -s_bound <= #[trigger] s[i] <= s_bound,
        0 <= s_bound,
        z.len() == info.parameters().lwe_n,
        decryption::recomposes(info.parameters().lwe_decomposer),
        0 <= digit_bound,
        0 <= error_bound,
        digits_within(info.parameters().lwe_decomposer, digit_bound),
        ({
            let dec = info.parameters().lwe_decomposer;
            forall|i: int, j: int|
                0 <= i < s.len() && 0 <= j < dec.count() ==> (#[trigger] key.lwe_ksk_rows()[i
                    * dec.count() + j]).len() == z.len() + 1 && lwe::lwe_phase(
                    key.lwe_ksk_rows()[i * dec.count() + j],
                    z,
                    dec.q(),
                ) == (dec.gadget()[j] * (-s[i]) + errors[i * dec.count() + j]) % dec.q()
        }),
        forall|i: int, j: int|
            0 <= i < s.len() && 0 <= j < info.parameters().lwe_decomposer.count() ==> -error_bound
                <= #[trigger] errors[i * info.parameters().lwe_decomposer.count() + j]
                <= error_bound,
    ensures
        ({
            let p = info.parameters();
            let d = pbs::switched_down(info, key, lwe_in);
            let (u, err) = r;
            let bound = p.rlwe_n * (p.lwe_decomposer.count() * (digit_bound * error_bound));
            let off = 3 * p.rlwe_q * (1 + p.rlwe_n * s_bound);
            &&& d.len() == p.lwe_n + 1
            &&& ring::canonical(d, p.lwe_q)
            &&& lwe::lwe_phase(d, z, p.lwe_q) == (u + err) % p.lwe_q
            &&& -off <= 4 * (u * p.rlwe_q - lwe::lwe_phase(lwe_in, s, p.rlwe_q) * p.lwe_q) <= off
            &&& -bound <= err <= bound
        }),
{
    let p = info.parameters();
    let (big, q) = (p.rlwe_q, p.lwe_q);
    let dec = p.lwe_decomposer;
    let n = s.len() as int;
    p.modop_lweq.lemma_q_positive();
    let scaled = pbs::rescaled(lwe_in, big, q);
    let d = pbs::switched_down(info, key, lwe_in);
    assert forall|i: int| 0 <= i < scaled.len() implies 0 <= #[trigger] scaled[i] <= q && -3 * big
        <= 4 * (scaled[i] * big - lwe_in[i] * q) <= 3 * big by {
        let v = lwe_in[i];
        double::lemma_rescaled_range(v, big, q);
        assert(32 * (v * q) <= 0x20_0000_0000_0000 * big) by (nonlinear_arith)
            requires
                32 * q <= 0x20_0000_0000_0000,
                0 <= v < big,
                0 < q,
        ;
        double::lemma_rescaled_close(v, big, q);
    }
    let out = poly::zeros(p.lwe_n + 1);
    assert(ring::canonical(out, q));
    lwe::lemma_key_switched(out, scaled, key.lwe_ksk_rows(), dec, q);
    decryption::lemma_key_switch(out, scaled, key.lwe_ksk_rows(), s, errors, z, dec);
    assert(lwe::lwe_mask(out) =~= poly::zeros(p.lwe_n));
    crate::print_noise::lemma_zero_mask(z, z.len() as int);
    lemma_small_mod(0, q as nat);
    let mask = lwe::lwe_mask(scaled);
    assert forall|t: int| 0 <= t < mask.len() implies 0 <= #[trigger] mask[t] <= q by {
        assert(mask[t] == scaled[t + 1]);
    }
    lemma_small_key_switch(mask, errors, dec, n, digit_bound, error_bound);
    let bound = n * (dec.count() * (digit_bound * error_bound));
    assert(bound >= 0) by (nonlinear_arith)
        requires
            bound == n * (dec.count() * (digit_bound * error_bound)),
            n >= 0,
            digit_bound >= 0,
            error_bound >= 0,
    ;
    let total_error = decryption::key_switch_error(mask, errors, dec, n);
    small::lemma_small(total_error, bound, q);
    let err = small::small(total_error, bound, q);
    // phases as integers
    let x = scaled[0] - lwe::dot(mask, s, n);
    let y = lwe_in[0] - lwe::dot(lwe::lwe_mask(lwe_in), s, n);
    lemma_phase_close(scaled, lwe_in, s, big, q, 3 * big, s_bound);
    let phi = lwe::lwe_phase(lwe_in, s, big);
    let k = y / big;
    lemma_fundamental_div_mod(y, big);
    let u = x - q * k;
    assert(u * big - phi * q == x * big - y * q) by (nonlinear_arith)
        requires
            u == x - q * k,
            y == big * k + phi,
    ;
    // (x % q + total_error) % q == (u + err) % q
    lemma_mod_multiples_vanish(-k, x, q);
    assert(q * (-k) + x == u) by (nonlinear_arith)
        requires
            u == x - q * k,
    ;
    lemma_add_mod_noop(x % q, total_error, q);
    lemma_mod_twice(x, q);
    lemma_add_mod_noop(u, err, q);
    (u, err)
}

proof fn lemma_dot_reduced(a: Seq<int>, s: Seq<int>, q: int, j: int)
    requires
        q > 0,
        0 <= j <= s.len(),
    ensures
        lwe::dot(a, ring::reduced(s, q), j) % q == lwe::dot(a, s, j) % q,
    decreases j,
{
    if j > 0 {
        lemma_dot_reduced(a, s, q, j - 1);
        let (x, y) = (a[j - 1], s[j - 1]);
        lemma_mul_mod_noop_right(x, y, q);
        lemma_add_mod_noop(lwe::dot(a, ring::reduced(s, q), j - 1), x * (y % q), q);
        lemma_add_mod_noop(lwe::dot(a, s, j - 1), x * y, q);
    }
}

/// A ciphertext decrypts to the same under a secret and under its residues.
pub proof fn lemma_phase_reduced(ct: Seq<int>, s: Seq<int>, q: int)
    requires
        q > 0,
    ensures
        lwe::lwe_phase(ct, ring::reduced(s, q), q) == lwe::lwe_phase(ct, s, q),
{
    let m = lwe::lwe_mask(ct);
    lemma_dot_reduced(m, s, q, s.len() as int);
    lemma_sub_mod_noop(ct[0], lwe::dot(m, s, s.len() as int), q);
    lemma_sub_mod_noop(ct[0], lwe::dot(m, ring::reduced(s, q), s.len() as int), q);
}

/// The noise of the blind rotation of a bootstrapping is bounded.
proof fn lemma_small_bootstrap<P: PbsInfo, K: PbsKey>(
    info: P,
    key: K,
    secret: RotationSecret,
    z: Seq<int>,
    test_vec: Seq<int>,
    odds: Seq<int>,
    b: int,
    c: int,
)
    requires
        pbs::pbs_ready(info, key),
        rotation::is_exact(pbs::rotation_of(info, key)),
        secret.s.len() == info.parameters().rlwe_n,
        ring::canonical(secret.s, info.parameters().rlwe_q),
        z.len() == info.parameters().lwe_n,
        info.parameters().lwe_n <= usize::MAX,
        2 * info.parameters().rlwe_n == info.parameters().embedding_factor
            * info.parameters().br_q,
        rotation::is_dlog_map(
            info.parameters().g_k_dlog_map,
            info.parameters().g,
            info.parameters().br_q,
        ),
        pow(info.parameters().g, (info.parameters().br_q / 4) as nat) % info.parameters().br_q
            == 1,
        forall|i: int|
            0 <= i < z.len() ==> #[trigger] rotation::key_encrypts(
                pbs::rotation_of(info, key),
                secret,
                RotationStep::Secret(i),
            ) && secret.exponents[i] == info.parameters().embedding_factor * z[i],
        forall|k: int|
            pbs::in_window(k, info.parameters().w) && k < info.parameters().br_q / 4
                ==> #[trigger] rotation::key_encrypts(
                pbs::rotation_of(info, key),
                secret,
                RotationStep::Auto(k),
            ),
        forall|k: int|
            pbs::in_window(k, info.parameters().w) && k < info.parameters().br_q / 4
                ==> #[trigger] rotation::is_power(
                secret.autos,
                info.parameters().g,
                info.parameters().br_q,
                k,
            ),
        test_vec.len() == info.parameters().br_q / 2,
        odds.len() == z.len() + 1,
        0 <= b,
        0 <= c,
        rotation_digits_within(pbs::rotation_of(info, key), b),
        forall|i: int|
            0 <= i < z.len() ==> #[trigger] key_errors_within(
                pbs::rotation_of(info, key),
                secret,
                RotationStep::Secret(i),
                c,
            ),
        forall|k: int|
            pbs::in_window(k, info.parameters().w) && k < info.parameters().br_q / 4
                ==> #[trigger] key_errors_within(
                pbs::rotation_of(info, key),
                secret,
                RotationStep::Auto(k),
                c,
            ),
    ensures
        ({
            let p = info.parameters();
            let rotation = pbs::rotation_of(info, key);
            let noise = rotation::run_noise(
                rotation,
                secret,
                pbs::rotation_start(info, test_vec, odds[0]),
                pbs::rotation_steps(info, odds.skip(1)),
            );
            small::is_small(
                noise[0],
                (p.lwe_n + p.br_q / 2) * (digit_count(rotation) * (p.rlwe_n * (b * c))),
                p.rlwe_q,
            )
        }),
{
    let p = info.parameters();
    let rotation = pbs::rotation_of(info, key);
    let (n, q) = (p.rlwe_n, p.rlwe_q);
    p.nttop_rlweq.lemma_positive();
    let state = pbs::rotation_start(info, test_vec, odds[0]);
    let mask = odds.skip(1);
    let steps = pbs::rotation_steps(info, mask);
    let half = p.br_q / 2;
    let m = mask.len() as int;
    let gk = pbs::buckets(mask, p.g_k_dlog_map, half, m);
    assert forall|i: int, t: int| 0 <= i < gk.len() && 0 <= t < gk[i].len() implies 0
        <= #[trigger] gk[i][t] < m by {
        pbs::lemma_bucket(mask, p.g_k_dlog_map, i, m);
        assert(gk[i] == pbs::bucket(mask, p.g_k_dlog_map, i, m));
    }
    pbs::lemma_schedule_within(gk, p.w, p.br_q, m);
    assert forall|t: int| 0 <= t < steps.len() implies rotation::key_encrypts(
        rotation,
        secret,
        #[trigger] steps[t],
    ) && key_errors_within(rotation, secret, steps[t], c) by {
        assert(pbs::step_within(steps[t], m, p.w, p.br_q / 4));
        match steps[t] {
            RotationStep::Secret(i) => {
                assert(rotation::key_encrypts(rotation, secret, RotationStep::Secret(i)));
                assert(key_errors_within(rotation, secret, RotationStep::Secret(i), c));
            },
            RotationStep::Auto(k) => {
                assert(rotation::key_encrypts(rotation, secret, RotationStep::Auto(k)));
                assert(key_errors_within(rotation, secret, RotationStep::Auto(k), c));
            },
        }
    }
    rotation::lemma_start(test_vec, p.g * odds[0], p.embedding_factor, secret.s, n, q);
    lemma_small_run(rotation, secret, state, steps, b, c);
    lemma_schedule_len(gk, p.w, p.br_q);
    lemma_total_buckets(mask, p.g_k_dlog_map, half, m, half);
    let s = digit_count(rotation) * (n * (b * c));
    assert(0 <= s) by (nonlinear_arith)
        requires
            s == digit_count(rotation) * (n * (b * c)),
            b >= 0,
            c >= 0,
    ;
    assert(steps.len() * s <= (p.lwe_n + half) * s) by (nonlinear_arith)
        requires
            0 <= s,
            steps.len() <= p.lwe_n + half,
    ;
    let noise = rotation::run_noise(rotation, secret, state, steps);
    assert(small::is_small(noise[0], steps.len() * s, q));
}

/// A bootstrapping of a ciphertext that decrypts to `phase` under `s` gives one that decrypts
/// under `s` to the coefficient of the test polynomial at `-g * t`, plus noise. Here `t` is close
/// to `br_q / rlwe_q` times `phase`: from it, it is off by `br_q / lwe_q` times the error `err` of
/// the key switch, by at most `3/4` times `br_q / lwe_q` for each entry that is rescaled first,
/// and by at most `5/4` for each entry that is rescaled for the rotation, both for `b` once and
/// for the mask times a secret element. The error of the key switch is bounded by its digits
/// times the errors of its key; the noise by the number of steps, digits and coefficients times
/// the bounds on a digit and an error of the keys.
pub proof fn lemma_bootstrapping<P: PbsInfo, K: PbsKey>(
    info: P,
    key: K,
    secret: RotationSecret,
    s: Seq<int>,
    z: Seq<int>,
    ksk_errors: Seq<int>,
    test_vec: Seq<int>,
    lwe_in: Seq<int>,
    s_bound: int,
    z_bound: int,
    digit_bound: int,
    error_bound: int,
    ksk_digit_bound: int,
    ksk_error_bound: int,
) -> (r: (int, int, int))
    requires
        pbs::pbs_ready(info, key),
        pbs::input_fits(info, key, lwe_in),
        rotation::is_exact(pbs::rotation_of(info, key)),
        secret.s.len() == info.parameters().rlwe_n,
        ring::canonical(secret.s, info.parameters().rlwe_q),
        z.len() == info.parameters().lwe_n,
        info.parameters().lwe_n <= usize::MAX,
        2 * info.parameters().rlwe_n == info.parameters().embedding_factor
            * info.parameters().br_q,
        rotation::is_dlog_map(
            info.parameters().g_k_dlog_map,
            info.parameters().g,
            info.parameters().br_q,
        ),
        pow(info.parameters().g, (info.parameters().br_q / 4) as nat) % info.parameters().br_q
            == 1,
        forall|i: int|
            0 <= i < z.len() ==> #[trigger] rotation::key_encrypts(
                pbs::rotation_of(info, key),
                secret,
                RotationStep::Secret(i),
            ) && secret.exponents[i] == info.parameters().embedding_factor * z[i],
        forall|k: int|
            pbs::in_window(k, info.parameters().w) && k < info.parameters().br_q / 4
                ==> #[trigger] rotation::key_encrypts(
                pbs::rotation_of(info, key),
                secret,
                RotationStep::Auto(k),
            ),
        forall|k: int|
            pbs::in_window(k, info.parameters().w) && k < info.parameters().br_q / 4
                ==> #[trigger] rotation::is_power(
                secret.autos,
                info.parameters().g,
                info.parameters().br_q,
                k,
            ),
        32 * info.parameters().lwe_q <= double::HIGH,
        32 * info.parameters().br_q <= double::HIGH,
        test_vec.len() == info.parameters().br_q / 2,
        lwe_in.len() == info.parameters().rlwe_n + 1,
        ring::canonical(lwe_in, info.parameters().rlwe_q),
        s.len() == info.parameters().rlwe_n,
        secret.s == ring::reduced(s, info.parameters().rlwe_q),
        0 <= s_bound,
        forall|i: int| 0 <= i < s.len() ==> -s_bound <= #[trigger] s[i] <= s_bound,
        0 <= z_bound,
        forall|i: int| 0 <= i < z.len() ==> -z_bound <= #[trigger] z[i] <= z_bound,
        0 <= digit_bound,
        0 <= error_bound,
        rotation_digits_within(pbs::rotation_of(info, key), digit_bound),
        forall|i: int|
            0 <= i < z.len() ==> #[trigger] key_errors_within(
                pbs::rotation_of(info, key),
                secret,
                RotationStep::Secret(i),
                error_bound,
            ),
        forall|k: int|
            pbs::in_window(k, info.parameters().w) && k < info.parameters().br_q / 4
                ==> #[trigger] key_errors_within(
                pbs::rotation_of(info, key),
                secret,
                RotationStep::Auto(k),
                error_bound,
            ),
        decryption::recomposes(info.parameters().lwe_decomposer),
        0 <= ksk_digit_bound,
        0 <= ksk_error_bound,
        digits_within(info.parameters().lwe_decomposer, ksk_digit_bound),
        ({
            let dec = info.parameters().lwe_decomposer;
            forall|i: int, j: int|
                0 <= i < s.len() && 0 <= j < dec.count() ==> (#[trigger] key.lwe_ksk_rows()[i
                    * dec.count() + j]).len() == z.len() + 1 && lwe::lwe_phase(
                    key.lwe_ksk_rows()[i * dec.count() + j],
                    z,
                    dec.q(),
                ) == (dec.gadget()[j] * (-s[i]) + ksk_errors[i * dec.count() + j]) % dec.q()
        }),
        forall|i: int, j: int|
            0 <= i < s.len() && 0 <= j < info.parameters().lwe_decomposer.count()
                ==> -ksk_error_bound <= #[trigger] ksk_errors[i
                * info.parameters().lwe_decomposer.count() + j] <= ksk_error_bound,
    ensures
        ({
            let p = info.parameters();
            let phase = lwe::lwe_phase(lwe_in, s, p.rlwe_q);
            let (t, err, noise) = r;
            let off = 3 * p.br_q * p.rlwe_q * (1 + p.rlwe_n * s_bound) + 5 * p.rlwe_q * p.lwe_q * (1
                + p.lwe_n * z_bound);
            let switch_bound = p.rlwe_n * (p.lwe_decomposer.count() * (ksk_digit_bound
                * ksk_error_bound));
            let digits = p.rlwe_rgsw_decomposer.0.count() + p.rlwe_rgsw_decomposer.1.count()
                + p.auto_decomposer.count();
            let noise_bound = (p.lwe_n + p.br_q / 2) * (digits * (p.rlwe_n * (digit_bound
                * error_bound)));
            &&& lwe::lwe_phase(
                pbs::bootstrapped(info, key, test_vec, lwe_in),
                s,
                p.rlwe_q,
            ) == (ring::coeff_at(test_vec, -(p.g * t)) + noise) % p.rlwe_q
            &&& -off <= 4 * (t * (p.rlwe_q * p.lwe_q) - p.br_q * (phase * p.lwe_q + err
                * p.rlwe_q)) <= off
            &&& -switch_bound <= err <= switch_bound
            &&& -noise_bound <= noise <= noise_bound
        }),
{
    let p = info.parameters();
    let (big, q, m) = (p.rlwe_q, p.lwe_q, p.br_q);
    p.nttop_rlweq.lemma_positive();
    p.modop_lweq.lemma_q_positive();
    let (u, err) = lemma_switched_down(
        info,
        key,
        lwe_in,
        s,
        z,
        ksk_errors,
        s_bound,
        ksk_digit_bound,
        ksk_error_bound,
    );
    let d = pbs::switched_down(info, key, lwe_in);
    let odds = pbs::rotation_exponents(info, key, lwe_in);
    let count = z.len() as int;
    assert forall|i: int| 0 <= i < odds.len() implies -(5 * q) <= 4 * (#[trigger] odds[i] * q - d[i]
        * m) <= 5 * q by {
        lemma_exponents(info, key, lwe_in, i);
    }
    lemma_exponents(info, key, lwe_in, 0);
    lemma_phase_close(odds, d, z, q, m, 5 * q, z_bound);
    let x = odds[0] - lwe::dot(odds.skip(1), z, count);
    let y = d[0] - lwe::dot(d.skip(1), z, count);
    // y = u + err + q * k
    let k = small::lemma_congruent(y, u + err, q);
    let t = x - m * k;
    let phase = lwe::lwe_phase(lwe_in, s, big);
    lemma_close_chain(x, y, t, k, u, err, phase, big, q, m);
    let (e1, e2) = (5 * q * (1 + count * z_bound), 3 * big * (1 + p.rlwe_n * s_bound));
    small::lemma_close_bound(4 * (x * q - y * m), e1, 4 * (u * big - phase * q), e2, big, m);
    let (a1, a2) = (x * q - y * m, u * big - phase * q);
    assert(big * (4 * a1) == 4 * (big * a1)) by (nonlinear_arith);
    assert(m * (4 * a2) == 4 * (m * a2)) by (nonlinear_arith);
    assert(big * e1 + m * e2 == 3 * m * big * (1 + p.rlwe_n * s_bound) + 5 * big * q * (1 + count
        * z_bound)) by (nonlinear_arith)
        requires
            e1 == 5 * q * (1 + count * z_bound),
            e2 == 3 * big * (1 + p.rlwe_n * s_bound),
    ;
    // the coefficient
    rotation::lemma_pbs(info, key, secret, z, test_vec, lwe_in);
    automorphism::lemma_coeff_at_shifted(test_vec, -(p.g * x), p.g * k);
    assert(-(p.g * x) + 2 * test_vec.len() * (p.g * k) == -(p.g * t)) by (nonlinear_arith)
        requires
            t == x - m * k,
            2 * test_vec.len() == m,
    ;
    // the noise
    lemma_small_bootstrap(info, key, secret, z, test_vec, odds, digit_bound, error_bound);
    let rotation = pbs::rotation_of(info, key);
    let noise = rotation::run_noise(
        rotation,
        secret,
        pbs::rotation_start(info, test_vec, odds[0]),
        pbs::rotation_steps(info, odds.skip(1)),
    )[0];
    let bound = (p.lwe_n + p.br_q / 2) * (digit_count(rotation) * (p.rlwe_n * (digit_bound
        * error_bound)));
    assert(bound >= 0) by (nonlinear_arith)
        requires
            bound == (p.lwe_n + p.br_q / 2) * (digit_count(rotation) * (p.rlwe_n * (digit_bound
                * error_bound))),
            p.br_q > 0,
            digit_bound >= 0,
            error_bound >= 0,
    ;
    small::lemma_small(noise, bound, big);
    let c = ring::coeff_at(test_vec, -(p.g * t));
    lemma_add_mod_noop(c, noise, big);
    lemma_add_mod_noop(c, small::small(noise, bound, big), big);
    lemma_phase_reduced(pbs::bootstrapped(info, key, test_vec, lwe_in), s, big);
    (t, err, small::small(noise, bound, big))
}

/// How the errors of the two rescalings and of the key switch come together.
pub proof fn lemma_close_chain(
    x: int,
    y: int,
    t: int,
    k: int,
    u: int,
    err: int,
    phase: int,
    big: int,
    q: int,
    m: int,
)
    requires
        y == u + err + q * k,
        t == x - m * k,
    ensures
        t * (big * q) - m * (phase * q + err * big) == big * (x * q - y * m) + m * (u * big - phase
            * q),
{
    assert(t * (big * q) == big * (x * q) - big * (m * k * q)) by (nonlinear_arith)
        requires
            t == x - m * k,
    ;
    assert(y * m == u * m + err * m + m * k * q) by (nonlinear_arith)
        requires
            y == u + err + q * k,
    ;
    assert(big * (x * q - (u * m + err * m + m * k * q)) == big * (x * q) - big * (u * m) - big * (
    err * m) - big * (m * k * q)) by (nonlinear_arith);
    assert(m * (u * big - phase * q) == big * (u * m) - m * (phase * q)) by (nonlinear_arith);
    assert(m * (phase * q + err * big) == m * (phase * q) + big * (err * m)) by (nonlinear_arith);
}

/// The lists of entries by their discrete logarithms: each list holds exactly the indices of the
/// entries that have its discrete logarithm, in increasing order.
pub proof fn lemma_bucket_entries(odds: Seq<int>, dlog: Seq<usize>, k: int, j: int)
    requires
        0 <= j <= usize::MAX,
    ensures
        forall|i: int|
            0 <= i < j ==> (dlog[#[trigger] odds[i]] == k <==> pbs::bucket(
                odds,
                dlog,
                k,
                j,
            ).contains(i as usize)),
        forall|t: int|
            0 <= t < pbs::bucket(odds, dlog, k, j).len() ==> #[trigger] pbs::bucket(
                odds,
                dlog,
                k,
                j,
            )[t] < j,
        forall|t: int, u: int|
            0 <= t < u < pbs::bucket(odds, dlog, k, j).len() ==> #[trigger] pbs::bucket(
                odds,
                dlog,
                k,
                j,
            )[t] < #[trigger] pbs::bucket(odds, dlog, k, j)[u],
    decreases j,
{
    pbs::lemma_bucket(odds, dlog, k, j);
    if j > 0 {
        lemma_bucket_entries(odds, dlog, k, j - 1);
        let (before, now) = (pbs::bucket(odds, dlog, k, j - 1), pbs::bucket(odds, dlog, k, j));
        let last = (j - 1) as usize;
        assert forall|i: int| 0 <= i < j implies (dlog[#[trigger] odds[i]] == k <==> now.contains(
            i as usize,
        )) by {
            if dlog[odds[j - 1]] == k {
                assert(now[now.len() - 1] == last);
                if i < j - 1 {
                    if before.contains(i as usize) {
                        let t = choose|t: int| 0 <= t < before.len() && before[t] == i as usize;
                        assert(now[t] == i as usize);
                    }
                    if now.contains(i as usize) {
                        let t = choose|t: int| 0 <= t < now.len() && now[t] == i as usize;
                        assert(t < before.len());
                        assert(before[t] == i as usize);
                    }
                }
            } else if i == j - 1 {
                if before.contains(last) {
                    let t = choose|t: int| 0 <= t < before.len() && before[t] == last;
                    assert(before[t] < j - 1);
                }
            }
        }
        assert forall|t: int, u: int| 0 <= t < u < now.len() implies #[trigger] now[t]
            < #[trigger] now[u] by {
            if u < before.len() {
                assert(before[t] < before[u]);
            } else {
                assert(before[t] < j - 1);
            }
        }
    }
}

/// Two steps one after the other: an automorphism for a power of `g` that another one follows
/// closes a whole window, and secret elements come in increasing order.
spec fn in_order(x: RotationStep, y: RotationStep, w: int) -> bool {
    match (x, y) {
        (RotationStep::Auto(a), RotationStep::Auto(b)) => a > 0 && b > 0 ==> a == w,
        (RotationStep::Secret(a), RotationStep::Secret(b)) => a < b,
        _ => true,
    }
}

spec fn all_in_order(steps: Seq<RotationStep>, w: int) -> bool {
    forall|t: int|
        #![trigger steps[t]]
        0 <= t < steps.len() - 1 ==> in_order(steps[t], steps[t + 1], w)
}

proof fn lemma_order_append(x: Seq<RotationStep>, y: Seq<RotationStep>, w: int)
    requires
        all_in_order(x, w),
        all_in_order(y, w),
        x.len() > 0 && y.len() > 0 ==> in_order(x.last(), y[0], w),
    ensures
        all_in_order(x + y, w),
{
    let r = x + y;
    assert forall|t: int|
        #![trigger r[t]]
        0 <= t < r.len() - 1 implies in_order(r[t], r[t + 1], w) by {
        if t + 1 < x.len() {
            assert(r[t] == x[t] && r[t + 1] == x[t + 1]);
        } else if t >= x.len() {
            assert(r[t] == y[t - x.len()] && r[t + 1] == y[t - x.len() + 1]);
        }
    }
}

proof fn lemma_secret_order(list: Seq<usize>, w: int)
    requires
        forall|t: int, u: int| 0 <= t < u < list.len() ==> #[trigger] list[t] < #[trigger] list[u],
    ensures
        all_in_order(pbs::secret_steps(list), w),
{
}

proof fn lemma_descent_order(gk: Seq<Seq<usize>>, base: int, i: int, v: int, w: int)
    requires
        0 <= base,
        0 <= i,
        base + i < gk.len(),
        0 <= v,
        forall|k: int, t: int, u: int|
            0 <= k < gk.len() && 0 <= t < u < gk[k].len() ==> #[trigger] gk[k][t]
                < #[trigger] gk[k][u],
    ensures
        all_in_order(pbs::descent(gk, base, i, v, w), w),
        i > 0 ==> pbs::descent(gk, base, i, v, w).len() > 0 && pbs::descent(
            gk,
            base,
            i,
            v,
            w,
        ).last() is Auto,
        i > 0 && gk[base + i].len() == 0 ==> pbs::descent(gk, base, i, v, w)[0] is Auto,
        i > 0 && gk[base + i].len() > 0 ==> pbs::descent(gk, base, i, v, w)[0] is Secret,
    decreases i,
{
    if i > 0 {
        let s = pbs::secret_steps(gk[base + i]);
        lemma_secret_order(gk[base + i], w);
        if gk[base + i - 1].len() != 0 || v + 1 == w || i == 1 {
            lemma_descent_order(gk, base, i - 1, 0, w);
            let a = seq![RotationStep::Auto(v + 1)];
            let rest = pbs::descent(gk, base, i - 1, 0, w);
            assert(all_in_order(a, w));
            lemma_order_append(s, a, w);
            assert((s + a).last() == a[0]);
            lemma_order_append(s + a, rest, w);
            let d = s + a + rest;
            assert(d == pbs::descent(gk, base, i, v, w));
            if rest.len() > 0 {
                assert(d.last() == rest.last());
            } else {
                assert(d.last() == a[0]);
            }
            if s.len() > 0 {
                assert(d[0] == s[0]);
            } else {
                assert(d[0] == a[0]);
            }
        } else {
            lemma_descent_order(gk, base, i - 1, v + 1, w);
            let rest = pbs::descent(gk, base, i - 1, v + 1, w);
            lemma_order_append(s, rest, w);
            let d = s + rest;
            assert(d == pbs::descent(gk, base, i, v, w));
            assert(d.last() == rest.last());
            if s.len() > 0 {
                assert(d[0] == s[0]);
            } else {
                assert(d[0] == rest[0]);
            }
        }
    }
}

/// How the steps of a blind rotation follow each other, for lists in increasing order: two products
/// without an automorphism between them are with secret elements in increasing order, and of two
/// automorphisms for powers of `g` without a product between them, the first closes a whole window.
pub proof fn lemma_schedule_order(gk: Seq<Seq<usize>>, w: int, q: int, t: int)
    requires
        q >= 4,
        gk.len() >= 2 * (q / 4),
        forall|k: int, i: int, j: int|
            0 <= k < gk.len() && 0 <= i < j < gk[k].len() ==> #[trigger] gk[k][i]
                < #[trigger] gk[k][j],
        0 <= t < pbs::schedule(gk, w, q).len() - 1,
    ensures
        match (pbs::schedule(gk, w, q)[t], pbs::schedule(gk, w, q)[t + 1]) {
            (RotationStep::Auto(a), RotationStep::Auto(b)) => a > 0 && b > 0 ==> a == w,
            (RotationStep::Secret(a), RotationStep::Secret(b)) => a < b,
            _ => true,
        },
{
    let l = q / 4;
    let (a, b, d, e) = (
        pbs::descent(gk, l, l - 1, 0, w),
        pbs::secret_steps(gk[l]),
        pbs::descent(gk, 0, l - 1, 0, w),
        pbs::secret_steps(gk[0]),
    );
    let c = seq![RotationStep::Auto(0)];
    lemma_descent_order(gk, l, l - 1, 0, w);
    lemma_descent_order(gk, 0, l - 1, 0, w);
    lemma_secret_order(gk[l], w);
    lemma_secret_order(gk[0], w);
    assert(all_in_order(c, w));
    lemma_order_append(a, b, w);
    let ab = a + b;
    if b.len() > 0 {
        assert(ab.last() == b.last());
    } else {
        assert(ab =~= a);
    }
    lemma_order_append(ab, c, w);
    assert((ab + c).last() == c[0]);
    lemma_order_append(ab + c, d, w);
    let abcd = ab + c + d;
    if d.len() > 0 {
        assert(abcd.last() == d.last());
    } else {
        assert(abcd =~= ab + c);
    }
    lemma_order_append(abcd, e, w);
    let steps = pbs::schedule(gk, w, q);
    assert(steps == abcd + e);
    assert(in_order(steps[t], steps[t + 1], w));
}

/// The number of entries of lists, list by list; and the window.
pub proof fn lemma_totals(gk: Seq<Seq<usize>>, from: int, to: int, k: int, w: int)
    ensures
        from <= to ==> total(gk, from, from) == 0 && total(gk, from, to + 1) == total(gk, from, to)
            + gk[to].len(),
        pbs::in_window(k, w) <==> 0 <= k && (w <= 0 || k <= w),
{
}

/// The digits to a base are at most half of the base in magnitude.
pub proof fn lemma_default_digits_within(d: DefaultDecomposer, b: int)
    requires
        d.wf(),
        d.base <= 2 * b,
    ensures
        digits_within(d, b),
{
    let q = d.q as int;
    assert forall|v: int, j: int| 0 <= v <= d.q() && 0 <= j < d.count() implies -b
        <= backend::centered(#[trigger] d.digits(v)[j], d.q()) <= b by {
        decomposer::lemma_digits_small(d, v, j);
        let x = d.signed_digit(v, j);
        if 2 * x > -q {
            backend::lemma_centered_residue(x, q);
        } else {
            lemma_fundamental_div_mod_converse(x, q, -1, x + q);
        }
    }
}

} // verus!
