//! Bootstrapping with digits that recompose only approximately.
//!
//! The digits of a residue may recompose to a number that is off by some bounded amount. That adds
//! to the noise of each step and to the error of the key switch; the rest is as with digits that
//! recompose.
use crate::automorphism;
use crate::backend::{self, Residues};
use crate::bootstrap;
use crate::decomposer::{self, Decomposer};
use crate::decryption;
use crate::double;
use crate::lwe;
use crate::ntt::Ntt;
use crate::pbs::{self, PbsInfo, PbsKey, Rotation, RotationStep, WithShoupRepr};
use crate::poly;
use crate::print_noise;
use crate::rgsw;
use crate::ring;
use crate::rotation::{self, RotationSecret};
use crate::small;
use vstd::arithmetic::div_mod::*;
use vstd::arithmetic::mul::*;
use vstd::arithmetic::power::*;
use vstd::prelude::*;

verus! {

/// What the digits of a residue recompose to is off by at most `b`.
pub open spec fn misses_within<D: Decomposer>(dec: D, b: int) -> bool {
    forall|v: int|
        0 <= v <= dec.q() ==> -b <= backend::centered(
            (#[trigger] decomposer::recomposed(dec.digits(v), dec.gadget(), dec.count() as int) - v)
                % dec.q(),
            dec.q(),
        ) <= b
}

/// What it means that digits recompose approximately; with a bound of zero they recompose.
pub proof fn lemma_misses_within<D: Decomposer>(dec: D, b: int)
    requires
        dec.q() > 0,
    ensures
        misses_within(dec, b) <==> (forall|v: int|
            0 <= v <= dec.q() ==> -b <= backend::centered(
                (#[trigger] decomposer::recomposed(
                    dec.digits(v),
                    dec.gadget(),
                    dec.count() as int,
                ) - v) % dec.q(),
                dec.q(),
            ) <= b),
        decryption::recomposes(dec) ==> misses_within(dec, 0),
{
    let q = dec.q();
    if decryption::recomposes(dec) {
        assert forall|v: int| 0 <= v <= q implies 0 <= backend::centered(
            (#[trigger] decomposer::recomposed(dec.digits(v), dec.gadget(), dec.count() as int) - v)
                % q,
            q,
        ) <= 0 by {
            let r = decomposer::recomposed(dec.digits(v), dec.gadget(), dec.count() as int);
            lemma_sub_mod_noop(r, v, q);
            lemma_small_mod(0, q as nat);
        }
    }
}

/// The coefficients of two polynomials differ by small numbers.
pub open spec fn close(x: Seq<int>, y: Seq<int>, b: int, q: int) -> bool {
    &&& x.len() == y.len()
    &&& forall|i: int| 0 <= i < x.len() ==> small::is_small(#[trigger] x[i] - y[i], b, q)
}

proof fn lemma_small_residues(u: int, v: int, b: int, q: int)
    requires
        q > 0,
        0 <= b,
        small::is_small(u - v, b, q),
    ensures
        small::is_small(u % q - v % q, b, q),
{
    lemma_sub_mod_noop(u, v, q);
}

proof fn lemma_close_trans(x: Seq<int>, y: Seq<int>, z: Seq<int>, b: int, c: int, q: int)
    requires
        q > 0,
        0 <= b,
        0 <= c,
        close(x, y, b, q),
        close(y, z, c, q),
    ensures
        close(x, z, b + c, q),
{
    assert forall|i: int| 0 <= i < x.len() implies small::is_small(
        #[trigger] x[i] - z[i],
        b + c,
        q,
    ) by {
        assert(small::is_small(x[i] - y[i], b, q) && small::is_small(y[i] - z[i], c, q));
        small::lemma_small_sum(x[i] - y[i], y[i] - z[i], b, c, q);
    }
}

proof fn lemma_close_refl(x: Seq<int>, b: int, q: int)
    requires
        q > 0,
        0 <= b,
    ensures
        close(x, x, b, q),
{
    assert forall|i: int| 0 <= i < x.len() implies small::is_small(
        #[trigger] x[i] - x[i],
        b,
        q,
    ) by {
        lemma_small_mod(0, q as nat);
    }
}

proof fn lemma_close_noise(x: Seq<int>, e: Seq<int>, b: int, q: int)
    requires
        q > 0,
        0 <= b,
        x.len() == e.len(),
        ring::canonical(x, q),
        small::all_small(e, b, q),
    ensures
        close(ring::poly_add(x, e, q), x, b, q),
{
    let r = ring::poly_add(x, e, q);
    assert forall|i: int| 0 <= i < r.len() implies small::is_small(
        #[trigger] r[i] - x[i],
        b,
        q,
    ) by {
        assert(small::is_small(e[i], b, q));
        lemma_small_residues(x[i] + e[i], x[i], b, q);
        lemma_small_mod(x[i] as nat, q as nat);
    }
}

proof fn lemma_close_sub(
    a: Seq<int>,
    x: Seq<int>,
    b: Seq<int>,
    y: Seq<int>,
    c: int,
    d: int,
    q: int,
)
    requires
        q > 0,
        0 <= c,
        0 <= d,
        a.len() == b.len(),
        close(a, x, c, q),
        close(b, y, d, q),
    ensures
        close(ring::poly_sub(a, b, q), ring::poly_sub(x, y, q), c + d, q),
{
    let (r, t) = (ring::poly_sub(a, b, q), ring::poly_sub(x, y, q));
    assert forall|i: int| 0 <= i < r.len() implies small::is_small(
        #[trigger] r[i] - t[i],
        c + d,
        q,
    ) by {
        assert(small::is_small(a[i] - x[i], c, q) && small::is_small(b[i] - y[i], d, q));
        let (u, v) = (a[i] - x[i], b[i] - y[i]);
        small::lemma_small(v, d, q);
        let w = small::small(v, d, q);
        lemma_sub_mod_noop(0, w, q);
        lemma_sub_mod_noop(0, v, q);
        small::lemma_is_small(-w, -v, d, q);
        small::lemma_small_sum(u, -v, c, d, q);
        lemma_small_residues(a[i] - b[i], x[i] - y[i], c + d, q);
    }
}

proof fn lemma_close_coeff(x: Seq<int>, y: Seq<int>, e: int, b: int, q: int)
    requires
        q > 0,
        0 <= b,
        x.len() > 0,
        close(x, y, b, q),
    ensures
        small::is_small(ring::coeff_at(x, e) % q - ring::coeff_at(y, e) % q, b, q),
{
    let n = x.len() as int;
    let r = e % (2 * n);
    lemma_mod_bound(e, 2 * n);
    let (u, v) = (ring::coeff_at(x, e), ring::coeff_at(y, e));
    if r < n {
        assert(small::is_small(x[r] - y[r], b, q));
    } else {
        let d = x[r - n] - y[r - n];
        assert(small::is_small(d, b, q));
        small::lemma_small(d, b, q);
        let w = small::small(d, b, q);
        lemma_sub_mod_noop(0, w, q);
        lemma_sub_mod_noop(0, d, q);
        small::lemma_is_small(-w, -d, b, q);
    }
    lemma_small_residues(u, v, b, q);
}

/// A step keeps polynomials close.
proof fn lemma_close_step(
    secret: RotationSecret,
    x: Seq<int>,
    y: Seq<int>,
    step: RotationStep,
    b: int,
    q: int,
)
    requires
        q > 0,
        0 <= b,
        x.len() > 0,
        close(x, y, b, q),
    ensures
        close(secret.step(x, step, q), secret.step(y, step, q), b, q),
        secret.step(x, step, q).len() == x.len(),
        ring::canonical(secret.step(x, step, q), q),
{
    let (u, v) = (secret.step(x, step, q), secret.step(y, step, q));
    assert forall|j: int| 0 <= j < u.len() implies small::is_small(#[trigger] u[j] - v[j], b, q)
        && 0 <= u[j] < q by {
        match step {
            RotationStep::Secret(i) => {
                lemma_close_coeff(x, y, j - secret.exponents[i], b, q);
                lemma_mod_bound(ring::coeff_at(x, j - secret.exponents[i]), q);
            },
            RotationStep::Auto(k) => {
                lemma_close_coeff(x, y, j * secret.autos[k].1, b, q);
                lemma_mod_bound(ring::coeff_at(x, j * secret.autos[k].1), q);
            },
        }
    }
}

/// Products with a polynomial of small coefficients stay close.
proof fn lemma_close_product(s: Seq<int>, x: Seq<int>, y: Seq<int>, c: int, b: int, q: int)
    requires
        q > 0,
        0 <= b,
        0 <= c,
        s.len() == x.len(),
        small::all_small(s, c, q),
        close(x, y, b, q),
    ensures
        close(ring::nega_mul(s, x, q), ring::nega_mul(s, y, q), s.len() * (c * b), q),
{
    let d = ring::poly_sub(x, y, q);
    assert forall|i: int| 0 <= i < d.len() implies small::is_small(#[trigger] d[i], b, q) by {
        assert(small::is_small(x[i] - y[i], b, q));
        lemma_mod_twice(x[i] - y[i], q);
    }
    small::lemma_small_nega_mul(s, d, c, b, q);
    let (u, v) = (ring::nega_mul(s, x, q), ring::nega_mul(s, y, q));
    let ny = ring::poly_neg(y, q);
    ring::lemma_nega_mul_distributive(s, x, ny, q);
    ring::lemma_nega_mul_neg(s, y, q);
    ring::lemma_poly_add_neg(x, y, q);
    ring::lemma_poly_add_neg(u, v, q);
    let m = ring::nega_mul(s, d, q);
    assert(m == ring::poly_sub(u, v, q));
    assert forall|i: int| 0 <= i < u.len() implies small::is_small(
        #[trigger] u[i] - v[i],
        s.len() * (c * b),
        q,
    ) by {
        assert(small::is_small(m[i], s.len() * (c * b), q));
        assert(m[i] == (u[i] - v[i]) % q);
        lemma_mod_twice(u[i] - v[i], q);
    }
}

/// What digits recompose to is close to what they were split from.
proof fn lemma_close_recomposed<D: Decomposer>(dec: D, x: Seq<int>, b: int)
    requires
        dec.q() > 0,
        0 <= b,
        misses_within(dec, b),
        ring::canonical(x, dec.q()),
    ensures
        close(decryption::recomposed_poly(dec, x, dec.count() as int), x, b, dec.q()),
        ring::canonical(decryption::recomposed_poly(dec, x, dec.count() as int), dec.q()),
{
    let q = dec.q();
    let r = decryption::recomposed_poly(dec, x, dec.count() as int);
    assert forall|i: int| 0 <= i < r.len() implies small::is_small(#[trigger] r[i] - x[i], b, q)
        && 0 <= r[i] < q by {
        let v = x[i];
        let t = decomposer::recomposed(dec.digits(v), dec.gadget(), dec.count() as int);
        assert(r[i] == t % q);
        lemma_mod_bound(t, q);
        lemma_small_missed(dec, v, b);
        lemma_small_residues(t, v, b, q);
        lemma_small_mod(v as nat, q as nat);
    }
}

proof fn lemma_small_missed<D: Decomposer>(dec: D, v: int, b: int)
    requires
        dec.q() > 0,
        0 <= b,
        misses_within(dec, b),
        0 <= v <= dec.q(),
    ensures
        small::is_small(
            decomposer::recomposed(dec.digits(v), dec.gadget(), dec.count() as int) - v,
            b,
            dec.q(),
        ),
{
    let q = dec.q();
    let t = decomposer::recomposed(dec.digits(v), dec.gadget(), dec.count() as int) - v;
    lemma_mod_bound(t, q);
    backend::lemma_centered(t % q, q);
    small::lemma_is_small(backend::centered(t % q, q), t, b, q);
}

/// The digits of all decomposers of a blind rotation recompose to numbers off by at most `b`, and
/// the operators fit together.
pub open spec fn rotation_misses_within<K: PbsKey, D: Decomposer, A: Decomposer, N: Ntt>(
    rotation: Rotation<K, D, A, N>,
    b: int,
) -> bool {
    let q = rotation.ntt.q();
    &&& rotation.ntt.wf()
    &&& rotation.ntt.n() <= usize::MAX
    &&& rotation.rlwe_rgsw_decomposer.0.q() == q
    &&& rotation.rlwe_rgsw_decomposer.1.q() == q
    &&& rotation.auto_decomposer.q() == q
    &&& misses_within(rotation.rlwe_rgsw_decomposer.0, b)
    &&& misses_within(rotation.rlwe_rgsw_decomposer.1, b)
    &&& misses_within(rotation.auto_decomposer, b)
}

/// What it means for all decomposers.
pub proof fn lemma_rotation_misses<K: PbsKey, D: Decomposer, A: Decomposer, N: Ntt>(
    rotation: Rotation<K, D, A, N>,
    b: int,
)
    ensures
        rotation_misses_within(rotation, b) <==> rotation.ntt.wf() && rotation.ntt.n()
            <= usize::MAX && rotation.rlwe_rgsw_decomposer.0.q() == rotation.ntt.q()
            && rotation.rlwe_rgsw_decomposer.1.q() == rotation.ntt.q()
            && rotation.auto_decomposer.q() == rotation.ntt.q() && misses_within(
            rotation.rlwe_rgsw_decomposer.0,
            b,
        ) && misses_within(rotation.rlwe_rgsw_decomposer.1, b) && misses_within(
            rotation.auto_decomposer,
            b,
        ),
{
}

/// What one step may add to a coefficient: the digits times the errors, and what the digits miss,
/// once and times the secret.
pub open spec fn step_bound(digits: nat, n: nat, b: int, c: int, missed: int, s_bound: int) -> int {
    digits * (n * (b * c)) + (missed + n * (s_bound * missed))
}

proof fn lemma_step_bound(digits: nat, n: nat, b: int, c: int, missed: int, s_bound: int)
    requires
        0 <= b,
        0 <= c,
        0 <= missed,
        0 <= s_bound,
    ensures
        0 <= n * (b * c),
        0 <= digits * (n * (b * c)),
        0 <= n * (s_bound * missed),
        0 <= step_bound(digits, n, b, c, missed, s_bound),
{
    assert(0 <= n * (b * c)) by (nonlinear_arith)
        requires
            0 <= b,
            0 <= c,
    ;
    let x = n * (b * c);
    assert(0 <= digits * x) by (nonlinear_arith)
        requires
            0 <= x,
    ;
    assert(0 <= n * (s_bound * missed)) by (nonlinear_arith)
        requires
            0 <= missed,
            0 <= s_bound,
    ;
}

/// One step decrypts to the step on the polynomial, up to a bounded error.
proof fn lemma_step_close<K: PbsKey, D: Decomposer, A: Decomposer, N: Ntt>(
    rotation: Rotation<K, D, A, N>,
    secret: RotationSecret,
    state: (Seq<Seq<int>>, bool),
    step: RotationStep,
    b: int,
    c: int,
    missed: int,
    s_bound: int,
)
    requires
        rotation_misses_within(rotation, missed),
        rotation::is_state(state, rotation.ntt.n(), rotation.ntt.q()),
        secret.s.len() == rotation.ntt.n(),
        ring::canonical(secret.s, rotation.ntt.q()),
        small::all_small(secret.s, s_bound, rotation.ntt.q()),
        rotation::key_encrypts(rotation, secret, step),
        0 <= b,
        0 <= c,
        0 <= missed,
        0 <= s_bound,
        bootstrap::rotation_digits_within(rotation, b),
        bootstrap::key_errors_within(rotation, secret, step, c),
    ensures
        close(
            rgsw::rlwe_phase(rotation.step(state, step).0, secret.s, rotation.ntt.q()),
            secret.step(
                rgsw::rlwe_phase(state.0, secret.s, rotation.ntt.q()),
                step,
                rotation.ntt.q(),
            ),
            step_bound(
                bootstrap::digit_count(rotation),
                rotation.ntt.n(),
                b,
                c,
                missed,
                s_bound,
            ),
            rotation.ntt.q(),
        ),
{
    let ntt = rotation.ntt;
    let (n, q, s) = (ntt.n(), ntt.q(), secret.s);
    ntt.lemma_positive();
    let ct = state.0;
    assert(ct[0].len() == n && ct[1].len() == n);
    let p = rgsw::rlwe_phase(ct, s, q);
    let e = rotation::step_noise(rotation, secret, state, step);
    bootstrap::lemma_small_step(rotation, secret, state, step, b, c);
    let count = bootstrap::digit_count(rotation);
    lemma_step_bound(count, n, b, c, missed, s_bound);
    let (x, y) = (count * (n * (b * c)), missed + n * (s_bound * missed));
    let out = rgsw::rlwe_phase(rotation.step(state, step).0, s, q);
    let want = secret.step(p, step, q);
    match step {
        RotationStep::Secret(i) => {
            let m = ring::monomial_times(poly::one(n), secret.exponents[i], q);
            let (d0, d1) = rotation.rlwe_rgsw_decomposer;
            decryption::lemma_rgsw_product_digits(
                ct,
                rotation.key.rgsw_ct(i).rows(),
                m,
                secret.rgsw_errors[i],
                s,
                rotation.rlwe_rgsw_decomposer,
                ntt,
                state.1,
            );
            let ra = if state.1 {
                poly::zeros(n)
            } else {
                decryption::recomposed_poly(d0, ct[0], d0.count() as int)
            };
            let rb = decryption::recomposed_poly(d1, ct[1], d1.count() as int);
            lemma_close_recomposed(d1, ct[1], missed);
            if state.1 {
                lemma_close_refl(ra, missed, q);
            } else {
                lemma_close_recomposed(d0, ct[0], missed);
            }
            lemma_close_product(s, ra, ct[0], s_bound, missed, q);
            let (sa, sx) = (ring::nega_mul(s, ra, q), ring::nega_mul(s, ct[0], q));
            lemma_close_sub(rb, ct[1], sa, sx, missed, n * (s_bound * missed), q);
            let p1 = rgsw::rlwe_phase(seq![ra, rb], s, q);
            automorphism::lemma_monomial_product(p1, secret.exponents[i], q);
            let moved = secret.step(p1, step, q);
            lemma_close_step(secret, p1, p, step, y, q);
            assert(out == ring::poly_add(moved, e, q));
            lemma_close_noise(moved, e, x, q);
            lemma_close_trans(out, moved, want, x, y, q);
        },
        RotationStep::Auto(k) => {
            let (u, inv) = secret.autos[k];
            let key = rotation.key.galois_key(k).rows();
            let dec = rotation.auto_decomposer;
            if state.1 {
                decryption::lemma_auto_trivial(ct, key, u, inv, s, dec, ntt);
                lemma_close_refl(want, x + y, q);
            } else {
                decryption::lemma_auto_switched_digits(
                    ct,
                    key,
                    u,
                    inv,
                    secret.auto_errors[k],
                    s,
                    dec,
                    ntt,
                );
                let a = automorphism::substituted(ct[0], inv, q);
                let bi = automorphism::substituted(ct[1], inv, q);
                let si = automorphism::substituted(s, inv, q);
                decryption::lemma_substituted_canonical(ct[0], inv, q);
                let r = decryption::recomposed_poly(dec, a, dec.count() as int);
                lemma_close_recomposed(dec, a, missed);
                assert forall|j: int| 0 <= j < si.len() implies small::is_small(
                    #[trigger] si[j],
                    s_bound,
                    q,
                ) by {
                    small::lemma_small_coeff(s, j * inv, s_bound, q);
                }
                lemma_close_product(si, r, a, s_bound, missed, q);
                lemma_close_refl(bi, missed, q);
                let (sr, sa) = (ring::nega_mul(si, r, q), ring::nega_mul(si, a, q));
                lemma_close_sub(bi, bi, sr, sa, missed, n * (s_bound * missed), q);
                // the image of b - s * a
                let sx = ring::nega_mul(s, ct[0], q);
                automorphism::lemma_auto_sum(ct[1], sx, inv, q);
                automorphism::lemma_auto_product(s, ct[0], u, inv, q);
                let moved = ring::poly_sub(bi, sr, q);
                ring::lemma_reduced_canonical(poly::minus(bi, sr), q);
                lemma_close_noise(moved, e, x, q);
                lemma_close_trans(out, moved, want, x, y, q);
            }
        },
    }
}

/// All steps decrypt to the steps on the polynomial, up to a bounded error for each.
proof fn lemma_run_close<K: PbsKey, D: Decomposer, A: Decomposer, N: Ntt>(
    rotation: Rotation<K, D, A, N>,
    secret: RotationSecret,
    state: (Seq<Seq<int>>, bool),
    steps: Seq<RotationStep>,
    b: int,
    c: int,
    missed: int,
    s_bound: int,
)
    requires
        rotation_misses_within(rotation, missed),
        rotation::is_state(state, rotation.ntt.n(), rotation.ntt.q()),
        secret.s.len() == rotation.ntt.n(),
        ring::canonical(secret.s, rotation.ntt.q()),
        small::all_small(secret.s, s_bound, rotation.ntt.q()),
        forall|t: int|
            0 <= t < steps.len() ==> rotation::key_encrypts(
                rotation,
                secret,
                #[trigger] steps[t],
            ),
        0 <= b,
        0 <= c,
        0 <= missed,
        0 <= s_bound,
        bootstrap::rotation_digits_within(rotation, b),
        forall|t: int|
            0 <= t < steps.len() ==> bootstrap::key_errors_within(
                rotation,
                secret,
                #[trigger] steps[t],
                c,
            ),
    ensures
        rotation::is_state(rotation.run(state, steps), rotation.ntt.n(), rotation.ntt.q()),
        close(
            rgsw::rlwe_phase(rotation.run(state, steps).0, secret.s, rotation.ntt.q()),
            secret.run(
                rgsw::rlwe_phase(state.0, secret.s, rotation.ntt.q()),
                steps,
                rotation.ntt.q(),
            ),
            steps.len() * step_bound(
                bootstrap::digit_count(rotation),
                rotation.ntt.n(),
                b,
                c,
                missed,
                s_bound,
            ),
            rotation.ntt.q(),
        ),
    decreases steps.len(),
{
    let (n, q) = (rotation.ntt.n(), rotation.ntt.q());
    rotation.ntt.lemma_positive();
    let t = step_bound(bootstrap::digit_count(rotation), n, b, c, missed, s_bound);
    lemma_step_bound(bootstrap::digit_count(rotation), n, b, c, missed, s_bound);
    let p = rgsw::rlwe_phase(state.0, secret.s, q);
    assert(state.0[0].len() == n && state.0[1].len() == n);
    if steps.len() == 0 {
        assert(0 * t == 0) by (nonlinear_arith);
        lemma_close_refl(p, 0, q);
    } else {
        let before = steps.drop_last();
        let last = steps.last();
        assert forall|x: int| 0 <= x < before.len() implies rotation::key_encrypts(
            rotation,
            secret,
            #[trigger] before[x],
        ) && bootstrap::key_errors_within(rotation, secret, before[x], c) by {
            assert(before[x] == steps[x]);
        }
        assert(last == steps[steps.len() - 1]);
        lemma_run_close(rotation, secret, state, before, b, c, missed, s_bound);
        let mid = rotation.run(state, before);
        rotation::lemma_step_state(rotation, secret, mid, last);
        lemma_step_close(rotation, secret, mid, last, b, c, missed, s_bound);
        assert(mid.0[0].len() == n && mid.0[1].len() == n);
        let pm = rgsw::rlwe_phase(mid.0, secret.s, q);
        let m = secret.run(p, before, q);
        let k = before.len() as int;
        assert(k * t >= 0) by (nonlinear_arith)
            requires
                k >= 0,
                t >= 0,
        ;
        assert(t + k * t == (k + 1) * t) by (nonlinear_arith);
        lemma_close_step(secret, pm, m, last, k * t, q);
        lemma_close_trans(
            rgsw::rlwe_phase(rotation.run(state, steps).0, secret.s, q),
            secret.step(pm, last, q),
            secret.step(m, last, q),
            t,
            k * t,
            q,
        );
    }
}

proof fn lemma_small_lost<D: Decomposer>(
    dec: D,
    mask: Seq<int>,
    s: Seq<int>,
    j: int,
    missed: int,
    s_bound: int,
)
    requires
        dec.q() > 0,
        0 <= missed,
        0 <= s_bound,
        0 <= j <= s.len(),
        mask.len() == s.len(),
        misses_within(dec, missed),
        forall|t: int| 0 <= t < mask.len() ==> 0 <= #[trigger] mask[t] <= dec.q(),
        forall|t: int| 0 <= t < s.len() ==> -s_bound <= #[trigger] s[t] <= s_bound,
    ensures
        small::is_small(
            lwe::dot(mask, s, j) - lwe::dot(decryption::recomposed_mask(dec, mask), s, j),
            j * (missed * s_bound),
            dec.q(),
        ),
    decreases j,
{
    let q = dec.q();
    let rm = decryption::recomposed_mask(dec, mask);
    let c = missed * s_bound;
    assert(c >= 0) by (nonlinear_arith)
        requires
            c == missed * s_bound,
            missed >= 0,
            s_bound >= 0,
    ;
    if j > 0 {
        lemma_small_lost(dec, mask, s, j - 1, missed, s_bound);
        let (v, k) = (mask[j - 1], s[j - 1]);
        lemma_small_missed(dec, v, missed);
        let d = rm[j - 1] - v;
        small::lemma_small(d, missed, q);
        let w = small::small(d, missed, q);
        lemma_sub_mod_noop(0, w, q);
        lemma_sub_mod_noop(0, d, q);
        small::lemma_is_small(-w, -d, missed, q);
        assert(-s_bound <= s[j - 1] <= s_bound);
        small::lemma_is_small(k, k, s_bound, q);
        small::lemma_small_product(-d, k, missed, s_bound, q);
        assert((j - 1) * c >= 0) by (nonlinear_arith)
            requires
                j >= 1,
                c >= 0,
        ;
        assert((j - 1) * c + c == j * c) by (nonlinear_arith);
        let (x, y) = (lwe::dot(mask, s, j - 1), lwe::dot(rm, s, j - 1));
        small::lemma_small_sum(x - y, (-d) * k, (j - 1) * c, c, q);
        let r = rm[j - 1];
        assert((-d) * k == v * k - r * k) by (nonlinear_arith)
            requires
                d == r - v,
        ;
    } else {
        lemma_small_mod(0, q as nat);
        assert(0 * c == 0) by (nonlinear_arith);
    }
}

/// The ciphertext after the first two steps of a bootstrapping, with digits that recompose
/// approximately: the error of the key switch also holds what the digits miss of each entry, times
/// a secret element.
pub proof fn lemma_switched_down_close<P: PbsInfo, K: PbsKey>(
    info: P,
    key: K,
    lwe_in: Seq<int>,
    s: Seq<int>,
    z: Seq<int>,
    errors: Seq<int>,
    s_bound: int,
    digit_bound: int,
    error_bound: int,
    missed: int,
) -> (r: (int, int))
    requires
        pbs::pbs_ready(info, key),
        0 < info.parameters().rlwe_q,
        32 * info.parameters().lwe_q <= double::HIGH,
        lwe_in.len() == info.parameters().rlwe_n + 1,
        ring::canonical(lwe_in, info.parameters().rlwe_q),
        s.len() == info.parameters().rlwe_n,
        forall|i: int| 0 <= i < s.len() ==> -s_bound <= #[trigger] s[i] <= s_bound,
        0 <= s_bound,
        z.len() == info.parameters().lwe_n,
        0 <= missed,
        misses_within(info.parameters().lwe_decomposer, missed),
        0 <= digit_bound,
        0 <= error_bound,
        bootstrap::digits_within(info.parameters().lwe_decomposer, digit_bound),
        ({
            let dec = info.parameters().lwe_decomposer;
            forall|i: int, j: int|
                0 <= i < s.len() && 0 <= j < dec.count() ==> (#[trigger] key.lwe_ksk_rows()[i
                    * dec.count() + j]).len() == z.len() + 1 && lwe::lwe_phase(
                    key.lwe_ksk_rows()[i * dec.count() + j],
                    z,
                    dec.q(),
                ) == (dec.gadget()[j] * (-s[i]) + errors[i * dec.count() + j]) % dec.q()
        }),
        forall|i: int, j: int|
            0 <= i < s.len() && 0 <= j < info.parameters().lwe_decomposer.count() ==> -error_bound
                <= #[trigger] errors[i * info.parameters().lwe_decomposer.count() + j]
                <= error_bound,
    ensures
        ({
            let p = info.parameters();
            let d = pbs::switched_down(info, key, lwe_in);
            let (u, err) = r;
            let bound = p.rlwe_n * (p.lwe_decomposer.count() * (digit_bound * error_bound))
                + p.rlwe_n * (missed * s_bound);
            let off = 3 * p.rlwe_q * (1 + p.rlwe_n * s_bound);
            &&& d.len() == p.lwe_n + 1
            &&& ring::canonical(d, p.lwe_q)
            &&& lwe::lwe_phase(d, z, p.lwe_q) == (u + err) % p.lwe_q
            &&& -off <= 4 * (u * p.rlwe_q - lwe::lwe_phase(lwe_in, s, p.rlwe_q) * p.lwe_q) <= off
            &&& -bound <= err <= bound
        }),
{
    let p = info.parameters();
    let (big, q) = (p.rlwe_q, p.lwe_q);
    let dec = p.lwe_decomposer;
    let n = s.len() as int;
    p.modop_lweq.lemma_q_positive();
    let scaled = pbs::rescaled(lwe_in, big, q);
    let d = pbs::switched_down(info, key, lwe_in);
    assert forall|i: int| 0 <= i < scaled.len() implies 0 <= #[trigger] scaled[i] <= q && -3 * big
        <= 4 * (scaled[i] * big - lwe_in[i] * q) <= 3 * big by {
        let v = lwe_in[i];
        double::lemma_rescaled_range(v, big, q);
        assert(32 * (v * q) <= 0x20_0000_0000_0000 * big) by (nonlinear_arith)
            requires
                32 * q <= 0x20_0000_0000_0000,
                0 <= v < big,
                0 < q,
        ;
        double::lemma_rescaled_close(v, big, q);
    }
    let out = poly::zeros(p.lwe_n + 1);
    assert(ring::canonical(out, q));
    lwe::lemma_key_switched(out, scaled, key.lwe_ksk_rows(), dec, q);
    decryption::lemma_key_switch_digits(out, scaled, key.lwe_ksk_rows(), s, errors, z, dec);
    assert(lwe::lwe_mask(out) =~= poly::zeros(p.lwe_n));
    print_noise::lemma_zero_mask(z, z.len() as int);
    lemma_small_mod(0, q as nat);
    let mask = lwe::lwe_mask(scaled);
    assert forall|t: int| 0 <= t < mask.len() implies 0 <= #[trigger] mask[t] <= q by {
        assert(mask[t] == scaled[t + 1]);
    }
    bootstrap::lemma_small_key_switch(mask, errors, dec, n, digit_bound, error_bound);
    let b1 = n * (dec.count() * (digit_bound * error_bound));
    let b2 = n * (missed * s_bound);
    assert(b1 >= 0 && b2 >= 0) by (nonlinear_arith)
        requires
            b1 == n * (dec.count() * (digit_bound * error_bound)),
            b2 == n * (missed * s_bound),
            n >= 0,
            digit_bound >= 0,
            error_bound >= 0,
            missed >= 0,
            s_bound >= 0,
    ;
    let bound = b1 + b2;
    let total_error = decryption::key_switch_error(mask, errors, dec, n);
    let rm = decryption::recomposed_mask(dec, mask);
    let lost = lwe::dot(mask, s, n) - lwe::dot(rm, s, n);
    lemma_small_lost(dec, mask, s, n, missed, s_bound);
    small::lemma_small_sum(lost, total_error, b2, b1, q);
    small::lemma_small(lost + total_error, bound, q);
    let err = small::small(lost + total_error, bound, q);
    // phases as integers
    let x = scaled[0] - lwe::dot(mask, s, n);
    let y = lwe_in[0] - lwe::dot(lwe::lwe_mask(lwe_in), s, n);
    bootstrap::lemma_phase_close(scaled, lwe_in, s, big, q, 3 * big, s_bound);
    let phi = lwe::lwe_phase(lwe_in, s, big);
    let k = y / big;
    lemma_fundamental_div_mod(y, big);
    let u = x - q * k;
    assert(u * big - phi * q == x * big - y * q) by (nonlinear_arith)
        requires
            u == x - q * k,
            y == big * k + phi,
    ;
    // x + lost + total_error is congruent to u + err
    lemma_mod_multiples_vanish(-k, x, q);
    assert(q * (-k) + x == u) by (nonlinear_arith)
        requires
            u == x - q * k,
    ;
    lemma_add_mod_noop(x, lost + total_error, q);
    lemma_add_mod_noop(u, err, q);
    (u, err)
}

/// The rotated sample decrypts to the coefficient, up to a bounded error.
proof fn lemma_rotation_close<P: PbsInfo, K: PbsKey>(
    info: P,
    key: K,
    secret: RotationSecret,
    z: Seq<int>,
    test_vec: Seq<int>,
    odds: Seq<int>,
    b: int,
    c: int,
    missed: int,
    s_bound: int,
) -> (noise: int)
    requires
        pbs::pbs_ready(info, key),
        0 <= missed,
        0 <= s_bound,
        rotation_misses_within(pbs::rotation_of(info, key), missed),
        small::all_small(secret.s, s_bound, info.parameters().rlwe_q),
        forall|i: int|
            1 <= i < odds.len() ==> 0 <= #[trigger] odds[i] < info.parameters().br_q && odds[i] % 2
                == 1,
        secret.s.len() == info.parameters().rlwe_n,
        ring::canonical(secret.s, info.parameters().rlwe_q),
        z.len() == info.parameters().lwe_n,
        info.parameters().lwe_n <= usize::MAX,
        2 * info.parameters().rlwe_n == info.parameters().embedding_factor
            * info.parameters().br_q,
        rotation::is_dlog_map(
            info.parameters().g_k_dlog_map,
            info.parameters().g,
            info.parameters().br_q,
        ),
        pow(info.parameters().g, (info.parameters().br_q / 4) as nat) % info.parameters().br_q
            == 1,
        forall|i: int|
            0 <= i < z.len() ==> #[trigger] rotation::key_encrypts(
                pbs::rotation_of(info, key),
                secret,
                RotationStep::Secret(i),
            ) && secret.exponents[i] == info.parameters().embedding_factor * z[i],
        forall|k: int|
            pbs::in_window(k, info.parameters().w) && k < info.parameters().br_q / 4
                ==> #[trigger] rotation::key_encrypts(
                pbs::rotation_of(info, key),
                secret,
                RotationStep::Auto(k),
            ),
        forall|k: int|
            pbs::in_window(k, info.parameters().w) && k < info.parameters().br_q / 4
                ==> #[trigger] rotation::is_power(
                secret.autos,
                info.parameters().g,
                info.parameters().br_q,
                k,
            ),
        test_vec.len() == info.parameters().br_q / 2,
        odds.len() == z.len() + 1,
        0 <= b,
        0 <= c,
        bootstrap::rotation_digits_within(pbs::rotation_of(info, key), b),
        forall|i: int|
            0 <= i < z.len() ==> #[trigger] bootstrap::key_errors_within(
                pbs::rotation_of(info, key),
                secret,
                RotationStep::Secret(i),
                c,
            ),
        forall|k: int|
            pbs::in_window(k, info.parameters().w) && k < info.parameters().br_q / 4
                ==> #[trigger] bootstrap::key_errors_within(
                pbs::rotation_of(info, key),
                secret,
                RotationStep::Auto(k),
                c,
            ),
    ensures
        ({
            let p = info.parameters();
            let bound = (p.lwe_n + p.br_q / 2) * step_bound(
                bootstrap::digit_count(pbs::rotation_of(info, key)),
                p.rlwe_n,
                b,
                c,
                missed,
                s_bound,
            );
            let phase = odds[0] - lwe::dot(odds.skip(1), z, z.len() as int);
            &&& -bound <= noise <= bound
            &&& lwe::lwe_phase(
                pbs::rotated_sample(info, key, test_vec, odds),
                secret.s,
                p.rlwe_q,
            ) == (ring::coeff_at(test_vec, -(p.g * phase)) + noise) % p.rlwe_q
        }),
{
    let p = info.parameters();
    let rotation = pbs::rotation_of(info, key);
    let (n, q, g) = (p.rlwe_n, p.rlwe_q, p.g);
    p.nttop_rlweq.lemma_positive();
    let mask = odds.skip(1);
    let half = p.br_q / 2;
    let m = mask.len() as int;
    let gk = pbs::buckets(mask, p.g_k_dlog_map, half, m);
    let steps = pbs::rotation_steps(info, mask);
    let state = pbs::rotation_start(info, test_vec, odds[0]);
    assert forall|i: int| 0 <= i < m implies 0 <= #[trigger] mask[i] < p.br_q && mask[i] % 2
        == 1 by {
        assert(mask[i] == odds[i + 1]);
    }
    assert forall|i: int, t: int| 0 <= i < gk.len() && 0 <= t < gk[i].len() implies 0
        <= #[trigger] gk[i][t] < m by {
        pbs::lemma_bucket(mask, p.g_k_dlog_map, i, m);
        assert(gk[i] == pbs::bucket(mask, p.g_k_dlog_map, i, m));
    }
    rotation::lemma_schedule_keys(rotation, secret, z, gk, p.embedding_factor, p.w, p.br_q);
    pbs::lemma_schedule_within(gk, p.w, p.br_q, m);
    assert forall|t: int| 0 <= t < steps.len() implies bootstrap::key_errors_within(
        rotation,
        secret,
        #[trigger] steps[t],
        c,
    ) by {
        assert(pbs::step_within(steps[t], m, p.w, p.br_q / 4));
        match steps[t] {
            RotationStep::Secret(i) => {
                assert(bootstrap::key_errors_within(rotation, secret, RotationStep::Secret(i), c));
            },
            RotationStep::Auto(k) => {
                assert(bootstrap::key_errors_within(rotation, secret, RotationStep::Auto(k), c));
            },
        }
    }
    rotation::lemma_start(test_vec, g * odds[0], p.embedding_factor, secret.s, n, q);
    lemma_run_close(rotation, secret, state, steps, b, c, missed, s_bound);
    let out = rotation.run(state, steps).0;
    decryption::lemma_sample_extract(out, 0, secret.s, q);
    rotation::lemma_coefficient(
        secret,
        z,
        test_vec,
        odds[0],
        mask,
        p.g_k_dlog_map,
        p.embedding_factor,
        p.w,
        g,
        p.br_q,
        n,
        q,
    );
    let (x, y) = (
        rgsw::rlwe_phase(out, secret.s, q),
        secret.run(rgsw::rlwe_phase(state.0, secret.s, q), steps, q),
    );
    // the number of steps
    bootstrap::lemma_schedule_len(gk, p.w, p.br_q);
    bootstrap::lemma_total_buckets(mask, p.g_k_dlog_map, half, m, half);
    let count = bootstrap::digit_count(rotation);
    let t = step_bound(count, n, b, c, missed, s_bound);
    lemma_step_bound(count, n, b, c, missed, s_bound);
    let bound = (p.lwe_n + half) * t;
    assert(0 <= steps.len() * t <= bound) by (nonlinear_arith)
        requires
            bound == (p.lwe_n + half) * t,
            0 <= t,
            steps.len() <= p.lwe_n + half,
    ;
    assert(small::is_small(x[0] - y[0], steps.len() * t, q));
    let v = x[0] - y[0];
    small::lemma_small(v, bound, q);
    let noise = small::small(v, bound, q);
    let phase = odds[0] - lwe::dot(mask, z, z.len() as int);
    let coeff = ring::coeff_at(test_vec, -(g * phase));
    // x[0] = y[0] + v, and y[0] is congruent to the coefficient
    assert(y[0] == coeff % q);
    ring::lemma_reduced_canonical(poly::minus(out[1], ring::nega_mul(secret.s, out[0], q)), q);
    assert(out[0].len() == n && out[1].len() == n);
    assert(0 <= x[0] < q);
    lemma_small_mod(x[0] as nat, q as nat);
    lemma_add_mod_noop(coeff, v, q);
    lemma_add_mod_noop(coeff, noise, q);
    lemma_mod_twice(coeff, q);
    lemma_add_mod_noop(coeff % q, v, q);
    noise
}

/// A bootstrapping with digits that recompose approximately, off by at most `missed`, and by at
/// most `ksk_missed` in the key switch: it decrypts as with digits that recompose, with what the
/// digits miss added to the error of the key switch, times a secret element for each entry, and to
/// the noise, once and times the secret for each step.
pub proof fn lemma_bootstrapping_close<P: PbsInfo, K: PbsKey>(
    info: P,
    key: K,
    secret: RotationSecret,
    s: Seq<int>,
    z: Seq<int>,
    ksk_errors: Seq<int>,
    test_vec: Seq<int>,
    lwe_in: Seq<int>,
    s_bound: int,
    z_bound: int,
    digit_bound: int,
    error_bound: int,
    ksk_digit_bound: int,
    ksk_error_bound: int,
    missed: int,
    ksk_missed: int,
) -> (r: (int, int, int))
    requires
        pbs::pbs_ready(info, key),
        pbs::input_fits(info, key, lwe_in),
        0 <= missed,
        rotation_misses_within(pbs::rotation_of(info, key), missed),
        secret.s.len() == info.parameters().rlwe_n,
        ring::canonical(secret.s, info.parameters().rlwe_q),
        z.len() == info.parameters().lwe_n,
        info.parameters().lwe_n <= usize::MAX,
        2 * info.parameters().rlwe_n == info.parameters().embedding_factor
            * info.parameters().br_q,
        rotation::is_dlog_map(
            info.parameters().g_k_dlog_map,
            info.parameters().g,
            info.parameters().br_q,
        ),
        pow(info.parameters().g, (info.parameters().br_q / 4) as nat) % info.parameters().br_q
            == 1,
        forall|i: int|
            0 <= i < z.len() ==> #[trigger] rotation::key_encrypts(
                pbs::rotation_of(info, key),
                secret,
                RotationStep::Secret(i),
            ) && secret.exponents[i] == info.parameters().embedding_factor * z[i],
        forall|k: int|
            pbs::in_window(k, info.parameters().w) && k < info.parameters().br_q / 4
                ==> #[trigger] rotation::key_encrypts(
                pbs::rotation_of(info, key),
                secret,
                RotationStep::Auto(k),
            ),
        forall|k: int|
            pbs::in_window(k, info.parameters().w) && k < info.parameters().br_q / 4
                ==> #[trigger] rotation::is_power(
                secret.autos,
                info.parameters().g,
                info.parameters().br_q,
                k,
            ),
        32 * info.parameters().lwe_q <= double::HIGH,
        32 * info.parameters().br_q <= double::HIGH,
        test_vec.len() == info.parameters().br_q / 2,
        lwe_in.len() == info.parameters().rlwe_n + 1,
        ring::canonical(lwe_in, info.parameters().rlwe_q),
        s.len() == info.parameters().rlwe_n,
        secret.s == ring::reduced(s, info.parameters().rlwe_q),
        0 <= s_bound,
        forall|i: int| 0 <= i < s.len() ==> -s_bound <= #[trigger] s[i] <= s_bound,
        0 <= z_bound,
        forall|i: int| 0 <= i < z.len() ==> -z_bound <= #[trigger] z[i] <= z_bound,
        0 <= digit_bound,
        0 <= error_bound,
        bootstrap::rotation_digits_within(pbs::rotation_of(info, key), digit_bound),
        forall|i: int|
            0 <= i < z.len() ==> #[trigger] bootstrap::key_errors_within(
                pbs::rotation_of(info, key),
                secret,
                RotationStep::Secret(i),
                error_bound,
            ),
        forall|k: int|
            pbs::in_window(k, info.parameters().w) && k < info.parameters().br_q / 4
                ==> #[trigger] bootstrap::key_errors_within(
                pbs::rotation_of(info, key),
                secret,
                RotationStep::Auto(k),
                error_bound,
            ),
        0 <= ksk_missed,
        misses_within(info.parameters().lwe_decomposer, ksk_missed),
        0 <= ksk_digit_bound,
        0 <= ksk_error_bound,
        bootstrap::digits_within(info.parameters().lwe_decomposer, ksk_digit_bound),
        ({
            let dec = info.parameters().lwe_decomposer;
            forall|i: int, j: int|
                0 <= i < s.len() && 0 <= j < dec.count() ==> (#[trigger] key.lwe_ksk_rows()[i
                    * dec.count() + j]).len() == z.len() + 1 && lwe::lwe_phase(
                    key.lwe_ksk_rows()[i * dec.count() + j],
                    z,
                    dec.q(),
                ) == (dec.gadget()[j] * (-s[i]) + ksk_errors[i * dec.count() + j]) % dec.q()
        }),
        forall|i: int, j: int|
            0 <= i < s.len() && 0 <= j < info.parameters().lwe_decomposer.count()
                ==> -ksk_error_bound <= #[trigger] ksk_errors[i
                * info.parameters().lwe_decomposer.count() + j] <= ksk_error_bound,
    ensures
        ({
            let p = info.parameters();
            let phase = lwe::lwe_phase(lwe_in, s, p.rlwe_q);
            let (t, err, noise) = r;
            let off = 3 * p.br_q * p.rlwe_q * (1 + p.rlwe_n * s_bound) + 5 * p.rlwe_q * p.lwe_q * (1
                + p.lwe_n * z_bound);
            let switch_bound = p.rlwe_n * (p.lwe_decomposer.count() * (ksk_digit_bound
                * ksk_error_bound)) + p.rlwe_n * (ksk_missed * s_bound);
            let digits = p.rlwe_rgsw_decomposer.0.count() + p.rlwe_rgsw_decomposer.1.count()
                + p.auto_decomposer.count();
            let noise_bound = (p.lwe_n + p.br_q / 2) * (digits * (p.rlwe_n * (digit_bound
                * error_bound)) + (missed + p.rlwe_n * (s_bound * missed)));
            &&& lwe::lwe_phase(
                pbs::bootstrapped(info, key, test_vec, lwe_in),
                s,
                p.rlwe_q,
            ) == (ring::coeff_at(test_vec, -(p.g * t)) + noise) % p.rlwe_q
            &&& -off <= 4 * (t * (p.rlwe_q * p.lwe_q) - p.br_q * (phase * p.lwe_q + err
                * p.rlwe_q)) <= off
            &&& -switch_bound <= err <= switch_bound
            &&& -noise_bound <= noise <= noise_bound
        }),
{
    let p = info.parameters();
    let (big, q, m) = (p.rlwe_q, p.lwe_q, p.br_q);
    p.nttop_rlweq.lemma_positive();
    p.modop_lweq.lemma_q_positive();
    let (u, err) = lemma_switched_down_close(
        info,
        key,
        lwe_in,
        s,
        z,
        ksk_errors,
        s_bound,
        ksk_digit_bound,
        ksk_error_bound,
        ksk_missed,
    );
    let d = pbs::switched_down(info, key, lwe_in);
    let odds = pbs::rotation_exponents(info, key, lwe_in);
    let count = z.len() as int;
    assert forall|i: int| 0 <= i < odds.len() implies -(5 * q) <= 4 * (#[trigger] odds[i] * q - d[i]
        * m) <= 5 * q by {
        bootstrap::lemma_exponents(info, key, lwe_in, i);
    }
    bootstrap::lemma_exponents(info, key, lwe_in, 0);
    bootstrap::lemma_phase_close(odds, d, z, q, m, 5 * q, z_bound);
    let x = odds[0] - lwe::dot(odds.skip(1), z, count);
    let y = d[0] - lwe::dot(d.skip(1), z, count);
    // y = u + err + q * k
    let k = small::lemma_congruent(y, u + err, q);
    let t = x - m * k;
    let phase = lwe::lwe_phase(lwe_in, s, big);
    bootstrap::lemma_close_chain(x, y, t, k, u, err, phase, big, q, m);
    let (e1, e2) = (5 * q * (1 + count * z_bound), 3 * big * (1 + p.rlwe_n * s_bound));
    small::lemma_close_bound(4 * (x * q - y * m), e1, 4 * (u * big - phase * q), e2, big, m);
    let (a1, a2) = (x * q - y * m, u * big - phase * q);
    assert(big * (4 * a1) == 4 * (big * a1)) by (nonlinear_arith);
    assert(m * (4 * a2) == 4 * (m * a2)) by (nonlinear_arith);
    assert(big * e1 + m * e2 == 3 * m * big * (1 + p.rlwe_n * s_bound) + 5 * big * q * (1 + count
        * z_bound)) by (nonlinear_arith)
        requires
            e1 == 5 * q * (1 + count * z_bound),
            e2 == 3 * big * (1 + p.rlwe_n * s_bound),
    ;
    // the coefficient
    automorphism::lemma_coeff_at_shifted(test_vec, -(p.g * x), p.g * k);
    assert(-(p.g * x) + 2 * test_vec.len() * (p.g * k) == -(p.g * t)) by (nonlinear_arith)
        requires
            t == x - m * k,
            2 * test_vec.len() == m,
    ;
    assert forall|i: int| 1 <= i < odds.len() implies 0 <= #[trigger] odds[i] < m && odds[i] % 2
        == 1 by {
        bootstrap::lemma_exponents(info, key, lwe_in, i);
        double::lemma_rescaled_range(d[i], q, m);
    }
    assert forall|i: int| 0 <= i < secret.s.len() implies small::is_small(
        #[trigger] secret.s[i],
        s_bound,
        big,
    ) by {
        lemma_mod_twice(s[i], big);
        small::lemma_is_small(s[i], secret.s[i], s_bound, big);
    }
    let noise = lemma_rotation_close(
        info,
        key,
        secret,
        z,
        test_vec,
        odds,
        digit_bound,
        error_bound,
        missed,
        s_bound,
    );
    bootstrap::lemma_phase_reduced(pbs::bootstrapped(info, key, test_vec, lwe_in), s, big);
    (t, err, noise)
}

} // verus!
