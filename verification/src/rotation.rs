//! What a blind rotation does to the polynomial that the rotated ciphertext decrypts to.
use crate::automorphism;
use crate::backend::Residues;
use crate::decomposer::Decomposer;
use crate::decryption;
use crate::double;
use crate::lwe;
use crate::ntt::Ntt;
use crate::pbs::{self, PbsInfo, PbsKey, Rotation, RotationStep, WithShoupRepr};
use crate::poly;
use crate::rgsw;
use crate::ring;
use vstd::arithmetic::div_mod::*;
use vstd::arithmetic::mul::*;
use vstd::arithmetic::power::*;
use vstd::prelude::*;

verus! {

/// What the keys of a blind rotation encrypt.
pub struct RotationSecret {
    /// The RLWE secret.
    pub s: Seq<int>,
    /// The exponents `x` of the monomials `X^x` that the RGSW ciphertexts encrypt.
    pub exponents: Seq<int>,
    /// The exponent of each automorphism and its inverse modulo `2n`.
    pub autos: Map<int, (int, int)>,
    /// The errors of the RGSW ciphertexts.
    pub rgsw_errors: Seq<(Seq<Seq<int>>, Seq<Seq<int>>)>,
    /// The errors of the keys of the automorphisms.
    pub auto_errors: Map<int, Seq<Seq<int>>>,
}

/// The key that a step needs encrypts what it should.
pub open spec fn key_encrypts<K: PbsKey, D: Decomposer, A: Decomposer, N: Ntt>(
    rotation: Rotation<K, D, A, N>,
    secret: RotationSecret,
    step: RotationStep,
) -> bool {
    let n = rotation.ntt.n();
    let q = rotation.ntt.q();
    match step {
        RotationStep::Secret(i) => decryption::rgsw_encrypts(
            rotation.key.rgsw_ct(i).rows(),
            ring::monomial_times(poly::one(n), secret.exponents[i], q),
            secret.rgsw_errors[i],
            secret.s,
            rotation.rlwe_rgsw_decomposer,
            rotation.ntt,
        ),
        RotationStep::Auto(k) => {
            let (u, inv) = secret.autos[k];
            &&& rotation.auto_maps[k] == (rgsw::auto_indices(n, u), rgsw::auto_signs(n, u))
            &&& automorphism::is_inverse(u, inv, n)
            &&& decryption::auto_key_encrypts(
                rotation.key.galois_key(k).rows(),
                inv,
                secret.auto_errors[k],
                secret.s,
                rotation.auto_decomposer,
                rotation.ntt,
            )
        },
    }
}

impl RotationSecret {
    /// A step on a polynomial: the product with a monomial, or an automorphism.
    pub open spec fn step(self, p: Seq<int>, step: RotationStep, q: int) -> Seq<int> {
        match step {
            RotationStep::Secret(i) => ring::monomial_times(p, self.exponents[i], q),
            RotationStep::Auto(k) => automorphism::substituted(p, self.autos[k].1, q),
        }
    }

    /// All steps on a polynomial.
    pub open spec fn run(self, p: Seq<int>, steps: Seq<RotationStep>, q: int) -> Seq<int>
        decreases steps.len(),
    {
        if steps.len() == 0 {
            p
        } else {
            self.step(self.run(p, steps.drop_last(), q), steps.last(), q)
        }
    }
}

/// The noise that a step on the ciphertext `state` adds.
pub open spec fn step_noise<K: PbsKey, D: Decomposer, A: Decomposer, N: Ntt>(
    rotation: Rotation<K, D, A, N>,
    secret: RotationSecret,
    state: (Seq<Seq<int>>, bool),
    step: RotationStep,
) -> Seq<int> {
    match step {
        RotationStep::Secret(i) => decryption::rgsw_noise(
            state.0,
            secret.rgsw_errors[i],
            rotation.rlwe_rgsw_decomposer,
            state.1,
        ),
        RotationStep::Auto(k) => decryption::auto_noise(
            state.0,
            secret.autos[k].1,
            secret.auto_errors[k],
            rotation.auto_decomposer,
            state.1,
        ),
    }
}

/// The noise after all steps: each step moves the noise before it and adds its own.
pub open spec fn run_noise<K: PbsKey, D: Decomposer, A: Decomposer, N: Ntt>(
    rotation: Rotation<K, D, A, N>,
    secret: RotationSecret,
    state: (Seq<Seq<int>>, bool),
    steps: Seq<RotationStep>,
) -> Seq<int>
    decreases steps.len(),
{
    let q = rotation.ntt.q();
    if steps.len() == 0 {
        poly::zeros(rotation.ntt.n())
    } else {
        ring::poly_add(
            secret.step(
                run_noise(rotation, secret, state, steps.drop_last()),
                steps.last(),
                q,
            ),
            step_noise(
                rotation,
                secret,
                rotation.run(state, steps.drop_last()),
                steps.last(),
            ),
            q,
        )
    }
}

/// A ciphertext, of which the part `a` is zero as long as it is trivial.
pub open spec fn is_state(state: (Seq<Seq<int>>, bool), n: nat, q: int) -> bool {
    &&& rgsw::is_rlwe(state.0, n, q)
    &&& state.1 ==> state.0[0] == poly::zeros(n)
}

/// The operators of a rotation fit together and its digits recompose.
pub open spec fn is_exact<K: PbsKey, D: Decomposer, A: Decomposer, N: Ntt>(
    rotation: Rotation<K, D, A, N>,
) -> bool {
    let q = rotation.ntt.q();
    &&& rotation.ntt.wf()
    &&& rotation.ntt.n() <= usize::MAX
    &&& rotation.rlwe_rgsw_decomposer.0.q() == q
    &&& rotation.rlwe_rgsw_decomposer.1.q() == q
    &&& rotation.auto_decomposer.q() == q
    &&& decryption::recomposes(rotation.rlwe_rgsw_decomposer.0)
    &&& decryption::recomposes(rotation.rlwe_rgsw_decomposer.1)
    &&& decryption::recomposes(rotation.auto_decomposer)
}

/// A step turns ciphertexts into ciphertexts.
pub proof fn lemma_step_state<K: PbsKey, D: Decomposer, A: Decomposer, N: Ntt>(
    rotation: Rotation<K, D, A, N>,
    secret: RotationSecret,
    state: (Seq<Seq<int>>, bool),
    step: RotationStep,
)
    requires
        rotation.ntt.wf(),
        rotation.ntt.n() <= usize::MAX,
        is_state(state, rotation.ntt.n(), rotation.ntt.q()),
        key_encrypts(rotation, secret, step),
    ensures
        is_state(rotation.step(state, step), rotation.ntt.n(), rotation.ntt.q()),
{
    let ntt = rotation.ntt;
    let n = ntt.n();
    let q = ntt.q();
    let z = poly::zeros(n);
    let ct = state.0;
    let out = rotation.step(state, step).0;
    ntt.lemma_positive();
    assert(ring::canonical(z, q));
    assert(ct[0].len() == n && ct[1].len() == n);
    match step {
        RotationStep::Secret(i) => {
            let key = rotation.key.rgsw_ct(i).rows();
            let (d0, d1) = rotation.rlwe_rgsw_decomposer;
            let (da, db) = (d0.count() as int, d1.count() as int);
            let (xa, xb) = if state.1 {
                (z, z)
            } else {
                (
                    rgsw::gadget_product(z, ct[0], key, 0, d0, ntt),
                    rgsw::gadget_product(z, ct[0], key, da, d0, ntt),
                )
            };
            rgsw::lemma_gadget_sum(z, ct[0], key, 0, d0, ntt, da);
            rgsw::lemma_gadget_sum(z, ct[0], key, da, d0, ntt, da);
            rgsw::lemma_gadget_sum(xa, ct[1], key, 2 * da, d1, ntt, db);
            rgsw::lemma_gadget_sum(xb, ct[1], key, 2 * da + db, d1, ntt, db);
            assert(out[0] == rgsw::gadget_product(xa, ct[1], key, 2 * da, d1, ntt));
            assert(out[1] == rgsw::gadget_product(xb, ct[1], key, 2 * da + db, d1, ntt));
        },
        RotationStep::Auto(k) => {
            let (u, inv) = secret.autos[k];
            let key = rotation.key.galois_key(k).rows();
            let dec = rotation.auto_decomposer;
            let count = dec.count() as int;
            automorphism::lemma_auto_image(ct[1], u, inv, q);
            automorphism::lemma_auto_image(ct[0], u, inv, q);
            decryption::lemma_substituted_canonical(ct[1], inv, q);
            let a = automorphism::substituted(ct[0], inv, q);
            let b = automorphism::substituted(ct[1], inv, q);
            rgsw::lemma_gadget_sum(z, a, key, 0, dec, ntt, count);
            rgsw::lemma_gadget_sum(z, a, key, count, dec, ntt, count);
            if state.1 {
                assert(out[0] == ct[0]);
                assert(out[1] == b);
            } else {
                let rb = rgsw::gadget_product(z, a, key, count, dec, ntt);
                ring::lemma_reduced_canonical(poly::plus(rb, b), q);
                assert(out[0] == rgsw::gadget_product(z, a, key, 0, dec, ntt));
                assert(out[1] == ring::poly_add(rb, b, q));
            }
        },
    }
}

/// A step decrypts to the step on the polynomial, plus the noise that it adds.
proof fn lemma_step_decrypts<K: PbsKey, D: Decomposer, A: Decomposer, N: Ntt>(
    rotation: Rotation<K, D, A, N>,
    secret: RotationSecret,
    state: (Seq<Seq<int>>, bool),
    step: RotationStep,
)
    requires
        is_exact(rotation),
        is_state(state, rotation.ntt.n(), rotation.ntt.q()),
        secret.s.len() == rotation.ntt.n(),
        ring::canonical(secret.s, rotation.ntt.q()),
        key_encrypts(rotation, secret, step),
    ensures
        rgsw::rlwe_phase(rotation.step(state, step).0, secret.s, rotation.ntt.q())
            == ring::poly_add(
            secret.step(
                rgsw::rlwe_phase(state.0, secret.s, rotation.ntt.q()),
                step,
                rotation.ntt.q(),
            ),
            step_noise(rotation, secret, state, step),
            rotation.ntt.q(),
        ),
        step_noise(rotation, secret, state, step).len() == rotation.ntt.n(),
{
    let ntt = rotation.ntt;
    let n = ntt.n();
    let q = ntt.q();
    let ct = state.0;
    ntt.lemma_positive();
    assert(ct[0].len() == n && ct[1].len() == n);
    let p = rgsw::rlwe_phase(ct, secret.s, q);
    match step {
        RotationStep::Secret(i) => {
            let m = ring::monomial_times(poly::one(n), secret.exponents[i], q);
            decryption::lemma_rgsw_product(
                ct,
                rotation.key.rgsw_ct(i).rows(),
                m,
                secret.rgsw_errors[i],
                secret.s,
                rotation.rlwe_rgsw_decomposer,
                ntt,
                state.1,
            );
            automorphism::lemma_monomial_product(p, secret.exponents[i], q);
        },
        RotationStep::Auto(k) => {
            let (u, inv) = secret.autos[k];
            decryption::lemma_auto_switched(
                ct,
                rotation.key.galois_key(k).rows(),
                u,
                inv,
                secret.auto_errors[k],
                secret.s,
                rotation.auto_decomposer,
                ntt,
                state.1,
            );
        },
    }
}

/// A step on a sum of polynomials is the sum of the steps.
proof fn lemma_step_sum(
    secret: RotationSecret,
    a: Seq<int>,
    b: Seq<int>,
    step: RotationStep,
    q: int,
)
    requires
        q > 0,
        a.len() > 0,
        b.len() == a.len(),
    ensures
        secret.step(ring::poly_add(a, b, q), step, q) == ring::poly_add(
            secret.step(a, step, q),
            secret.step(b, step, q),
            q,
        ),
        secret.step(a, step, q).len() == a.len(),
{
    match step {
        RotationStep::Secret(i) => {
            automorphism::lemma_monomial_sum(a, b, secret.exponents[i], q);
        },
        RotationStep::Auto(k) => {
            automorphism::lemma_auto_sum(a, b, secret.autos[k].1, q);
        },
    }
}

/// A rotated ciphertext decrypts to the rotated polynomial, plus the noise of the steps.
pub proof fn lemma_run_decrypts<K: PbsKey, D: Decomposer, A: Decomposer, N: Ntt>(
    rotation: Rotation<K, D, A, N>,
    secret: RotationSecret,
    state: (Seq<Seq<int>>, bool),
    steps: Seq<RotationStep>,
)
    requires
        is_exact(rotation),
        is_state(state, rotation.ntt.n(), rotation.ntt.q()),
        secret.s.len() == rotation.ntt.n(),
        ring::canonical(secret.s, rotation.ntt.q()),
        forall|t: int|
            0 <= t < steps.len() ==> key_encrypts(rotation, secret, #[trigger] steps[t]),
    ensures
        rgsw::rlwe_phase(rotation.run(state, steps).0, secret.s, rotation.ntt.q())
            == ring::poly_add(
            secret.run(
                rgsw::rlwe_phase(state.0, secret.s, rotation.ntt.q()),
                steps,
                rotation.ntt.q(),
            ),
            run_noise(rotation, secret, state, steps),
            rotation.ntt.q(),
        ),
        is_state(rotation.run(state, steps), rotation.ntt.n(), rotation.ntt.q()),
        secret.run(
            rgsw::rlwe_phase(state.0, secret.s, rotation.ntt.q()),
            steps,
            rotation.ntt.q(),
        ).len() == rotation.ntt.n(),
        run_noise(rotation, secret, state, steps).len() == rotation.ntt.n(),
    decreases steps.len(),
{
    let n = rotation.ntt.n();
    let q = rotation.ntt.q();
    rotation.ntt.lemma_positive();
    let p = rgsw::rlwe_phase(state.0, secret.s, q);
    assert(state.0[0].len() == n && state.0[1].len() == n);
    if steps.len() == 0 {
        ring::lemma_reduced_canonical(
            poly::minus(state.0[1], ring::nega_mul(secret.s, state.0[0], q)),
            q,
        );
        ring::lemma_poly_add_zeros(p, q);
    } else {
        let before = steps.drop_last();
        let last = steps.last();
        assert forall|t: int| 0 <= t < before.len() implies key_encrypts(
            rotation,
            secret,
            #[trigger] before[t],
        ) by {
            assert(before[t] == steps[t]);
        }
        assert(last == steps[steps.len() - 1]);
        lemma_run_decrypts(rotation, secret, state, before);
        let mid = rotation.run(state, before);
        lemma_step_state(rotation, secret, mid, last);
        lemma_step_decrypts(rotation, secret, mid, last);
        let m = secret.run(p, before, q);
        let e = run_noise(rotation, secret, state, before);
        lemma_step_sum(secret, m, e, last, q);
        ring::lemma_poly_add_associative(
            secret.step(m, last, q),
            secret.step(e, last, q),
            step_noise(rotation, secret, mid, last),
            q,
        );
    }
}

/// What the steps make of an exponent: products with secret elements add them, automorphisms
/// multiply.
pub open spec fn exponent_run(
    secrets: Seq<int>,
    autos: Map<int, (int, int)>,
    e: int,
    steps: Seq<RotationStep>,
) -> int
    decreases steps.len(),
{
    if steps.len() == 0 {
        e
    } else {
        let before = exponent_run(secrets, autos, e, steps.drop_last());
        match steps.last() {
            RotationStep::Secret(i) => before + secrets[i],
            RotationStep::Auto(k) => before * autos[k].0,
        }
    }
}

/// The product of the inverses of the automorphisms among the steps.
pub open spec fn inverse_run(autos: Map<int, (int, int)>, steps: Seq<RotationStep>) -> int
    decreases steps.len(),
{
    if steps.len() == 0 {
        1
    } else {
        let before = inverse_run(autos, steps.drop_last());
        match steps.last() {
            RotationStep::Secret(i) => before,
            RotationStep::Auto(k) => before * autos[k].1,
        }
    }
}

/// The exponents of the secret elements are `factor` times `secrets`, and automorphisms come with
/// their inverses.
pub open spec fn step_fits(
    secret: RotationSecret,
    secrets: Seq<int>,
    factor: int,
    n: nat,
    step: RotationStep,
) -> bool {
    match step {
        RotationStep::Secret(i) => secret.exponents[i] == factor * secrets[i],
        RotationStep::Auto(k) => automorphism::is_inverse(
            secret.autos[k].0,
            secret.autos[k].1,
            n,
        ),
    }
}

proof fn lemma_step_rotates(
    secret: RotationSecret,
    p: Seq<int>,
    secrets: Seq<int>,
    factor: int,
    v: int,
    e: int,
    step: RotationStep,
    q: int,
)
    requires
        q > 0,
        p.len() > 0,
        v % 2 == 1,
        step_fits(secret, secrets, factor, p.len(), step),
    ensures
        ({
            let (v1, e1) = match step {
                RotationStep::Secret(i) => (v, e + secrets[i]),
                RotationStep::Auto(k) => (v * secret.autos[k].1, e * secret.autos[k].0),
            };
            &&& v1 % 2 == 1
            &&& secret.step(automorphism::rotated(p, v, factor * e, q), step, q)
                == automorphism::rotated(p, v1, factor * e1, q)
        }),
{
    let n = p.len();
    match step {
        RotationStep::Secret(i) => {
            // The automorphism is not used here; any pair of inverses will do.
            assert(automorphism::is_inverse(1, 1, n)) by {
                assert(1int * 1int == 1int);
            }
            automorphism::lemma_rotated_composed(
                p,
                v,
                factor * e,
                secret.exponents[i],
                1,
                1,
                q,
            );
            let s = secrets[i];
            assert(factor * (e + s) == factor * e + factor * s) by (nonlinear_arith);
        },
        RotationStep::Auto(k) => {
            let (u, inv) = secret.autos[k];
            automorphism::lemma_rotated_composed(p, v, factor * e, 0, u, inv, q);
            assert((factor * e) * u == factor * (e * u)) by (nonlinear_arith);
            let c = automorphism::lemma_inverse(u, inv, n);
            let (x, y) = (v / 2, inv / 2);
            assert(v * inv == 2 * (2 * x * y + x + y) + 1) by (nonlinear_arith)
                requires
                    v == 2 * x + 1,
                    inv == 2 * y + 1,
            ;
        },
    }
}

/// The steps on a polynomial `p` give `X^e * p(X^k)`, where `e` is what the steps make of the
/// exponent zero, and the inverse of `k` is the product of the inverses of the automorphisms.
pub proof fn lemma_run_rotates(
    secret: RotationSecret,
    p: Seq<int>,
    secrets: Seq<int>,
    factor: int,
    steps: Seq<RotationStep>,
    q: int,
)
    requires
        q > 0,
        p.len() > 0,
        ring::canonical(p, q),
        forall|t: int|
            0 <= t < steps.len() ==> step_fits(
                secret,
                secrets,
                factor,
                p.len(),
                #[trigger] steps[t],
            ),
    ensures
        inverse_run(secret.autos, steps) % 2 == 1,
        secret.run(p, steps, q) == automorphism::rotated(
            p,
            inverse_run(secret.autos, steps),
            factor * exponent_run(secrets, secret.autos, 0, steps),
            q,
        ),
    decreases steps.len(),
{
    let n = p.len();
    if steps.len() == 0 {
        assert(factor * 0 == 0) by (nonlinear_arith);
        let r = automorphism::rotated(p, 1, 0, q);
        assert forall|j: int| 0 <= j < n implies #[trigger] r[j] == p[j] by {
            assert((j - 0) * 1 == j);
            ring::lemma_coeff_at(p, j);
            lemma_small_mod(p[j] as nat, q as nat);
        }
        assert(r =~= p);
    } else {
        let before = steps.drop_last();
        let last = steps.last();
        assert forall|t: int| 0 <= t < before.len() implies step_fits(
            secret,
            secrets,
            factor,
            n,
            #[trigger] before[t],
        ) by {
            assert(before[t] == steps[t]);
        }
        lemma_run_rotates(secret, p, secrets, factor, before, q);
        assert(last == steps[steps.len() - 1]);
        lemma_step_rotates(
            secret,
            p,
            secrets,
            factor,
            inverse_run(secret.autos, before),
            exponent_run(secrets, secret.autos, 0, before),
            last,
            q,
        );
    }
}

proof fn lemma_exponent_append(
    secrets: Seq<int>,
    autos: Map<int, (int, int)>,
    e: int,
    a: Seq<RotationStep>,
    b: Seq<RotationStep>,
)
    ensures
        exponent_run(secrets, autos, e, a + b) == exponent_run(
            secrets,
            autos,
            exponent_run(secrets, autos, e, a),
            b,
        ),
        inverse_run(autos, a + b) == inverse_run(autos, a) * inverse_run(autos, b),
    decreases b.len(),
{
    if b.len() == 0 {
        assert(a + b =~= a);
        lemma_mul_basics(inverse_run(autos, a));
    } else {
        lemma_exponent_append(secrets, autos, e, a, b.drop_last());
        assert((a + b).drop_last() =~= a + b.drop_last());
        match b.last() {
            RotationStep::Secret(i) => {},
            RotationStep::Auto(k) => {
                lemma_mul_is_associative(
                    inverse_run(autos, a),
                    inverse_run(autos, b.drop_last()),
                    autos[k].1,
                );
            },
        }
    }
}

/// The sum of the first `j` listed secret elements.
pub open spec fn list_sum(secrets: Seq<int>, list: Seq<usize>, j: int) -> int
    decreases j,
{
    if j <= 0 {
        0
    } else {
        list_sum(secrets, list, j - 1) + secrets[list[j - 1] as int]
    }
}

/// The sum of the listed secret elements.
pub open spec fn level(secrets: Seq<int>, gk_to_si: Seq<Seq<usize>>, i: int) -> int {
    list_sum(secrets, gk_to_si[i], gk_to_si[i].len() as int)
}

proof fn lemma_secret_steps(
    secrets: Seq<int>,
    autos: Map<int, (int, int)>,
    e: int,
    list: Seq<usize>,
    j: int,
)
    requires
        0 <= j <= list.len(),
    ensures
        exponent_run(secrets, autos, e, pbs::secret_steps(list).take(j)) == e + list_sum(
            secrets,
            list,
            j,
        ),
    decreases j,
{
    let steps = pbs::secret_steps(list);
    if j == 0 {
        assert(steps.take(0) =~= Seq::empty());
    } else {
        lemma_secret_steps(secrets, autos, e, list, j - 1);
        assert(steps.take(j).drop_last() =~= steps.take(j - 1));
        assert(steps.take(j).last() == steps[j - 1]);
    }
}

/// The levels `1..=i` of the lists from `base` on, each times its power of `g`.
pub open spec fn level_sum(
    secrets: Seq<int>,
    gk_to_si: Seq<Seq<usize>>,
    base: int,
    g: int,
    i: int,
) -> int
    decreases i,
{
    if i <= 0 {
        0
    } else {
        level_sum(secrets, gk_to_si, base, g, i - 1) + pow(g, i as nat) * level(
            secrets,
            gk_to_si,
            base + i,
        )
    }
}

/// The exponent of the automorphism `k` is congruent to `g^k`, or to `-g` if `k` is 0.
pub open spec fn is_power(autos: Map<int, (int, int)>, g: int, q: int, k: int) -> bool {
    autos[k].0 % q == (if k == 0 {
        -g
    } else {
        pow(g, k as nat)
    }) % q
}

/// What a descent makes of an exponent.
proof fn lemma_descent_exponent(
    secrets: Seq<int>,
    autos: Map<int, (int, int)>,
    e: int,
    gk: Seq<Seq<usize>>,
    base: int,
    i: int,
    v: int,
    w: int,
    g: int,
    q: int,
    l: int,
)
    requires
        q > 0,
        0 <= base,
        base + i < gk.len(),
        0 <= i,
        0 <= v,
        w <= 0 || v < w,
        v + i < l,
        i == 0 ==> v == 0,
        v > 0 ==> gk[base + i].len() == 0,
        forall|k: int| pbs::in_window(k, w) && k < l ==> #[trigger] is_power(autos, g, q, k),
    ensures
        exponent_run(secrets, autos, e, pbs::descent(gk, base, i, v, w)) % q == (pow(
            g,
            (v + i) as nat,
        ) * e + level_sum(secrets, gk, base, g, i)) % q,
    decreases i,
{
    if i == 0 {
        lemma_pow0(g);
        lemma_mul_basics(e);
    } else {
        let list = gk[base + i];
        let s = level(secrets, gk, base + i);
        let muls = pbs::secret_steps(list);
        lemma_secret_steps(secrets, autos, e, list, list.len() as int);
        assert(muls.take(list.len() as int) =~= muls);
        let p = pow(g, (v + i) as nat);
        let rest = level_sum(secrets, gk, base, g, i - 1);
        // With levels pending the list is empty.
        assert(p * s == pow(g, i as nat) * s) by {
            if v > 0 {
                assert(s == 0);
                assert(p * 0 == 0 && pow(g, i as nat) * 0 == 0) by (nonlinear_arith);
            }
        }
        if gk[base + i - 1].len() != 0 || v + 1 == w || i == 1 {
            let next = seq![RotationStep::Auto(v + 1)];
            let later = pbs::descent(gk, base, i - 1, 0, w);
            lemma_exponent_append(secrets, autos, e, muls, next);
            lemma_exponent_append(secrets, autos, e, muls + next, later);
            assert(next.drop_last() =~= Seq::empty());
            let u = autos[v + 1].0;
            assert(is_power(autos, g, q, v + 1));
            let turned = (e + s) * u;
            assert(exponent_run(secrets, autos, e + s, next) == turned) by {
                reveal_with_fuel(exponent_run, 2);
            }
            lemma_descent_exponent(secrets, autos, turned, gk, base, i - 1, 0, w, g, q, l);
            // g^(i-1) (e + s) u is congruent to g^(v+i) (e + s)
            let (x, y) = (pow(g, (i - 1) as nat), pow(g, (v + 1) as nat));
            lemma_pow_adds(g, (i - 1) as nat, (v + 1) as nat);
            assert((i - 1) as nat + (v + 1) as nat == (v + i) as nat);
            lemma_mul_mod_noop_right(x * (e + s), u, q);
            lemma_mul_mod_noop_right(x * (e + s), y, q);
            assert(x * turned == (x * (e + s)) * u) by (nonlinear_arith)
                requires
                    turned == (e + s) * u,
            ;
            assert((x * (e + s)) * y == p * e + p * s) by (nonlinear_arith)
                requires
                    p == x * y,
            ;
            lemma_add_mod_noop(x * turned, rest, q);
            lemma_add_mod_noop(p * e + p * s, rest, q);
        } else {
            let later = pbs::descent(gk, base, i - 1, v + 1, w);
            lemma_exponent_append(secrets, autos, e, muls, later);
            lemma_descent_exponent(secrets, autos, e + s, gk, base, i - 1, v + 1, w, g, q, l);
            assert(p * (e + s) == p * e + p * s) by (nonlinear_arith);
        }
    }
}

/// The sum of the lists from `base` to `base + l - 1`, each times its power of `g`.
pub open spec fn power_sum(
    secrets: Seq<int>,
    gk_to_si: Seq<Seq<usize>>,
    base: int,
    g: int,
    l: int,
) -> int {
    level(secrets, gk_to_si, base) + level_sum(secrets, gk_to_si, base, g, l - 1)
}

/// The schedule adds to the exponent each secret element times plus or minus the power of `g` of
/// the list that it is in, if the order of `g` divides `q / 4`.
pub proof fn lemma_schedule_exponent(
    secrets: Seq<int>,
    autos: Map<int, (int, int)>,
    e: int,
    gk: Seq<Seq<usize>>,
    w: int,
    g: int,
    q: int,
)
    requires
        q >= 4,
        gk.len() >= 2 * (q / 4),
        pow(g, (q / 4) as nat) % q == 1,
        forall|k: int| pbs::in_window(k, w) && k < q / 4 ==> #[trigger] is_power(autos, g, q, k),
    ensures
        (g * exponent_run(secrets, autos, e, pbs::schedule(gk, w, q))) % q == (-e + g * (power_sum(
            secrets,
            gk,
            0,
            g,
            q / 4,
        ) - power_sum(secrets, gk, q / 4, g, q / 4))) % q,
        exponent_run(secrets, autos, 0, pbs::schedule(gk, w, q)) % q == (power_sum(
            secrets,
            gk,
            0,
            g,
            q / 4,
        ) - power_sum(secrets, gk, q / 4, g, q / 4)) % q,
{
    lemma_schedule_affine(secrets, autos, e, gk, w, g, q);
    lemma_schedule_affine(secrets, autos, 0, gk, w, g, q);
    let l = q / 4;
    let (x, one) = (pow(g, (l - 1) as nat), pow(g, l as nat));
    let (p, m) = (power_sum(secrets, gk, 0, g, l), power_sum(secrets, gk, l, g, l));
    lemma_pow_adds(g, 1, (l - 1) as nat);
    lemma_pow1(g);
    assert(one == g * x);
    // p - g^l m is congruent to p - m
    let r = exponent_run(secrets, autos, 0, pbs::schedule(gk, w, q));
    assert(x * 0 == 0 && one * (0 + m) == one * m) by (nonlinear_arith);
    lemma_mul_mod_noop_left(one, m, q);
    lemma_mul_mod_noop_left(1, m, q);
    lemma_sub_mod_noop(p, one * m, q);
    lemma_sub_mod_noop(p, m, q);
    assert(1 * m == m);
    lemma_small_mod(1, q as nat);
    // g (p - g^l (x e + m)) is congruent to g (p - m) - e
    let t = exponent_run(secrets, autos, e, pbs::schedule(gk, w, q));
    let f = p - one * (x * e + m);
    lemma_mul_mod_noop_right(g, t, q);
    lemma_mul_mod_noop_right(g, f, q);
    assert(g * f == g * p - (one * one) * e - one * (g * m)) by (nonlinear_arith)
        requires
            f == p - one * (x * e + m),
            one == g * x,
    ;
    lemma_mul_mod_noop(one, one, q);
    lemma_mul_mod_noop_left(one * one, e, q);
    lemma_mul_mod_noop_left(1, e, q);
    assert(1 * e == e);
    lemma_mul_mod_noop_left(one, g * m, q);
    lemma_mul_mod_noop_left(1, g * m, q);
    assert(1 * (g * m) == g * m);
    let (a, b) = ((one * one) * e, one * (g * m));
    lemma_sub_mod_noop(g * p - a, b, q);
    lemma_sub_mod_noop(g * p, a, q);
    lemma_sub_mod_noop(g * p, e, q);
    lemma_sub_mod_noop(g * p - e, g * m, q);
    lemma_mul_is_distributive_sub(g, p, m);
}

/// What the schedule makes of an exponent, before the powers of `g` are reduced.
proof fn lemma_schedule_affine(
    secrets: Seq<int>,
    autos: Map<int, (int, int)>,
    e: int,
    gk: Seq<Seq<usize>>,
    w: int,
    g: int,
    q: int,
)
    requires
        q >= 4,
        gk.len() >= 2 * (q / 4),
        forall|k: int| pbs::in_window(k, w) && k < q / 4 ==> #[trigger] is_power(autos, g, q, k),
    ensures
        exponent_run(secrets, autos, e, pbs::schedule(gk, w, q)) % q == (power_sum(
            secrets,
            gk,
            0,
            g,
            q / 4,
        ) - pow(g, (q / 4) as nat) * (pow(g, (q / 4 - 1) as nat) * e + power_sum(
            secrets,
            gk,
            q / 4,
            g,
            q / 4,
        ))) % q,
{
    let l = q / 4;
    let (a, b, d, f) = (
        pbs::descent(gk, l, l - 1, 0, w),
        pbs::secret_steps(gk[l]),
        pbs::descent(gk, 0, l - 1, 0, w),
        pbs::secret_steps(gk[0]),
    );
    let c = seq![RotationStep::Auto(0)];
    assert(pbs::schedule(gk, w, q) == a + b + c + d + f);
    lemma_exponent_append(secrets, autos, e, a, b);
    lemma_exponent_append(secrets, autos, e, a + b, c);
    lemma_exponent_append(secrets, autos, e, a + b + c, d);
    lemma_exponent_append(secrets, autos, e, a + b + c + d, f);
    let x = pow(g, (l - 1) as nat);
    let (nl, pl) = (level_sum(secrets, gk, l, g, l - 1), level_sum(secrets, gk, 0, g, l - 1));
    let (n0, p0) = (level(secrets, gk, l), level(secrets, gk, 0));
    let e1 = exponent_run(secrets, autos, e, a);
    lemma_descent_exponent(secrets, autos, e, gk, l, l - 1, 0, w, g, q, l);
    let e2 = e1 + n0;
    lemma_secret_steps(secrets, autos, e1, gk[l], gk[l].len() as int);
    assert(b.take(gk[l].len() as int) =~= b);
    assert(is_power(autos, g, q, 0));
    let u = autos[0].0;
    let e3 = e2 * u;
    assert(c.drop_last() =~= Seq::empty());
    assert(exponent_run(secrets, autos, e2, c) == e3) by {
        reveal_with_fuel(exponent_run, 2);
    }
    let e4 = exponent_run(secrets, autos, e3, d);
    lemma_descent_exponent(secrets, autos, e3, gk, 0, l - 1, 0, w, g, q, l);
    lemma_secret_steps(secrets, autos, e4, gk[0], gk[0].len() as int);
    assert(f.take(gk[0].len() as int) =~= f);
    let e5 = e4 + p0;
    // e2 is congruent to x e + (nl + n0)
    let y = x * e + nl + n0;
    lemma_add_mod_noop(e1, n0, q);
    lemma_add_mod_noop(x * e + nl, n0, q);
    assert(e2 % q == y % q);
    // x e3 is congruent to -(g x) y
    lemma_mul_mod_noop(e2, u, q);
    lemma_mul_mod_noop(y, -g, q);
    lemma_mul_mod_noop_right(x, e3, q);
    lemma_mul_mod_noop_right(x, y * (-g), q);
    lemma_add_mod_noop(x * e3, pl, q);
    lemma_add_mod_noop(x * (y * (-g)), pl, q);
    lemma_add_mod_noop(e4, p0, q);
    lemma_add_mod_noop(x * (y * (-g)) + pl, p0, q);
    lemma_pow_adds(g, 1, (l - 1) as nat);
    lemma_pow1(g);
    let one = pow(g, l as nat);
    assert(x * (y * (-g)) + pl + p0 == (p0 + pl) - one * (x * e + (n0 + nl)))
        by (nonlinear_arith)
        requires
            one == g * x,
            y == x * e + nl + n0,
    ;
}

/// The product of the exponents of the automorphisms among the steps.
spec fn multiplier(autos: Map<int, (int, int)>, steps: Seq<RotationStep>) -> int
    decreases steps.len(),
{
    if steps.len() == 0 {
        1
    } else {
        let before = multiplier(autos, steps.drop_last());
        match steps.last() {
            RotationStep::Secret(i) => before,
            RotationStep::Auto(k) => before * autos[k].0,
        }
    }
}

proof fn lemma_exponent_affine(
    secrets: Seq<int>,
    autos: Map<int, (int, int)>,
    e: int,
    steps: Seq<RotationStep>,
)
    ensures
        exponent_run(secrets, autos, e, steps) == exponent_run(secrets, autos, 0, steps) + e
            * multiplier(autos, steps),
    decreases steps.len(),
{
    if steps.len() == 0 {
        lemma_mul_basics(e);
    } else {
        let before = steps.drop_last();
        lemma_exponent_affine(secrets, autos, e, before);
        match steps.last() {
            RotationStep::Secret(i) => {},
            RotationStep::Auto(k) => {
                let (x, m, u) = (
                    exponent_run(secrets, autos, 0, before),
                    multiplier(autos, before),
                    autos[k].0,
                );
                assert((x + e * m) * u == x * u + e * (m * u)) by (nonlinear_arith);
            },
        }
    }
}

proof fn lemma_multiplier_inverse(
    secret: RotationSecret,
    secrets: Seq<int>,
    factor: int,
    n: nat,
    steps: Seq<RotationStep>,
)
    requires
        n > 0,
        forall|t: int|
            0 <= t < steps.len() ==> step_fits(secret, secrets, factor, n, #[trigger] steps[t]),
    ensures
        automorphism::is_inverse(
            multiplier(secret.autos, steps),
            inverse_run(secret.autos, steps),
            n,
        ),
    decreases steps.len(),
{
    let m = 2 * n as int;
    if steps.len() == 0 {
        assert(1int * 1int == 1int);
    } else {
        let before = steps.drop_last();
        assert forall|t: int| 0 <= t < before.len() implies step_fits(
            secret,
            secrets,
            factor,
            n,
            #[trigger] before[t],
        ) by {
            assert(before[t] == steps[t]);
        }
        lemma_multiplier_inverse(secret, secrets, factor, n, before);
        let (x, y) = (multiplier(secret.autos, before), inverse_run(secret.autos, before));
        let last = steps[steps.len() - 1];
        assert(step_fits(secret, secrets, factor, n, last));
        match last {
            RotationStep::Secret(i) => {},
            RotationStep::Auto(k) => {
                let (u, inv) = secret.autos[k];
                assert((x * u) * (y * inv) == (x * y) * (u * inv)) by (nonlinear_arith);
                lemma_mul_mod_noop(x * y, u * inv, m);
                lemma_mul_mod_noop(1, 1, m);
            },
        }
    }
}

/// The inverse exponent of the automorphisms of the schedule is congruent to `-g`.
pub proof fn lemma_schedule_inverse(
    secret: RotationSecret,
    secrets: Seq<int>,
    factor: int,
    gk: Seq<Seq<usize>>,
    w: int,
    g: int,
    q: int,
    n: nat,
)
    requires
        q >= 4,
        factor > 0,
        2 * n == factor * q,
        gk.len() >= 2 * (q / 4),
        pow(g, (q / 4) as nat) % q == 1,
        forall|k: int|
            pbs::in_window(k, w) && k < q / 4 ==> #[trigger] is_power(secret.autos, g, q, k),
        forall|t: int|
            0 <= t < pbs::schedule(gk, w, q).len() ==> step_fits(
                secret,
                secrets,
                factor,
                n,
                #[trigger] pbs::schedule(gk, w, q)[t],
            ),
    ensures
        inverse_run(secret.autos, pbs::schedule(gk, w, q)) % q == (-g) % q,
{
    let steps = pbs::schedule(gk, w, q);
    let autos = secret.autos;
    let (k, v) = (multiplier(autos, steps), inverse_run(autos, steps));
    let (x0, x1) = (
        exponent_run(secrets, autos, 0, steps),
        exponent_run(secrets, autos, 1, steps),
    );
    assert(n > 0) by {
        assert(factor * q > 0) by (nonlinear_arith)
            requires
                factor > 0,
                q > 0,
        ;
    }
    lemma_exponent_affine(secrets, autos, 1, steps);
    lemma_schedule_exponent(secrets, autos, 1, gk, w, g, q);
    lemma_schedule_exponent(secrets, autos, 0, gk, w, g, q);
    // g k is congruent to -1
    let y = g * (power_sum(secrets, gk, 0, g, q / 4) - power_sum(secrets, gk, q / 4, g, q / 4));
    lemma_sub_mod_noop(g * x1, g * x0, q);
    lemma_sub_mod_noop(-1 + y, -0 + y, q);
    assert(x1 == x0 + k) by {
        lemma_mul_basics(k);
    }
    assert(g * x1 - g * x0 == g * k) by (nonlinear_arith)
        requires
            x1 == x0 + k,
    ;
    assert((g * k) % q == (-1int) % q);
    // k v is congruent to 1
    lemma_multiplier_inverse(secret, secrets, factor, n, steps);
    let c = automorphism::lemma_inverse(k, v, n);
    assert(2 * n * c == q * (factor * c)) by (nonlinear_arith)
        requires
            2 * n == factor * q,
    ;
    lemma_mod_multiples_vanish(factor * c, 1, q);
    assert((k * v) % q == 1int % q);
    // -g is congruent to -g (k v) = -(g k) v, which is congruent to v
    lemma_mul_mod_noop_right(-g, k * v, q);
    lemma_mul_mod_noop_right(-g, 1, q);
    lemma_mul_mod_noop_left(g * k, -v, q);
    lemma_mul_mod_noop_left(-1, -v, q);
    assert((-g) * (k * v) == (g * k) * (-v)) by (nonlinear_arith);
    assert((-1) * (-v) == v) by (nonlinear_arith);
    assert((-g) * 1 == -g) by (nonlinear_arith);
}

/// `dlog` gives for each odd `a` below `q` the `k` for which `a = g^k`, or `k + q/4` where
/// `a = -g^k`, modulo `q`.
pub open spec fn is_dlog_map(dlog: Seq<usize>, g: int, q: int) -> bool {
    &&& dlog.len() >= q
    &&& forall|a: int| 0 <= a < q && a % 2 == 1 ==> dlog_entry(#[trigger] dlog[a] as int, a, g, q)
}

/// `k` is the entry for `a` in the table of discrete logarithms.
pub open spec fn dlog_entry(k: int, a: int, g: int, q: int) -> bool {
    &&& 0 <= k < 2 * (q / 4)
    &&& a % q == (if k < q / 4 {
        pow(g, k as nat)
    } else {
        -pow(g, (k - q / 4) as nat)
    }) % q
}

proof fn lemma_list_sum_push(secrets: Seq<int>, list: Seq<usize>, x: usize, j: int)
    requires
        j <= list.len(),
    ensures
        list_sum(secrets, list.push(x), j) == list_sum(secrets, list, j),
    decreases j,
{
    if j > 0 {
        lemma_list_sum_push(secrets, list, x, j - 1);
    }
}

/// One more entry adds its secret element to the list of its discrete logarithm.
proof fn lemma_level_step(
    secrets: Seq<int>,
    odds: Seq<int>,
    dlog: Seq<usize>,
    count: int,
    j: int,
    i: int,
)
    requires
        0 <= j < odds.len(),
        j <= usize::MAX,
        0 <= i < count,
    ensures
        level(secrets, pbs::buckets(odds, dlog, count, j + 1), i) == level(
            secrets,
            pbs::buckets(odds, dlog, count, j),
            i,
        ) + (if dlog[odds[j]] == i {
            secrets[j]
        } else {
            0
        }),
{
    let before = pbs::bucket(odds, dlog, i, j);
    assert(pbs::buckets(odds, dlog, count, j)[i] == before);
    assert(pbs::buckets(odds, dlog, count, j + 1)[i] == pbs::bucket(odds, dlog, i, j + 1));
    if dlog[odds[j]] == i {
        let after = before.push(j as usize);
        lemma_list_sum_push(secrets, before, j as usize, before.len() as int);
        assert(after.len() == before.len() + 1);
        assert(after[after.len() - 1] == j as usize);
    }
}

proof fn lemma_level_sum_step(
    secrets: Seq<int>,
    odds: Seq<int>,
    dlog: Seq<usize>,
    count: int,
    j: int,
    base: int,
    g: int,
    i: int,
)
    requires
        0 <= j < odds.len(),
        j <= usize::MAX,
        0 <= base,
        0 <= i,
        base + i < count,
    ensures
        level_sum(secrets, pbs::buckets(odds, dlog, count, j + 1), base, g, i) == level_sum(
            secrets,
            pbs::buckets(odds, dlog, count, j),
            base,
            g,
            i,
        ) + (if base < dlog[odds[j]] <= base + i {
            pow(g, (dlog[odds[j]] - base) as nat) * secrets[j]
        } else {
            0
        }),
    decreases i,
{
    if i > 0 {
        lemma_level_sum_step(secrets, odds, dlog, count, j, base, g, i - 1);
        lemma_level_step(secrets, odds, dlog, count, j, base + i);
        let x = level(secrets, pbs::buckets(odds, dlog, count, j), base + i);
        let (p, s) = (pow(g, i as nat), secrets[j]);
        assert(p * (x + s) == p * x + p * s) by (nonlinear_arith);
        assert(p * (x + 0) == p * x);
    }
}

proof fn lemma_empty_levels(
    secrets: Seq<int>,
    gk: Seq<Seq<usize>>,
    base: int,
    g: int,
    i: int,
)
    requires
        0 <= base,
        0 <= i,
        base + i < gk.len(),
        forall|k: int| 0 <= k < gk.len() ==> (#[trigger] gk[k]).len() == 0,
    ensures
        level(secrets, gk, base + i) == 0,
        level_sum(secrets, gk, base, g, i) == 0,
    decreases i,
{
    assert(gk[base + i].len() == 0);
    if i > 0 {
        lemma_empty_levels(secrets, gk, base, g, i - 1);
        let p = pow(g, i as nat);
        assert(p * 0 == 0) by (nonlinear_arith);
    }
}

/// The secret elements in the lists, each times plus or minus its power of `g`, add up to the
/// inner product of the entries and the secret elements.
pub proof fn lemma_buckets_product(
    secrets: Seq<int>,
    odds: Seq<int>,
    dlog: Seq<usize>,
    g: int,
    q: int,
    j: int,
)
    requires
        q >= 4,
        q % 4 == 0,
        is_dlog_map(dlog, g, q),
        forall|i: int| 0 <= i < odds.len() ==> 0 <= #[trigger] odds[i] < q && odds[i] % 2 == 1,
        0 <= j <= odds.len(),
        odds.len() <= usize::MAX,
    ensures
        (power_sum(secrets, pbs::buckets(odds, dlog, q / 2, j), 0, g, q / 4) - power_sum(
            secrets,
            pbs::buckets(odds, dlog, q / 2, j),
            q / 4,
            g,
            q / 4,
        )) % q == lwe::dot(odds, secrets, j) % q,
    decreases j,
{
    let l = q / 4;
    let count = q / 2;
    assert(count == 2 * l);
    let gk = pbs::buckets(odds, dlog, count, j);
    if j == 0 {
        lemma_empty_levels(secrets, gk, 0, g, 0);
        lemma_empty_levels(secrets, gk, l, g, 0);
        lemma_empty_levels(secrets, gk, 0, g, l - 1);
        lemma_empty_levels(secrets, gk, l, g, l - 1);
    } else {
        let before = pbs::buckets(odds, dlog, count, j - 1);
        lemma_buckets_product(secrets, odds, dlog, g, q, j - 1);
        lemma_level_step(secrets, odds, dlog, count, j - 1, 0);
        lemma_level_step(secrets, odds, dlog, count, j - 1, l);
        lemma_level_sum_step(secrets, odds, dlog, count, j - 1, 0, g, l - 1);
        lemma_level_sum_step(secrets, odds, dlog, count, j - 1, l, g, l - 1);
        let a = odds[j - 1];
        let s = secrets[j - 1];
        let k = dlog[a] as int;
        assert(dlog_entry(dlog[a] as int, a, g, q));
        let d = power_sum(secrets, before, 0, g, l) - power_sum(secrets, before, l, g, l);
        let c = if k < l {
            pow(g, k as nat)
        } else {
            -pow(g, (k - l) as nat)
        };
        lemma_pow0(g);
        assert(1 * s == s);
        if k >= l {
            let p = pow(g, (k - l) as nat);
            assert((-p) * s == -(p * s)) by (nonlinear_arith);
        }
        assert(power_sum(secrets, gk, 0, g, l) - power_sum(secrets, gk, l, g, l) == d + c * s);
        lemma_mul_mod_noop_left(c, s, q);
        lemma_mul_mod_noop_left(a, s, q);
        lemma_add_mod_noop(d, c * s, q);
        lemma_add_mod_noop(lwe::dot(odds, secrets, j - 1), a * s, q);
    }
}

/// The coefficients of `t(X^f)` at multiples of `f`.
proof fn lemma_embedded_at(t: Seq<int>, f: int, n: nat, y: int)
    requires
        f > 0,
        t.len() > 0,
        n == f * t.len(),
    ensures
        ring::coeff_at(pbs::embedded(t, f, n), f * y) == ring::coeff_at(t, y),
{
    let h = t.len() as int;
    let e = pbs::embedded(t, f, n);
    let r = y % (2 * h);
    lemma_mod_bound(y, 2 * h);
    let d = y / (2 * h);
    lemma_fundamental_div_mod(y, 2 * h);
    assert(f * y == d * (2 * n) + f * r && 0 <= f * r < 2 * n) by (nonlinear_arith)
        requires
            n == f * h,
            y == 2 * h * d + r,
            0 <= r < 2 * h,
            f > 0,
    ;
    lemma_fundamental_div_mod_converse(f * y, 2 * n as int, d, f * r);
    let i = if r < h {
        r
    } else {
        r - h
    };
    assert(0 <= f * i < n && f * (r - i) == (if r < h {
        0int
    } else {
        n as int
    }) && f * r == f * i + f * (r - i)) by (nonlinear_arith)
        requires
            f > 0,
            0 <= i < h,
            n == f * h,
            r - i == (if r < h {
                0int
            } else {
                h
            }),
    ;
    lemma_mul_is_commutative(f, i);
    lemma_div_multiples_vanish(i, f);
    lemma_mod_multiples_basic(i, f);
    assert(e[f * i] == t[i]);
    assert(e.len() == n);
}

/// A bootstrapping decrypts to the coefficient of the test polynomial at `-g` times what the
/// rescaled ciphertext `(b, odds)` decrypts to, plus the noise of the blind rotation.
pub proof fn lemma_bootstrap<K: PbsKey, D: Decomposer, A: Decomposer, N: Ntt>(
    rotation: Rotation<K, D, A, N>,
    secret: RotationSecret,
    secrets: Seq<int>,
    test_vec: Seq<int>,
    b: int,
    odds: Seq<int>,
    dlog: Seq<usize>,
    factor: int,
    w: int,
    g: int,
    q: int,
)
    requires
        is_exact(rotation),
        secret.s.len() == rotation.ntt.n(),
        ring::canonical(secret.s, rotation.ntt.q()),
        q >= 4,
        q % 4 == 0,
        factor > 0,
        2 * rotation.ntt.n() == factor * q,
        test_vec.len() == q / 2,
        is_dlog_map(dlog, g, q),
        pow(g, (q / 4) as nat) % q == 1,
        odds.len() == secrets.len(),
        odds.len() <= usize::MAX,
        forall|i: int| 0 <= i < odds.len() ==> 0 <= #[trigger] odds[i] < q && odds[i] % 2 == 1,
        forall|i: int|
            0 <= i < secrets.len() ==> #[trigger] key_encrypts(
                rotation,
                secret,
                RotationStep::Secret(i),
            ) && secret.exponents[i] == factor * secrets[i],
        forall|k: int|
            pbs::in_window(k, w) && k < q / 4 ==> #[trigger] key_encrypts(
                rotation,
                secret,
                RotationStep::Auto(k),
            ),
        forall|k: int|
            pbs::in_window(k, w) && k < q / 4 ==> #[trigger] is_power(secret.autos, g, q, k),
    ensures
        ({
            let rlwe_q = rotation.ntt.q();
            let state = (
                seq![
                    poly::zeros(rotation.ntt.n()),
                    pbs::embedded(
                        ring::monomial_times(test_vec, g * b, rlwe_q),
                        factor,
                        rotation.ntt.n(),
                    ),
                ],
                true,
            );
            let steps = pbs::schedule(
                pbs::buckets(odds, dlog, q / 2, odds.len() as int),
                w,
                q,
            );
            lwe::lwe_phase(
                pbs::extracted(rotation.run(state, steps).0, 0, rlwe_q),
                secret.s,
                rlwe_q,
            ) == (ring::coeff_at(
                test_vec,
                -(g * (b - lwe::dot(odds, secrets, odds.len() as int))),
            ) + run_noise(rotation, secret, state, steps)[0]) % rlwe_q
        }),
{
    let n = rotation.ntt.n();
    let rlwe_q = rotation.ntt.q();
    let m = odds.len() as int;
    rotation.ntt.lemma_positive();
    let t = ring::monomial_times(test_vec, g * b, rlwe_q);
    let p = pbs::embedded(t, factor, n);
    let state = (seq![poly::zeros(n), p], true);
    let gk = pbs::buckets(odds, dlog, q / 2, m);
    let steps = pbs::schedule(gk, w, q);
    assert forall|i: int, c: int| 0 <= i < gk.len() && 0 <= c < gk[i].len() implies 0
        <= #[trigger] gk[i][c] < m by {
        pbs::lemma_bucket(odds, dlog, i, m);
        assert(gk[i] == pbs::bucket(odds, dlog, i, m));
    }
    lemma_schedule_keys(rotation, secret, secrets, gk, factor, w, q);
    lemma_start(test_vec, g * b, factor, secret.s, n, rlwe_q);
    lemma_run_decrypts(rotation, secret, state, steps);
    let out = rotation.run(state, steps).0;
    decryption::lemma_sample_extract(out, 0, secret.s, rlwe_q);
    let r = secret.run(p, steps, rlwe_q);
    lemma_coefficient(secret, secrets, test_vec, b, odds, dlog, factor, w, g, q, n, rlwe_q);
    let c = ring::coeff_at(test_vec, -(g * (b - lwe::dot(odds, secrets, m))));
    let noise = run_noise(rotation, secret, state, steps)[0];
    lemma_add_mod_noop_right(noise, c, rlwe_q);
}

/// The steps of the schedule have keys that encrypt what they should.
pub proof fn lemma_schedule_keys<K: PbsKey, D: Decomposer, A: Decomposer, N: Ntt>(
    rotation: Rotation<K, D, A, N>,
    secret: RotationSecret,
    secrets: Seq<int>,
    gk: Seq<Seq<usize>>,
    factor: int,
    w: int,
    q: int,
)
    requires
        q >= 4,
        gk.len() >= 2 * (q / 4),
        forall|i: int, c: int|
            0 <= i < gk.len() && 0 <= c < gk[i].len() ==> 0 <= #[trigger] gk[i][c]
                < secrets.len(),
        forall|i: int|
            0 <= i < secrets.len() ==> #[trigger] key_encrypts(
                rotation,
                secret,
                RotationStep::Secret(i),
            ) && secret.exponents[i] == factor * secrets[i],
        forall|k: int|
            pbs::in_window(k, w) && k < q / 4 ==> #[trigger] key_encrypts(
                rotation,
                secret,
                RotationStep::Auto(k),
            ),
    ensures
        ({
            let steps = pbs::schedule(gk, w, q);
            forall|x: int|
                0 <= x < steps.len() ==> key_encrypts(rotation, secret, #[trigger] steps[x])
                    && step_fits(secret, secrets, factor, rotation.ntt.n(), steps[x])
        }),
{
    let m = secrets.len() as int;
    let steps = pbs::schedule(gk, w, q);
    pbs::lemma_schedule_within(gk, w, q, m);
    assert forall|x: int| 0 <= x < steps.len() implies key_encrypts(
        rotation,
        secret,
        #[trigger] steps[x],
    ) && step_fits(secret, secrets, factor, rotation.ntt.n(), steps[x]) by {
        assert(pbs::step_within(steps[x], m, w, q / 4));
        match steps[x] {
            RotationStep::Secret(i) => {
                assert(key_encrypts(rotation, secret, RotationStep::Secret(i)));
            },
            RotationStep::Auto(k) => {
                assert(key_encrypts(rotation, secret, RotationStep::Auto(k)));
            },
        }
    }
}

/// A blind rotation decrypts to the whole rotated polynomial, plus the noise of its steps: of
/// the polynomial `f` that the start decrypts to it makes `X^(factor * e) * f(X^k)`. There `e` is
/// congruent to the sum of the listed secret elements, each times plus or minus the power of `g`
/// of its list, and the inverse of `k` to `-g`.
pub proof fn lemma_blind_rotation<K: PbsKey, D: Decomposer, A: Decomposer, N: Ntt>(
    rotation: Rotation<K, D, A, N>,
    secret: RotationSecret,
    secrets: Seq<int>,
    state: (Seq<Seq<int>>, bool),
    gk: Seq<Seq<usize>>,
    factor: int,
    w: int,
    g: int,
    q: int,
)
    requires
        is_exact(rotation),
        is_state(state, rotation.ntt.n(), rotation.ntt.q()),
        secret.s.len() == rotation.ntt.n(),
        ring::canonical(secret.s, rotation.ntt.q()),
        q >= 4,
        factor > 0,
        2 * rotation.ntt.n() == factor * q,
        gk.len() >= 2 * (q / 4),
        pow(g, (q / 4) as nat) % q == 1,
        forall|i: int, c: int|
            0 <= i < gk.len() && 0 <= c < gk[i].len() ==> 0 <= #[trigger] gk[i][c]
                < secrets.len(),
        forall|i: int|
            0 <= i < secrets.len() ==> #[trigger] key_encrypts(
                rotation,
                secret,
                RotationStep::Secret(i),
            ) && secret.exponents[i] == factor * secrets[i],
        forall|k: int|
            pbs::in_window(k, w) && k < q / 4 ==> #[trigger] key_encrypts(
                rotation,
                secret,
                RotationStep::Auto(k),
            ),
        forall|k: int|
            pbs::in_window(k, w) && k < q / 4 ==> #[trigger] is_power(secret.autos, g, q, k),
    ensures
        ({
            let rlwe_q = rotation.ntt.q();
            let steps = pbs::schedule(gk, w, q);
            let v = inverse_run(secret.autos, steps);
            let e = exponent_run(secrets, secret.autos, 0, steps);
            &&& rgsw::rlwe_phase(rotation.run(state, steps).0, secret.s, rlwe_q) == ring::poly_add(
                automorphism::rotated(
                    rgsw::rlwe_phase(state.0, secret.s, rlwe_q),
                    v,
                    factor * e,
                    rlwe_q,
                ),
                run_noise(rotation, secret, state, steps),
                rlwe_q,
            )
            &&& v % 2 == 1
            &&& v % q == (-g) % q
            &&& e % q == (power_sum(secrets, gk, 0, g, q / 4) - power_sum(
                secrets,
                gk,
                q / 4,
                g,
                q / 4,
            )) % q
        }),
{
    let n = rotation.ntt.n();
    let rlwe_q = rotation.ntt.q();
    rotation.ntt.lemma_positive();
    let steps = pbs::schedule(gk, w, q);
    let f = rgsw::rlwe_phase(state.0, secret.s, rlwe_q);
    ring::lemma_reduced_canonical(
        poly::minus(state.0[1], ring::nega_mul(secret.s, state.0[0], rlwe_q)),
        rlwe_q,
    );
    assert(state.0[0].len() == n && state.0[1].len() == n);
    lemma_schedule_keys(rotation, secret, secrets, gk, factor, w, q);
    lemma_run_decrypts(rotation, secret, state, steps);
    lemma_run_rotates(secret, f, secrets, factor, steps, rlwe_q);
    lemma_schedule_exponent(secrets, secret.autos, 0, gk, w, g, q);
    lemma_schedule_inverse(secret, secrets, factor, gk, w, g, q, n);
}

/// The ciphertext at the start is trivial and decrypts to the embedded polynomial.
pub proof fn lemma_start(test_vec: Seq<int>, e: int, factor: int, s: Seq<int>, n: nat, q: int)
    requires
        q > 0,
        factor > 0,
        s.len() == n,
    ensures
        ({
            let p = pbs::embedded(ring::monomial_times(test_vec, e, q), factor, n);
            let ct = seq![poly::zeros(n), p];
            &&& ring::canonical(p, q)
            &&& is_state((ct, true), n, q)
            &&& rgsw::rlwe_phase(ct, s, q) == p
        }),
{
    let t = ring::monomial_times(test_vec, e, q);
    let p = pbs::embedded(t, factor, n);
    let z = poly::zeros(n);
    let ct = seq![z, p];
    assert(ring::canonical(z, q));
    assert forall|j: int| 0 <= j < n implies 0 <= #[trigger] p[j] < q by {
        lemma_div_pos_is_pos(j, factor);
        if j % factor == 0 && j / factor < t.len() {
            lemma_mod_bound(ring::coeff_at(test_vec, j / factor - e), q);
        }
    }
    assert(ct[0] == z && ct[1] == p);
    ring::lemma_nega_mul_zeros(s, n, q);
    ring::lemma_poly_add_zeros(p, q);
}

/// The coefficient at zero of the rotated test polynomial.
pub proof fn lemma_coefficient(
    secret: RotationSecret,
    secrets: Seq<int>,
    test_vec: Seq<int>,
    b: int,
    odds: Seq<int>,
    dlog: Seq<usize>,
    factor: int,
    w: int,
    g: int,
    q: int,
    n: nat,
    rlwe_q: int,
)
    requires
        rlwe_q > 0,
        q >= 4,
        q % 4 == 0,
        factor > 0,
        2 * n == factor * q,
        test_vec.len() == q / 2,
        is_dlog_map(dlog, g, q),
        pow(g, (q / 4) as nat) % q == 1,
        odds.len() <= usize::MAX,
        forall|i: int| 0 <= i < odds.len() ==> 0 <= #[trigger] odds[i] < q && odds[i] % 2 == 1,
        forall|k: int|
            pbs::in_window(k, w) && k < q / 4 ==> #[trigger] is_power(secret.autos, g, q, k),
        ring::canonical(
            pbs::embedded(ring::monomial_times(test_vec, g * b, rlwe_q), factor, n),
            rlwe_q,
        ),
        ({
            let steps = pbs::schedule(
                pbs::buckets(odds, dlog, q / 2, odds.len() as int),
                w,
                q,
            );
            forall|t: int|
                0 <= t < steps.len() ==> step_fits(
                    secret,
                    secrets,
                    factor,
                    n,
                    #[trigger] steps[t],
                )
        }),
    ensures
        ({
            let steps = pbs::schedule(
                pbs::buckets(odds, dlog, q / 2, odds.len() as int),
                w,
                q,
            );
            secret.run(
                pbs::embedded(ring::monomial_times(test_vec, g * b, rlwe_q), factor, n),
                steps,
                rlwe_q,
            )[0] == ring::coeff_at(
                test_vec,
                -(g * (b - lwe::dot(odds, secrets, odds.len() as int))),
            ) % rlwe_q
        }),
{
    let m = odds.len() as int;
    let half = q / 2;
    let t = ring::monomial_times(test_vec, g * b, rlwe_q);
    let p = pbs::embedded(t, factor, n);
    let steps = pbs::schedule(pbs::buckets(odds, dlog, half, m), w, q);
    assert(n == factor * half && n > 0) by (nonlinear_arith)
        requires
            2 * n == factor * q,
            q == 2 * half,
            factor > 0,
            half > 0,
    ;
    lemma_run_rotates(secret, p, secrets, factor, steps, rlwe_q);
    let v = inverse_run(secret.autos, steps);
    let e = exponent_run(secrets, secret.autos, 0, steps);
    let r = automorphism::rotated(p, v, factor * e, rlwe_q);
    let y = -(e * v);
    assert((0 - factor * e) * v == factor * y) by (nonlinear_arith)
        requires
            y == -(e * v),
    ;
    lemma_embedded_at(t, factor, n, y);
    assert(r[0] == ring::coeff_at(t, y) % rlwe_q);
    lemma_bootstrap_exponent(secret, secrets, odds, dlog, factor, w, g, q, n);
    let d = lwe::dot(odds, secrets, m);
    // y is congruent to g d modulo q = 2 half.
    assert(2 * t.len() == q);
    assert(ring::coeff_at(t, y) == ring::coeff_at(t, g * d));
    let r1 = automorphism::rotated(test_vec, 1, g * b, rlwe_q);
    assert forall|j: int| 0 <= j < half implies #[trigger] r1[j] == t[j] by {
        assert((j - g * b) * 1 == j - g * b);
    }
    assert(r1 =~= t);
    automorphism::lemma_rotated_at(test_vec, 1, g * b, g * d, rlwe_q);
    assert((g * d - g * b) * 1 == -(g * (b - d))) by (nonlinear_arith);
}

/// A bootstrapping with keys that encrypt what they should decrypts to the coefficient of the test
/// polynomial at `-g` times what the ciphertext, rescaled for the blind rotation, decrypts to,
/// plus the noise of the blind rotation.
pub proof fn lemma_pbs<P: PbsInfo, K: PbsKey>(
    info: P,
    key: K,
    secret: RotationSecret,
    secrets: Seq<int>,
    test_vec: Seq<int>,
    lwe_in: Seq<int>,
)
    requires
        pbs::pbs_ready(info, key),
        pbs::input_fits(info, key, lwe_in),
        is_exact(pbs::rotation_of(info, key)),
        secret.s.len() == info.parameters().rlwe_n,
        ring::canonical(secret.s, info.parameters().rlwe_q),
        secrets.len() == info.parameters().lwe_n,
        info.parameters().lwe_n <= usize::MAX,
        2 * info.parameters().rlwe_n == info.parameters().embedding_factor
            * info.parameters().br_q,
        test_vec.len() == info.parameters().br_q / 2,
        is_dlog_map(
            info.parameters().g_k_dlog_map,
            info.parameters().g,
            info.parameters().br_q,
        ),
        pow(info.parameters().g, (info.parameters().br_q / 4) as nat) % info.parameters().br_q
            == 1,
        forall|i: int|
            0 <= i < secrets.len() ==> #[trigger] key_encrypts(
                pbs::rotation_of(info, key),
                secret,
                RotationStep::Secret(i),
            ) && secret.exponents[i] == info.parameters().embedding_factor * secrets[i],
        forall|k: int|
            pbs::in_window(k, info.parameters().w) && k < info.parameters().br_q / 4
                ==> #[trigger] key_encrypts(
                pbs::rotation_of(info, key),
                secret,
                RotationStep::Auto(k),
            ),
        forall|k: int|
            pbs::in_window(k, info.parameters().w) && k < info.parameters().br_q / 4
                ==> #[trigger] is_power(
                secret.autos,
                info.parameters().g,
                info.parameters().br_q,
                k,
            ),
    ensures
        ({
            let p = info.parameters();
            let odds = pbs::rotation_exponents(info, key, lwe_in);
            let phase = odds[0] - lwe::dot(odds.skip(1), secrets, secrets.len() as int);
            let noise = run_noise(
                pbs::rotation_of(info, key),
                secret,
                pbs::rotation_start(info, test_vec, odds[0]),
                pbs::rotation_steps(info, odds.skip(1)),
            );
            lwe::lwe_phase(
                pbs::bootstrapped(info, key, test_vec, lwe_in),
                secret.s,
                p.rlwe_q,
            ) == (ring::coeff_at(test_vec, -(p.g * phase)) + noise[0]) % p.rlwe_q
        }),
{
    let p = info.parameters();
    let rotation = pbs::rotation_of(info, key);
    let odds = pbs::rotation_exponents(info, key, lwe_in);
    let switched = pbs::switched_down(info, key, lwe_in);
    let mask = odds.skip(1);
    p.modop_lweq.lemma_q_positive();
    assert(ring::canonical(poly::zeros(p.lwe_n + 1), p.lwe_q));
    lwe::lemma_key_switched(
        poly::zeros(p.lwe_n + 1),
        pbs::rescaled(lwe_in, p.rlwe_q, p.lwe_q),
        key.lwe_ksk_rows(),
        p.lwe_decomposer,
        p.lwe_q,
    );
    assert forall|i: int| 0 <= i < mask.len() implies 0 <= #[trigger] mask[i] < p.br_q && mask[i]
        % 2 == 1 by {
        let v = switched[i + 1];
        double::lemma_rescaled_range(v, p.lwe_q, p.br_q);
        assert(mask[i] == pbs::odd_up(double::floored(v, p.lwe_q, p.br_q)));
        assert(odds[i + 1] < p.br_q);
    }
    lemma_bootstrap(
        rotation,
        secret,
        secrets,
        test_vec,
        odds[0],
        mask,
        p.g_k_dlog_map,
        p.embedding_factor,
        p.w,
        p.g,
        p.br_q,
    );
}

/// The exponent after the schedule, times minus the inverse exponent, is congruent to `g` times
/// the inner product of the entries and the secret elements.
proof fn lemma_bootstrap_exponent(
    secret: RotationSecret,
    secrets: Seq<int>,
    odds: Seq<int>,
    dlog: Seq<usize>,
    factor: int,
    w: int,
    g: int,
    q: int,
    n: nat,
)
    requires
        q >= 4,
        q % 4 == 0,
        factor > 0,
        2 * n == factor * q,
        is_dlog_map(dlog, g, q),
        pow(g, (q / 4) as nat) % q == 1,
        odds.len() <= usize::MAX,
        forall|i: int| 0 <= i < odds.len() ==> 0 <= #[trigger] odds[i] < q && odds[i] % 2 == 1,
        forall|k: int|
            pbs::in_window(k, w) && k < q / 4 ==> #[trigger] is_power(secret.autos, g, q, k),
        ({
            let steps = pbs::schedule(
                pbs::buckets(odds, dlog, q / 2, odds.len() as int),
                w,
                q,
            );
            forall|t: int|
                0 <= t < steps.len() ==> step_fits(
                    secret,
                    secrets,
                    factor,
                    n,
                    #[trigger] steps[t],
                )
        }),
    ensures
        ({
            let steps = pbs::schedule(
                pbs::buckets(odds, dlog, q / 2, odds.len() as int),
                w,
                q,
            );
            (-(exponent_run(secrets, secret.autos, 0, steps) * inverse_run(secret.autos, steps)))
                % q == (g * lwe::dot(odds, secrets, odds.len() as int)) % q
        }),
{
    let m = odds.len() as int;
    let gk = pbs::buckets(odds, dlog, q / 2, m);
    let steps = pbs::schedule(gk, w, q);
    let v = inverse_run(secret.autos, steps);
    let e = exponent_run(secrets, secret.autos, 0, steps);
    let d = lwe::dot(odds, secrets, m);
    assert(gk.len() == q / 2);
    lemma_schedule_exponent(secrets, secret.autos, 0, gk, w, g, q);
    lemma_buckets_product(secrets, odds, dlog, g, q, m);
    lemma_schedule_inverse(secret, secrets, factor, gk, w, g, q, n);
    lemma_mul_mod_noop(e, v, q);
    lemma_mul_mod_noop(d, -g, q);
    lemma_sub_mod_noop(0, e * v, q);
    lemma_sub_mod_noop(0, d * (-g), q);
    assert(0 - d * (-g) == g * d) by (nonlinear_arith);
}

/// The sums over lists: of no list zero, and one more entry, or one more list, adds its term.
pub proof fn lemma_sum_terms(secrets: Seq<int>, gk: Seq<Seq<usize>>, base: int, g: int, j: int)
    requires
        j >= 0,
    ensures
        list_sum(secrets, gk[base], 0) == 0,
        list_sum(secrets, gk[base], j + 1) == list_sum(secrets, gk[base], j)
            + secrets[gk[base][j] as int],
        power_sum(secrets, gk, base, g, 1) == list_sum(
            secrets,
            gk[base],
            gk[base].len() as int,
        ),
        power_sum(secrets, gk, base, g, j + 2) == power_sum(secrets, gk, base, g, j + 1) + pow(
            g,
            (j + 1) as nat,
        ) * list_sum(secrets, gk[base + (j + 1)], gk[base + (j + 1)].len() as int),
{
}

/// What a table of discrete logarithms holds.
pub proof fn lemma_dlog_map(dlog: Seq<usize>, g: int, q: int, a: int)
    requires
        is_dlog_map(dlog, g, q),
        0 <= a < q,
        a % 2 == 1,
    ensures
        dlog.len() >= q,
        0 <= dlog[a] < 2 * (q / 4),
        dlog[a] < q / 4 ==> a % q == pow(g, dlog[a] as nat) % q,
        dlog[a] >= q / 4 ==> a % q == (-pow(g, (dlog[a] - q / 4) as nat)) % q,
{
    assert(dlog_entry(dlog[a] as int, a, g, q));
}

/// What the keys of a blind rotation encrypt: the RGSW ciphertext `i` the power of `X` with the
/// exponent `i`, the key `k` the image of the negated secret under the automorphism whose map
/// stands beside it. Digits must recompose, and automorphisms be powers of `g`, or minus it.
pub proof fn lemma_key_encrypts<K: PbsKey, D: Decomposer, A: Decomposer, N: Ntt>(
    rotation: Rotation<K, D, A, N>,
    secret: RotationSecret,
    i: int,
    g: int,
    q: int,
)
    ensures
        key_encrypts(rotation, secret, RotationStep::Secret(i)) <==> decryption::rgsw_encrypts(
            rotation.key.rgsw_ct(i).rows(),
            ring::monomial_times(
                poly::one(rotation.ntt.n()),
                secret.exponents[i],
                rotation.ntt.q(),
            ),
            secret.rgsw_errors[i],
            secret.s,
            rotation.rlwe_rgsw_decomposer,
            rotation.ntt,
        ),
        key_encrypts(rotation, secret, RotationStep::Auto(i)) <==> rotation.auto_maps[i] == (
            rgsw::auto_indices(rotation.ntt.n(), secret.autos[i].0),
            rgsw::auto_signs(rotation.ntt.n(), secret.autos[i].0),
        ) && (secret.autos[i].0 * secret.autos[i].1) % (2 * rotation.ntt.n() as int) == 1int % (2
            * rotation.ntt.n() as int) && decryption::auto_key_encrypts(
            rotation.key.galois_key(i).rows(),
            secret.autos[i].1,
            secret.auto_errors[i],
            secret.s,
            rotation.auto_decomposer,
            rotation.ntt,
        ),
        is_power(secret.autos, g, q, i) <==> secret.autos[i].0 % q == (if i == 0 {
            -g
        } else {
            pow(g, i as nat)
        }) % q,
        is_exact(rotation) <==> rotation.ntt.wf() && rotation.ntt.n() <= usize::MAX
            && rotation.rlwe_rgsw_decomposer.0.q() == rotation.ntt.q()
            && rotation.rlwe_rgsw_decomposer.1.q() == rotation.ntt.q()
            && rotation.auto_decomposer.q() == rotation.ntt.q() && decryption::recomposes(
            rotation.rlwe_rgsw_decomposer.0,
        ) && decryption::recomposes(rotation.rlwe_rgsw_decomposer.1) && decryption::recomposes(
            rotation.auto_decomposer,
        ),
{
}

} // verus!
