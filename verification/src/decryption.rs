//! What the operations on ciphertexts do to the polynomials and numbers that the ciphertexts
//! decrypt to.
use crate::automorphism;
use crate::decomposer::{self, Decomposer, DefaultDecomposer};
use crate::lwe;
use crate::ntt::Ntt;
use crate::poly;
use crate::rgsw;
use crate::ring;
use vstd::arithmetic::div_mod::*;
use vstd::arithmetic::mul::*;
use vstd::arithmetic::power::*;
use vstd::prelude::*;

verus! {

/// Decryption is linear: adding `d` times a ciphertext adds `d` times what it decrypts to.
pub proof fn lemma_phase_linear(
    a: Seq<int>,
    b: Seq<int>,
    d: Seq<int>,
    ra: Seq<int>,
    rb: Seq<int>,
    s: Seq<int>,
    q: int,
)
    requires
        q > 0,
        a.len() == s.len(),
        b.len() == s.len(),
        d.len() == s.len(),
        ra.len() == s.len(),
        rb.len() == s.len(),
    ensures
        rgsw::rlwe_phase(
            seq![
                ring::poly_add(a, ring::nega_mul(d, ra, q), q),
                ring::poly_add(b, ring::nega_mul(d, rb, q), q),
            ],
            s,
            q,
        ) == ring::poly_add(
            rgsw::rlwe_phase(seq![a, b], s, q),
            ring::nega_mul(d, rgsw::rlwe_phase(seq![ra, rb], s, q), q),
            q,
        ),
{
    let (da, db) = (ring::nega_mul(d, ra, q), ring::nega_mul(d, rb, q));
    let (sa, sra) = (ring::nega_mul(s, a, q), ring::nega_mul(s, ra, q));
    ring::lemma_nega_mul_distributive(s, a, da, q);
    // s * (d * ra) = d * (s * ra)
    ring::lemma_nega_mul_associative(s, d, ra, q);
    ring::lemma_nega_mul_commutative(s, d, q);
    ring::lemma_nega_mul_associative(d, s, ra, q);
    ring::lemma_nega_mul_distributive(d, rb, sra, q);
    ring::lemma_poly_add_exchange(b, db, sa, ring::nega_mul(d, sra, q), q);
}

/// The polynomial whose coefficients are recomposed from the first `j` digits of those of `x`.
pub open spec fn recomposed_poly<D: Decomposer>(dec: D, x: Seq<int>, j: int) -> Seq<int> {
    Seq::new(x.len(), |i: int| decomposer::recomposed(dec.digits(x[i]), dec.gadget(), j) % dec.q())
}

/// The digits of every residue, and of the modulus, recompose to it.
pub open spec fn recomposes<D: Decomposer>(dec: D) -> bool {
    forall|v: int|
        0 <= v <= dec.q() ==> #[trigger] decomposer::recomposed(
            dec.digits(v),
            dec.gadget(),
            dec.count() as int,
        ) % dec.q() == v % dec.q()
}

/// Digits to a base of which the power to their number reaches the modulus recompose.
pub proof fn lemma_default_recomposes(d: DefaultDecomposer)
    requires
        d.wf(),
        pow(d.base as int, d.count as nat) >= d.q,
    ensures
        recomposes(d),
{
    assert forall|v: int| 0 <= v <= d.q() implies #[trigger] decomposer::recomposed(
        d.digits(v),
        d.gadget(),
        d.count() as int,
    ) % d.q() == v % d.q() by {
        decomposer::lemma_recomposed(d, v);
    }
}

/// The sum of the first `j` products of a digit polynomial of `x` and an error polynomial.
pub open spec fn digit_errors<D: Decomposer>(
    dec: D,
    x: Seq<int>,
    errors: Seq<Seq<int>>,
    j: int,
) -> Seq<int>
    decreases j,
{
    if j <= 0 {
        poly::zeros(x.len())
    } else {
        ring::poly_add(
            digit_errors(dec, x, errors, j - 1),
            ring::nega_mul(rgsw::digit_poly(dec, x, j - 1), errors[j - 1], dec.q()),
            dec.q(),
        )
    }
}

/// The rows of the key from `a` and `b` on, which hold values, are the parts of ciphertexts of
/// `t` times each gadget factor, with the given errors.
pub open spec fn encrypts_gadget<D: Decomposer, N: Ntt>(
    key: Seq<Seq<int>>,
    a: int,
    b: int,
    t: Seq<int>,
    errors: Seq<Seq<int>>,
    s: Seq<int>,
    dec: D,
    ntt: N,
) -> bool {
    forall|j: int|
        #![trigger errors[j]]
        0 <= j < dec.count() ==> errors[j].len() == ntt.n() && ntt.coeffs(key[a + j]).len()
            == ntt.n() && ntt.coeffs(key[b + j]).len() == ntt.n() && rgsw::rlwe_phase(
            seq![ntt.coeffs(key[a + j]), ntt.coeffs(key[b + j])],
            s,
            ntt.q(),
        ) == ring::poly_add(ring::poly_scale(dec.gadget()[j], t, ntt.q()), errors[j], ntt.q())
}

proof fn lemma_recomposed_poly_step<D: Decomposer>(dec: D, x: Seq<int>, j: int)
    requires
        dec.q() > 0,
        j > 0,
    ensures
        recomposed_poly(dec, x, j) == ring::poly_add(
            recomposed_poly(dec, x, j - 1),
            ring::poly_scale(dec.gadget()[j - 1], rgsw::digit_poly(dec, x, j - 1), dec.q()),
            dec.q(),
        ),
{
    let q = dec.q();
    let r = ring::poly_add(
        recomposed_poly(dec, x, j - 1),
        ring::poly_scale(dec.gadget()[j - 1], rgsw::digit_poly(dec, x, j - 1), q),
        q,
    );
    assert forall|i: int| 0 <= i < x.len() implies recomposed_poly(dec, x, j)[i]
        == #[trigger] r[i] by {
        let p = decomposer::recomposed(dec.digits(x[i]), dec.gadget(), j - 1);
        let (d, g) = (dec.digits(x[i])[j - 1], dec.gadget()[j - 1]);
        lemma_mul_is_commutative(d, g);
        lemma_add_mod_noop(p, d * g, q);
    }
    assert(recomposed_poly(dec, x, j) =~= r);
}

/// A sum of products of digits and ciphertexts of `t` times the gadget factors decrypts to `t`
/// times what the digits recompose to, plus the products of the digits and the errors.
pub proof fn lemma_gadget_phase<D: Decomposer, N: Ntt>(
    init_a: Seq<int>,
    init_b: Seq<int>,
    x: Seq<int>,
    key: Seq<Seq<int>>,
    a: int,
    b: int,
    t: Seq<int>,
    errors: Seq<Seq<int>>,
    s: Seq<int>,
    dec: D,
    ntt: N,
    j: int,
)
    requires
        ntt.q() > 0,
        dec.q() == ntt.q(),
        init_a.len() == ntt.n(),
        init_b.len() == ntt.n(),
        x.len() == ntt.n(),
        t.len() == ntt.n(),
        s.len() == ntt.n(),
        0 <= j <= dec.count(),
        encrypts_gadget(key, a, b, t, errors, s, dec, ntt),
    ensures
        rgsw::gadget_sum(init_a, x, key, a, dec, ntt, j).len() == ntt.n(),
        rgsw::gadget_sum(init_b, x, key, b, dec, ntt, j).len() == ntt.n(),
        digit_errors(dec, x, errors, j).len() == ntt.n(),
        ring::canonical(digit_errors(dec, x, errors, j), ntt.q()),
        rgsw::rlwe_phase(
            seq![
                rgsw::gadget_sum(init_a, x, key, a, dec, ntt, j),
                rgsw::gadget_sum(init_b, x, key, b, dec, ntt, j),
            ],
            s,
            ntt.q(),
        ) == ring::poly_add(
            rgsw::rlwe_phase(seq![init_a, init_b], s, ntt.q()),
            ring::poly_add(
                ring::nega_mul(recomposed_poly(dec, x, j), t, ntt.q()),
                digit_errors(dec, x, errors, j),
                ntt.q(),
            ),
            ntt.q(),
        ),
    decreases j,
{
    let q = ntt.q();
    let n = ntt.n();
    let p0 = rgsw::rlwe_phase(seq![init_a, init_b], s, q);
    ring::lemma_reduced_canonical(poly::minus(init_b, ring::nega_mul(s, init_a, q)), q);
    if j == 0 {
        let r = recomposed_poly(dec, x, 0);
        lemma_small_mod(0, q as nat);
        assert(r =~= poly::zeros(n));
        ring::lemma_nega_mul_commutative(r, t, q);
        ring::lemma_nega_mul_zeros(t, n, q);
        assert(ring::canonical(poly::zeros(n), q));
        ring::lemma_poly_add_zeros(poly::zeros(n), q);
        ring::lemma_poly_add_zeros(p0, q);
    } else {
        lemma_gadget_phase(init_a, init_b, x, key, a, b, t, errors, s, dec, ntt, j - 1);
        let (ga, gb) = (
            rgsw::gadget_sum(init_a, x, key, a, dec, ntt, j - 1),
            rgsw::gadget_sum(init_b, x, key, b, dec, ntt, j - 1),
        );
        let d = rgsw::digit_poly(dec, x, j - 1);
        let (ra, rb) = (ntt.coeffs(key[a + j - 1]), ntt.coeffs(key[b + j - 1]));
        let e = errors[j - 1];
        let g = dec.gadget()[j - 1];
        let r = recomposed_poly(dec, x, j - 1);
        let er = digit_errors(dec, x, errors, j - 1);
        let (rt, dt, de) = (
            ring::nega_mul(r, t, q),
            ring::nega_mul(d, t, q),
            ring::nega_mul(d, e, q),
        );
        let gdt = ring::poly_scale(g, dt, q);
        assert(key[a + (j - 1)] == key[a + j - 1]);
        lemma_phase_linear(ga, gb, d, ra, rb, s, q);
        // d * (g t + e) = g (d * t) + d * e
        ring::lemma_nega_mul_distributive(d, ring::poly_scale(g, t, q), e, q);
        ring::lemma_nega_mul_scale(d, g, t, q);
        // (r + g d) * t = r * t + g (d * t)
        lemma_recomposed_poly_step(dec, x, j);
        let gd = ring::poly_scale(g, d, q);
        let rj = recomposed_poly(dec, x, j);
        ring::lemma_nega_mul_commutative(rj, t, q);
        ring::lemma_nega_mul_distributive(t, r, gd, q);
        ring::lemma_nega_mul_commutative(t, r, q);
        ring::lemma_nega_mul_scale(t, g, d, q);
        ring::lemma_nega_mul_commutative(t, d, q);
        assert(ring::nega_mul(rj, t, q) == ring::poly_add(rt, gdt, q));
        // (p0 + (rt + er)) + (gdt + de) = p0 + ((rt + gdt) + (er + de))
        ring::lemma_poly_add_associative(
            p0,
            ring::poly_add(rt, er, q),
            ring::poly_add(gdt, de, q),
            q,
        );
        ring::lemma_poly_add_exchange(rt, er, gdt, de, q);
        ring::lemma_reduced_canonical(poly::plus(er, de), q);
    }
}

proof fn lemma_recomposed_poly<D: Decomposer>(dec: D, x: Seq<int>)
    requires
        recomposes(dec),
        ring::canonical(x, dec.q()),
    ensures
        recomposed_poly(dec, x, dec.count() as int) == x,
{
    let r = recomposed_poly(dec, x, dec.count() as int);
    assert forall|i: int| 0 <= i < x.len() implies #[trigger] r[i] == x[i] by {
        lemma_small_mod(x[i] as nat, dec.q() as nat);
    }
    assert(r =~= x);
}

/// The trivial ciphertext of zero decrypts to zero.
/// Zeros decrypt to zero.
pub proof fn lemma_phase_zeros(s: Seq<int>, n: nat, q: int)
    requires
        q > 0,
    ensures
        rgsw::rlwe_phase(seq![poly::zeros(n), poly::zeros(n)], s, q) == poly::zeros(n),
        ring::canonical(poly::zeros(n), q),
{
    assert(ring::canonical(poly::zeros(n), q));
    ring::lemma_nega_mul_zeros(s, n, q);
    ring::lemma_poly_add_zeros(poly::zeros(n), q);
}

/// `rgsw` is an RGSW ciphertext of `m` under `s` with the given errors.
pub open spec fn rgsw_encrypts<D: Decomposer, N: Ntt>(
    rgsw: Seq<Seq<int>>,
    m: Seq<int>,
    errors: (Seq<Seq<int>>, Seq<Seq<int>>),
    s: Seq<int>,
    decs: (D, D),
    ntt: N,
) -> bool {
    let (da, db) = (decs.0.count() as int, decs.1.count() as int);
    let q = ntt.q();
    &&& encrypts_gadget(
        rgsw,
        0,
        da,
        ring::poly_neg(ring::nega_mul(s, m, q), q),
        errors.0,
        s,
        decs.0,
        ntt,
    )
    &&& encrypts_gadget(rgsw, 2 * da, 2 * da + db, m, errors.1, s, decs.1, ntt)
}

/// The noise that the product with an RGSW ciphertext adds: the digits of the parts of the RLWE
/// ciphertext times the errors.
pub open spec fn rgsw_noise<D: Decomposer>(
    ct: Seq<Seq<int>>,
    errors: (Seq<Seq<int>>, Seq<Seq<int>>),
    decs: (D, D),
    is_trivial: bool,
) -> Seq<int> {
    let b = digit_errors(decs.1, ct[1], errors.1, decs.1.count() as int);
    if is_trivial {
        b
    } else {
        ring::poly_add(
            digit_errors(decs.0, ct[0], errors.0, decs.0.count() as int),
            b,
            decs.0.q(),
        )
    }
}

/// The product of an RLWE ciphertext and an RGSW ciphertext of `m` decrypts to `m` times what the
/// RLWE ciphertext decrypts to, plus the noise that the product adds.
pub proof fn lemma_rgsw_product<D: Decomposer, N: Ntt>(
    ct: Seq<Seq<int>>,
    rgsw: Seq<Seq<int>>,
    m: Seq<int>,
    errors: (Seq<Seq<int>>, Seq<Seq<int>>),
    s: Seq<int>,
    decs: (D, D),
    ntt: N,
    is_trivial: bool,
)
    requires
        ntt.q() > 0,
        decs.0.q() == ntt.q(),
        decs.1.q() == ntt.q(),
        recomposes(decs.0),
        recomposes(decs.1),
        rgsw::is_rlwe(ct, ntt.n(), ntt.q()),
        is_trivial ==> ct[0] == poly::zeros(ntt.n()),
        s.len() == ntt.n(),
        m.len() == ntt.n(),
        rgsw_encrypts(rgsw, m, errors, s, decs, ntt),
    ensures
        rgsw::rlwe_phase(
            rgsw::rgsw_product(ct, rgsw, decs, ntt, is_trivial),
            s,
            ntt.q(),
        ) == ring::poly_add(
            ring::nega_mul(m, rgsw::rlwe_phase(ct, s, ntt.q()), ntt.q()),
            rgsw_noise(ct, errors, decs, is_trivial),
            ntt.q(),
        ),
        rgsw_noise(ct, errors, decs, is_trivial).len() == ntt.n(),
        ring::canonical(rgsw_noise(ct, errors, decs, is_trivial), ntt.q()),
{
    let q = ntt.q();
    let n = ntt.n();
    let (da, db) = (decs.0.count() as int, decs.1.count() as int);
    let z = poly::zeros(n);
    let eb = digit_errors(decs.1, ct[1], errors.1, db);
    assert(ct[0].len() == n && ct[1].len() == n);
    lemma_phase_zeros(s, n, q);
    lemma_recomposed_poly(decs.1, ct[1]);
    let (xa, xb) = if is_trivial {
        (z, z)
    } else {
        (
            rgsw::gadget_product(z, ct[0], rgsw, 0, decs.0, ntt),
            rgsw::gadget_product(z, ct[0], rgsw, da, decs.0, ntt),
        )
    };
    let t = ring::poly_neg(ring::nega_mul(s, m, q), q);
    let ea = digit_errors(decs.0, ct[0], errors.0, da);
    if !is_trivial {
        lemma_gadget_phase(z, z, ct[0], rgsw, 0, da, t, errors.0, s, decs.0, ntt, da);
        lemma_recomposed_poly(decs.0, ct[0]);
    }
    lemma_gadget_phase(
        xa,
        xb,
        ct[1],
        rgsw,
        2 * da,
        2 * da + db,
        m,
        errors.1,
        s,
        decs.1,
        ntt,
        db,
    );
    assert(rgsw::rgsw_product(ct, rgsw, decs, ntt, is_trivial) =~= seq![
        rgsw::gadget_product(xa, ct[1], rgsw, 2 * da, decs.1, ntt),
        rgsw::gadget_product(xb, ct[1], rgsw, 2 * da + db, decs.1, ntt),
    ]);
    let p = rgsw::rlwe_phase(seq![xa, xb], s, q);
    let body = ring::poly_add(ring::nega_mul(ct[1], m, q), eb, q);
    assert(rgsw::rlwe_phase(rgsw::rgsw_product(ct, rgsw, decs, ntt, is_trivial), s, q)
        == ring::poly_add(p, body, q));
    if is_trivial {
        lemma_trivial_product(ct, m, s, eb, q);
    } else {
        let pa = ring::poly_add(ring::nega_mul(ct[0], t, q), ea, q);
        assert(p == ring::poly_add(z, pa, q));
        lemma_full_product(ct, m, s, ea, eb, q);
        ring::lemma_reduced_canonical(poly::plus(ea, eb), q);
    }
}

proof fn lemma_trivial_product(
    ct: Seq<Seq<int>>,
    m: Seq<int>,
    s: Seq<int>,
    eb: Seq<int>,
    q: int,
)
    requires
        q > 0,
        rgsw::is_rlwe(ct, s.len(), q),
        ct[0] == poly::zeros(s.len()),
        m.len() == s.len(),
        eb.len() == s.len(),
    ensures
        ring::poly_add(
            poly::zeros(s.len()),
            ring::poly_add(ring::nega_mul(ct[1], m, q), eb, q),
            q,
        ) == ring::poly_add(ring::nega_mul(m, rgsw::rlwe_phase(ct, s, q), q), eb, q),
{
    assert(ct[1].len() == s.len());
    let m1 = ring::nega_mul(m, ct[1], q);
    ring::lemma_nega_mul_commutative(ct[1], m, q);
    ring::lemma_reduced_canonical(poly::plus(m1, eb), q);
    ring::lemma_poly_add_zeros(ring::poly_add(m1, eb, q), q);
    ring::lemma_nega_mul_zeros(s, s.len(), q);
    ring::lemma_poly_add_zeros(ct[1], q);
}

proof fn lemma_full_product(
    ct: Seq<Seq<int>>,
    m: Seq<int>,
    s: Seq<int>,
    ea: Seq<int>,
    eb: Seq<int>,
    q: int,
)
    requires
        q > 0,
        rgsw::is_rlwe(ct, s.len(), q),
        m.len() == s.len(),
        ea.len() == s.len(),
        eb.len() == s.len(),
    ensures
        ring::poly_add(
            ring::poly_add(
                poly::zeros(s.len()),
                ring::poly_add(
                    ring::nega_mul(ct[0], ring::poly_neg(ring::nega_mul(s, m, q), q), q),
                    ea,
                    q,
                ),
                q,
            ),
            ring::poly_add(ring::nega_mul(ct[1], m, q), eb, q),
            q,
        ) == ring::poly_add(
            ring::nega_mul(m, rgsw::rlwe_phase(ct, s, q), q),
            ring::poly_add(ea, eb, q),
            q,
        ),
{
    assert(ct[0].len() == s.len() && ct[1].len() == s.len());
    // ct[0] * (-(s * m)) = -(m * (s * ct[0]))
    let sa = ring::nega_mul(s, ct[0], q);
    let m1 = ring::nega_mul(m, ct[1], q);
    let m2 = ring::nega_mul(m, sa, q);
    ring::lemma_nega_mul_commutative(ct[1], m, q);
    ring::lemma_nega_mul_neg(ct[0], ring::nega_mul(s, m, q), q);
    ring::lemma_nega_mul_associative(ct[0], s, m, q);
    ring::lemma_nega_mul_commutative(ct[0], s, q);
    ring::lemma_nega_mul_commutative(sa, m, q);
    let neg = ring::poly_neg(m2, q);
    let pa = ring::poly_add(neg, ea, q);
    ring::lemma_reduced_canonical(poly::plus(neg, ea), q);
    ring::lemma_poly_add_zeros(pa, q);
    // (neg + ea) + (m1 + eb) = (neg + m1) + (ea + eb)
    ring::lemma_poly_add_exchange(neg, ea, m1, eb, q);
    ring::lemma_poly_add_commutative(neg, m1, q);
    ring::lemma_poly_add_neg(m1, m2, q);
    ring::lemma_nega_mul_distributive(m, ct[1], sa, q);
}

/// `ksk` is a key under `s` for the automorphism of which `inv` is the inverse exponent, with the
/// given errors.
pub open spec fn auto_key_encrypts<D: Decomposer, N: Ntt>(
    ksk: Seq<Seq<int>>,
    inv: int,
    errors: Seq<Seq<int>>,
    s: Seq<int>,
    dec: D,
    ntt: N,
) -> bool {
    encrypts_gadget(
        ksk,
        0,
        dec.count() as int,
        ring::poly_neg(automorphism::substituted(s, inv, ntt.q()), ntt.q()),
        errors,
        s,
        dec,
        ntt,
    )
}

/// The noise that an automorphism adds: the digits of the image of the part `a` times the errors.
pub open spec fn auto_noise<D: Decomposer>(
    ct: Seq<Seq<int>>,
    inv: int,
    errors: Seq<Seq<int>>,
    dec: D,
    is_trivial: bool,
) -> Seq<int> {
    if is_trivial {
        poly::zeros(ct[0].len())
    } else {
        digit_errors(
            dec,
            automorphism::substituted(ct[0], inv, dec.q()),
            errors,
            dec.count() as int,
        )
    }
}

pub proof fn lemma_substituted_canonical(p: Seq<int>, inv: int, q: int)
    requires
        q > 0,
    ensures
        ring::canonical(automorphism::substituted(p, inv, q), q),
{
    let r = automorphism::substituted(p, inv, q);
    assert forall|j: int| 0 <= j < r.len() implies 0 <= #[trigger] r[j] < q by {
        lemma_mod_bound(ring::coeff_at(p, j * inv), q);
    }
}

/// The automorphism `X -> X^k` of an RLWE ciphertext decrypts to the image of what the ciphertext
/// decrypts to, plus the noise that the automorphism adds.
pub proof fn lemma_auto_switched<D: Decomposer, N: Ntt>(
    ct: Seq<Seq<int>>,
    ksk: Seq<Seq<int>>,
    k: int,
    inv: int,
    errors: Seq<Seq<int>>,
    s: Seq<int>,
    dec: D,
    ntt: N,
    is_trivial: bool,
)
    requires
        ntt.q() > 0,
        0 < ntt.n() <= usize::MAX,
        dec.q() == ntt.q(),
        recomposes(dec),
        rgsw::is_rlwe(ct, ntt.n(), ntt.q()),
        is_trivial ==> ct[0] == poly::zeros(ntt.n()),
        s.len() == ntt.n(),
        ring::canonical(s, ntt.q()),
        automorphism::is_inverse(k, inv, ntt.n()),
        auto_key_encrypts(ksk, inv, errors, s, dec, ntt),
    ensures
        rgsw::rlwe_phase(
            rgsw::auto_switched(
                ct,
                ksk,
                rgsw::auto_indices(ntt.n(), k),
                rgsw::auto_signs(ntt.n(), k),
                dec,
                ntt,
                is_trivial,
            ),
            s,
            ntt.q(),
        ) == ring::poly_add(
            automorphism::substituted(rgsw::rlwe_phase(ct, s, ntt.q()), inv, ntt.q()),
            auto_noise(ct, inv, errors, dec, is_trivial),
            ntt.q(),
        ),
        auto_noise(ct, inv, errors, dec, is_trivial).len() == ntt.n(),
        ring::canonical(auto_noise(ct, inv, errors, dec, is_trivial), ntt.q()),
{
    let q = ntt.q();
    let n = ntt.n();
    let z = poly::zeros(n);
    assert(ct[0].len() == n && ct[1].len() == n);
    automorphism::lemma_auto_image(ct[1], k, inv, q);
    let b = automorphism::substituted(ct[1], inv, q);
    lemma_substituted_canonical(ct[1], inv, q);
    lemma_phase_zeros(s, n, q);
    let out = rgsw::auto_switched(
        ct,
        ksk,
        rgsw::auto_indices(n, k),
        rgsw::auto_signs(n, k),
        dec,
        ntt,
        is_trivial,
    );
    if is_trivial {
        ring::lemma_nega_mul_zeros(s, n, q);
        ring::lemma_poly_add_zeros(ct[1], q);
        ring::lemma_poly_add_zeros(b, q);
        assert(out =~= seq![ct[0], b]);
    } else {
        automorphism::lemma_auto_image(ct[0], k, inv, q);
        let a = automorphism::substituted(ct[0], inv, q);
        lemma_substituted_canonical(ct[0], inv, q);
        let count = dec.count() as int;
        let si = automorphism::substituted(s, inv, q);
        let t = ring::poly_neg(si, q);
        lemma_gadget_phase(z, z, a, ksk, 0, count, t, errors, s, dec, ntt, count);
        lemma_recomposed_poly(dec, a);
        let e = digit_errors(dec, a, errors, count);
        let (ra, rb) = (
            rgsw::gadget_product(z, a, ksk, 0, dec, ntt),
            rgsw::gadget_product(z, a, ksk, count, dec, ntt),
        );
        assert(out =~= seq![ra, ring::poly_add(rb, b, q)]);
        lemma_switched_algebra(ra, rb, a, b, si, e, s, q);
        // The image of b - s * a.
        let sa = ring::nega_mul(s, ct[0], q);
        automorphism::lemma_auto_sum(ct[1], sa, inv, q);
        automorphism::lemma_auto_product(s, ct[0], k, inv, q);
    }
}

proof fn lemma_switched_algebra(
    ra: Seq<int>,
    rb: Seq<int>,
    a: Seq<int>,
    b: Seq<int>,
    si: Seq<int>,
    e: Seq<int>,
    s: Seq<int>,
    q: int,
)
    requires
        q > 0,
        ra.len() == s.len(),
        rb.len() == s.len(),
        a.len() == s.len(),
        b.len() == s.len(),
        si.len() == s.len(),
        e.len() == s.len(),
        ring::canonical(e, q),
        rgsw::rlwe_phase(seq![ra, rb], s, q) == ring::poly_add(
            poly::zeros(s.len()),
            ring::poly_add(ring::nega_mul(a, ring::poly_neg(si, q), q), e, q),
            q,
        ),
    ensures
        rgsw::rlwe_phase(seq![ra, ring::poly_add(rb, b, q)], s, q) == ring::poly_add(
            ring::poly_sub(b, ring::nega_mul(si, a, q), q),
            e,
            q,
        ),
{
    let n = s.len();
    let z = poly::zeros(n);
    let sra = ring::nega_mul(s, ra, q);
    let sia = ring::nega_mul(si, a, q);
    let neg = ring::poly_neg(sia, q);
    ring::lemma_nega_mul_neg(a, si, q);
    ring::lemma_nega_mul_commutative(a, si, q);
    let p = ring::poly_add(neg, e, q);
    ring::lemma_reduced_canonical(poly::plus(neg, e), q);
    ring::lemma_poly_add_zeros(p, q);
    // (rb + b) - s * ra = (rb - s * ra) + b
    let lhs = ring::poly_sub(ring::poly_add(rb, b, q), sra, q);
    let mid = ring::poly_add(ring::poly_sub(rb, sra, q), b, q);
    assert forall|i: int| 0 <= i < n implies #[trigger] lhs[i] == mid[i] by {
        lemma_sub_mod_noop(rb[i] + b[i], sra[i], q);
        lemma_sub_mod_noop((rb[i] + b[i]) % q, sra[i], q);
        lemma_mod_twice(rb[i] + b[i], q);
        lemma_add_mod_noop_right(b[i], rb[i] - sra[i], q);
    }
    assert(lhs =~= mid);
    // ((-si * a) + e) + b = (b - si * a) + e
    ring::lemma_poly_add_commutative(p, b, q);
    ring::lemma_poly_add_associative(b, neg, e, q);
    ring::lemma_poly_add_neg(b, sia, q);
}

/// The LWE ciphertext extracted from an RLWE ciphertext decrypts to the coefficient at `index` of
/// what the RLWE ciphertext decrypts to.
pub proof fn lemma_sample_extract(ct: Seq<Seq<int>>, index: int, s: Seq<int>, q: int)
    requires
        q > 0,
        rgsw::is_rlwe(ct, s.len(), q),
        0 <= index < s.len(),
    ensures
        lwe::lwe_phase(crate::pbs::extracted(ct, index, q), s, q) == rgsw::rlwe_phase(
            ct,
            s,
            q,
        )[index],
{
    let n = s.len() as int;
    let e = crate::pbs::extracted(ct, index, q);
    let a = lwe::lwe_mask(e);
    assert(ct[0].len() == n && ct[1].len() == n);
    assert(a =~= Seq::new(ct[0].len(), |i: int| ring::coeff_at(ct[0], index - i) % q));
    lemma_dot_convolution(a, ct[0], s, index, n, q);
    let (d, c) = (lwe::dot(a, s, n), ring::convolution(s, ct[0], index, n));
    lemma_sub_mod_noop(e[0], d, q);
    lemma_sub_mod_noop(ct[1][index], c, q);
    lemma_sub_mod_noop_right(ct[1][index], c, q);
}

proof fn lemma_dot_convolution(
    a: Seq<int>,
    p: Seq<int>,
    s: Seq<int>,
    index: int,
    j: int,
    q: int,
)
    requires
        q > 0,
        j <= s.len(),
        a.len() == s.len(),
        forall|i: int| 0 <= i < a.len() ==> #[trigger] a[i] == ring::coeff_at(p, index - i) % q,
    ensures
        lwe::dot(a, s, j) % q == ring::convolution(s, p, index, j) % q,
    decreases j,
{
    if j > 0 {
        lemma_dot_convolution(a, p, s, index, j - 1, q);
        let (x, c) = (s[j - 1], ring::coeff_at(p, index - (j - 1)));
        assert(a[j - 1] == c % q);
        lemma_mul_mod_noop_left(c, x, q);
        lemma_mul_is_commutative(c, x);
        lemma_add_mod_noop(lwe::dot(a, s, j - 1), (c % q) * x, q);
        lemma_add_mod_noop(ring::convolution(s, p, index, j - 1), x * c, q);
    }
}

/// Adding a multiple of an LWE ciphertext adds that multiple of what it decrypts to.
pub proof fn lemma_lwe_phase_linear(o: Seq<int>, row: Seq<int>, c: int, z: Seq<int>, q: int)
    requires
        q > 0,
        o.len() == z.len() + 1,
        row.len() == o.len(),
    ensures
        lwe::lwe_phase(ring::poly_add(o, ring::poly_scale(c, row, q), q), z, q) == (
        lwe::lwe_phase(o, z, q) + c * lwe::lwe_phase(row, z, q)) % q,
{
    let n = z.len() as int;
    let r = ring::poly_add(o, ring::poly_scale(c, row, q), q);
    lemma_dot_linear(o, row, r, c, z, n, q);
    let (x, y, t) = (
        lwe::dot(lwe::lwe_mask(o), z, n),
        lwe::dot(lwe::lwe_mask(row), z, n),
        lwe::dot(lwe::lwe_mask(r), z, n),
    );
    // r[0] - t = (o[0] + c row[0]) - (x + c y)
    lemma_mul_mod_noop_right(c, row[0], q);
    lemma_add_mod_noop_right(o[0], c * row[0], q);
    lemma_sub_mod_noop(r[0], t, q);
    lemma_sub_mod_noop(o[0] + c * row[0], x + c * y, q);
    lemma_mod_twice(o[0] + c * row[0], q);
    assert((o[0] + c * row[0]) - (x + c * y) == (o[0] - x) + c * (row[0] - y))
        by (nonlinear_arith);
    lemma_mul_mod_noop_right(c, row[0] - y, q);
    lemma_add_mod_noop(o[0] - x, c * (row[0] - y), q);
    lemma_add_mod_noop((o[0] - x) % q, c * ((row[0] - y) % q), q);
    lemma_mod_twice(o[0] - x, q);
}

proof fn lemma_dot_linear(
    o: Seq<int>,
    row: Seq<int>,
    r: Seq<int>,
    c: int,
    z: Seq<int>,
    j: int,
    q: int,
)
    requires
        q > 0,
        o.len() == z.len() + 1,
        row.len() == o.len(),
        r == ring::poly_add(o, ring::poly_scale(c, row, q), q),
        j <= z.len(),
    ensures
        lwe::dot(lwe::lwe_mask(r), z, j) % q == (lwe::dot(lwe::lwe_mask(o), z, j) + c * lwe::dot(
            lwe::lwe_mask(row),
            z,
            j,
        )) % q,
    decreases j,
{
    let (mr, mo, mw) = (lwe::lwe_mask(r), lwe::lwe_mask(o), lwe::lwe_mask(row));
    if j <= 0 {
        assert(c * 0 == 0) by (nonlinear_arith);
    } else {
        lemma_dot_linear(o, row, r, c, z, j - 1, q);
        let (u, v, x, k) = (mo[j - 1], mw[j - 1], mr[j - 1], z[j - 1]);
        assert(u == o[j] && v == row[j] && x == r[j]);
        lemma_add_mod_noop_right(u, c * v, q);
        assert(x == (u + c * v) % q);
        lemma_mul_mod_noop_left(u + c * v, k, q);
        let (d, e, f) = (lwe::dot(mr, z, j - 1), lwe::dot(mo, z, j - 1), lwe::dot(mw, z, j - 1));
        lemma_add_mod_noop(d, x * k, q);
        lemma_add_mod_noop(e + c * f, (u + c * v) * k, q);
        assert((e + c * f) + (u + c * v) * k == (e + u * k) + c * (f + v * k)) by (nonlinear_arith);
    }
}

/// The row `i * d + j` of `ksk` is an LWE ciphertext under `z` of `-s[i]` times the gadget factor
/// `j`, with the given errors.
pub open spec fn ksk_encrypts<D: Decomposer>(
    ksk: Seq<Seq<int>>,
    s: Seq<int>,
    errors: Seq<int>,
    z: Seq<int>,
    dec: D,
) -> bool {
    forall|i: int, j: int|
        0 <= i < s.len() && 0 <= j < dec.count() ==> (#[trigger] ksk[i * dec.count() + j]).len()
            == z.len() + 1 && lwe::lwe_phase(ksk[i * dec.count() + j], z, dec.q()) == (
        dec.gadget()[j] * (-s[i]) + errors[i * dec.count() + j]) % dec.q()
}

/// The sum of the first `j` products of a digit and an error from `first` on.
pub open spec fn digit_error_sum(digits: Seq<int>, errors: Seq<int>, first: int, j: int) -> int
    decreases j,
{
    if j <= 0 {
        0
    } else {
        digit_error_sum(digits, errors, first, j - 1) + digits[j - 1] * errors[first + j - 1]
    }
}

/// The noise that the key switch of the first `i` mask entries adds: their digits times the
/// errors.
pub open spec fn key_switch_error<D: Decomposer>(
    mask: Seq<int>,
    errors: Seq<int>,
    dec: D,
    i: int,
) -> int
    decreases i,
{
    if i <= 0 {
        0
    } else {
        key_switch_error(mask, errors, dec, i - 1) + digit_error_sum(
            dec.digits(mask[i - 1]),
            errors,
            (i - 1) * dec.count(),
            dec.count() as int,
        )
    }
}

proof fn lemma_digit_rows<D: Decomposer>(
    out: Seq<int>,
    digits: Seq<int>,
    ksk: Seq<Seq<int>>,
    s: Seq<int>,
    errors: Seq<int>,
    z: Seq<int>,
    dec: D,
    i: int,
    j: int,
)
    requires
        dec.q() > 0,
        out.len() == z.len() + 1,
        0 <= i < s.len(),
        0 <= j <= dec.count(),
        ksk_encrypts(ksk, s, errors, z, dec),
    ensures
        lwe::add_digit_rows(out, digits, ksk, i * dec.count(), j, dec.q()).len() == out.len(),
        lwe::lwe_phase(
            lwe::add_digit_rows(out, digits, ksk, i * dec.count(), j, dec.q()),
            z,
            dec.q(),
        ) == (lwe::lwe_phase(out, z, dec.q()) - s[i] * decomposer::recomposed(
            digits,
            dec.gadget(),
            j,
        ) + digit_error_sum(digits, errors, i * dec.count(), j)) % dec.q(),
    decreases j,
{
    let q = dec.q();
    let first = i * dec.count();
    let p0 = lwe::lwe_phase(out, z, q);
    if j == 0 {
        let x = s[i];
        assert(x * 0 == 0) by (nonlinear_arith);
        lemma_mod_twice(out[0] - lwe::dot(lwe::lwe_mask(out), z, z.len() as int), q);
    } else {
        lemma_digit_rows(out, digits, ksk, s, errors, z, dec, i, j - 1);
        let o = lwe::add_digit_rows(out, digits, ksk, first, j - 1, q);
        assert(ksk[i * dec.count() + (j - 1)] == ksk[first + j - 1]);
        let row = ksk[first + j - 1];
        let (c, g, e) = (digits[j - 1], dec.gadget()[j - 1], errors[first + j - 1]);
        assert(errors[i * dec.count() + (j - 1)] == e);
        lemma_lwe_phase_linear(o, row, c, z, q);
        let r = decomposer::recomposed(digits, dec.gadget(), j - 1);
        let t = digit_error_sum(digits, errors, first, j - 1);
        let x = p0 - s[i] * r + t;
        let y = g * (-s[i]) + e;
        lemma_mul_mod_noop_right(c, y, q);
        lemma_add_mod_noop(x, c * y, q);
        lemma_add_mod_noop(x % q, c * (y % q), q);
        lemma_mod_twice(x, q);
        let si = s[i];
        assert(x + c * y == p0 - si * (r + c * g) + (t + c * e)) by (nonlinear_arith)
            requires
                x == p0 - si * r + t,
                y == g * (-si) + e,
        ;
    }
}

proof fn lemma_mask_rows<D: Decomposer>(
    out: Seq<int>,
    mask: Seq<int>,
    ksk: Seq<Seq<int>>,
    s: Seq<int>,
    errors: Seq<int>,
    z: Seq<int>,
    dec: D,
    i: int,
)
    requires
        dec.q() > 0,
        out.len() == z.len() + 1,
        0 <= i <= s.len(),
        mask.len() == s.len(),
        forall|k: int| 0 <= k < mask.len() ==> 0 <= #[trigger] mask[k] <= dec.q(),
        recomposes(dec),
        ksk_encrypts(ksk, s, errors, z, dec),
    ensures
        lwe::add_mask_rows(out, mask, ksk, dec, i, dec.q()).len() == out.len(),
        lwe::lwe_phase(lwe::add_mask_rows(out, mask, ksk, dec, i, dec.q()), z, dec.q()) == (
        lwe::lwe_phase(out, z, dec.q()) - lwe::dot(mask, s, i) + key_switch_error(
            mask,
            errors,
            dec,
            i,
        )) % dec.q(),
    decreases i,
{
    let q = dec.q();
    if i == 0 {
        lemma_mod_twice(out[0] - lwe::dot(lwe::lwe_mask(out), z, z.len() as int), q);
    } else {
        lemma_mask_rows(out, mask, ksk, s, errors, z, dec, i - 1);
        let o = lwe::add_mask_rows(out, mask, ksk, dec, i - 1, q);
        let digits = dec.digits(mask[i - 1]);
        let count = dec.count() as int;
        lemma_digit_rows(o, digits, ksk, s, errors, z, dec, i - 1, count);
        let x = lwe::lwe_phase(out, z, q) - lwe::dot(mask, s, i - 1) + key_switch_error(
            mask,
            errors,
            dec,
            i - 1,
        );
        let (r, a, k) = (
            decomposer::recomposed(digits, dec.gadget(), count),
            mask[i - 1],
            s[i - 1],
        );
        let e = digit_error_sum(digits, errors, (i - 1) * dec.count(), count);
        // x - k r + e is congruent to x - k a + e
        lemma_mul_mod_noop_right(k, r, q);
        lemma_mul_mod_noop_right(k, a, q);
        lemma_mul_is_commutative(k, a);
        lemma_sub_mod_noop(x + e, k * r, q);
        lemma_sub_mod_noop(x + e, k * a, q);
        lemma_add_mod_noop_right(-k * r + e, x, q);
        assert(x % q - k * r + e == (-k * r + e) + x % q) by (nonlinear_arith);
        assert((-k * r + e) + x == x + e - k * r) by (nonlinear_arith);
    }
}

/// The key switch of an LWE ciphertext under `s` decrypts under `z` to what the ciphertext
/// decrypts to under `s`, plus the noise that the key switch adds.
pub proof fn lemma_key_switch<D: Decomposer>(
    out: Seq<int>,
    ct: Seq<int>,
    ksk: Seq<Seq<int>>,
    s: Seq<int>,
    errors: Seq<int>,
    z: Seq<int>,
    dec: D,
)
    requires
        dec.q() > 0,
        out.len() == z.len() + 1,
        ct.len() == s.len() + 1,
        forall|k: int| 0 <= k < ct.len() ==> 0 <= #[trigger] ct[k] <= dec.q(),
        recomposes(dec),
        ksk_encrypts(ksk, s, errors, z, dec),
    ensures
        lwe::lwe_phase(lwe::key_switched(out, ct, ksk, dec, dec.q()), z, dec.q()) == (
        lwe::lwe_phase(out, z, dec.q()) + lwe::lwe_phase(ct, s, dec.q()) + key_switch_error(
            lwe::lwe_mask(ct),
            errors,
            dec,
            s.len() as int,
        )) % dec.q(),
{
    let q = dec.q();
    let n = s.len() as int;
    let mask = lwe::lwe_mask(ct);
    assert forall|k: int| 0 <= k < mask.len() implies 0 <= #[trigger] mask[k] <= q by {
        assert(mask[k] == ct[k + 1]);
    }
    lemma_mask_rows(out, mask, ksk, s, errors, z, dec, n);
    let o = lwe::add_mask_rows(out, mask, ksk, dec, n, q);
    let r = lwe::key_switched(out, ct, ksk, dec, q);
    assert(lwe::lwe_mask(r) =~= lwe::lwe_mask(o));
    let d = lwe::dot(lwe::lwe_mask(o), z, z.len() as int);
    let (p0, e, c) = (
        lwe::lwe_phase(out, z, q),
        key_switch_error(mask, errors, dec, n),
        lwe::dot(mask, s, n),
    );
    // (o[0] + ct[0]) % q - d is congruent to (o[0] - d) + ct[0]
    lemma_sub_mod_noop((o[0] + ct[0]) % q, d, q);
    lemma_sub_mod_noop(o[0] + ct[0], d, q);
    lemma_mod_twice(o[0] + ct[0], q);
    lemma_add_mod_noop_right(ct[0], o[0] - d, q);
    lemma_add_mod_noop_right(ct[0], p0 - c + e, q);
    lemma_add_mod_noop_right(p0 + e, ct[0] - c, q);
}

/// The noise of digits is made of one product for each digit.
pub proof fn lemma_digit_error_terms<D: Decomposer>(
    dec: D,
    x: Seq<int>,
    errors: Seq<Seq<int>>,
    digits: Seq<int>,
    numbers: Seq<int>,
    first: int,
    j: int,
)
    requires
        j >= 0,
    ensures
        digit_errors(dec, x, errors, 0) == poly::zeros(x.len()),
        digit_errors(dec, x, errors, j + 1) == ring::poly_add(
            digit_errors(dec, x, errors, j),
            ring::nega_mul(rgsw::digit_poly(dec, x, j), errors[j], dec.q()),
            dec.q(),
        ),
        digit_error_sum(digits, numbers, first, 0) == 0,
        digit_error_sum(digits, numbers, first, j + 1) == digit_error_sum(
            digits,
            numbers,
            first,
            j,
        ) + digits[j] * numbers[first + j],
        key_switch_error(x, numbers, dec, 0) == 0,
        key_switch_error(x, numbers, dec, j + 1) == key_switch_error(x, numbers, dec, j)
            + digit_error_sum(
            dec.digits(x[j]),
            numbers,
            j * dec.count(),
            dec.count() as int,
        ),
{
}

/// What it means that digits recompose.
pub proof fn lemma_recomposes<D: Decomposer>(dec: D)
    ensures
        recomposes(dec) <==> (forall|v: int|
            0 <= v <= dec.q() ==> #[trigger] decomposer::recomposed(
                dec.digits(v),
                dec.gadget(),
                dec.count() as int,
            ) % dec.q() == v % dec.q()),
{
}

/// What it means that keys encrypt: the rows `a + j` and `b + j` decrypt to the gadget factor `j`
/// times the polynomial plus the error `j`. The two parts of an RGSW ciphertext do so for `-s m`
/// and `m`, a key of an automorphism for the image of `-s`, and the rows of a key for a key switch
/// for each negated element of the secret.
pub proof fn lemma_keys_encrypt<D: Decomposer, N: Ntt>(
    key: Seq<Seq<int>>,
    a: int,
    b: int,
    t: Seq<int>,
    inv: int,
    errors: (Seq<Seq<int>>, Seq<Seq<int>>),
    numbers: Seq<int>,
    s: Seq<int>,
    z: Seq<int>,
    decs: (D, D),
    ntt: N,
)
    ensures
        encrypts_gadget(key, a, b, t, errors.0, s, decs.0, ntt) <==> (forall|j: int|
            #![trigger errors.0[j]]
            0 <= j < decs.0.count() ==> errors.0[j].len() == ntt.n() && ntt.coeffs(
                key[a + j],
            ).len() == ntt.n() && ntt.coeffs(key[b + j]).len() == ntt.n() && rgsw::rlwe_phase(
                seq![ntt.coeffs(key[a + j]), ntt.coeffs(key[b + j])],
                s,
                ntt.q(),
            ) == ring::poly_add(
                ring::poly_scale(decs.0.gadget()[j], t, ntt.q()),
                errors.0[j],
                ntt.q(),
            )),
        rgsw_encrypts(key, t, errors, s, decs, ntt) <==> encrypts_gadget(
            key,
            0,
            decs.0.count() as int,
            ring::poly_neg(ring::nega_mul(s, t, ntt.q()), ntt.q()),
            errors.0,
            s,
            decs.0,
            ntt,
        ) && encrypts_gadget(
            key,
            2 * decs.0.count() as int,
            2 * decs.0.count() as int + decs.1.count(),
            t,
            errors.1,
            s,
            decs.1,
            ntt,
        ),
        auto_key_encrypts(key, inv, errors.0, s, decs.0, ntt) <==> encrypts_gadget(
            key,
            0,
            decs.0.count() as int,
            ring::poly_neg(automorphism::substituted(s, inv, ntt.q()), ntt.q()),
            errors.0,
            s,
            decs.0,
            ntt,
        ),
        ksk_encrypts(key, s, numbers, z, decs.0) <==> (forall|i: int, j: int|
            0 <= i < s.len() && 0 <= j < decs.0.count() ==> (#[trigger] key[i * decs.0.count()
                + j]).len() == z.len() + 1 && lwe::lwe_phase(
                key[i * decs.0.count() + j],
                z,
                decs.0.q(),
            ) == (decs.0.gadget()[j] * (-s[i]) + numbers[i * decs.0.count() + j]) % decs.0.q()),
{
}

/// With digits that need not recompose, the automorphism `X -> X^k` of an RLWE ciphertext decrypts
/// to the image of its part `b`, minus the image of the secret times what the digits of the image
/// of its part `a` recompose to, plus the digits times the errors.
pub proof fn lemma_auto_switched_digits<D: Decomposer, N: Ntt>(
    ct: Seq<Seq<int>>,
    ksk: Seq<Seq<int>>,
    k: int,
    inv: int,
    errors: Seq<Seq<int>>,
    s: Seq<int>,
    dec: D,
    ntt: N,
)
    requires
        ntt.q() > 0,
        0 < ntt.n() <= usize::MAX,
        dec.q() == ntt.q(),
        rgsw::is_rlwe(ct, ntt.n(), ntt.q()),
        s.len() == ntt.n(),
        ring::canonical(s, ntt.q()),
        automorphism::is_inverse(k, inv, ntt.n()),
        auto_key_encrypts(ksk, inv, errors, s, dec, ntt),
    ensures
        ({
            let q = ntt.q();
            let a = automorphism::substituted(ct[0], inv, q);
            let e = digit_errors(dec, a, errors, dec.count() as int);
            &&& rgsw::rlwe_phase(
                rgsw::auto_switched(
                    ct,
                    ksk,
                    rgsw::auto_indices(ntt.n(), k),
                    rgsw::auto_signs(ntt.n(), k),
                    dec,
                    ntt,
                    false,
                ),
                s,
                q,
            ) == ring::poly_add(
                ring::poly_sub(
                    automorphism::substituted(ct[1], inv, q),
                    ring::nega_mul(
                        automorphism::substituted(s, inv, q),
                        recomposed_poly(dec, a, dec.count() as int),
                        q,
                    ),
                    q,
                ),
                e,
                q,
            )
            &&& e.len() == ntt.n()
            &&& ring::canonical(e, q)
        }),
{
    let q = ntt.q();
    let n = ntt.n();
    let z = poly::zeros(n);
    assert(ct[0].len() == n && ct[1].len() == n);
    automorphism::lemma_auto_image(ct[1], k, inv, q);
    automorphism::lemma_auto_image(ct[0], k, inv, q);
    let b = automorphism::substituted(ct[1], inv, q);
    let a = automorphism::substituted(ct[0], inv, q);
    let si = automorphism::substituted(s, inv, q);
    let count = dec.count() as int;
    lemma_phase_zeros(s, n, q);
    lemma_gadget_phase(z, z, a, ksk, 0, count, ring::poly_neg(si, q), errors, s, dec, ntt, count);
    let (ra, rb) = (
        rgsw::gadget_product(z, a, ksk, 0, dec, ntt),
        rgsw::gadget_product(z, a, ksk, count, dec, ntt),
    );
    let out = rgsw::auto_switched(
        ct,
        ksk,
        rgsw::auto_indices(n, k),
        rgsw::auto_signs(n, k),
        dec,
        ntt,
        false,
    );
    assert(out =~= seq![ra, ring::poly_add(rb, b, q)]);
    let e = digit_errors(dec, a, errors, count);
    lemma_switched_algebra(ra, rb, recomposed_poly(dec, a, count), b, si, e, s, q);
}

/// What the polynomial that digits recompose to has for coefficients.
pub proof fn lemma_recomposed_coefficients<D: Decomposer>(dec: D, x: Seq<int>, i: int)
    requires
        0 <= i < x.len(),
    ensures
        recomposed_poly(dec, x, dec.count() as int).len() == x.len(),
        recomposed_poly(dec, x, dec.count() as int)[i] == decomposer::recomposed(
            dec.digits(x[i]),
            dec.gadget(),
            dec.count() as int,
        ) % dec.q(),
{
}

/// What the digits of each entry recompose to.
pub open spec fn recomposed_mask<D: Decomposer>(dec: D, mask: Seq<int>) -> Seq<int> {
    Seq::new(
        mask.len(),
        |i: int| decomposer::recomposed(dec.digits(mask[i]), dec.gadget(), dec.count() as int),
    )
}

proof fn lemma_mask_rows_digits<D: Decomposer>(
    out: Seq<int>,
    mask: Seq<int>,
    ksk: Seq<Seq<int>>,
    s: Seq<int>,
    errors: Seq<int>,
    z: Seq<int>,
    dec: D,
    i: int,
)
    requires
        dec.q() > 0,
        out.len() == z.len() + 1,
        0 <= i <= s.len(),
        mask.len() == s.len(),
        ksk_encrypts(ksk, s, errors, z, dec),
    ensures
        lwe::add_mask_rows(out, mask, ksk, dec, i, dec.q()).len() == out.len(),
        lwe::lwe_phase(lwe::add_mask_rows(out, mask, ksk, dec, i, dec.q()), z, dec.q()) == (
        lwe::lwe_phase(out, z, dec.q()) - lwe::dot(recomposed_mask(dec, mask), s, i)
            + key_switch_error(mask, errors, dec, i)) % dec.q(),
    decreases i,
{
    let q = dec.q();
    let rm = recomposed_mask(dec, mask);
    if i == 0 {
        lemma_mod_twice(out[0] - lwe::dot(lwe::lwe_mask(out), z, z.len() as int), q);
    } else {
        lemma_mask_rows_digits(out, mask, ksk, s, errors, z, dec, i - 1);
        let o = lwe::add_mask_rows(out, mask, ksk, dec, i - 1, q);
        let digits = dec.digits(mask[i - 1]);
        let count = dec.count() as int;
        lemma_digit_rows(o, digits, ksk, s, errors, z, dec, i - 1, count);
        let x = lwe::lwe_phase(out, z, q) - lwe::dot(rm, s, i - 1) + key_switch_error(
            mask,
            errors,
            dec,
            i - 1,
        );
        let (r, k) = (rm[i - 1], s[i - 1]);
        let e = digit_error_sum(digits, errors, (i - 1) * dec.count(), count);
        lemma_mul_is_commutative(k, r);
        lemma_add_mod_noop_right(e - k * r, x, q);
    }
}

/// With digits that need not recompose, a key switch decrypts under `z` to the body minus the inner
/// product of `s` and what the digits of the mask recompose to, plus the digits times the errors.
pub proof fn lemma_key_switch_digits<D: Decomposer>(
    out: Seq<int>,
    ct: Seq<int>,
    ksk: Seq<Seq<int>>,
    s: Seq<int>,
    errors: Seq<int>,
    z: Seq<int>,
    dec: D,
)
    requires
        dec.q() > 0,
        out.len() == z.len() + 1,
        ct.len() == s.len() + 1,
        ksk_encrypts(ksk, s, errors, z, dec),
    ensures
        lwe::lwe_phase(lwe::key_switched(out, ct, ksk, dec, dec.q()), z, dec.q()) == (
        lwe::lwe_phase(out, z, dec.q()) + ct[0] - lwe::dot(
            recomposed_mask(dec, ct.skip(1)),
            s,
            s.len() as int,
        ) + key_switch_error(ct.skip(1), errors, dec, s.len() as int)) % dec.q(),
{
    let q = dec.q();
    let n = s.len() as int;
    let mask = lwe::lwe_mask(ct);
    lemma_mask_rows_digits(out, mask, ksk, s, errors, z, dec, n);
    let o = lwe::add_mask_rows(out, mask, ksk, dec, n, q);
    let r = lwe::key_switched(out, ct, ksk, dec, q);
    assert(lwe::lwe_mask(r) =~= lwe::lwe_mask(o));
    let d = lwe::dot(lwe::lwe_mask(o), z, z.len() as int);
    let (p0, e, c) = (
        lwe::lwe_phase(out, z, q),
        key_switch_error(mask, errors, dec, n),
        lwe::dot(recomposed_mask(dec, mask), s, n),
    );
    lemma_sub_mod_noop((o[0] + ct[0]) % q, d, q);
    lemma_sub_mod_noop(o[0] + ct[0], d, q);
    lemma_mod_twice(o[0] + ct[0], q);
    lemma_add_mod_noop_right(ct[0], o[0] - d, q);
    lemma_add_mod_noop_right(ct[0], p0 - c + e, q);
}

/// What the digits of a mask recompose to, entry by entry.
pub proof fn lemma_recomposed_mask<D: Decomposer>(dec: D, mask: Seq<int>, i: int)
    requires
        0 <= i < mask.len(),
    ensures
        recomposed_mask(dec, mask).len() == mask.len(),
        recomposed_mask(dec, mask)[i] == decomposer::recomposed(
            dec.digits(mask[i]),
            dec.gadget(),
            dec.count() as int,
        ),
{
}

/// With digits that need not recompose, the product of an RLWE ciphertext and an RGSW ciphertext of
/// `m` decrypts to `m` times what the ciphertext of what the digits recompose to decrypts to, plus
/// the digits times the errors.
pub proof fn lemma_rgsw_product_digits<D: Decomposer, N: Ntt>(
    ct: Seq<Seq<int>>,
    rgsw: Seq<Seq<int>>,
    m: Seq<int>,
    errors: (Seq<Seq<int>>, Seq<Seq<int>>),
    s: Seq<int>,
    decs: (D, D),
    ntt: N,
    is_trivial: bool,
)
    requires
        ntt.q() > 0,
        decs.0.q() == ntt.q(),
        decs.1.q() == ntt.q(),
        rgsw::is_rlwe(ct, ntt.n(), ntt.q()),
        s.len() == ntt.n(),
        m.len() == ntt.n(),
        rgsw_encrypts(rgsw, m, errors, s, decs, ntt),
    ensures
        ({
            let q = ntt.q();
            let a = if is_trivial {
                poly::zeros(ntt.n())
            } else {
                recomposed_poly(decs.0, ct[0], decs.0.count() as int)
            };
            let b = recomposed_poly(decs.1, ct[1], decs.1.count() as int);
            let e = rgsw_noise(ct, errors, decs, is_trivial);
            &&& rgsw::rlwe_phase(
                rgsw::rgsw_product(ct, rgsw, decs, ntt, is_trivial),
                s,
                q,
            ) == ring::poly_add(
                ring::nega_mul(m, rgsw::rlwe_phase(seq![a, b], s, q), q),
                e,
                q,
            )
            &&& e.len() == ntt.n()
        }),
{
    let q = ntt.q();
    let n = ntt.n();
    let (da, db) = (decs.0.count() as int, decs.1.count() as int);
    let z = poly::zeros(n);
    let eb = digit_errors(decs.1, ct[1], errors.1, db);
    assert(ct[0].len() == n && ct[1].len() == n);
    lemma_phase_zeros(s, n, q);
    let (xa, xb) = if is_trivial {
        (z, z)
    } else {
        (
            rgsw::gadget_product(z, ct[0], rgsw, 0, decs.0, ntt),
            rgsw::gadget_product(z, ct[0], rgsw, da, decs.0, ntt),
        )
    };
    let t = ring::poly_neg(ring::nega_mul(s, m, q), q);
    let ea = digit_errors(decs.0, ct[0], errors.0, da);
    let (ra, rb) = (recomposed_poly(decs.0, ct[0], da), recomposed_poly(decs.1, ct[1], db));
    assert forall|i: int| 0 <= i < n implies 0 <= #[trigger] ra[i] < q && 0 <= #[trigger] rb[i]
        < q by {
        lemma_mod_bound(decomposer::recomposed(decs.0.digits(ct[0][i]), decs.0.gadget(), da), q);
        lemma_mod_bound(decomposer::recomposed(decs.1.digits(ct[1][i]), decs.1.gadget(), db), q);
    }
    if !is_trivial {
        lemma_gadget_phase(z, z, ct[0], rgsw, 0, da, t, errors.0, s, decs.0, ntt, da);
    }
    lemma_gadget_phase(
        xa,
        xb,
        ct[1],
        rgsw,
        2 * da,
        2 * da + db,
        m,
        errors.1,
        s,
        decs.1,
        ntt,
        db,
    );
    assert(rgsw::rgsw_product(ct, rgsw, decs, ntt, is_trivial) =~= seq![
        rgsw::gadget_product(xa, ct[1], rgsw, 2 * da, decs.1, ntt),
        rgsw::gadget_product(xb, ct[1], rgsw, 2 * da + db, decs.1, ntt),
    ]);
    if is_trivial {
        let c = seq![z, rb];
        assert(c[0] == z && c[1] == rb);
        assert(rgsw::is_rlwe(c, n, q));
        lemma_trivial_product(c, m, s, eb, q);
    } else {
        let c = seq![ra, rb];
        assert(c[0] == ra && c[1] == rb);
        assert(rgsw::is_rlwe(c, n, q));
        lemma_full_product(c, m, s, ea, eb, q);
    }
}

/// An automorphism of a trivial ciphertext decrypts to the image of what it decrypts to.
pub proof fn lemma_auto_trivial<D: Decomposer, N: Ntt>(
    ct: Seq<Seq<int>>,
    ksk: Seq<Seq<int>>,
    k: int,
    inv: int,
    s: Seq<int>,
    dec: D,
    ntt: N,
)
    requires
        ntt.q() > 0,
        0 < ntt.n() <= usize::MAX,
        rgsw::is_rlwe(ct, ntt.n(), ntt.q()),
        ct[0] == poly::zeros(ntt.n()),
        s.len() == ntt.n(),
        automorphism::is_inverse(k, inv, ntt.n()),
    ensures
        rgsw::rlwe_phase(
            rgsw::auto_switched(
                ct,
                ksk,
                rgsw::auto_indices(ntt.n(), k),
                rgsw::auto_signs(ntt.n(), k),
                dec,
                ntt,
                true,
            ),
            s,
            ntt.q(),
        ) == automorphism::substituted(rgsw::rlwe_phase(ct, s, ntt.q()), inv, ntt.q()),
{
    let (q, n) = (ntt.q(), ntt.n());
    assert(ct[0].len() == n && ct[1].len() == n);
    automorphism::lemma_auto_image(ct[1], k, inv, q);
    let b = automorphism::substituted(ct[1], inv, q);
    lemma_substituted_canonical(ct[1], inv, q);
    ring::lemma_nega_mul_zeros(s, n, q);
    ring::lemma_poly_add_zeros(ct[1], q);
    ring::lemma_poly_add_zeros(b, q);
    let out = rgsw::auto_switched(
        ct,
        ksk,
        rgsw::auto_indices(n, k),
        rgsw::auto_signs(n, k),
        dec,
        ntt,
        true,
    );
    assert(out =~= seq![ct[0], b]);
}

} // verus!
