//! The automorphisms `X -> X^k` of `Z_q[X]/(X^n + 1)` respect its operations.
use crate::ntt;
use crate::poly;
use crate::rgsw;
use crate::ring;
use vstd::arithmetic::div_mod::*;
use vstd::arithmetic::mul::*;
use vstd::prelude::*;

verus! {

/// `inv` is an inverse of `k` modulo `2n`.
pub open spec fn is_inverse(k: int, inv: int, n: nat) -> bool {
    (k * inv) % (2 * n as int) == 1int % (2 * n as int)
}

/// The image of `p` under `X -> X^k`, given an inverse of `k`: the coefficient of `X^j` in the
/// image is the coefficient of `X^{j * inv}` in `p`.
pub open spec fn substituted(p: Seq<int>, inv: int, q: int) -> Seq<int> {
    Seq::new(p.len(), |j: int| ring::coeff_at(p, j * inv) % q)
}

/// Exponents that are congruent modulo `2n` name the same coefficient.
pub proof fn lemma_coeff_at_shifted(p: Seq<int>, e: int, c: int)
    requires
        p.len() > 0,
    ensures
        ring::coeff_at(p, e + 2 * p.len() * c) == ring::coeff_at(p, e),
{
    let m = 2 * p.len() as int;
    lemma_mod_multiples_vanish(c, e, m);
}

/// What an inverse modulo `2n` gives: `k * inv = 1 + 2n * c`, and `inv` is odd.
pub proof fn lemma_inverse(k: int, inv: int, n: nat) -> (c: int)
    requires
        n > 0,
        is_inverse(k, inv, n),
    ensures
        k * inv == 1 + 2 * n * c,
        inv % 2 == 1,
{
    let m = 2 * n as int;
    let c = (k * inv) / m;
    lemma_small_mod(1, m as nat);
    lemma_fundamental_div_mod(k * inv, m);
    let y = n * c;
    assert(m * c == 2 * y) by (nonlinear_arith)
        requires
            m == 2 * n,
            y == n * c,
    ;
    if inv % 2 == 0 {
        let x = k * (inv / 2);
        assert(k * inv == 2 * x) by (nonlinear_arith)
            requires
                inv == 2 * (inv / 2),
                x == k * (inv / 2),
        ;
        assert(false);
    }
    assert(2 * n * c == m * c);
    c
}

/// The place and the sign of the image of `X^i`.
proof fn lemma_target(p: Seq<int>, i: int, k: int, inv: int, q: int)
    requires
        p.len() > 0,
        q > 0,
        0 <= i < p.len(),
        is_inverse(k, inv, p.len()),
        ring::canonical(p, q),
    ensures
        ({
            let n = p.len() as int;
            let (t, sign) = rgsw::auto_target(i, k, n);
            &&& 0 <= t < n
            &&& (t * inv) % n == i
            &&& ring::coeff_at(p, t * inv) % q == (if sign {
                p[i]
            } else {
                (-p[i]) % q
            })
            &&& forall|c: Seq<int>, x: int|
                c.len() == n ==> #[trigger] ring::coeff_at(c, x - t) == (if sign {
                    ring::coeff_at(c, x - i * k)
                } else {
                    -ring::coeff_at(c, x - i * k)
                })
        }),
{
    let n = p.len() as int;
    let m = 2 * n;
    let c = lemma_inverse(k, inv, p.len());
    let e = (i * k) % m;
    let d = (i * k) / m;
    lemma_fundamental_div_mod(i * k, m);
    lemma_mod_bound(i * k, m);
    let (t, sign) = rgsw::auto_target(i, k, n);
    let w = i * c - d * inv;
    assert(e * inv == i + m * w) by (nonlinear_arith)
        requires
            i * k == m * d + e,
            k * inv == 1 + m * c,
            w == i * c - d * inv,
    {
        assert(e == i * k - m * d);
        assert(e * inv == i * (k * inv) - m * (d * inv));
        assert(i * (1 + m * c) == i + m * (i * c));
        assert(m * w == m * (i * c) - m * (d * inv));
    }
    let h = inv / 2;
    if sign {
        assert(t == e);
        lemma_coeff_at_shifted(p, i, w);
        ring::lemma_coeff_at(p, i);
        lemma_small_mod(p[i] as nat, q as nat);
        assert(m * w == n * (2 * w)) by (nonlinear_arith)
            requires
                m == 2 * n,
        ;
        lemma_mod_multiples_vanish(2 * w, i, n);
        lemma_small_mod(i as nat, n as nat);
    } else {
        assert(t == e - n);
        assert(t * inv == (i - n) + m * (w - h)) by (nonlinear_arith)
            requires
                e * inv == i + m * w,
                t == e - n,
                m == 2 * n,
                inv == 2 * h + 1,
        {
            assert(t * inv == e * inv - n * inv);
            assert(n * inv == m * h + n);
            assert(m * (w - h) == m * w - m * h);
        }
        lemma_coeff_at_shifted(p, i - n, w - h);
        ring::lemma_coeff_at(p, i - n);
        let u = 2 * (w - h) - 1;
        assert((i - n) + m * (w - h) == i + n * u) by (nonlinear_arith)
            requires
                m == 2 * n,
                u == 2 * (w - h) - 1,
        ;
        lemma_mod_multiples_vanish(u, i, n);
        lemma_small_mod(i as nat, n as nat);
    }
    assert forall|a: Seq<int>, x: int| a.len() == n implies #[trigger] ring::coeff_at(a, x - t)
        == (if sign {
        ring::coeff_at(a, x - i * k)
    } else {
        -ring::coeff_at(a, x - i * k)
    }) by {
        assert(m * (-d) == -(m * d)) by (nonlinear_arith);
        lemma_coeff_at_shifted(a, x - e, -d);
        assert(x - e + m * (-d) == x - i * k);
        if !sign {
            ring::lemma_coeff_at(a, x - e);
            assert(x - t == x - e + n);
        }
    }
}

/// Different coefficients move to different places.
proof fn lemma_target_injective(t: int, i: int, k: int, inv: int, n: nat)
    requires
        n > 0,
        0 <= i < n,
        0 <= t < n,
        is_inverse(k, inv, n),
        (t * inv) % (n as int) == i,
    ensures
        rgsw::auto_target(i, k, n as int).0 == t,
{
    let m = 2 * n as int;
    let c = lemma_inverse(k, inv, n);
    // i * k is congruent to t modulo n.
    lemma_fundamental_div_mod(t * inv, n as int);
    let d = (t * inv) / (n as int);
    let u = 2 * t * c - d * k;
    assert(i * k == t + n * u) by (nonlinear_arith)
        requires
            t * inv == n * d + i,
            k * inv == 1 + 2 * n * c,
            u == 2 * t * c - d * k,
    {
        assert(i * k == (t * inv - n * d) * k);
        assert((t * inv - n * d) * k == t * (k * inv) - n * (d * k));
        assert(t * (1 + 2 * n * c) == t + n * (2 * t * c));
        assert(n * u == n * (2 * t * c) - n * (d * k));
    }
    lemma_mod_multiples_vanish(u, t, n as int);
    lemma_small_mod(t as nat, n);
    lemma_mod_mod(i * k, n as int, 2);
    assert(n * 2 == m);
    lemma_mod_bound(i * k, m);
    let e = (i * k) % m;
    if e < n {
        lemma_small_mod(e as nat, n);
    } else {
        lemma_fundamental_div_mod_converse(e, n as int, 1, e - n);
    }
}

/// The first `j` coefficients, moved to their places.
proof fn lemma_moved(p: Seq<int>, k: int, inv: int, j: int, q: int)
    requires
        q > 0,
        0 < p.len() <= usize::MAX,
        0 <= j <= p.len(),
        is_inverse(k, inv, p.len()),
        ring::canonical(p, q),
    ensures
        ({
            let n = p.len();
            let r = rgsw::moved(p, rgsw::auto_indices(n, k), rgsw::auto_signs(n, k), j, q);
            &&& r.len() == n
            &&& forall|t: int|
                0 <= t < n ==> #[trigger] r[t] == (if (t * inv) % (n as int) < j {
                    ring::coeff_at(p, t * inv) % q
                } else {
                    0
                })
        }),
    decreases j,
{
    let n = p.len();
    let (index, sign) = (rgsw::auto_indices(n, k), rgsw::auto_signs(n, k));
    let r = rgsw::moved(p, index, sign, j, q);
    if j == 0 {
        assert forall|t: int| 0 <= t < n implies #[trigger] r[t] == (if (t * inv) % (n as int) < j {
            ring::coeff_at(p, t * inv) % q
        } else {
            0
        }) by {
            lemma_mod_bound(t * inv, n as int);
        }
    } else {
        lemma_moved(p, k, inv, j - 1, q);
        let before = rgsw::moved(p, index, sign, j - 1, q);
        lemma_target(p, j - 1, k, inv, q);
        let (to, keep) = rgsw::auto_target(j - 1, k, n as int);
        assert(index[j - 1] == to);
        assert(sign[j - 1] == keep);
        assert forall|t: int| 0 <= t < n implies #[trigger] r[t] == (if (t * inv) % (n as int) < j {
            ring::coeff_at(p, t * inv) % q
        } else {
            0
        }) by {
            if t != to {
                assert(r[t] == before[t]);
                if (t * inv) % (n as int) == j - 1 {
                    lemma_target_injective(t, j - 1, k, inv, n);
                }
            }
        }
    }
}

/// The image under the map of `X -> X^k` is the image under the substitution.
pub proof fn lemma_auto_image(p: Seq<int>, k: int, inv: int, q: int)
    requires
        q > 0,
        0 < p.len() <= usize::MAX,
        is_inverse(k, inv, p.len()),
        ring::canonical(p, q),
    ensures
        rgsw::auto_image(
            p,
            rgsw::auto_indices(p.len(), k),
            rgsw::auto_signs(p.len(), k),
            q,
        ) == substituted(p, inv, q),
{
    let n = p.len();
    lemma_moved(p, k, inv, n as int, q);
    let r = rgsw::auto_image(p, rgsw::auto_indices(n, k), rgsw::auto_signs(n, k), q);
    assert forall|t: int| 0 <= t < n implies #[trigger] r[t] == substituted(p, inv, q)[t] by {
        lemma_mod_bound(t * inv, n as int);
    }
    assert(r =~= substituted(p, inv, q));
}

/// Reduction does not change coefficients modulo `q`, at any exponent.
pub proof fn lemma_coeff_at_mod(p: Seq<int>, r: Seq<int>, e: int, q: int)
    requires
        q > 0,
        p.len() > 0,
        r.len() == p.len(),
        forall|i: int| 0 <= i < p.len() ==> #[trigger] r[i] % q == p[i] % q,
    ensures
        ring::coeff_at(r, e) % q == ring::coeff_at(p, e) % q,
{
    let n = p.len() as int;
    lemma_mod_bound(e, 2 * n);
    let x = e % (2 * n);
    if x < n {
        assert(r[x] % q == p[x] % q);
    } else {
        assert(r[x - n] % q == p[x - n] % q);
        lemma_sub_mod_noop(0, r[x - n], q);
        lemma_sub_mod_noop(0, p[x - n], q);
    }
}

/// `X^e` times the image of `p` under `X -> X^k`, given an inverse `v` of `k`.
pub open spec fn rotated(p: Seq<int>, v: int, e: int, q: int) -> Seq<int> {
    Seq::new(p.len(), |j: int| ring::coeff_at(p, (j - e) * v) % q)
}

/// The coefficients of `rotated(p, v, e, q)`, at any exponent.
pub proof fn lemma_rotated_at(p: Seq<int>, v: int, e: int, x: int, q: int)
    requires
        q > 0,
        p.len() > 0,
        v % 2 == 1,
    ensures
        ring::coeff_at(rotated(p, v, e, q), x) % q == ring::coeff_at(p, (x - e) * v) % q,
{
    let n = p.len() as int;
    let m = 2 * n;
    let r = x % m;
    let d = x / m;
    lemma_fundamental_div_mod(x, m);
    lemma_mod_bound(x, m);
    assert((x - e) * v == (r - e) * v + m * (d * v)) by (nonlinear_arith)
        requires
            x == m * d + r,
    ;
    lemma_coeff_at_shifted(p, (r - e) * v, d * v);
    lemma_mod_twice(ring::coeff_at(p, (r - e) * v), q);
    if r >= n {
        let y = r - n;
        let h = v / 2;
        assert((r - e) * v == ((y - e) * v + n) + m * h) by (nonlinear_arith)
            requires
                y == r - n,
                m == 2 * n,
                v == 2 * h + 1,
        ;
        lemma_coeff_at_shifted(p, (y - e) * v + n, h);
        ring::lemma_coeff_at(p, (y - e) * v);
        let c = ring::coeff_at(p, (y - e) * v);
        lemma_sub_mod_noop(0, c, q);
        lemma_sub_mod_noop(0, c % q, q);
        lemma_mod_twice(c, q);
    }
}

/// Products with monomials and automorphisms compose.
pub proof fn lemma_rotated_composed(
    p: Seq<int>,
    v: int,
    e: int,
    x: int,
    k: int,
    inv: int,
    q: int,
)
    requires
        q > 0,
        p.len() > 0,
        v % 2 == 1,
        is_inverse(k, inv, p.len()),
    ensures
        ring::monomial_times(rotated(p, v, e, q), x, q) == rotated(p, v, e + x, q),
        substituted(rotated(p, v, e, q), inv, q) == rotated(p, v * inv, e * k, q),
{
    let n = p.len();
    let r = rotated(p, v, e, q);
    let (moved, moved_want) = (ring::monomial_times(r, x, q), rotated(p, v, e + x, q));
    let (image, image_want) = (substituted(r, inv, q), rotated(p, v * inv, e * k, q));
    assert forall|j: int| 0 <= j < n implies #[trigger] moved[j] == moved_want[j] by {
        lemma_rotated_at(p, v, e, j - x, q);
        assert(j - x - e == j - (e + x));
    }
    let c = lemma_inverse(k, inv, n);
    let m = 2 * n as int;
    assert forall|j: int| 0 <= j < n implies #[trigger] image[j] == image_want[j] by {
        lemma_rotated_at(p, v, e, j * inv, q);
        let w = -(e * v * c);
        assert((j - e * k) * (v * inv) == (j * inv - e) * v + m * w) by (nonlinear_arith)
            requires
                k * inv == 1 + m * c,
                w == -(e * v * c),
        {
            assert((j - e * k) * (v * inv) == (j * inv) * v - (e * v) * (k * inv));
            assert((e * v) * (1 + m * c) == e * v + m * (e * v * c));
            assert((j * inv - e) * v == (j * inv) * v - e * v);
        }
        lemma_coeff_at_shifted(p, (j * inv - e) * v, w);
    }
    assert(moved =~= moved_want);
    assert(image =~= image_want);
}

/// The product with the polynomial `X^x` moves the coefficients by `x`.
pub proof fn lemma_monomial_product(p: Seq<int>, x: int, q: int)
    requires
        q > 0,
        p.len() > 0,
    ensures
        ring::nega_mul(ring::monomial_times(poly::one(p.len()), x, q), p, q)
            == ring::monomial_times(p, x, q),
{
    let n = p.len();
    let m = 2 * n as int;
    let one = poly::one(n);
    let z = poly::zeros(n);
    let r = x % m;
    let d = x / m;
    lemma_fundamental_div_mod(x, m);
    lemma_mod_bound(x, m);
    let (i, c) = if r < n {
        (r, 1int)
    } else {
        (r - n, -1int)
    };
    let mono = ring::monomial_times(one, x, q);
    assert forall|j: int| 0 <= j < n implies #[trigger] mono[j] == z.update(i, c % q)[j] by {
        // The coefficient of `X^j` in `X^x`, counted from the place of the one.
        assert(m * (-d) == -(m * d)) by (nonlinear_arith);
        lemma_coeff_at_shifted(one, j - r, -d);
        assert(j - r + m * (-d) == j - x);
        ring::lemma_coeff_at(one, j - r);
        ring::lemma_coeff_at(one, j - r + n);
        lemma_small_mod(0, q as nat);
    }
    assert(mono =~= z.update(i, c % q));
    let (a, b) = (ring::nega_mul(mono, p, q), ring::monomial_times(p, x, q));
    assert forall|t: int| 0 <= t < n implies #[trigger] a[t] == b[t] by {
        lemma_convolution_update(z, i, c % q, p, t, n as int);
        lemma_convolution_zeros(n, p, t, n as int);
        assert(m * (-d) == -(m * d)) by (nonlinear_arith);
        lemma_coeff_at_shifted(p, t - r, -d);
        assert(t - r + m * (-d) == t - x);
        let y = ring::coeff_at(p, t - i);
        ring::lemma_coeff_at(p, t - r);
        lemma_mul_mod_noop_left(c, y, q);
        assert(c * y == ring::coeff_at(p, t - x)) by {
            if r < n {
                assert(1 * y == y) by (nonlinear_arith);
            } else {
                assert((-1) * y == -y) by (nonlinear_arith);
                assert(t - i == t - r + n);
            }
        }
        assert((c % q - 0) * y == (c % q) * y);
    }
    assert(a =~= b);
}

/// The product with `X^x` of a sum is the sum of the products.
pub proof fn lemma_monomial_sum(a: Seq<int>, b: Seq<int>, x: int, q: int)
    requires
        q > 0,
        a.len() > 0,
        b.len() == a.len(),
    ensures
        ring::monomial_times(ring::poly_add(a, b, q), x, q) == ring::poly_add(
            ring::monomial_times(a, x, q),
            ring::monomial_times(b, x, q),
            q,
        ),
{
    lemma_monomial_product(ring::poly_add(a, b, q), x, q);
    lemma_monomial_product(a, x, q);
    lemma_monomial_product(b, x, q);
    ring::lemma_nega_mul_distributive(
        ring::monomial_times(poly::one(a.len()), x, q),
        a,
        b,
        q,
    );
}

/// The first `j` terms of the coefficient of `X^t` in `a(X^k) * c`.
spec fn spread_convolution(a: Seq<int>, c: Seq<int>, t: int, k: int, j: int) -> int
    decreases j,
{
    if j <= 0 {
        0
    } else {
        spread_convolution(a, c, t, k, j - 1) + a[j - 1] * ring::coeff_at(c, t - (j - 1) * k)
    }
}

/// A change of one coefficient changes one term.
proof fn lemma_convolution_update(a: Seq<int>, i: int, v: int, c: Seq<int>, t: int, j: int)
    requires
        0 <= i < a.len(),
        j <= a.len(),
    ensures
        ring::convolution(a.update(i, v), c, t, j) == ring::convolution(a, c, t, j) + (if i < j {
            (v - a[i]) * ring::coeff_at(c, t - i)
        } else {
            0
        }),
    decreases j,
{
    if j > 0 {
        lemma_convolution_update(a, i, v, c, t, j - 1);
        if i == j - 1 {
            let x = ring::coeff_at(c, t - i);
            let u = a[i];
            assert(v * x == u * x + (v - u) * x) by (nonlinear_arith);
        }
    }
}

proof fn lemma_convolution_zeros(n: nat, c: Seq<int>, t: int, j: int)
    requires
        j <= n,
    ensures
        ring::convolution(poly::zeros(n), c, t, j) == 0,
    decreases j,
{
    if j > 0 {
        lemma_convolution_zeros(n, c, t, j - 1);
        let x = ring::coeff_at(c, t - (j - 1));
        assert(0 * x == 0) by (nonlinear_arith);
    }
}

/// The product of the first `j` moved coefficients with `c`.
proof fn lemma_moved_product(
    a: Seq<int>,
    c: Seq<int>,
    t: int,
    k: int,
    inv: int,
    j: int,
    q: int,
)
    requires
        q > 0,
        0 < a.len() <= usize::MAX,
        c.len() == a.len(),
        0 <= j <= a.len(),
        is_inverse(k, inv, a.len()),
        ring::canonical(a, q),
    ensures
        ring::convolution(
            rgsw::moved(
                a,
                rgsw::auto_indices(a.len(), k),
                rgsw::auto_signs(a.len(), k),
                j,
                q,
            ),
            c,
            t,
            a.len() as int,
        ) % q == spread_convolution(a, c, t, k, j) % q,
    decreases j,
{
    let n = a.len();
    let (index, sign) = (rgsw::auto_indices(n, k), rgsw::auto_signs(n, k));
    if j == 0 {
        lemma_convolution_zeros(n, c, t, n as int);
    } else {
        lemma_moved_product(a, c, t, k, inv, j - 1, q);
        lemma_moved(a, k, inv, j - 1, q);
        let before = rgsw::moved(a, index, sign, j - 1, q);
        lemma_target(a, j - 1, k, inv, q);
        let (to, keep) = rgsw::auto_target(j - 1, k, n as int);
        assert(index[j - 1] == to);
        assert(sign[j - 1] == keep);
        assert(before[to] == 0);
        let v = if keep {
            a[j - 1]
        } else {
            (-a[j - 1]) % q
        };
        lemma_convolution_update(before, to, v, c, t, n as int);
        let x = ring::coeff_at(c, t - (j - 1) * k);
        let y = ring::coeff_at(c, t - to);
        let w = a[j - 1];
        // v * y is congruent to w * x
        if !keep {
            assert(y == -x);
            lemma_mul_mod_noop_left(-w, -x, q);
            assert((-w) * (-x) == w * x) by (nonlinear_arith);
        } else {
            assert(y == x);
        }
        let s = ring::convolution(before, c, t, n as int);
        assert((v - 0) * y == v * y);
        lemma_add_mod_noop(s, v * y, q);
        lemma_add_mod_noop(spread_convolution(a, c, t, k, j - 1), w * x, q);
    }
}

proof fn lemma_convolution_shifted(a: Seq<int>, b: Seq<int>, e: int, c: int, j: int)
    requires
        b.len() > 0,
    ensures
        ring::convolution(a, b, e + 2 * b.len() * c, j) == ring::convolution(a, b, e, j),
    decreases j,
{
    if j > 0 {
        lemma_convolution_shifted(a, b, e, c, j - 1);
        lemma_coeff_at_shifted(b, e - (j - 1), c);
        assert(e + 2 * b.len() * c - (j - 1) == e - (j - 1) + 2 * b.len() * c);
    }
}

/// The coefficients of a product, at any exponent.
proof fn lemma_product_at(a: Seq<int>, b: Seq<int>, e: int, q: int)
    requires
        q > 0,
        b.len() > 0,
    ensures
        ring::coeff_at(ring::nega_mul(a, b, q), e) % q == ring::convolution(
            a,
            b,
            e,
            a.len() as int,
        ) % q,
{
    let n = b.len() as int;
    let m = 2 * n;
    let x = e % m;
    let d = e / m;
    lemma_fundamental_div_mod(e, m);
    lemma_mod_bound(e, m);
    lemma_convolution_shifted(a, b, x, d, a.len() as int);
    assert(2 * b.len() * d == m * d);
    if x < n {
        lemma_mod_twice(ring::convolution(a, b, x, a.len() as int), q);
    } else {
        ring::lemma_convolution_negated(a, b, x, a.len() as int);
        let c = ring::convolution(a, b, x - n, a.len() as int);
        lemma_sub_mod_noop(0, c, q);
        lemma_sub_mod_noop(0, c % q, q);
        lemma_mod_twice(c, q);
    }
}

proof fn lemma_spread_substituted(
    a: Seq<int>,
    b: Seq<int>,
    t: int,
    k: int,
    inv: int,
    j: int,
    q: int,
)
    requires
        q > 0,
        b.len() > 0,
        is_inverse(k, inv, b.len()),
    ensures
        spread_convolution(a, substituted(b, inv, q), t, k, j) % q == ring::convolution(
            a,
            b,
            t * inv,
            j,
        ) % q,
    decreases j,
{
    if j > 0 {
        lemma_spread_substituted(a, b, t, k, inv, j - 1, q);
        let c = lemma_inverse(k, inv, b.len());
        let i = j - 1;
        let m = 2 * b.len() as int;
        let w = -(i * c);
        assert((t - i * k) * inv == (t * inv - i) + m * w) by (nonlinear_arith)
            requires
                k * inv == 1 + m * c,
                w == -(i * c),
        {
            assert((t - i * k) * inv == t * inv - i * (k * inv));
            assert(i * (1 + m * c) == i + m * (i * c));
            assert(m * w == -(m * (i * c)));
        }
        lemma_coeff_at_shifted(b, t * inv - i, w);
        lemma_rotated_at(b, inv, 0, t - i * k, q);
        assert(rotated(b, inv, 0, q) =~= substituted(b, inv, q));
        assert((t - i * k - 0) * inv == (t - i * k) * inv);
        let (x, y) = (
            ring::coeff_at(substituted(b, inv, q), t - i * k),
            ring::coeff_at(b, t * inv - i),
        );
        lemma_mul_mod_noop_right(a[i], x, q);
        lemma_mul_mod_noop_right(a[i], y, q);
        lemma_add_mod_noop(
            spread_convolution(a, substituted(b, inv, q), t, k, j - 1),
            a[i] * x,
            q,
        );
        lemma_add_mod_noop(ring::convolution(a, b, t * inv, j - 1), a[i] * y, q);
    }
}

/// The image of a product is the product of the images.
pub proof fn lemma_auto_product(a: Seq<int>, b: Seq<int>, k: int, inv: int, q: int)
    requires
        q > 0,
        0 < a.len() <= usize::MAX,
        b.len() == a.len(),
        is_inverse(k, inv, a.len()),
        ring::canonical(a, q),
    ensures
        substituted(ring::nega_mul(a, b, q), inv, q) == ring::nega_mul(
            substituted(a, inv, q),
            substituted(b, inv, q),
            q,
        ),
{
    let n = a.len();
    let (x, y) = (
        substituted(ring::nega_mul(a, b, q), inv, q),
        ring::nega_mul(substituted(a, inv, q), substituted(b, inv, q), q),
    );
    lemma_auto_image(a, k, inv, q);
    assert forall|t: int| 0 <= t < n implies #[trigger] x[t] == y[t] by {
        lemma_moved_product(a, substituted(b, inv, q), t, k, inv, n as int, q);
        lemma_spread_substituted(a, b, t, k, inv, n as int, q);
        lemma_product_at(a, b, t * inv, q);
    }
    assert(x =~= y);
}

/// The image of a sum is the sum of the images, and the same for a difference.
pub proof fn lemma_auto_sum(a: Seq<int>, b: Seq<int>, inv: int, q: int)
    requires
        q > 0,
        a.len() > 0,
        b.len() == a.len(),
    ensures
        substituted(ring::poly_add(a, b, q), inv, q) == ring::poly_add(
            substituted(a, inv, q),
            substituted(b, inv, q),
            q,
        ),
        substituted(ring::poly_sub(a, b, q), inv, q) == ring::poly_sub(
            substituted(a, inv, q),
            substituted(b, inv, q),
            q,
        ),
{
    let n = a.len();
    let (sa, sb) = (substituted(a, inv, q), substituted(b, inv, q));
    let sums = (substituted(ring::poly_add(a, b, q), inv, q), ring::poly_add(sa, sb, q));
    let differences = (substituted(ring::poly_sub(a, b, q), inv, q), ring::poly_sub(sa, sb, q));
    assert forall|t: int| 0 <= t < n implies #[trigger] sums.0[t] == sums.1[t] by {
        let p = poly::plus(a, b);
        assert forall|i: int| 0 <= i < n implies #[trigger] ring::poly_add(a, b, q)[i] % q == p[i]
            % q by {
            lemma_mod_twice(p[i], q);
        }
        lemma_coeff_at_mod(p, ring::poly_add(a, b, q), t * inv, q);
        lemma_coeff_at_sum(a, b, t * inv);
        lemma_add_mod_noop(ring::coeff_at(a, t * inv), ring::coeff_at(b, t * inv), q);
    }
    assert forall|t: int| 0 <= t < n implies #[trigger] differences.0[t] == differences.1[t] by {
        let p = poly::minus(a, b);
        assert forall|i: int| 0 <= i < n implies #[trigger] ring::poly_sub(a, b, q)[i] % q == p[i]
            % q by {
            lemma_mod_twice(p[i], q);
        }
        lemma_coeff_at_mod(p, ring::poly_sub(a, b, q), t * inv, q);
        lemma_coeff_at_sum(a, b, t * inv);
        lemma_sub_mod_noop(ring::coeff_at(a, t * inv), ring::coeff_at(b, t * inv), q);
    }
    assert(sums.0 =~= sums.1);
    assert(differences.0 =~= differences.1);
}

/// The coefficients of a sum and of a difference, at any exponent.
pub proof fn lemma_coeff_at_sum(a: Seq<int>, b: Seq<int>, e: int)
    requires
        a.len() > 0,
        b.len() == a.len(),
    ensures
        ring::coeff_at(poly::plus(a, b), e) == ring::coeff_at(a, e) + ring::coeff_at(b, e),
        ring::coeff_at(poly::minus(a, b), e) == ring::coeff_at(a, e) - ring::coeff_at(b, e),
{
    lemma_mod_bound(e, 2 * a.len() as int);
}

/// In a ring of a power of two coefficients every odd exponent has an inverse.
pub proof fn lemma_odd_has_inverse(k: int, n: nat) -> (inv: int)
    requires
        k % 2 == 1,
        ntt::is_pow2(n),
    ensures
        is_inverse(k, inv, n),
    decreases n,
{
    let m = 2 * n as int;
    if n == 1 {
        assert(k * 1 == k);
        1
    } else {
        // From k v = 1 + n t follows k (v (2 - k v)) = 1 - n^2 t^2, and 2n divides n^2.
        let v = lemma_odd_has_inverse(k, n / 2);
        let t = lemma_inverse(k, v, n / 2);
        assert(2 * (n / 2) == n);
        assert(k * v == 1 + n * t);
        let inv = v * (2 - k * v);
        let h = (n / 2) as int;
        assert(k * inv == 1 + m * (-(h * t * t))) by (nonlinear_arith)
            requires
                k * v == 1 + n * t,
                inv == v * (2 - k * v),
                m == 2 * n,
                n == 2 * h,
        {
            assert(k * inv == (k * v) * (2 - k * v));
            assert((1 + n * t) * (1 - n * t) == 1 - (n * t) * (n * t));
            assert((n * t) * (n * t) == m * (h * t * t));
        }
        lemma_mod_multiples_vanish(-(h * t * t), 1, m);
        inv
    }
}

/// Where an automorphism sends a power of `X`: the coefficient of `X^i` is that of `X^(i k)` in the
/// image, which is that of a smaller power negated where `i k` passes the size of the ring.
pub proof fn lemma_substituted_powers(p: Seq<int>, k: int, inv: int, i: int, q: int)
    requires
        q > 0,
        0 <= i < p.len(),
        (k * inv) % (2 * p.len() as int) == 1int % (2 * p.len() as int),
    ensures
        ({
            let n = p.len() as int;
            let e = (i * k) % (2 * n);
            let r = substituted(p, inv, q);
            &&& r.len() == p.len()
            &&& e < n ==> r[e] == p[i] % q
            &&& e >= n ==> r[e - n] == (-p[i]) % q
        }),
{
    let n = p.len() as int;
    let m = 2 * n;
    let e = (i * k) % m;
    let d = (i * k) / m;
    lemma_fundamental_div_mod(i * k, m);
    lemma_mod_bound(i * k, m);
    let c = lemma_inverse(k, inv, p.len());
    // e inv = i + 2n (i c - d inv)
    let y = i * c - d * inv;
    assert(e * inv == i + m * y) by (nonlinear_arith)
        requires
            i * k == m * d + e,
            k * inv == 1 + m * c,
            y == i * c - d * inv,
    ;
    ring::lemma_coeff_at(p, i);
    ring::lemma_coeff_at(p, i - n);
    lemma_coeff_at_shifted(p, i, y);
    if e >= n {
        let h = inv / 2;
        // (e - n) inv = i - n + 2n (y - h)
        assert((e - n) * inv == (i - n) + m * (y - h)) by (nonlinear_arith)
            requires
                e * inv == i + m * y,
                inv == 2 * h + 1,
                m == 2 * n,
        ;
        lemma_coeff_at_shifted(p, i - n, y - h);
    }
}

} // verus!
