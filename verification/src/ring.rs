//! The negacyclic ring `Z_q[X]/(X^n + 1)`.
//!
//! An element is the sequence of its `n` coefficients, each in `0..q`. The arithmetic that the
//! rest of the library computes is stated with the functions of this module.
use crate::poly;
use vstd::arithmetic::div_mod::*;
use vstd::arithmetic::mul::*;
use vstd::prelude::*;

verus! {

/// Every entry is a residue in `0..q`.
pub open spec fn canonical(a: Seq<int>, q: int) -> bool {
    forall|i: int| 0 <= i < a.len() ==> 0 <= #[trigger] a[i] < q
}

/// Reduction modulo `q`, entry by entry.
pub open spec fn reduced(a: Seq<int>, q: int) -> Seq<int> {
    Seq::new(a.len(), |i: int| a[i] % q)
}

/// Sum modulo `q`, entry by entry.
pub open spec fn poly_add(a: Seq<int>, b: Seq<int>, q: int) -> Seq<int> {
    reduced(poly::plus(a, b), q)
}

/// Difference modulo `q`, entry by entry.
pub open spec fn poly_sub(a: Seq<int>, b: Seq<int>, q: int) -> Seq<int> {
    reduced(poly::minus(a, b), q)
}

/// Negation modulo `q`, entry by entry.
pub open spec fn poly_neg(a: Seq<int>, q: int) -> Seq<int> {
    Seq::new(a.len(), |i: int| (-a[i]) % q)
}

/// Product with the integer `c` modulo `q`.
pub open spec fn poly_scale(c: int, a: Seq<int>, q: int) -> Seq<int> {
    reduced(poly::scaled(c, a), q)
}

/// Product modulo `q`, entry by entry.
pub open spec fn pointwise(a: Seq<int>, b: Seq<int>, q: int) -> Seq<int> {
    Seq::new(a.len(), |i: int| (a[i] * b[i]) % q)
}

/// The coefficient of `X^e` for any exponent `e`: since `X^n = -1`, coefficients repeat with
/// period `2n` and change sign after `n`.
pub open spec fn coeff_at(p: Seq<int>, e: int) -> int {
    let n = p.len() as int;
    let r = e % (2 * n);
    if r < n {
        p[r]
    } else {
        -p[r - n]
    }
}

/// The first `j` terms of the coefficient of `X^k` in `a * b`.
pub open spec fn convolution(a: Seq<int>, b: Seq<int>, k: int, j: int) -> int
    decreases j,
{
    if j <= 0 {
        0
    } else {
        convolution(a, b, k, j - 1) + a[j - 1] * coeff_at(b, k - (j - 1))
    }
}

/// Product in `Z_q[X]/(X^n + 1)`.
pub open spec fn nega_mul(a: Seq<int>, b: Seq<int>, q: int) -> Seq<int> {
    Seq::new(b.len(), |k: int| convolution(a, b, k, a.len() as int) % q)
}

/// `X^e * p` in `Z_q[X]/(X^n + 1)`.
pub open spec fn monomial_times(p: Seq<int>, e: int, q: int) -> Seq<int> {
    Seq::new(p.len(), |k: int| coeff_at(p, k - e) % q)
}

/// `coeff_at` on the exponents of one period, and its change of sign.
pub proof fn lemma_coeff_at(p: Seq<int>, e: int)
    requires
        p.len() > 0,
    ensures
        0 <= e < p.len() ==> coeff_at(p, e) == p[e],
        p.len() <= e < 2 * p.len() ==> coeff_at(p, e) == -p[e - p.len()],
        -p.len() <= e < 0 ==> coeff_at(p, e) == -p[e + p.len()],
        coeff_at(p, e - p.len()) == -coeff_at(p, e),
        coeff_at(p, e + p.len()) == -coeff_at(p, e),
        coeff_at(p, e + 2 * p.len()) == coeff_at(p, e),
{
    let n = p.len() as int;
    let m = 2 * n;
    if 0 <= e < m {
        lemma_small_mod(e as nat, m as nat);
    }
    if -n <= e < 0 {
        lemma_mod_add_multiples_vanish(e, m);
        lemma_small_mod((e + m) as nat, m as nat);
    }
    let r = e % m;
    lemma_fundamental_div_mod(e, m);
    let k = e / m;
    assert(e == k * m + r) by {
        lemma_mul_is_commutative(m, k);
    }
    lemma_mod_add_multiples_vanish(e, m);
    if r < n {
        lemma_fundamental_div_mod_converse(e + n, m, k, r + n);
        assert((k - 1) * m == k * m - m) by (nonlinear_arith);
        lemma_fundamental_div_mod_converse(e - n, m, k - 1, r + n);
    } else {
        assert((k + 1) * m == k * m + m) by (nonlinear_arith);
        lemma_fundamental_div_mod_converse(e + n, m, k + 1, r - n);
        lemma_fundamental_div_mod_converse(e - n, m, k, r - n);
    }
}

pub proof fn lemma_convolution_negated(a: Seq<int>, b: Seq<int>, k: int, j: int)
    requires
        b.len() > 0,
    ensures
        convolution(a, b, k - b.len(), j) == -convolution(a, b, k, j),
    decreases j,
{
    if j > 0 {
        lemma_convolution_negated(a, b, k, j - 1);
        lemma_coeff_at(b, k - (j - 1));
        let c = coeff_at(b, k - (j - 1));
        assert(a[j - 1] * (-c) == -(a[j - 1] * c)) by (nonlinear_arith);
        assert(k - b.len() - (j - 1) == k - (j - 1) - b.len());
    }
}

proof fn lemma_convolution_first(a: Seq<int>, b: Seq<int>, k: int, j: int)
    requires
        0 < j <= a.len(),
    ensures
        convolution(a, b, k, j) == a[0] * coeff_at(b, k) + convolution(
            a.skip(1),
            b,
            k - 1,
            j - 1,
        ),
    decreases j,
{
    if j > 1 {
        lemma_convolution_first(a, b, k, j - 1);
        assert(a.skip(1)[j - 2] == a[j - 1]);
        assert(k - 1 - (j - 2) == k - (j - 1));
    } else {
        assert(convolution(a, b, k, 0) == 0);
        assert(convolution(a.skip(1), b, k - 1, 0) == 0);
    }
}

/// The coefficients of the product in `Z[X]/(X^n + 1)`.
pub proof fn lemma_product_is_convolution(a: Seq<int>, b: Seq<int>, k: int)
    requires
        0 <= k < b.len(),
    ensures
        poly::product(a, b, -1)[k] == convolution(a, b, k, a.len() as int),
    decreases a.len(),
{
    if a.len() > 0 {
        let t = a.skip(1);
        let n = b.len() as int;
        lemma_convolution_first(a, b, k, a.len() as int);
        lemma_coeff_at(b, k);
        poly::lemma_product_len(t, b, -1);
        if k == 0 {
            lemma_product_is_convolution(t, b, n - 1);
            lemma_convolution_negated(t, b, n - 1, t.len() as int);
        } else {
            lemma_product_is_convolution(t, b, k - 1);
        }
    }
}

/// The product modulo `q` is the integer product, reduced.
pub proof fn lemma_nega_mul_is_product(a: Seq<int>, b: Seq<int>, q: int)
    ensures
        nega_mul(a, b, q) == reduced(poly::product(a, b, -1), q),
{
    poly::lemma_product_len(a, b, -1);
    assert forall|k: int| 0 <= k < b.len() implies nega_mul(a, b, q)[k] == reduced(
        poly::product(a, b, -1),
        q,
    )[k] by {
        lemma_product_is_convolution(a, b, k);
    }
    assert(nega_mul(a, b, q) =~= reduced(poly::product(a, b, -1), q));
}

pub proof fn lemma_reduced_canonical(a: Seq<int>, q: int)
    requires
        q > 0,
    ensures
        canonical(reduced(a, q), q),
        canonical(a, q) ==> reduced(a, q) == a,
        reduced(reduced(a, q), q) == reduced(a, q),
{
    assert forall|i: int| 0 <= i < a.len() implies 0 <= #[trigger] reduced(a, q)[i] < q && reduced(
        reduced(a, q),
        q,
    )[i] == reduced(a, q)[i] && (0 <= a[i] < q ==> a[i] % q == a[i]) by {
        lemma_mod_bound(a[i], q);
        lemma_mod_twice(a[i], q);
        if 0 <= a[i] < q {
            lemma_small_mod(a[i] as nat, q as nat);
        }
    }
    assert(reduced(reduced(a, q), q) =~= reduced(a, q));
    if canonical(a, q) {
        assert(reduced(a, q) =~= a);
    }
}

/// Reduction may be applied to a summand or a factor before the operation.
pub proof fn lemma_reduced_linear(a: Seq<int>, b: Seq<int>, c: int, q: int)
    requires
        q > 0,
        a.len() == b.len(),
    ensures
        reduced(poly::plus(reduced(a, q), reduced(b, q)), q) == reduced(poly::plus(a, b), q),
        reduced(poly::minus(reduced(a, q), reduced(b, q)), q) == reduced(poly::minus(a, b), q),
        reduced(poly::scaled(c, reduced(a, q)), q) == reduced(poly::scaled(c, a), q),
        reduced(poly::scaled(c % q, a), q) == reduced(poly::scaled(c, a), q),
{
    let (ra, rb) = (reduced(a, q), reduced(b, q));
    assert forall|i: int| 0 <= i < a.len() implies (ra[i] + rb[i]) % q == (a[i] + b[i]) % q && (
    ra[i] - rb[i]) % q == (a[i] - b[i]) % q && (c * ra[i]) % q == (c * a[i]) % q && ((c % q) * a[i])
        % q == (c * a[i]) % q by {
        lemma_add_mod_noop(a[i], b[i], q);
        lemma_sub_mod_noop(a[i], b[i], q);
        lemma_mul_mod_noop_right(c, a[i], q);
        lemma_mul_mod_noop_left(c, a[i], q);
    }
    assert(reduced(poly::plus(ra, rb), q) =~= reduced(poly::plus(a, b), q));
    assert(reduced(poly::minus(ra, rb), q) =~= reduced(poly::minus(a, b), q));
    assert(reduced(poly::scaled(c, ra), q) =~= reduced(poly::scaled(c, a), q));
    assert(reduced(poly::scaled(c % q, a), q) =~= reduced(poly::scaled(c, a), q));
}

pub proof fn lemma_reduced_shifted(a: Seq<int>, r: int, s: int, q: int)
    requires
        q > 0,
        r % q == s % q,
    ensures
        reduced(poly::shifted(reduced(a, q), s), q) == reduced(poly::shifted(a, r), q),
{
    let ra = reduced(a, q);
    assert forall|i: int| 0 <= i < a.len() implies reduced(poly::shifted(ra, s), q)[i] == reduced(
        poly::shifted(a, r),
        q,
    )[i] by {
        if i == 0 {
            let x = a[a.len() - 1];
            lemma_mul_mod_noop_left(s, x % q, q);
            lemma_mul_mod_noop_left(r, x % q, q);
            lemma_mul_mod_noop_right(r, x, q);
        } else {
            lemma_mod_twice(a[i - 1], q);
        }
    }
    assert(reduced(poly::shifted(ra, s), q) =~= reduced(poly::shifted(a, r), q));
}

/// The product of congruent factors is congruent.
pub proof fn lemma_product_congruent(
    a: Seq<int>,
    x: Seq<int>,
    b: Seq<int>,
    y: Seq<int>,
    r: int,
    s: int,
    q: int,
)
    requires
        q > 0,
        r % q == s % q,
        reduced(a, q) == reduced(x, q),
        reduced(b, q) == reduced(y, q),
    ensures
        reduced(poly::product(a, b, r), q) == reduced(poly::product(x, y, s), q),
    decreases a.len(),
{
    assert(a.len() == reduced(a, q).len() == x.len());
    assert(b.len() == reduced(b, q).len() == y.len());
    if a.len() > 0 {
        let (at, xt) = (a.skip(1), x.skip(1));
        assert(reduced(at, q) =~= reduced(xt, q)) by {
            assert forall|i: int| 0 <= i < at.len() implies reduced(at, q)[i] == reduced(
                xt,
                q,
            )[i] by {
                assert(reduced(a, q)[i + 1] == a[i + 1] % q);
                assert(reduced(x, q)[i + 1] == x[i + 1] % q);
            }
        }
        lemma_product_congruent(at, xt, b, y, r, s, q);
        let (p, o) = (poly::product(at, b, r), poly::product(xt, y, s));
        poly::lemma_product_len(at, b, r);
        poly::lemma_product_len(xt, y, s);
        lemma_reduced_shifted(p, r, s, q);
        lemma_reduced_shifted(o, s, s, q);
        assert(reduced(poly::shifted(p, r), q) == reduced(poly::shifted(o, s), q));
        assert(reduced(a, q)[0] == a[0] % q);
        assert(reduced(x, q)[0] == x[0] % q);
        lemma_reduced_linear(b, b, a[0], q);
        lemma_reduced_linear(y, y, x[0], q);
        lemma_reduced_linear(reduced(b, q), reduced(b, q), a[0], q);
        lemma_reduced_linear(reduced(b, q), reduced(b, q), x[0], q);
        assert(reduced(poly::scaled(a[0], b), q) == reduced(poly::scaled(x[0], y), q));
        lemma_reduced_linear(poly::scaled(a[0], b), poly::shifted(p, r), 0, q);
        lemma_reduced_linear(poly::scaled(x[0], y), poly::shifted(o, s), 0, q);
    }
}

/// `a * b = b * a`.
pub proof fn lemma_nega_mul_commutative(a: Seq<int>, b: Seq<int>, q: int)
    requires
        a.len() == b.len(),
    ensures
        nega_mul(a, b, q) == nega_mul(b, a, q),
{
    lemma_nega_mul_is_product(a, b, q);
    lemma_nega_mul_is_product(b, a, q);
    poly::lemma_product_commutative(a, b, -1);
}

/// `(a * b) * c = a * (b * c)`.
pub proof fn lemma_nega_mul_associative(a: Seq<int>, b: Seq<int>, c: Seq<int>, q: int)
    requires
        q > 0,
        b.len() == c.len(),
    ensures
        nega_mul(nega_mul(a, b, q), c, q) == nega_mul(a, nega_mul(b, c, q), q),
{
    lemma_nega_mul_is_product(a, b, q);
    lemma_nega_mul_is_product(b, c, q);
    lemma_nega_mul_is_product(nega_mul(a, b, q), c, q);
    lemma_nega_mul_is_product(a, nega_mul(b, c, q), q);
    let (ab, bc) = (poly::product(a, b, -1), poly::product(b, c, -1));
    lemma_reduced_canonical(ab, q);
    lemma_reduced_canonical(bc, q);
    lemma_product_congruent(reduced(ab, q), ab, c, c, -1, -1, q);
    lemma_product_congruent(a, a, reduced(bc, q), bc, -1, -1, q);
    poly::lemma_product_associative(a, b, c, -1);
}

/// `a * (x + y) = a * x + a * y`, and the same for a difference.
pub proof fn lemma_nega_mul_distributive(a: Seq<int>, x: Seq<int>, y: Seq<int>, q: int)
    requires
        q > 0,
        x.len() == y.len(),
    ensures
        nega_mul(a, poly_add(x, y, q), q) == poly_add(nega_mul(a, x, q), nega_mul(a, y, q), q),
        nega_mul(a, poly_sub(x, y, q), q) == poly_sub(nega_mul(a, x, q), nega_mul(a, y, q), q),
{
    let (px, py) = (poly::product(a, x, -1), poly::product(a, y, -1));
    poly::lemma_product_len(a, x, -1);
    poly::lemma_product_len(a, y, -1);
    lemma_nega_mul_is_product(a, x, q);
    lemma_nega_mul_is_product(a, y, q);
    lemma_nega_mul_is_product(a, poly_add(x, y, q), q);
    lemma_nega_mul_is_product(a, poly_sub(x, y, q), q);
    lemma_reduced_canonical(poly::plus(x, y), q);
    lemma_reduced_canonical(poly::minus(x, y), q);
    lemma_product_congruent(a, a, poly_add(x, y, q), poly::plus(x, y), -1, -1, q);
    lemma_product_congruent(a, a, poly_sub(x, y, q), poly::minus(x, y), -1, -1, q);
    poly::lemma_product_linear_right(a, x, y, 0, -1);
    lemma_reduced_linear(px, py, 0, q);
    let ny = poly::scaled(-1, y);
    poly::lemma_product_linear_right(a, y, y, -1, -1);
    poly::lemma_product_linear_right(a, x, ny, 0, -1);
    assert(poly::minus(x, y) =~= poly::plus(x, ny));
    assert(poly::minus(px, py) =~= poly::plus(px, poly::scaled(-1, py)));
}

/// `a * (c * x) = c * (a * x)` for an integer `c`.
pub proof fn lemma_nega_mul_scale(a: Seq<int>, c: int, x: Seq<int>, q: int)
    requires
        q > 0,
    ensures
        nega_mul(a, poly_scale(c, x, q), q) == poly_scale(c, nega_mul(a, x, q), q),
{
    let px = poly::product(a, x, -1);
    lemma_nega_mul_is_product(a, x, q);
    lemma_nega_mul_is_product(a, poly_scale(c, x, q), q);
    lemma_reduced_canonical(poly::scaled(c, x), q);
    lemma_product_congruent(a, a, poly_scale(c, x, q), poly::scaled(c, x), -1, -1, q);
    poly::lemma_product_linear_right(a, x, x, c, -1);
    lemma_reduced_linear(px, px, c, q);
}

/// `(a + b) + (c + d) = (a + c) + (b + d)`, and the same for a difference.
pub proof fn lemma_poly_add_exchange(a: Seq<int>, b: Seq<int>, c: Seq<int>, d: Seq<int>, q: int)
    requires
        q > 0,
        a.len() == b.len(),
        a.len() == c.len(),
        a.len() == d.len(),
    ensures
        poly_add(poly_add(a, b, q), poly_add(c, d, q), q) == poly_add(
            poly_add(a, c, q),
            poly_add(b, d, q),
            q,
        ),
        poly_sub(poly_add(a, b, q), poly_add(c, d, q), q) == poly_add(
            poly_sub(a, c, q),
            poly_sub(b, d, q),
            q,
        ),
{
    let sums = (
        poly_add(poly_add(a, b, q), poly_add(c, d, q), q),
        poly_add(poly_add(a, c, q), poly_add(b, d, q), q),
    );
    let differences = (
        poly_sub(poly_add(a, b, q), poly_add(c, d, q), q),
        poly_add(poly_sub(a, c, q), poly_sub(b, d, q), q),
    );
    assert forall|i: int| 0 <= i < a.len() implies #[trigger] sums.0[i] == sums.1[i] by {
        lemma_add_mod_noop(a[i] + b[i], c[i] + d[i], q);
        lemma_add_mod_noop(a[i] + c[i], b[i] + d[i], q);
    }
    assert forall|i: int| 0 <= i < a.len() implies #[trigger] differences.0[i]
        == differences.1[i] by {
        lemma_sub_mod_noop(a[i] + b[i], c[i] + d[i], q);
        lemma_add_mod_noop(a[i] - c[i], b[i] - d[i], q);
    }
    assert(sums.0 =~= sums.1);
    assert(differences.0 =~= differences.1);
}

/// `(a + b) + c = a + (b + c)`.
pub proof fn lemma_poly_add_associative(a: Seq<int>, b: Seq<int>, c: Seq<int>, q: int)
    requires
        q > 0,
        a.len() == b.len(),
        a.len() == c.len(),
    ensures
        poly_add(poly_add(a, b, q), c, q) == poly_add(a, poly_add(b, c, q), q),
{
    let (x, y) = (poly_add(poly_add(a, b, q), c, q), poly_add(a, poly_add(b, c, q), q));
    assert forall|i: int| 0 <= i < a.len() implies #[trigger] x[i] == y[i] by {
        lemma_add_mod_noop_right(c[i], a[i] + b[i], q);
        lemma_add_mod_noop_right(a[i], b[i] + c[i], q);
    }
    assert(x =~= y);
}

/// `a + b = b + a`.
pub proof fn lemma_poly_add_commutative(a: Seq<int>, b: Seq<int>, q: int)
    requires
        a.len() == b.len(),
    ensures
        poly_add(a, b, q) == poly_add(b, a, q),
{
    assert(poly_add(a, b, q) =~= poly_add(b, a, q));
}

/// `a + 0 = a`.
pub proof fn lemma_poly_add_zeros(a: Seq<int>, q: int)
    requires
        q > 0,
        canonical(a, q),
    ensures
        poly_add(a, poly::zeros(a.len()), q) == a,
        poly_add(poly::zeros(a.len()), a, q) == a,
        poly_sub(a, poly::zeros(a.len()), q) == a,
{
    assert(poly::plus(a, poly::zeros(a.len())) =~= a);
    assert(poly::plus(poly::zeros(a.len()), a) =~= a);
    assert(poly::minus(a, poly::zeros(a.len())) =~= a);
    lemma_reduced_canonical(a, q);
}

/// `a * 0 = 0`.
pub proof fn lemma_nega_mul_zeros(a: Seq<int>, n: nat, q: int)
    requires
        q > 0,
    ensures
        nega_mul(a, poly::zeros(n), q) == poly::zeros(n),
{
    poly::lemma_product_zeros_right(a, n, -1);
    lemma_nega_mul_is_product(a, poly::zeros(n), q);
    assert(canonical(poly::zeros(n), q));
    lemma_reduced_canonical(poly::zeros(n), q);
}

/// `a * (-x) = -(a * x)`.
pub proof fn lemma_nega_mul_neg(a: Seq<int>, x: Seq<int>, q: int)
    requires
        q > 0,
    ensures
        nega_mul(a, poly_neg(x, q), q) == poly_neg(nega_mul(a, x, q), q),
{
    lemma_poly_neg_is_scale(x, q);
    lemma_poly_neg_is_scale(nega_mul(a, x, q), q);
    lemma_nega_mul_scale(a, -1, x, q);
}

/// `-a = (-1) * a`.
pub proof fn lemma_poly_neg_is_scale(a: Seq<int>, q: int)
    ensures
        poly_neg(a, q) == poly_scale(-1, a, q),
{
    assert forall|i: int| 0 <= i < a.len() implies #[trigger] poly_neg(a, q)[i] == poly_scale(
        -1,
        a,
        q,
    )[i] by {
        assert((-1) * a[i] == -a[i]) by (nonlinear_arith);
    }
    assert(poly_neg(a, q) =~= poly_scale(-1, a, q));
}

/// `a + (-b) = a - b`.
pub proof fn lemma_poly_add_neg(a: Seq<int>, b: Seq<int>, q: int)
    requires
        q > 0,
        a.len() == b.len(),
    ensures
        poly_add(a, poly_neg(b, q), q) == poly_sub(a, b, q),
{
    let (x, y) = (poly_add(a, poly_neg(b, q), q), poly_sub(a, b, q));
    assert forall|i: int| 0 <= i < a.len() implies #[trigger] x[i] == y[i] by {
        lemma_add_mod_noop_right(a[i], -b[i], q);
    }
    assert(x =~= y);
}

/// The operations that work coefficient by coefficient.
pub proof fn lemma_coefficients(a: Seq<int>, b: Seq<int>, c: int, q: int)
    requires
        a.len() == b.len(),
    ensures
        poly_add(a, b, q).len() == a.len(),
        poly_sub(a, b, q).len() == a.len(),
        poly_neg(a, q).len() == a.len(),
        poly_scale(c, a, q).len() == a.len(),
        pointwise(a, b, q).len() == a.len(),
        reduced(a, q).len() == a.len(),
        forall|i: int| 0 <= i < a.len() ==> #[trigger] poly_add(a, b, q)[i] == (a[i] + b[i]) % q,
        forall|i: int| 0 <= i < a.len() ==> #[trigger] poly_sub(a, b, q)[i] == (a[i] - b[i]) % q,
        forall|i: int| 0 <= i < a.len() ==> #[trigger] poly_neg(a, q)[i] == (-a[i]) % q,
        forall|i: int| 0 <= i < a.len() ==> #[trigger] poly_scale(c, a, q)[i] == (c * a[i]) % q,
        forall|i: int| 0 <= i < a.len() ==> #[trigger] pointwise(a, b, q)[i] == (a[i] * b[i]) % q,
        forall|i: int| 0 <= i < a.len() ==> #[trigger] reduced(a, q)[i] == a[i] % q,
{
}

/// A row is canonical exactly if each of its entries is a residue.
pub proof fn lemma_canonical_entries(a: Seq<int>, q: int)
    ensures
        canonical(a, q) <==> (forall|i: int| 0 <= i < a.len() ==> 0 <= #[trigger] a[i] && a[i] < q),
{
}

/// The product with a monomial moves the coefficients up by its exponent; those that pass the end
/// come back with the other sign. Another `n` in the exponent changes all signs.
pub proof fn lemma_monomial_coefficients(p: Seq<int>, e: int, k: int, q: int)
    requires
        q > 0,
        0 <= k < p.len(),
    ensures
        monomial_times(p, e, q).len() == p.len(),
        0 <= e <= k ==> monomial_times(p, e, q)[k] == p[k - e] % q,
        k < e <= p.len() ==> monomial_times(p, e, q)[k] == (-p[p.len() + k - e]) % q,
        monomial_times(p, e + p.len(), q)[k] == (-monomial_times(p, e, q)[k]) % q,
        monomial_times(p, e, q)[k] == (-monomial_times(p, e + p.len(), q)[k]) % q,
{
    let n = p.len() as int;
    let c = coeff_at(p, k - e);
    lemma_coeff_at(p, k - e);
    assert(k - (e + n) == k - e - n);
    lemma_sub_mod_noop_right(0, c, q);
    lemma_sub_mod_noop_right(0, -c, q);
}

proof fn lemma_convolution_push(a: Seq<int>, c: int, b: Seq<int>, k: int, j: int)
    requires
        j <= a.len(),
    ensures
        convolution(a.push(c), b, k, j) == convolution(a, b, k, j),
    decreases j,
{
    if j > 0 {
        lemma_convolution_push(a, c, b, k, j - 1);
    }
}

/// What a product is made of: no coefficients give zero, and one more coefficient `c`, that of
/// `X^j`, adds `c * X^j * b`.
pub proof fn lemma_product_terms(a: Seq<int>, c: int, b: Seq<int>, q: int)
    requires
        q > 0,
    ensures
        nega_mul(a, b, q).len() == b.len(),
        nega_mul(Seq::<int>::empty(), b, q) == poly::zeros(b.len()),
        nega_mul(a.push(c), b, q) == poly_add(
            nega_mul(a, b, q),
            poly_scale(c, monomial_times(b, a.len() as int, q), q),
            q,
        ),
{
    let (x, z) = (nega_mul(a.push(c), b, q), nega_mul(Seq::<int>::empty(), b, q));
    let m = monomial_times(b, a.len() as int, q);
    let y = poly_add(nega_mul(a, b, q), poly_scale(c, m, q), q);
    assert forall|k: int| 0 <= k < b.len() implies #[trigger] x[k] == y[k] && z[k] == 0 by {
        let j = a.len() as int;
        lemma_convolution_push(a, c, b, k, j);
        let (s, t) = (convolution(a, b, k, j), coeff_at(b, k - j));
        lemma_mul_mod_noop_right(c, t, q);
        lemma_add_mod_noop(s, c * t, q);
        lemma_small_mod(0, q as nat);
        assert(a.push(c)[j] == c);
        assert(x[k] == (s + c * t) % q);
        assert(y[k] == (s % q + (c * (t % q)) % q) % q);
    }
    assert(x =~= y);
    assert(z =~= poly::zeros(b.len()));
}

} // verus!
