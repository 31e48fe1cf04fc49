//! Residues that stand for numbers of small magnitude.
use crate::ring;
use vstd::arithmetic::div_mod::*;
use vstd::prelude::*;

verus! {

/// Some number congruent to `x` modulo `q` is at most `b` in magnitude.
pub open spec fn is_small(x: int, b: int, q: int) -> bool {
    x % q <= b || q - x % q <= b
}

/// A number congruent to `x` of the smallest magnitude.
pub open spec fn small(x: int, b: int, q: int) -> int {
    if x % q <= b {
        x % q
    } else {
        x % q - q
    }
}

/// Every coefficient is small.
pub open spec fn all_small(p: Seq<int>, b: int, q: int) -> bool {
    forall|i: int| 0 <= i < p.len() ==> is_small(#[trigger] p[i], b, q)
}

/// The number congruent to `x` that is taken for it is small.
pub proof fn lemma_small(x: int, b: int, q: int)
    requires
        q > 0,
        0 <= b,
        is_small(x, b, q),
    ensures
        small(x, b, q) % q == x % q,
        -b <= small(x, b, q) <= b,
{
    lemma_mod_bound(x, q);
    lemma_mod_twice(x, q);
    lemma_mod_multiples_vanish(-1, x % q, q);
}

/// A number of small magnitude, and those congruent to it, are small.
pub proof fn lemma_is_small(y: int, x: int, b: int, q: int)
    requires
        q > 0,
        -b <= y <= b,
        y % q == x % q,
    ensures
        is_small(x, b, q),
{
    lemma_fundamental_div_mod(y, q);
    lemma_mod_bound(y, q);
    let k = y / q;
    if y >= 0 {
        lemma_div_pos_is_pos(y, q);
        assert(q * k >= 0) by (nonlinear_arith)
            requires
                q > 0,
                k >= 0,
        ;
    } else {
        assert(k <= -1) by (nonlinear_arith)
            requires
                y == q * k + y % q,
                y < 0,
                y % q >= 0,
                q > 0,
        ;
        assert(q * k <= -q) by (nonlinear_arith)
            requires
                q > 0,
                k <= -1,
        ;
    }
}

/// Magnitudes add up.
pub proof fn lemma_small_sum(x: int, y: int, b: int, c: int, q: int)
    requires
        q > 0,
        0 <= b,
        0 <= c,
        is_small(x, b, q),
        is_small(y, c, q),
    ensures
        is_small(x + y, b + c, q),
        is_small((x + y) % q, b + c, q),
{
    lemma_small(x, b, q);
    lemma_small(y, c, q);
    let (u, v) = (small(x, b, q), small(y, c, q));
    lemma_add_mod_noop(u, v, q);
    lemma_add_mod_noop(x, y, q);
    lemma_is_small(u + v, x + y, b + c, q);
    lemma_mod_twice(x + y, q);
}

/// Magnitudes multiply.
pub proof fn lemma_bounded_product(u: int, v: int, b: int, c: int)
    requires
        -b <= u <= b,
        -c <= v <= c,
    ensures
        -(b * c) <= u * v <= b * c,
{
    assert(-(b * c) <= u * v <= b * c) by (nonlinear_arith)
        requires
            -b <= u <= b,
            -c <= v <= c,
    ;
}

/// Magnitudes multiply modulo `q` as well.
pub proof fn lemma_small_product(x: int, y: int, b: int, c: int, q: int)
    requires
        q > 0,
        0 <= b,
        0 <= c,
        is_small(x, b, q),
        is_small(y, c, q),
    ensures
        is_small(x * y, b * c, q),
{
    lemma_small(x, b, q);
    lemma_small(y, c, q);
    let (u, v) = (small(x, b, q), small(y, c, q));
    lemma_mul_mod_noop(u, v, q);
    lemma_mul_mod_noop(x, y, q);
    lemma_bounded_product(u, v, b, c);
    lemma_is_small(u * v, x * y, b * c, q);
}

/// The coefficients at all exponents are as small as those that a polynomial is given by.
pub proof fn lemma_small_coeff(p: Seq<int>, e: int, b: int, q: int)
    requires
        q > 0,
        0 <= b,
        p.len() > 0,
        all_small(p, b, q),
    ensures
        is_small(ring::coeff_at(p, e), b, q),
        is_small(ring::coeff_at(p, e) % q, b, q),
{
    let n = p.len() as int;
    let r = e % (2 * n);
    lemma_mod_bound(e, 2 * n);
    if r < n {
        assert(is_small(p[r], b, q));
    } else {
        let x = p[r - n];
        assert(is_small(x, b, q));
        lemma_small(x, b, q);
        let u = small(x, b, q);
        lemma_sub_mod_noop(0, u, q);
        lemma_sub_mod_noop(0, x, q);
        lemma_is_small(-u, -x, b, q);
    }
    lemma_mod_twice(ring::coeff_at(p, e), q);
}

/// The terms of a product of polynomials add up.
pub proof fn lemma_small_convolution(
    a: Seq<int>,
    p: Seq<int>,
    k: int,
    j: int,
    b: int,
    c: int,
    q: int,
)
    requires
        q > 0,
        0 <= b,
        0 <= c,
        0 <= j <= a.len(),
        p.len() > 0,
        all_small(a, b, q),
        all_small(p, c, q),
    ensures
        is_small(ring::convolution(a, p, k, j), j * (b * c), q),
    decreases j,
{
    if j > 0 {
        lemma_small_convolution(a, p, k, j - 1, b, c, q);
        lemma_small_coeff(p, k - (j - 1), c, q);
        let (x, y) = (a[j - 1], ring::coeff_at(p, k - (j - 1)));
        assert(is_small(x, b, q));
        lemma_small_product(x, y, b, c, q);
        assert(0 <= b * c) by (nonlinear_arith)
            requires
                0 <= b,
                0 <= c,
        ;
        assert((j - 1) * (b * c) >= 0) by (nonlinear_arith)
            requires
                j >= 1,
                0 <= b * c,
        ;
        assert((j - 1) * (b * c) + b * c == j * (b * c)) by (nonlinear_arith);
        lemma_small_sum(
            ring::convolution(a, p, k, j - 1),
            x * y,
            (j - 1) * (b * c),
            b * c,
            q,
        );
    } else {
        lemma_small_mod(0, q as nat);
        assert(0 * (b * c) == 0) by (nonlinear_arith);
    }
}

/// A product of polynomials with `n` coefficients of magnitudes up to `b` and `c` has
/// coefficients of magnitudes up to `n * b * c`.
pub proof fn lemma_small_nega_mul(a: Seq<int>, p: Seq<int>, b: int, c: int, q: int)
    requires
        q > 0,
        0 <= b,
        0 <= c,
        all_small(a, b, q),
        all_small(p, c, q),
    ensures
        all_small(ring::nega_mul(a, p, q), a.len() * (b * c), q),
{
    let r = ring::nega_mul(a, p, q);
    assert forall|k: int| 0 <= k < r.len() implies is_small(
        #[trigger] r[k],
        a.len() * (b * c),
        q,
    ) by {
        lemma_small_convolution(a, p, k, a.len() as int, b, c, q);
        lemma_mod_twice(ring::convolution(a, p, k, a.len() as int), q);
    }
}

/// Magnitudes of coefficients add up.
pub proof fn lemma_small_poly_add(a: Seq<int>, p: Seq<int>, b: int, c: int, q: int)
    requires
        q > 0,
        0 <= b,
        0 <= c,
        a.len() == p.len(),
        all_small(a, b, q),
        all_small(p, c, q),
    ensures
        all_small(ring::poly_add(a, p, q), b + c, q),
{
    let r = ring::poly_add(a, p, q);
    assert forall|k: int| 0 <= k < r.len() implies is_small(#[trigger] r[k], b + c, q) by {
        assert(is_small(a[k], b, q) && is_small(p[k], c, q));
        lemma_small_sum(a[k], p[k], b, c, q);
    }
}

/// A larger bound holds as well.
pub proof fn lemma_larger_bound(p: Seq<int>, b: int, c: int, q: int)
    requires
        b <= c,
        all_small(p, b, q),
    ensures
        all_small(p, c, q),
{
    assert forall|i: int| 0 <= i < p.len() implies is_small(#[trigger] p[i], c, q) by {
        assert(is_small(p[i], b, q));
    }
}

/// The numbers of the smallest magnitude that are congruent to the coefficients.
pub open spec fn smallest(p: Seq<int>, b: int, q: int) -> Seq<int> {
    Seq::new(p.len(), |i: int| small(p[i], b, q))
}

/// In a sum, the numbers of the smallest magnitude can stand for the coefficients.
pub proof fn lemma_smallest(a: Seq<int>, p: Seq<int>, b: int, q: int)
    requires
        q > 0,
        0 <= b,
        a.len() == p.len(),
        all_small(p, b, q),
    ensures
        ring::poly_add(a, smallest(p, b, q), q) == ring::poly_add(a, p, q),
        forall|i: int|
            0 <= i < p.len() ==> -b <= #[trigger] smallest(p, b, q)[i] <= b && smallest(
                p,
                b,
                q,
            )[i] % q == p[i] % q,
{
    let r = smallest(p, b, q);
    assert forall|i: int| 0 <= i < p.len() implies -b <= #[trigger] r[i] <= b && r[i] % q == p[i]
        % q by {
        assert(is_small(p[i], b, q));
        lemma_small(p[i], b, q);
    }
    assert forall|i: int| 0 <= i < p.len() implies #[trigger] ring::poly_add(a, r, q)[i]
        == ring::poly_add(a, p, q)[i] by {
        assert(r[i] % q == p[i] % q);
        lemma_add_mod_noop(a[i], r[i], q);
        lemma_add_mod_noop(a[i], p[i], q);
    }
    assert(ring::poly_add(a, r, q) =~= ring::poly_add(a, p, q));
}

/// How far congruent numbers are apart.
pub proof fn lemma_congruent(y: int, x: int, q: int) -> (k: int)
    requires
        q > 0,
        y % q == x % q,
    ensures
        y == x + q * k,
{
    lemma_fundamental_div_mod(y, q);
    lemma_fundamental_div_mod(x, q);
    let (a, b) = (y / q, x / q);
    assert(q * (a - b) == q * a - q * b) by (nonlinear_arith);
    a - b
}

/// Magnitudes of a weighted sum of two numbers.
pub proof fn lemma_close_bound(a: int, e1: int, b: int, e2: int, big: int, m: int)
    requires
        big > 0,
        m > 0,
        -e1 <= a <= e1,
        -e2 <= b <= e2,
    ensures
        -(big * e1 + m * e2) <= big * a + m * b <= big * e1 + m * e2,
{
    assert(-(big * e1) <= big * a <= big * e1) by (nonlinear_arith)
        requires
            big > 0,
            -e1 <= a <= e1,
    ;
    assert(-(m * e2) <= m * b <= m * e2) by (nonlinear_arith)
        requires
            m > 0,
            -e2 <= b <= e2,
    ;
}

} // verus!
