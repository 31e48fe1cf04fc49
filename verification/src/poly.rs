//! Polynomials with integer coefficients in the quotient ring `Z[X]/(X^m - r)`.
//!
//! A polynomial is the sequence of its coefficients, lowest degree first. Every equality here
//! is an equality of integers; reduction modulo `q` is added in [`crate::ring`].
use vstd::prelude::*;

verus! {

/// The zero polynomial with `m` coefficients.
pub open spec fn zeros(m: nat) -> Seq<int> {
    Seq::new(m, |i: int| 0int)
}

/// The constant polynomial one with `m` coefficients.
pub open spec fn one(m: nat) -> Seq<int> {
    Seq::new(
        m,
        |i: int|
            if i == 0 {
                1int
            } else {
                0int
            },
    )
}

/// Sum, coefficient by coefficient.
pub open spec fn plus(a: Seq<int>, b: Seq<int>) -> Seq<int> {
    Seq::new(a.len(), |i: int| a[i] + b[i])
}

/// Difference, coefficient by coefficient.
pub open spec fn minus(a: Seq<int>, b: Seq<int>) -> Seq<int> {
    Seq::new(a.len(), |i: int| a[i] - b[i])
}

/// Product with the integer `c`.
pub open spec fn scaled(c: int, a: Seq<int>) -> Seq<int> {
    Seq::new(a.len(), |i: int| c * a[i])
}

/// Product with `X` in `Z[X]/(X^m - r)`, where `m` is the length of `a`.
pub open spec fn shifted(a: Seq<int>, r: int) -> Seq<int> {
    Seq::new(
        a.len(),
        |i: int|
            if i == 0 {
                r * a[a.len() - 1]
            } else {
                a[i - 1]
            },
    )
}

/// Product of `a`, of any length, with `b` in `Z[X]/(X^m - r)`, where `m` is the length of `b`,
/// by Horner's rule.
pub open spec fn product(a: Seq<int>, b: Seq<int>, r: int) -> Seq<int>
    decreases a.len(),
{
    if a.len() == 0 {
        zeros(b.len())
    } else {
        plus(scaled(a[0], b), shifted(product(a.skip(1), b, r), r))
    }
}

/// `X^j` times `a` in `Z[X]/(X^m - r)`.
pub open spec fn shifted_by(a: Seq<int>, r: int, j: nat) -> Seq<int>
    decreases j,
{
    if j == 0 {
        a
    } else {
        shifted(shifted_by(a, r, (j - 1) as nat), r)
    }
}

pub proof fn lemma_product_len(a: Seq<int>, b: Seq<int>, r: int)
    ensures
        product(a, b, r).len() == b.len(),
    decreases a.len(),
{
    if a.len() > 0 {
        lemma_product_len(a.skip(1), b, r);
    }
}

pub proof fn lemma_shifted_linear(x: Seq<int>, y: Seq<int>, c: int, r: int)
    requires
        x.len() == y.len(),
    ensures
        shifted(plus(x, y), r) == plus(shifted(x, r), shifted(y, r)),
        shifted(scaled(c, x), r) == scaled(c, shifted(x, r)),
{
    if x.len() > 0 {
        let m = x.len() as int;
        assert(r * (x[m - 1] + y[m - 1]) == r * x[m - 1] + r * y[m - 1]) by (nonlinear_arith);
        assert(r * (c * x[m - 1]) == c * (r * x[m - 1])) by (nonlinear_arith);
    }
    assert(shifted(plus(x, y), r) =~= plus(shifted(x, r), shifted(y, r)));
    assert(shifted(scaled(c, x), r) =~= scaled(c, shifted(x, r)));
}

pub proof fn lemma_scaled_plus(c: int, x: Seq<int>, y: Seq<int>)
    requires
        x.len() == y.len(),
    ensures
        scaled(c, plus(x, y)) == plus(scaled(c, x), scaled(c, y)),
{
    assert forall|i: int| 0 <= i < x.len() implies c * (x[i] + y[i]) == c * x[i] + c * y[i] by {
        vstd::arithmetic::mul::lemma_mul_is_distributive_add(c, x[i], y[i]);
    }
    assert(scaled(c, plus(x, y)) =~= plus(scaled(c, x), scaled(c, y)));
}

pub proof fn lemma_scaled_scaled(c: int, d: int, x: Seq<int>)
    ensures
        scaled(c, scaled(d, x)) == scaled(c * d, x),
        scaled(c, scaled(d, x)) == scaled(d, scaled(c, x)),
{
    assert forall|i: int| 0 <= i < x.len() implies c * (d * x[i]) == (c * d) * x[i] && c * (d
        * x[i]) == d * (c * x[i]) by {
        assert(c * (d * x[i]) == (c * d) * x[i]) by (nonlinear_arith);
        assert(c * (d * x[i]) == d * (c * x[i])) by (nonlinear_arith);
    }
    assert(scaled(c, scaled(d, x)) =~= scaled(c * d, x));
    assert(scaled(c, scaled(d, x)) =~= scaled(d, scaled(c, x)));
}

pub proof fn lemma_plus_exchange(a: Seq<int>, b: Seq<int>, c: Seq<int>, d: Seq<int>)
    requires
        a.len() == b.len() == c.len() == d.len(),
    ensures
        plus(plus(a, b), plus(c, d)) == plus(plus(a, c), plus(b, d)),
{
    assert(plus(plus(a, b), plus(c, d)) =~= plus(plus(a, c), plus(b, d)));
}

/// The product is linear in its second factor.
pub proof fn lemma_product_linear_right(a: Seq<int>, x: Seq<int>, y: Seq<int>, c: int, r: int)
    requires
        x.len() == y.len(),
    ensures
        product(a, plus(x, y), r) == plus(product(a, x, r), product(a, y, r)),
        product(a, scaled(c, x), r) == scaled(c, product(a, x, r)),
    decreases a.len(),
{
    lemma_product_len(a, x, r);
    lemma_product_len(a, y, r);
    if a.len() == 0 {
        assert(zeros(x.len()) =~= plus(zeros(x.len()), zeros(x.len())));
        assert(zeros(x.len()) =~= scaled(c, zeros(x.len())));
    } else {
        let t = a.skip(1);
        lemma_product_linear_right(t, x, y, c, r);
        let (px, py) = (product(t, x, r), product(t, y, r));
        lemma_product_len(t, x, r);
        lemma_product_len(t, y, r);
        lemma_shifted_linear(px, py, c, r);
        lemma_scaled_plus(a[0], x, y);
        lemma_plus_exchange(scaled(a[0], x), scaled(a[0], y), shifted(px, r), shifted(py, r));
        lemma_scaled_plus(c, scaled(a[0], x), shifted(px, r));
        lemma_scaled_scaled(a[0], c, x);
    }
}

pub proof fn lemma_shifted_zeros(m: nat, r: int)
    ensures
        shifted(zeros(m), r) == zeros(m),
{
    assert(r * 0 == 0) by (nonlinear_arith);
    assert(shifted(zeros(m), r) =~= zeros(m));
}

/// `a * (X * b) = X * (a * b)`.
pub proof fn lemma_product_shifted_right(a: Seq<int>, b: Seq<int>, r: int)
    ensures
        product(a, shifted(b, r), r) == shifted(product(a, b, r), r),
    decreases a.len(),
{
    lemma_product_len(a, b, r);
    if a.len() == 0 {
        lemma_shifted_zeros(b.len(), r);
    } else {
        let t = a.skip(1);
        lemma_product_shifted_right(t, b, r);
        lemma_product_len(t, b, r);
        let p = product(t, b, r);
        lemma_shifted_linear(scaled(a[0], b), shifted(p, r), 0, r);
        lemma_shifted_linear(b, b, a[0], r);
    }
}

/// The product is linear in its first factor.
pub proof fn lemma_product_linear_left(x: Seq<int>, y: Seq<int>, c: int, b: Seq<int>, r: int)
    requires
        x.len() == y.len(),
    ensures
        product(plus(x, y), b, r) == plus(product(x, b, r), product(y, b, r)),
        product(scaled(c, x), b, r) == scaled(c, product(x, b, r)),
    decreases x.len(),
{
    if x.len() == 0 {
        assert(zeros(b.len()) =~= plus(zeros(b.len()), zeros(b.len())));
        assert(zeros(b.len()) =~= scaled(c, zeros(b.len())));
    } else {
        let (xt, yt) = (x.skip(1), y.skip(1));
        lemma_product_linear_left(xt, yt, c, b, r);
        assert(plus(x, y).skip(1) =~= plus(xt, yt));
        assert(scaled(c, x).skip(1) =~= scaled(c, xt));
        let (px, py) = (product(xt, b, r), product(yt, b, r));
        lemma_product_len(xt, b, r);
        lemma_product_len(yt, b, r);
        lemma_shifted_linear(px, py, c, r);
        assert forall|i: int| 0 <= i < b.len() implies (x[0] + y[0]) * b[i] == x[0] * b[i] + y[0]
            * b[i] by {
            vstd::arithmetic::mul::lemma_mul_is_distributive_add_other_way(b[i], x[0], y[0]);
        }
        assert(scaled(x[0] + y[0], b) =~= plus(scaled(x[0], b), scaled(y[0], b)));
        lemma_plus_exchange(scaled(x[0], b), scaled(y[0], b), shifted(px, r), shifted(py, r));
        lemma_scaled_plus(c, scaled(x[0], b), shifted(px, r));
        lemma_scaled_scaled(c, x[0], b);
    }
}

pub proof fn lemma_shifted_by_len(b: Seq<int>, r: int, j: nat)
    ensures
        shifted_by(b, r, j).len() == b.len(),
    decreases j,
{
    if j > 0 {
        lemma_shifted_by_len(b, r, (j - 1) as nat);
    }
}

/// The coefficients of `X^j * b` for `j` up to the degree of the ring.
pub proof fn lemma_shifted_by_index(b: Seq<int>, r: int, j: nat)
    requires
        j <= b.len(),
    ensures
        shifted_by(b, r, j).len() == b.len(),
        forall|k: int|
            0 <= k < b.len() ==> #[trigger] shifted_by(b, r, j)[k] == if k >= j {
                b[k - j]
            } else {
                r * b[b.len() + k - j]
            },
    decreases j,
{
    if j > 0 {
        lemma_shifted_by_index(b, r, (j - 1) as nat);
        let p = shifted_by(b, r, (j - 1) as nat);
        assert forall|k: int| 0 <= k < b.len() implies #[trigger] shifted_by(b, r, j)[k] == if k
            >= j {
            b[k - j]
        } else {
            r * b[b.len() + k - j]
        } by {
            if k == 0 {
                assert(p[b.len() - 1] == b[b.len() - j]);
            } else {
                assert(shifted_by(b, r, j)[k] == p[k - 1]);
            }
        }
    }
}

/// `X^m = r`.
pub proof fn lemma_shifted_by_degree(b: Seq<int>, r: int)
    ensures
        shifted_by(b, r, b.len()) == scaled(r, b),
{
    lemma_shifted_by_index(b, r, b.len());
    assert(shifted_by(b, r, b.len()) =~= scaled(r, b));
}

/// Horner's rule split in two: `(a + X^k * c) * b = a * b + X^k * (c * b)`, where `a` has `k`
/// coefficients.
pub proof fn lemma_product_append(a: Seq<int>, c: Seq<int>, b: Seq<int>, r: int)
    ensures
        product(a + c, b, r) == plus(product(a, b, r), shifted_by(product(c, b, r), r, a.len())),
    decreases a.len(),
{
    lemma_product_len(c, b, r);
    if a.len() == 0 {
        assert(a + c =~= c);
        assert(product(c, b, r) =~= plus(zeros(b.len()), product(c, b, r)));
    } else {
        let t = a.skip(1);
        assert((a + c).skip(1) =~= t + c);
        lemma_product_append(t, c, b, r);
        lemma_product_len(t, b, r);
        let pc = product(c, b, r);
        let sc = shifted_by(pc, r, t.len());
        lemma_shifted_by_len(pc, r, t.len());
        lemma_shifted_linear(product(t, b, r), sc, 0, r);
        let s = shifted(product(t, b, r), r);
        assert(plus(scaled(a[0], b), plus(s, shifted(sc, r))) =~= plus(
            plus(scaled(a[0], b), s),
            shifted(sc, r),
        ));
        assert((a + c)[0] == a[0]);
    }
}

/// `(X * a) * b = X * (a * b)`.
pub proof fn lemma_product_shifted_left(a: Seq<int>, b: Seq<int>, r: int)
    requires
        a.len() == b.len(),
    ensures
        product(shifted(a, r), b, r) == shifted(product(a, b, r), r),
{
    let m = a.len() as int;
    lemma_product_len(a, b, r);
    if m == 0 {
        assert(shifted(a, r) =~= a);
        assert(shifted(product(a, b, r), r) =~= product(a, b, r));
    } else {
        let head = a.take(m - 1);
        let last = seq![a[m - 1]];
        assert(a =~= head + last);
        lemma_product_append(head, last, b, r);
        // The last coefficient alone contributes a[m - 1] * b.
        assert(last.skip(1) =~= Seq::<int>::empty());
        assert(product(last.skip(1), b, r) == zeros(b.len()));
        assert(product(last, b, r) =~= scaled(a[m - 1], b)) by {
            lemma_shifted_zeros(b.len(), r);
        }
        lemma_product_len(head, b, r);
        let sb = shifted_by(scaled(a[m - 1], b), r, head.len());
        lemma_shifted_by_len(scaled(a[m - 1], b), r, head.len());
        lemma_shifted_linear(product(head, b, r), sb, 0, r);
        // X^m * (a[m - 1] * b) = r * a[m - 1] * b.
        assert(shifted(sb, r) == shifted_by(scaled(a[m - 1], b), r, b.len()));
        lemma_shifted_by_degree(scaled(a[m - 1], b), r);
        lemma_scaled_scaled(r, a[m - 1], b);
        assert(shifted(a, r).skip(1) =~= head);
        assert(shifted(a, r)[0] == r * a[m - 1]);
        let x = scaled(r * a[m - 1], b);
        let y = shifted(product(head, b, r), r);
        assert(plus(x, y) =~= plus(y, x));
    }
}

/// The product is associative.
pub proof fn lemma_product_associative(a: Seq<int>, b: Seq<int>, c: Seq<int>, r: int)
    requires
        b.len() == c.len(),
    ensures
        product(product(a, b, r), c, r) == product(a, product(b, c, r), r),
    decreases a.len(),
{
    lemma_product_len(b, c, r);
    if a.len() == 0 {
        lemma_product_zeros_left(b.len(), c, r);
    } else {
        let t = a.skip(1);
        lemma_product_associative(t, b, c, r);
        lemma_product_len(t, b, r);
        let p = product(t, b, r);
        lemma_product_linear_left(scaled(a[0], b), shifted(p, r), 0, c, r);
        lemma_product_linear_left(b, b, a[0], c, r);
        lemma_product_shifted_left(p, c, r);
    }
}

pub proof fn lemma_product_zeros_left(n: nat, b: Seq<int>, r: int)
    ensures
        product(zeros(n), b, r) == zeros(b.len()),
    decreases n,
{
    if n > 0 {
        lemma_product_zeros_left((n - 1) as nat, b, r);
        assert(zeros(n).skip(1) =~= zeros((n - 1) as nat));
        lemma_shifted_zeros(b.len(), r);
        assert(product(zeros(n), b, r) =~= zeros(b.len()));
    }
}

pub proof fn lemma_product_exchange(a: Seq<int>, b: Seq<int>, x: Seq<int>, r: int)
    ensures
        product(a, product(b, x, r), r) == product(b, product(a, x, r), r),
    decreases b.len(),
{
    lemma_product_len(a, x, r);
    if b.len() == 0 {
        lemma_product_zeros_right(a, x.len(), r);
    } else {
        let t = b.skip(1);
        lemma_product_exchange(a, t, x, r);
        lemma_product_len(t, x, r);
        let p = product(t, x, r);
        lemma_product_linear_right(a, scaled(b[0], x), shifted(p, r), 0, r);
        lemma_product_linear_right(a, x, x, b[0], r);
        lemma_product_shifted_right(a, p, r);
    }
}

pub proof fn lemma_product_zeros_right(a: Seq<int>, m: nat, r: int)
    ensures
        product(a, zeros(m), r) == zeros(m),
    decreases a.len(),
{
    if a.len() > 0 {
        lemma_product_zeros_right(a.skip(1), m, r);
        lemma_shifted_zeros(m, r);
        assert(a[0] * 0 == 0) by (nonlinear_arith);
        assert(product(a, zeros(m), r) =~= zeros(m));
    }
}

pub proof fn lemma_product_one_right(a: Seq<int>, m: nat, r: int)
    requires
        a.len() <= m,
        0 < m,
    ensures
        product(a, one(m), r) == a + zeros((m - a.len()) as nat),
    decreases a.len(),
{
    if a.len() == 0 {
        assert(zeros(m) =~= a + zeros(m));
    } else {
        lemma_product_one_right(a.skip(1), m, r);
        let p = product(a.skip(1), one(m), r);
        assert(r * p[m - 1] == 0) by (nonlinear_arith)
            requires
                p[m - 1] == 0,
        ;
        assert(a[0] * 1 == a[0] && a[0] * 0 == 0) by (nonlinear_arith);
        assert(product(a, one(m), r) =~= a + zeros((m - a.len()) as nat));
    }
}

/// The product is commutative.
pub proof fn lemma_product_commutative(a: Seq<int>, b: Seq<int>, r: int)
    requires
        a.len() == b.len(),
    ensures
        product(a, b, r) == product(b, a, r),
{
    let m = a.len();
    if m == 0 {
        assert(a =~= b);
    } else {
        lemma_product_exchange(a, b, one(m), r);
        lemma_product_one_right(a, m, r);
        lemma_product_one_right(b, m, r);
        assert(a + zeros(0) =~= a);
        assert(b + zeros(0) =~= b);
    }
}

/// The image of `a` in `Z[X]/(X^h - s)`, where `a` has `2h` coefficients: `X^h` becomes `s`.
pub open spec fn folded(a: Seq<int>, s: int) -> Seq<int> {
    let h = a.len() as int / 2;
    Seq::new(h as nat, |k: int| a[k] + s * a[k + h])
}

pub proof fn lemma_folded_linear(x: Seq<int>, y: Seq<int>, c: int, s: int)
    requires
        x.len() == y.len(),
    ensures
        folded(plus(x, y), s) == plus(folded(x, s), folded(y, s)),
        folded(scaled(c, x), s) == scaled(c, folded(x, s)),
{
    let h = x.len() as int / 2;
    let fxy = folded(plus(x, y), s);
    let fcx = folded(scaled(c, x), s);
    assert forall|k: int| 0 <= k < h implies #[trigger] fxy[k] == folded(x, s)[k] + folded(
        y,
        s,
    )[k] by {
        let (v, w) = (x[k + h], y[k + h]);
        assert(s * (v + w) == s * v + s * w) by (nonlinear_arith);
    }
    assert forall|k: int| 0 <= k < h implies #[trigger] fcx[k] == c * folded(x, s)[k] by {
        let (u, v) = (x[k], x[k + h]);
        assert(c * u + s * (c * v) == c * (u + s * v)) by (nonlinear_arith);
    }
    assert(fxy =~= plus(folded(x, s), folded(y, s)));
    assert(fcx =~= scaled(c, folded(x, s)));
}

/// `X` times a polynomial folds to `X` times the folded polynomial.
pub proof fn lemma_folded_shifted(b: Seq<int>, s: int)
    requires
        b.len() % 2 == 0,
    ensures
        folded(shifted(b, s * s), s) == shifted(folded(b, s), s),
{
    let m = b.len() as int;
    let h = m / 2;
    if m > 0 {
        let (u, v) = (b[m - 1], b[h - 1]);
        assert((s * s) * u + s * v == s * (v + s * u)) by (nonlinear_arith);
    }
    assert(folded(shifted(b, s * s), s) =~= shifted(folded(b, s), s));
}

proof fn lemma_folded_product_right(a: Seq<int>, b: Seq<int>, s: int)
    requires
        b.len() % 2 == 0,
    ensures
        folded(product(a, b, s * s), s) == product(a, folded(b, s), s),
    decreases a.len(),
{
    if a.len() == 0 {
        assert(s * 0 == 0) by (nonlinear_arith);
        assert(folded(zeros(b.len()), s) =~= zeros((b.len() / 2) as nat));
    } else {
        let t = a.skip(1);
        lemma_folded_product_right(t, b, s);
        let p = product(t, b, s * s);
        lemma_product_len(t, b, s * s);
        lemma_folded_linear(scaled(a[0], b), shifted(p, s * s), 0, s);
        lemma_folded_linear(b, b, a[0], s);
        lemma_folded_shifted(p, s);
    }
}

proof fn lemma_folded_product_left(a: Seq<int>, y: Seq<int>, s: int)
    requires
        a.len() == 2 * y.len(),
    ensures
        product(a, y, s) == product(folded(a, s), y, s),
{
    let h = y.len() as int;
    let (lo, hi) = (a.take(h), a.skip(h));
    assert(a =~= lo + hi);
    lemma_product_append(lo, hi, y, s);
    lemma_product_len(hi, y, s);
    lemma_shifted_by_degree(product(hi, y, s), s);
    lemma_product_linear_left(hi, hi, s, y, s);
    lemma_product_linear_left(lo, scaled(s, hi), 0, y, s);
    assert(folded(a, s) =~= plus(lo, scaled(s, hi)));
}

/// Folding is multiplicative: it is the ring homomorphism from `Z[X]/(X^(2h) - s^2)` to
/// `Z[X]/(X^h - s)`.
pub proof fn lemma_folded_product(a: Seq<int>, b: Seq<int>, s: int)
    requires
        a.len() == b.len(),
        b.len() % 2 == 0,
    ensures
        folded(product(a, b, s * s), s) == product(folded(a, s), folded(b, s), s),
{
    lemma_folded_product_right(a, b, s);
    lemma_folded_product_left(a, folded(b, s), s);
}

/// The polynomials zero and one.
pub proof fn lemma_constants(m: nat)
    ensures
        zeros(m).len() == m,
        one(m).len() == m,
        forall|i: int| 0 <= i < m ==> #[trigger] zeros(m)[i] == 0,
        forall|i: int| 0 < i < m ==> #[trigger] one(m)[i] == 0,
        m > 0 ==> one(m)[0] == 1,
{
}

} // verus!
