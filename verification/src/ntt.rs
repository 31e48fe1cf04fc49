//! The number-theoretic transform: evaluation of polynomials of `Z_q[X]/(X^n + 1)` so that
//! products become entry-by-entry products.
use crate::backend::{
    self, ArithmeticOps, CiphertextModulus, Element, ModularOpsU64, Modulus, Residues,
};
use crate::poly;
use crate::ring;
use vstd::arithmetic::div_mod::*;
use vstd::arithmetic::mul::*;
use vstd::arithmetic::power::*;
use vstd::arithmetic::power2::*;
use vstd::prelude::*;

verus! {

/// A transform between the coefficients and the values of polynomials.
pub trait Ntt {
    type Element: Element;

    spec fn q(&self) -> int;

    /// The number of coefficients.
    spec fn n(&self) -> nat;

    spec fn wf(&self) -> bool;

    /// The values of the polynomial `p`.
    spec fn evals(&self, p: Seq<int>) -> Seq<int>;

    /// The coefficients of the polynomial with the values `e`.
    spec fn coeffs(&self, e: Seq<int>) -> Seq<int>;

    proof fn lemma_positive(&self)
        requires
            self.wf(),
        ensures
            self.q() > 0,
            self.n() > 0,
    ;

    /// Both directions keep the length and give residues.
    proof fn lemma_canonical(&self, p: Seq<int>)
        requires
            self.wf(),
            p.len() == self.n(),
            ring::canonical(p, self.q()),
        ensures
            self.evals(p).len() == self.n(),
            ring::canonical(self.evals(p), self.q()),
            self.coeffs(p).len() == self.n(),
            ring::canonical(self.coeffs(p), self.q()),
    ;

    /// The two directions undo each other.
    proof fn lemma_inverse(&self, p: Seq<int>)
        requires
            self.wf(),
            p.len() == self.n(),
            ring::canonical(p, self.q()),
        ensures
            self.coeffs(self.evals(p)) == p,
            self.evals(self.coeffs(p)) == p,
    ;

    /// The values of a sum are the sums of the values.
    proof fn lemma_sum(&self, a: Seq<int>, b: Seq<int>)
        requires
            self.wf(),
            a.len() == self.n(),
            b.len() == self.n(),
            ring::canonical(a, self.q()),
            ring::canonical(b, self.q()),
        ensures
            self.evals(ring::poly_add(a, b, self.q())) == ring::poly_add(
                self.evals(a),
                self.evals(b),
                self.q(),
            ),
    ;

    /// The values of a product are the products of the values.
    proof fn lemma_product(&self, a: Seq<int>, b: Seq<int>)
        requires
            self.wf(),
            a.len() == self.n(),
            b.len() == self.n(),
            ring::canonical(a, self.q()),
            ring::canonical(b, self.q()),
        ensures
            self.coeffs(ring::pointwise(self.evals(a), self.evals(b), self.q())) == ring::nega_mul(
                a,
                b,
                self.q(),
            ),
    ;

    fn forward(&self, v: &mut [Self::Element])
        requires
            self.wf(),
            old(v).len() == self.n(),
            ring::canonical(backend::vals(old(v)@), self.q()),
        ensures
            backend::vals(final(v)@) == self.evals(backend::vals(old(v)@)),
    ;

    fn backward(&self, v: &mut [Self::Element])
        requires
            self.wf(),
            old(v).len() == self.n(),
            ring::canonical(backend::vals(old(v)@), self.q()),
        ensures
            backend::vals(final(v)@) == self.coeffs(backend::vals(old(v)@)),
    ;
}

/// Transforms that are built from a modulus and a ring size.
pub trait NttInit<M: Modulus>: Ntt + Sized {
    /// Whether there is a transform for the modulus `q` and `n` coefficients.
    spec fn supports(q: int, n: nat) -> bool;

    /// The values that the transform for `q` and `n` gives.
    spec fn evals_for(q: int, n: nat, p: Seq<int>) -> Seq<int>;

    /// The coefficients that the transform for `q` and `n` gives.
    spec fn coeffs_for(q: int, n: nat, e: Seq<int>) -> Seq<int>;

    fn new(q: &M, n: usize) -> (r: Self)
        requires
            q.wf(),
            Self::supports(q.q(), n as nat),
        ensures
            r.wf(),
            r.q() == q.q(),
            r.n() == n,
            forall|p: Seq<int>| #[trigger] r.evals(p) == Self::evals_for(q.q(), n as nat, p),
            forall|e: Seq<int>| #[trigger] r.coeffs(e) == Self::coeffs_for(q.q(), n as nat, e),
    ;
}

/// `m` is a power of two.
pub open spec fn is_pow2(m: nat) -> bool
    decreases m,
{
    m == 1 || (m > 1 && m % 2 == 0 && is_pow2(m / 2))
}

/// The square, the negative and the inverse of `pw[i]` stand where the butterflies look for them.
pub open spec fn root_at(pw: Seq<int>, n: nat, q: int, i: int) -> bool {
    &&& (pw[i] * pw[i]) % q == pw[2 * i] % q
    &&& pw[i + n] % q == (-pw[i]) % q
    &&& i > 0 ==> (pw[i] * pw[2 * n - i]) % q == 1int % q
}

/// `pw` lists `2n` powers of a root of `X^n + 1`.
pub open spec fn roots_ok(pw: Seq<int>, n: nat, q: int) -> bool {
    &&& q > 0
    &&& pw.len() == 2 * n
    &&& ring::canonical(pw, q)
    &&& pw[n as int] % q == (-1int) % q
    &&& forall|i: int| 0 <= i < n ==> #[trigger] root_at(pw, n, q, i)
}

/// The values of `a` in `Z_q[X]/(X^m - pw[e])`, where `m` is the length of `a`: the ring splits
/// into `X^(m/2) - pw[e/2]` and `X^(m/2) + pw[e/2]`.
pub open spec fn split_evals(pw: Seq<int>, n: nat, a: Seq<int>, e: int, q: int) -> Seq<int>
    decreases a.len(),
{
    if a.len() <= 1 {
        a
    } else {
        let s = pw[e / 2];
        split_evals(pw, n, ring::reduced(poly::folded(a, s), q), e / 2, q) + split_evals(
            pw,
            n,
            ring::reduced(poly::folded(a, -s), q),
            e / 2 + n,
            q,
        )
    }
}

/// The first half of the polynomial that folds to `u` under `s` and to `v` under `-s`.
pub open spec fn merged_low(u: Seq<int>, v: Seq<int>, half: int, q: int) -> Seq<int> {
    Seq::new(u.len(), |i: int| ((u[i] + v[i]) * half) % q)
}

/// The second half of that polynomial; `si` is the inverse of `s`.
pub open spec fn merged_high(u: Seq<int>, v: Seq<int>, half: int, si: int, q: int) -> Seq<int> {
    Seq::new(u.len(), |i: int| ((((u[i] - v[i]) * half) % q) * si) % q)
}

/// The polynomial of `Z_q[X]/(X^m - pw[e])` with the values `y`.
pub open spec fn merge_coeffs(
    pw: Seq<int>,
    n: nat,
    half: int,
    y: Seq<int>,
    e: int,
    q: int,
) -> Seq<int>
    decreases y.len(),
{
    if y.len() <= 1 {
        y
    } else {
        let h = y.len() as int / 2;
        let u = merge_coeffs(pw, n, half, y.take(h), e / 2, q);
        let v = merge_coeffs(pw, n, half, y.skip(h), e / 2 + n, q);
        merged_low(u, v, half, q) + merged_high(u, v, half, pw[2 * n - e / 2], q)
    }
}

/// The nodes that the recursion visits: `m` is a power of two that divides `e`.
spec fn node(n: nat, m: nat, e: int) -> bool {
    &&& is_pow2(m)
    &&& m <= n
    &&& e % (m as int) == 0
    &&& n % m == 0
    &&& m <= e < 2 * n
}

proof fn lemma_node_children(n: nat, m: nat, e: int)
    requires
        node(n, m, e),
        m > 1,
    ensures
        node(n, m / 2, e / 2),
        node(n, m / 2, e / 2 + n),
        m % 2 == 0,
        e == 2 * (e / 2),
        0 < e / 2 < n,
{
    let h = (m / 2) as int;
    let (k, j) = (e / (m as int), n as int / m as int);
    lemma_fundamental_div_mod(e, m as int);
    lemma_fundamental_div_mod(n as int, m as int);
    assert(m as int * k == 2 * (h * k)) by (nonlinear_arith)
        requires
            m as int == 2 * h,
    ;
    assert(m as int * j == 2 * (h * j)) by (nonlinear_arith)
        requires
            m as int == 2 * h,
    ;
    assert(e / 2 == h * k);
    lemma_mod_multiples_basic(k, h);
    lemma_mul_is_commutative(h, k);
    assert((e / 2) % h == 0);
    assert(n == h * (2 * j)) by (nonlinear_arith)
        requires
            n == 2 * (h * j),
    ;
    lemma_mod_multiples_basic(2 * j, h);
    lemma_mul_is_commutative(h, 2 * j);
    assert(e / 2 + n == (k + 2 * j) * h) by (nonlinear_arith)
        requires
            e / 2 == h * k,
            n == h * (2 * j),
    ;
    lemma_mod_multiples_basic(k + 2 * j, h);
}

proof fn lemma_split_evals_canonical(pw: Seq<int>, n: nat, a: Seq<int>, e: int, q: int)
    requires
        q > 0,
        is_pow2(a.len()),
        ring::canonical(a, q),
    ensures
        split_evals(pw, n, a, e, q).len() == a.len(),
        ring::canonical(split_evals(pw, n, a, e, q), q),
    decreases a.len(),
{
    if a.len() > 1 {
        let s = pw[e / 2];
        ring::lemma_reduced_canonical(poly::folded(a, s), q);
        ring::lemma_reduced_canonical(poly::folded(a, -s), q);
        lemma_split_evals_canonical(pw, n, ring::reduced(poly::folded(a, s), q), e / 2, q);
        lemma_split_evals_canonical(pw, n, ring::reduced(poly::folded(a, -s), q), e / 2 + n, q);
    }
}

proof fn lemma_reduced_folded(a: Seq<int>, s: int, t: int, q: int)
    requires
        q > 0,
        s % q == t % q,
    ensures
        ring::reduced(poly::folded(ring::reduced(a, q), s), q) == ring::reduced(
            poly::folded(a, t),
            q,
        ),
{
    let h = a.len() as int / 2;
    let x = ring::reduced(poly::folded(ring::reduced(a, q), s), q);
    let y = ring::reduced(poly::folded(a, t), q);
    assert forall|k: int| 0 <= k < h implies #[trigger] x[k] == y[k] by {
        let (u, v) = (a[k], a[k + h]);
        assert(ring::reduced(a, q)[k] == u % q && ring::reduced(a, q)[k + h] == v % q);
        lemma_mul_mod_noop(s, v, q);
        lemma_mul_mod_noop(t, v, q);
        lemma_mul_mod_noop_right(s, v, q);
        lemma_add_mod_noop(u, t * v, q);
        lemma_add_mod_noop(u % q, s * (v % q), q);
        lemma_mod_twice(u, q);
    }
    assert(x =~= y);
}

proof fn lemma_split_evals_sum(pw: Seq<int>, n: nat, a: Seq<int>, b: Seq<int>, e: int, q: int)
    requires
        q > 0,
        is_pow2(a.len()),
        a.len() == b.len(),
        ring::canonical(a, q),
        ring::canonical(b, q),
    ensures
        split_evals(pw, n, ring::poly_add(a, b, q), e, q) == ring::poly_add(
            split_evals(pw, n, a, e, q),
            split_evals(pw, n, b, e, q),
            q,
        ),
    decreases a.len(), 1int,
{
    let c = ring::poly_add(a, b, q);
    if a.len() > 1 {
        let s = pw[e / 2];
        lemma_half_sum(pw, n, a, b, s, e / 2, q);
        lemma_half_sum(pw, n, a, b, -s, e / 2 + n, q);
        let x = split_evals(pw, n, ring::reduced(poly::folded(a, s), q), e / 2, q);
        let y = split_evals(pw, n, ring::reduced(poly::folded(b, s), q), e / 2, q);
        let z = split_evals(pw, n, ring::reduced(poly::folded(a, -s), q), e / 2 + n, q);
        let w = split_evals(pw, n, ring::reduced(poly::folded(b, -s), q), e / 2 + n, q);
        assert(split_evals(pw, n, c, e, q) =~= ring::poly_add(x, y, q) + ring::poly_add(z, w, q));
        assert(ring::poly_add(x, y, q) + ring::poly_add(z, w, q) =~= ring::poly_add(
            x + z,
            y + w,
            q,
        ));
    }
}

proof fn lemma_half_sum(pw: Seq<int>, n: nat, a: Seq<int>, b: Seq<int>, s: int, e: int, q: int)
    requires
        q > 0,
        a.len() > 1,
        is_pow2(a.len()),
        a.len() == b.len(),
    ensures
        split_evals(
            pw,
            n,
            ring::reduced(poly::folded(ring::poly_add(a, b, q), s), q),
            e,
            q,
        ) == ring::poly_add(
            split_evals(pw, n, ring::reduced(poly::folded(a, s), q), e, q),
            split_evals(pw, n, ring::reduced(poly::folded(b, s), q), e, q),
            q,
        ),
        split_evals(pw, n, ring::reduced(poly::folded(a, s), q), e, q).len() == a.len() / 2,
        split_evals(pw, n, ring::reduced(poly::folded(b, s), q), e, q).len() == a.len() / 2,
    decreases a.len(), 0int,
{
    let (fa, fb) = (poly::folded(a, s), poly::folded(b, s));
    lemma_reduced_folded(poly::plus(a, b), s, s, q);
    poly::lemma_folded_linear(a, b, 0, s);
    ring::lemma_reduced_linear(fa, fb, 0, q);
    ring::lemma_reduced_canonical(fa, q);
    ring::lemma_reduced_canonical(fb, q);
    lemma_split_evals_sum(pw, n, ring::reduced(fa, q), ring::reduced(fb, q), e, q);
    lemma_split_evals_canonical(pw, n, ring::reduced(fa, q), e, q);
    lemma_split_evals_canonical(pw, n, ring::reduced(fb, q), e, q);
}

proof fn lemma_split_evals_product(pw: Seq<int>, n: nat, a: Seq<int>, b: Seq<int>, e: int, q: int)
    requires
        roots_ok(pw, n, q),
        node(n, a.len(), e),
        a.len() == b.len(),
        ring::canonical(a, q),
        ring::canonical(b, q),
    ensures
        split_evals(pw, n, ring::reduced(poly::product(a, b, pw[e]), q), e, q) == ring::pointwise(
            split_evals(pw, n, a, e, q),
            split_evals(pw, n, b, e, q),
            q,
        ),
    decreases a.len(), 1int,
{
    let c = ring::reduced(poly::product(a, b, pw[e]), q);
    poly::lemma_product_len(a, b, pw[e]);
    if a.len() == 1 {
        assert(a.skip(1) =~= Seq::<int>::empty());
        assert(poly::product(a.skip(1), b, pw[e]) == poly::zeros(1));
        poly::lemma_shifted_zeros(1, pw[e]);
        assert(c =~= ring::pointwise(a, b, q));
    } else {
        lemma_node_children(n, a.len(), e);
        let s = pw[e / 2];
        assert(root_at(pw, n, q, e / 2));
        assert((-s) * (-s) == s * s) by (nonlinear_arith);
        lemma_half_product(pw, n, a, b, s, e, e / 2, q);
        lemma_half_product(pw, n, a, b, -s, e, e / 2 + n, q);
        let x = split_evals(pw, n, ring::reduced(poly::folded(a, s), q), e / 2, q);
        let y = split_evals(pw, n, ring::reduced(poly::folded(b, s), q), e / 2, q);
        let z = split_evals(pw, n, ring::reduced(poly::folded(a, -s), q), e / 2 + n, q);
        let w = split_evals(pw, n, ring::reduced(poly::folded(b, -s), q), e / 2 + n, q);
        assert(split_evals(pw, n, c, e, q) =~= ring::pointwise(x, y, q) + ring::pointwise(z, w, q));
        assert(ring::pointwise(x, y, q) + ring::pointwise(z, w, q) =~= ring::pointwise(
            x + z,
            y + w,
            q,
        ));
    }
}

proof fn lemma_half_product(
    pw: Seq<int>,
    n: nat,
    a: Seq<int>,
    b: Seq<int>,
    s: int,
    e: int,
    f: int,
    q: int,
)
    requires
        roots_ok(pw, n, q),
        a.len() > 1,
        node(n, a.len(), e),
        node(n, a.len() / 2, f),
        a.len() == b.len(),
        (s * s) % q == pw[e] % q,
        pw[f] % q == s % q,
    ensures
        split_evals(
            pw,
            n,
            ring::reduced(
                poly::folded(ring::reduced(poly::product(a, b, pw[e]), q), s),
                q,
            ),
            f,
            q,
        ) == ring::pointwise(
            split_evals(pw, n, ring::reduced(poly::folded(a, s), q), f, q),
            split_evals(pw, n, ring::reduced(poly::folded(b, s), q), f, q),
            q,
        ),
        split_evals(pw, n, ring::reduced(poly::folded(a, s), q), f, q).len() == a.len() / 2,
        split_evals(pw, n, ring::reduced(poly::folded(b, s), q), f, q).len() == a.len() / 2,
    decreases a.len(), 0int,
{
    let (fa, fb) = (poly::folded(a, s), poly::folded(b, s));
    let (ra, rb) = (ring::reduced(fa, q), ring::reduced(fb, q));
    let p = poly::product(a, b, s * s);
    ring::lemma_product_congruent(a, a, b, b, pw[e], s * s, q);
    lemma_reduced_folded(p, s, s, q);
    poly::lemma_folded_product(a, b, s);
    ring::lemma_reduced_canonical(fa, q);
    ring::lemma_reduced_canonical(fb, q);
    ring::lemma_product_congruent(ra, fa, rb, fb, pw[f], s, q);
    lemma_split_evals_product(pw, n, ra, rb, f, q);
    lemma_split_evals_canonical(pw, n, ra, f, q);
    lemma_split_evals_canonical(pw, n, rb, f, q);
}

proof fn lemma_merge_coeffs_canonical(
    pw: Seq<int>,
    n: nat,
    half: int,
    y: Seq<int>,
    e: int,
    q: int,
)
    requires
        q > 0,
        is_pow2(y.len()),
        ring::canonical(y, q),
    ensures
        merge_coeffs(pw, n, half, y, e, q).len() == y.len(),
        ring::canonical(merge_coeffs(pw, n, half, y, e, q), q),
    decreases y.len(),
{
    if y.len() > 1 {
        let h = y.len() as int / 2;
        let si = pw[2 * n - e / 2];
        let u = merge_coeffs(pw, n, half, y.take(h), e / 2, q);
        let v = merge_coeffs(pw, n, half, y.skip(h), e / 2 + n, q);
        lemma_merge_coeffs_canonical(pw, n, half, y.take(h), e / 2, q);
        lemma_merge_coeffs_canonical(pw, n, half, y.skip(h), e / 2 + n, q);
        let (lo, hi) = (merged_low(u, v, half, q), merged_high(u, v, half, si, q));
        assert forall|i: int| 0 <= i < h implies 0 <= #[trigger] lo[i] < q by {
            lemma_mod_bound((u[i] + v[i]) * half, q);
        }
        assert forall|i: int| 0 <= i < h implies 0 <= #[trigger] hi[i] < q by {
            lemma_mod_bound((((u[i] - v[i]) * half) % q) * si, q);
        }
    }
}

/// The butterfly and its inverse on one pair of residues.
proof fn lemma_butterfly(x: int, y: int, s: int, si: int, half: int, q: int)
    requires
        0 <= x < q,
        0 <= y < q,
        (s * si) % q == 1int % q,
        (2 * half) % q == 1int % q,
    ensures
        ({
            let (u, v) = ((x + s * y) % q, (x + (-s) * y) % q);
            &&& ((u + v) * half) % q == x
            &&& ((((u - v) * half) % q) * si) % q == y
        }),
        ({
            let (l, h) = (((x + y) * half) % q, ((((x - y) * half) % q) * si) % q);
            &&& (l + s * h) % q == x
            &&& (l + (-s) * h) % q == y
        }),
{
    lemma_small_mod(x as nat, q as nat);
    lemma_small_mod(y as nat, q as nat);
    let (u0, v0) = (x + s * y, x + (-s) * y);
    let (u, v) = (u0 % q, v0 % q);
    // Sum of the two outputs: 2x.
    lemma_add_mod_noop(u0, v0, q);
    lemma_mul_mod_noop_left(u + v, half, q);
    lemma_mul_mod_noop_left(u0 + v0, half, q);
    assert((u0 + v0) * half == x * (2 * half)) by (nonlinear_arith)
        requires
            u0 == x + s * y,
            v0 == x + (-s) * y,
    ;
    lemma_unit(x, 2 * half, q);
    // Difference of the two outputs: 2sy.
    lemma_sub_mod_noop(u0, v0, q);
    lemma_mul_mod_noop_left(u - v, half, q);
    lemma_mul_mod_noop_left(u0 - v0, half, q);
    assert((u0 - v0) * half == (s * y) * (2 * half)) by (nonlinear_arith)
        requires
            u0 == x + s * y,
            v0 == x + (-s) * y,
    ;
    lemma_unit(s * y, 2 * half, q);
    lemma_mul_mod_noop_left(s * y, si, q);
    assert((s * y) * si == y * (s * si)) by (nonlinear_arith);
    lemma_unit(y, s * si, q);
    // The other order.
    let d = (x - y) * half;
    let (l0, h0) = ((x + y) * half, (d % q) * si);
    let (l, h) = (l0 % q, h0 % q);
    lemma_mul_mod_noop_right(s, h0, q);
    assert(s * h0 == (d % q) * (s * si)) by (nonlinear_arith)
        requires
            h0 == (d % q) * si,
    ;
    lemma_unit(d % q, s * si, q);
    lemma_mod_twice(d, q);
    assert((s * h) % q == d % q);
    lemma_add_mod_noop(l, s * h, q);
    lemma_add_mod_noop(l0, d, q);
    lemma_mod_twice(l0, q);
    assert(l0 + d == x * (2 * half)) by (nonlinear_arith)
        requires
            l0 == (x + y) * half,
            d == (x - y) * half,
    ;
    lemma_sub_mod_noop(l, s * h, q);
    lemma_sub_mod_noop(l0, d, q);
    assert(l0 - d == y * (2 * half)) by (nonlinear_arith)
        requires
            l0 == (x + y) * half,
            d == (x - y) * half,
    ;
    lemma_unit(y, 2 * half, q);
    assert(l + (-s) * h == l - s * h) by (nonlinear_arith);
}

proof fn lemma_unit(x: int, one: int, q: int)
    requires
        q > 0,
        one % q == 1int % q,
    ensures
        (x * one) % q == x % q,
{
    lemma_mul_mod_noop_right(x, one, q);
    lemma_mul_mod_noop_right(x, 1, q);
}

proof fn lemma_merge_split(pw: Seq<int>, n: nat, half: int, a: Seq<int>, e: int, q: int)
    requires
        roots_ok(pw, n, q),
        (2 * half) % q == 1int % q,
        node(n, a.len(), e),
        ring::canonical(a, q),
    ensures
        merge_coeffs(pw, n, half, split_evals(pw, n, a, e, q), e, q) == a,
    decreases a.len(),
{
    if a.len() > 1 {
        lemma_node_children(n, a.len(), e);
        let h = a.len() as int / 2;
        let s = pw[e / 2];
        let si = pw[2 * n - e / 2];
        assert(root_at(pw, n, q, e / 2));
        let u = ring::reduced(poly::folded(a, s), q);
        let v = ring::reduced(poly::folded(a, -s), q);
        ring::lemma_reduced_canonical(poly::folded(a, s), q);
        ring::lemma_reduced_canonical(poly::folded(a, -s), q);
        lemma_merge_split(pw, n, half, u, e / 2, q);
        lemma_merge_split(pw, n, half, v, e / 2 + n, q);
        lemma_split_evals_canonical(pw, n, u, e / 2, q);
        lemma_split_evals_canonical(pw, n, v, e / 2 + n, q);
        let y = split_evals(pw, n, a, e, q);
        assert(y.take(h) =~= split_evals(pw, n, u, e / 2, q));
        assert(y.skip(h) =~= split_evals(pw, n, v, e / 2 + n, q));
        let (lo, hi) = (merged_low(u, v, half, q), merged_high(u, v, half, si, q));
        assert forall|i: int| 0 <= i < a.len() implies (lo + hi)[i] == a[i] by {
            let k = if i < h {
                i
            } else {
                i - h
            };
            lemma_butterfly(a[k], a[k + h], s, si, half, q);
        }
        assert(lo + hi =~= a);
    }
}

proof fn lemma_split_merge(pw: Seq<int>, n: nat, half: int, y: Seq<int>, e: int, q: int)
    requires
        roots_ok(pw, n, q),
        (2 * half) % q == 1int % q,
        node(n, y.len(), e),
        ring::canonical(y, q),
    ensures
        split_evals(pw, n, merge_coeffs(pw, n, half, y, e, q), e, q) == y,
    decreases y.len(),
{
    if y.len() > 1 {
        lemma_node_children(n, y.len(), e);
        let h = y.len() as int / 2;
        let s = pw[e / 2];
        let si = pw[2 * n - e / 2];
        assert(root_at(pw, n, q, e / 2));
        let u = merge_coeffs(pw, n, half, y.take(h), e / 2, q);
        let v = merge_coeffs(pw, n, half, y.skip(h), e / 2 + n, q);
        lemma_merge_coeffs_canonical(pw, n, half, y.take(h), e / 2, q);
        lemma_merge_coeffs_canonical(pw, n, half, y.skip(h), e / 2 + n, q);
        lemma_split_merge(pw, n, half, y.take(h), e / 2, q);
        lemma_split_merge(pw, n, half, y.skip(h), e / 2 + n, q);
        let a = merge_coeffs(pw, n, half, y, e, q);
        let (fs, ft) = (
            ring::reduced(poly::folded(a, s), q),
            ring::reduced(poly::folded(a, -s), q),
        );
        assert forall|i: int| 0 <= i < h implies #[trigger] fs[i] == u[i] by {
            lemma_butterfly(u[i], v[i], s, si, half, q);
        }
        assert forall|i: int| 0 <= i < h implies #[trigger] ft[i] == v[i] by {
            lemma_butterfly(u[i], v[i], s, si, half, q);
        }
        assert(fs =~= u);
        assert(ft =~= v);
        assert(y.take(h) + y.skip(h) =~= y);
    }
}

/// The transform modulo a `u64`, with the powers of a root of `X^n + 1` precomputed.
pub struct NttBackendU64 {
    modop: ModularOpsU64,
    n: usize,
    pw: Vec<u64>,
    half: u64,
}

impl NttBackendU64 {
    /// Replaces `v` by its values in `Z_q[X]/(X^m - pw[e])`.
    fn split_in_place(&self, v: &mut [u64], e: usize)
        requires
            self.wf(),
            node(self.n(), old(v).len() as nat, e as int),
            ring::canonical(backend::vals(old(v)@), self.q()),
        ensures
            backend::vals(final(v)@) == split_evals(
                backend::vals(self.pw@),
                self.n(),
                backend::vals(old(v)@),
                e as int,
                self.q(),
            ),
        decreases old(v).len(),
    {
        let m: usize = v.len();
        let ghost orig = v@;
        let ghost a = backend::vals(orig);
        if m > 1 {
            proof {
                lemma_node_children(self.n(), m as nat, e as int);
            }
            let h: usize = m / 2;
            let s: u64 = self.pw[e / 2];
            let ghost sv = backend::vals(self.pw@)[e as int / 2];
            let (lo, hi) = v.split_at_mut(h);
            for i in 0..h
                invariant
                    self.wf(),
                    m == 2 * h,
                    a == backend::vals(orig),
                    orig.len() == m,
                    ring::canonical(a, self.q()),
                    sv == s,
                    0 <= sv < self.q(),
                    lo.len() == h,
                    hi.len() == h,
                    forall|j: int| i <= j < h ==> #[trigger] lo[j] == orig[j],
                    forall|j: int| i <= j < h ==> #[trigger] hi[j] == orig[j + h],
                    forall|j: int|
                        0 <= j < i ==> (#[trigger] lo[j]).val() == (a[j] + sv * a[j + h])
                            % self.q(),
                    forall|j: int|
                        0 <= j < i ==> (#[trigger] hi[j]).val() == (a[j] + (-sv) * a[j + h])
                            % self.q(),
            {
                let x: u64 = lo[i];
                proof {
                    assert(a[i as int] == orig[i as int].val());
                    assert(a[i + h] == orig[i + h].val());
                    lemma_mod_bound(sv * a[i + h], self.q());
                    lemma_add_mod_noop_right(a[i as int], sv * a[i + h], self.q());
                    lemma_sub_mod_noop_right(a[i as int], sv * a[i + h], self.q());
                    assert(a[i as int] + (-sv) * a[i + h] == a[i as int] - sv * a[i + h])
                        by (nonlinear_arith);
                }
                let y: u64 = self.modop.mul(&s, &hi[i]);
                lo[i] = self.modop.add(&x, &y);
                hi[i] = self.modop.sub(&x, &y);
            }
            proof {
                let (fs, ft) = (
                    ring::reduced(poly::folded(a, sv), self.q()),
                    ring::reduced(poly::folded(a, -sv), self.q()),
                );
                assert(backend::vals(lo@) =~= fs);
                assert(backend::vals(hi@) =~= ft);
                ring::lemma_reduced_canonical(poly::folded(a, sv), self.q());
                ring::lemma_reduced_canonical(poly::folded(a, -sv), self.q());
            }
            self.split_in_place(lo, e / 2);
            self.split_in_place(hi, e / 2 + self.n);
            assert(backend::vals(lo@ + hi@) =~= backend::vals(lo@) + backend::vals(hi@));
        }
    }

    /// Replaces values in `Z_q[X]/(X^m - pw[e])` by the coefficients of the polynomial.
    fn merge_in_place(&self, v: &mut [u64], e: usize)
        requires
            self.wf(),
            node(self.n(), old(v).len() as nat, e as int),
            ring::canonical(backend::vals(old(v)@), self.q()),
        ensures
            backend::vals(final(v)@) == merge_coeffs(
                backend::vals(self.pw@),
                self.n(),
                self.half as int,
                backend::vals(old(v)@),
                e as int,
                self.q(),
            ),
        decreases old(v).len(),
    {
        let m: usize = v.len();
        let ghost y = backend::vals(v@);
        if m > 1 {
            proof {
                lemma_node_children(self.n(), m as nat, e as int);
            }
            let h: usize = m / 2;
            let si: u64 = self.pw[2 * self.n - e / 2];
            let half: u64 = self.half;
            let ghost siv = backend::vals(self.pw@)[2 * self.n - e as int / 2];
            let (lo, hi) = v.split_at_mut(h);
            proof {
                assert(backend::vals(lo@) =~= y.take(h as int));
                assert(backend::vals(hi@) =~= y.skip(h as int));
                lemma_merge_coeffs_canonical(
                    backend::vals(self.pw@),
                    self.n(),
                    self.half as int,
                    y.take(h as int),
                    e as int / 2,
                    self.q(),
                );
                lemma_merge_coeffs_canonical(
                    backend::vals(self.pw@),
                    self.n(),
                    self.half as int,
                    y.skip(h as int),
                    e as int / 2 + self.n,
                    self.q(),
                );
            }
            self.merge_in_place(lo, e / 2);
            self.merge_in_place(hi, e / 2 + self.n);
            let ghost (u, w) = (backend::vals(lo@), backend::vals(hi@));
            let ghost (lo0, hi0) = (lo@, hi@);
            for i in 0..h
                invariant
                    self.wf(),
                    half == self.half,
                    siv == si,
                    0 <= siv < self.q(),
                    0 <= half < self.q(),
                    u == backend::vals(lo0),
                    w == backend::vals(hi0),
                    u.len() == h,
                    w.len() == h,
                    ring::canonical(u, self.q()),
                    ring::canonical(w, self.q()),
                    lo.len() == h,
                    hi.len() == h,
                    forall|j: int| i <= j < h ==> #[trigger] lo[j] == lo0[j],
                    forall|j: int| i <= j < h ==> #[trigger] hi[j] == hi0[j],
                    forall|j: int|
                        0 <= j < i ==> (#[trigger] lo[j]).val() == merged_low(
                            u,
                            w,
                            half as int,
                            self.q(),
                        )[j],
                    forall|j: int|
                        0 <= j < i ==> (#[trigger] hi[j]).val() == merged_high(
                            u,
                            w,
                            half as int,
                            siv,
                            self.q(),
                        )[j],
            {
                proof {
                    let (x, z) = (u[i as int], w[i as int]);
                    assert(x == lo0[i as int].val());
                    assert(z == hi0[i as int].val());
                    lemma_mod_bound(x + z, self.q());
                    lemma_mod_bound(x - z, self.q());
                    lemma_mod_bound((x - z) * half, self.q());
                    lemma_mul_mod_noop_left(x + z, half as int, self.q());
                    lemma_mul_mod_noop_left(x - z, half as int, self.q());
                }
                let sum: u64 = self.modop.add(&lo[i], &hi[i]);
                let diff: u64 = self.modop.sub(&lo[i], &hi[i]);
                lo[i] = self.modop.mul(&sum, &half);
                let d: u64 = self.modop.mul(&diff, &half);
                hi[i] = self.modop.mul(&d, &si);
            }
            assert(backend::vals(lo@) =~= merged_low(u, w, half as int, self.q()));
            assert(backend::vals(hi@) =~= merged_high(u, w, half as int, siv, self.q()));
            assert(backend::vals(lo@ + hi@) =~= backend::vals(lo@) + backend::vals(hi@));
        }
    }
}

impl Ntt for NttBackendU64 {
    type Element = u64;

    closed spec fn q(&self) -> int {
        self.modop.q()
    }

    closed spec fn n(&self) -> nat {
        self.n as nat
    }

    closed spec fn wf(&self) -> bool {
        &&& self.modop.wf()
        &&& is_pow2(self.n as nat)
        &&& 2 * self.n <= usize::MAX
        &&& roots_ok(backend::vals(self.pw@), self.n as nat, self.modop.q())
        &&& 0 <= self.half < self.modop.q()
        &&& (2 * self.half) % self.modop.q() == 1int % self.modop.q()
    }

    closed spec fn evals(&self, p: Seq<int>) -> Seq<int> {
        split_evals(backend::vals(self.pw@), self.n as nat, p, self.n as int, self.modop.q())
    }

    closed spec fn coeffs(&self, e: Seq<int>) -> Seq<int> {
        merge_coeffs(
            backend::vals(self.pw@),
            self.n as nat,
            self.half as int,
            e,
            self.n as int,
            self.modop.q(),
        )
    }

    proof fn lemma_positive(&self) {
    }

    proof fn lemma_canonical(&self, p: Seq<int>) {
        lemma_split_evals_canonical(
            backend::vals(self.pw@),
            self.n as nat,
            p,
            self.n as int,
            self.modop.q(),
        );
        lemma_merge_coeffs_canonical(
            backend::vals(self.pw@),
            self.n as nat,
            self.half as int,
            p,
            self.n as int,
            self.modop.q(),
        );
    }

    proof fn lemma_inverse(&self, p: Seq<int>) {
        lemma_root_node(self.n as nat);
        lemma_merge_split(
            backend::vals(self.pw@),
            self.n as nat,
            self.half as int,
            p,
            self.n as int,
            self.modop.q(),
        );
        lemma_split_merge(
            backend::vals(self.pw@),
            self.n as nat,
            self.half as int,
            p,
            self.n as int,
            self.modop.q(),
        );
    }

    proof fn lemma_sum(&self, a: Seq<int>, b: Seq<int>) {
        lemma_split_evals_sum(
            backend::vals(self.pw@),
            self.n as nat,
            a,
            b,
            self.n as int,
            self.modop.q(),
        );
    }

    proof fn lemma_product(&self, a: Seq<int>, b: Seq<int>) {
        let (pw, n, q) = (backend::vals(self.pw@), self.n as nat, self.modop.q());
        lemma_root_node(n);
        lemma_split_evals_product(pw, n, a, b, n as int, q);
        ring::lemma_nega_mul_is_product(a, b, q);
        ring::lemma_product_congruent(a, a, b, b, pw[n as int], -1, q);
        ring::lemma_reduced_canonical(poly::product(a, b, -1), q);
        poly::lemma_product_len(a, b, -1);
        lemma_merge_split(pw, n, self.half as int, ring::nega_mul(a, b, q), n as int, q);
    }

    fn forward(&self, v: &mut [u64]) {
        proof {
            lemma_root_node(self.n as nat);
        }
        self.split_in_place(v, self.n);
    }

    fn backward(&self, v: &mut [u64]) {
        proof {
            lemma_root_node(self.n as nat);
        }
        self.merge_in_place(v, self.n);
    }
}

proof fn lemma_root_node(n: nat)
    requires
        is_pow2(n),
    ensures
        node(n, n, n as int),
{
    lemma_mod_self_0(n as int);
}

/// `x^k` is a root of `X^n + 1` modulo `q`.
pub open spec fn gives_root(x: int, k: nat, n: nat, q: int) -> bool {
    pow(pow(x, k), n) % q == (-1int) % q
}

/// There is a transform modulo an odd `q` on a power of two coefficients if some residue, raised
/// to `(q - 1) / 2n`, is a root of `X^n + 1`.
pub open spec fn has_transform(q: int, n: nat) -> bool {
    &&& is_pow2(n)
    &&& 2 * n <= usize::MAX
    &&& q % 2 == 1
    &&& exists|x: int|
        0 <= x < q && #[trigger] gives_root(x, ((q - 1) / (2 * n as int)) as nat, n, q)
}

/// The smallest residue that gives a root.
pub open spec fn is_first_root(x: int, q: int, n: nat) -> bool {
    let k = ((q - 1) / (2 * n as int)) as nat;
    &&& 0 <= x < q
    &&& gives_root(x, k, n, q)
    &&& forall|y: int| 0 <= y < x ==> !#[trigger] gives_root(y, k, n, q)
}

/// The powers of the root that the smallest residue gives.
pub open spec fn root_powers(q: int, n: nat) -> Seq<int> {
    let x = choose|x: int| is_first_root(x, q, n);
    let psi = pow(x, ((q - 1) / (2 * n as int)) as nat) % q;
    Seq::new(2 * n, |i: int| pow(psi, i as nat) % q)
}

/// The inverse of two modulo an odd `q`.
pub open spec fn half_of(q: int) -> int {
    if q == 1 {
        0
    } else {
        q / 2 + 1
    }
}

/// `b^e` modulo the modulus.
fn pow_mod(modop: &ModularOpsU64, b: u64, e: u64) -> (r: u64)
    requires
        modop.wf(),
        b < modop.q(),
    ensures
        r == pow(b as int, e as nat) % modop.q(),
    decreases e,
{
    let ghost q = modop.q();
    if e == 0 {
        proof {
            lemma_pow0(b as int);
            lemma_mod_bound(1, q);
        }
        1 % modop.modulus.q
    } else {
        let h: u64 = pow_mod(modop, b, e / 2);
        let ghost p = pow(b as int, (e / 2) as nat);
        proof {
            lemma_mod_bound(p, q);
            lemma_pow_adds(b as int, (e / 2) as nat, (e / 2) as nat);
            lemma_mul_mod_noop(p, p, q);
            lemma_mod_bound(h * h, q);
        }
        let s: u64 = modop.mul(&h, &h);
        if e % 2 == 1 {
            proof {
                lemma_pow_adds(b as int, (e / 2 + e / 2) as nat, 1);
                lemma_pow1(b as int);
                lemma_mul_mod_noop_left(p * p, b as int, q);
            }
            modop.mul(&s, &b)
        } else {
            s
        }
    }
}

/// The smallest residue that gives a root, and the root.
fn first_root(modop: &ModularOpsU64, n: usize) -> (r: Option<(u64, u64)>)
    requires
        modop.wf(),
        n > 0,
    ensures
        ({
            let q = modop.q();
            let k = ((q - 1) / (2 * n as int)) as nat;
            match r {
                Some((x, psi)) => is_first_root(x as int, q, n as nat) && psi == pow(x as int, k)
                    % q && psi < q,
                None => forall|y: int| 0 <= y < q ==> !#[trigger] gives_root(y, k, n as nat, q),
            }
        }),
{
    let q: u64 = modop.modulus.q;
    let k: u64 = ((q - 1) as u128 / (2 * (n as u128))) as u64;
    let ghost kn = ((q - 1) / (2 * n as int)) as nat;
    proof {
        assert((q - 1) as int / (2 * n as int) <= q - 1) by {
            lemma_div_is_ordered_by_denominator((q - 1) as int, 1, 2 * n as int);
        }
        lemma_div_pos_is_pos((q - 1) as int, 2 * n as int);
        assert(k == kn);
    }
    let mut x: u64 = 0;
    while x < q
        invariant
            modop.wf(),
            modop.q() == q,
            kn == ((q - 1) / (2 * n as int)) as nat,
            k == kn,
            n <= u64::MAX,
            x <= q,
            forall|y: int| 0 <= y < x ==> !#[trigger] gives_root(y, kn, n as nat, q as int),
        decreases q - x,
    {
        let psi: u64 = pow_mod(modop, x, k);
        proof {
            lemma_mod_bound(pow(x as int, kn), q as int);
            lemma_root_test(x as int, kn, n as nat, q as int);
        }
        if pow_mod(modop, psi, n as u64) == q - 1 {
            return Some((x, psi));
        }
        x = x + 1;
    }
    None
}

/// Whether there is a transform for the modulus and `n` coefficients.
pub fn transform_exists(modulus: &CiphertextModulus, n: usize) -> (r: bool)
    requires
        modulus.wf(),
    ensures
        r == has_transform(modulus.q(), n as nat),
{
    let modop: ModularOpsU64 = ModularOpsU64 { modulus: *modulus };
    if n == 0 || n > usize::MAX / 2 || modulus.q % 2 == 0 {
        return false;
    }
    let mut m: usize = n;
    while m > 1 && m % 2 == 0
        invariant
            m > 0,
            is_pow2(n as nat) == is_pow2(m as nat),
        decreases m,
    {
        m = m / 2;
    }
    if m > 1 {
        return false;
    }
    first_root(&modop, n).is_some()
}

/// The residues of the powers of a root of `X^n + 1` are in order.
proof fn lemma_powers_are_roots(pw: Seq<int>, psi: int, n: nat, q: int)
    requires
        q > 0,
        n > 0,
        pw.len() == 2 * n,
        forall|i: int| 0 <= i < 2 * n ==> #[trigger] pw[i] == pow(psi, i as nat) % q,
        pow(psi, n) % q == (-1int) % q,
    ensures
        roots_ok(pw, n, q),
{
    assert forall|i: int| 0 <= i < pw.len() implies 0 <= #[trigger] pw[i] < q by {
        lemma_mod_bound(pow(psi, i as nat), q);
    }
    lemma_mod_twice(pow(psi, n), q);
    assert forall|i: int| 0 <= i < n implies #[trigger] root_at(pw, n, q, i) by {
        let p = pow(psi, i as nat);
        let m = pow(psi, n);
        lemma_mod_twice(p, q);
        // Square.
        lemma_pow_adds(psi, i as nat, i as nat);
        lemma_mul_mod_noop(p, p, q);
        lemma_mod_twice(pow(psi, (2 * i) as nat), q);
        // Negative.
        lemma_pow_adds(psi, i as nat, n);
        lemma_mul_mod_noop_right(p, m, q);
        lemma_mul_mod_noop_right(p, -1, q);
        lemma_mod_twice(pow(psi, (i + n) as nat), q);
        lemma_sub_mod_noop(0, p, q);
        lemma_sub_mod_noop(0, p % q, q);
        assert(p * (-1) == 0 - p) by (nonlinear_arith);
        // Inverse.
        if i > 0 {
            let o = pow(psi, (2 * n - i) as nat);
            lemma_pow_adds(psi, i as nat, (2 * n - i) as nat);
            lemma_pow_adds(psi, n, n);
            lemma_mul_mod_noop(p, o, q);
            lemma_mul_mod_noop(m, m, q);
            lemma_mul_mod_noop(-1, -1, q);
            assert(i as nat + (2 * n - i) as nat == n + n);
        }
    }
}

impl NttInit<CiphertextModulus> for NttBackendU64 {
    open spec fn supports(q: int, n: nat) -> bool {
        has_transform(q, n)
    }

    open spec fn evals_for(q: int, n: nat, p: Seq<int>) -> Seq<int> {
        split_evals(root_powers(q, n), n, p, n as int, q)
    }

    open spec fn coeffs_for(q: int, n: nat, e: Seq<int>) -> Seq<int> {
        merge_coeffs(root_powers(q, n), n, half_of(q), e, n as int, q)
    }

    fn new(modulus: &CiphertextModulus, n: usize) -> NttBackendU64 {
        let modop: ModularOpsU64 = ModularOpsU64 { modulus: *modulus };
        let q: u64 = modulus.q;
        let ghost kn = ((q - 1) / (2 * n as int)) as nat;
        let psi: u64 = match first_root(&modop, n) {
            Some((x, psi)) => {
                proof {
                    let y = choose|y: int| is_first_root(y, q as int, n as nat);
                    if y < x {
                        assert(!gives_root(y, kn, n as nat, q as int));
                    }
                    assert(y == x);
                    lemma_root_test(x as int, kn, n as nat, q as int);
                    lemma_minus_one(q as int);
                }
                psi
            },
            None => {
                proof {
                    let y = choose|y: int|
                        0 <= y < q && #[trigger] gives_root(y, kn, n as nat, q as int);
                    assert(false);
                }
                0
            },
        };
        let mut pw: Vec<u64> = Vec::new();
        let mut p: u64 = 1 % q;
        proof {
            lemma_pow0(psi as int);
            lemma_mod_bound(1, q as int);
        }
        let len: usize = 2 * n;
        for i in 0..len
            invariant
                modop.wf(),
                modop.q() == q,
                psi < q,
                pw.len() == i,
                p < q,
                p == pow(psi as int, i as nat) % (q as int),
                forall|j: int|
                    0 <= j < i ==> (#[trigger] pw[j]).val() == pow(psi as int, j as nat) % (q
                        as int),
        {
            pw.push(p);
            proof {
                lemma_pow_adds(psi as int, i as nat, 1);
                lemma_pow1(psi as int);
                lemma_mul_mod_noop_left(pow(psi as int, i as nat), psi as int, q as int);
                lemma_mod_bound(p * psi, q as int);
            }
            p = modop.mul(&p, &psi);
        }
        let half: u64 = if q == 1 {
            0
        } else {
            q / 2 + 1
        };
        proof {
            lemma_powers_are_roots(backend::vals(pw@), psi as int, n as nat, q as int);
            assert(backend::vals(pw@) =~= root_powers(q as int, n as nat));
            if q > 1 {
                lemma_fundamental_div_mod_converse(2 * half, q as int, 1, 1);
                lemma_small_mod(1, q as nat);
            }
        }
        NttBackendU64 { modop, n, pw, half }
    }
}

proof fn lemma_minus_one(q: int)
    requires
        q > 0,
    ensures
        (-1int) % q == q - 1,
{
    lemma_mod_add_multiples_vanish(-1, q);
    lemma_small_mod((q - 1) as nat, q as nat);
}

/// Reducing `x^k` first does not change whether it is a root.
proof fn lemma_root_test(x: int, k: nat, n: nat, q: int)
    requires
        q > 0,
    ensures
        gives_root(x, k, n, q) <==> pow(pow(x, k) % q, n) % q == q - 1,
{
    lemma_pow_mod_noop(pow(x, k), n, q);
    lemma_minus_one(q);
}

/// The powers of two: one, and the double of each.
pub proof fn lemma_powers_of_two(k: nat)
    ensures
        is_pow2(pow2(k)),
    decreases k,
{
    lemma_pow2_pos(k);
    if k == 0 {
        lemma2_to64();
    } else {
        lemma_powers_of_two((k - 1) as nat);
        lemma_pow2_unfold(k);
        let p = pow2((k - 1) as nat);
        lemma_pow2_pos((k - 1) as nat);
        assert(pow2(k) == 2 * p);
        assert((2 * p) / 2 == p);
    }
}

/// There is a transform for an odd modulus, a power of two coefficients, and a residue whose power
/// to `(q - 1) / 2n` is a root of `X^n + 1`.
pub proof fn lemma_has_transform(q: int, n: nat, x: int)
    requires
        is_pow2(n),
        2 * n <= usize::MAX,
        q % 2 == 1,
        0 <= x < q,
        pow(pow(x, ((q - 1) / (2 * n as int)) as nat), n) % q == (-1int) % q,
    ensures
        has_transform(q, n),
        NttBackendU64::supports(q, n),
{
    assert(gives_root(x, ((q - 1) / (2 * n as int)) as nat, n, q));
}

/// A power of two is two to some number.
pub proof fn lemma_is_pow2(m: nat) -> (k: nat)
    requires
        is_pow2(m),
    ensures
        m == pow2(k),
    decreases m,
{
    if m == 1 {
        lemma2_to64();
        0
    } else {
        let k = lemma_is_pow2(m / 2);
        lemma_pow2_unfold(k + 1);
        k + 1
    }
}

/// What a modulus and a size that have a transform are like.
pub proof fn lemma_transform_root(q: int, n: nat) -> (x: int)
    requires
        has_transform(q, n),
    ensures
        is_pow2(n),
        2 * n <= usize::MAX,
        q % 2 == 1,
        0 <= x < q,
        pow(pow(x, ((q - 1) / (2 * n as int)) as nat), n) % q == (-1int) % q,
{
    choose|x: int|
        0 <= x < q && #[trigger] gives_root(x, ((q - 1) / (2 * n as int)) as nat, n, q)
}

/// The value of the polynomial `p` at `x`.
pub open spec fn value_at(p: Seq<int>, x: int) -> int
    decreases p.len(),
{
    if p.len() == 0 {
        0
    } else {
        value_at(p.drop_last(), x) + p.last() * pow(x, (p.len() - 1) as nat)
    }
}

/// The value of a polynomial is the sum of its coefficients times the powers of `x`.
pub proof fn lemma_value_terms(p: Seq<int>, c: int, x: int)
    ensures
        value_at(Seq::empty(), x) == 0,
        value_at(p.push(c), x) == value_at(p, x) + c * pow(x, p.len()),
{
    assert(p.push(c).drop_last() =~= p);
}

proof fn lemma_value_append(a: Seq<int>, b: Seq<int>, x: int)
    ensures
        value_at(a + b, x) == value_at(a, x) + pow(x, a.len()) * value_at(b, x),
    decreases b.len(),
{
    let p = pow(x, a.len());
    if b.len() == 0 {
        assert(a + b =~= a);
        assert(p * 0 == 0) by (nonlinear_arith);
    } else {
        lemma_value_append(a, b.drop_last(), x);
        assert((a + b).drop_last() =~= a + b.drop_last());
        let k = (b.len() - 1) as nat;
        lemma_pow_adds(x, a.len(), k);
        let (c, v, r) = (b.last(), value_at(b.drop_last(), x), pow(x, k));
        assert(c * (p * r) + p * v == p * (v + c * r)) by (nonlinear_arith);
    }
}

proof fn lemma_value_sum(a: Seq<int>, b: Seq<int>, s: int, x: int)
    requires
        a.len() == b.len(),
    ensures
        value_at(Seq::new(a.len(), |i: int| a[i] + s * b[i]), x) == value_at(a, x) + s * value_at(
            b,
            x,
        ),
    decreases a.len(),
{
    let r = Seq::new(a.len(), |i: int| a[i] + s * b[i]);
    if a.len() == 0 {
        assert(s * 0 == 0) by (nonlinear_arith);
    } else {
        let (a1, b1) = (a.drop_last(), b.drop_last());
        lemma_value_sum(a1, b1, s, x);
        assert(r.drop_last() =~= Seq::new(a1.len(), |i: int| a1[i] + s * b1[i]));
        let (u, v, p) = (a.last(), b.last(), pow(x, (a.len() - 1) as nat));
        let w = value_at(b1, x);
        assert((u + s * v) * p + s * w == u * p + s * (w + v * p)) by (nonlinear_arith);
    }
}

proof fn lemma_value_reduced(a: Seq<int>, x: int, q: int)
    requires
        q > 0,
    ensures
        value_at(ring::reduced(a, q), x) % q == value_at(a, x) % q,
    decreases a.len(),
{
    if a.len() > 0 {
        lemma_value_reduced(a.drop_last(), x, q);
        let r = ring::reduced(a, q);
        assert(r.drop_last() =~= ring::reduced(a.drop_last(), q));
        let (c, p) = (a.last(), pow(x, (a.len() - 1) as nat));
        lemma_mul_mod_noop_left(c, p, q);
        lemma_add_mod_noop(value_at(r.drop_last(), x), (c % q) * p, q);
        lemma_add_mod_noop(value_at(a.drop_last(), x), c * p, q);
    }
}

/// Where `x^h` is congruent to `s`, the two halves of a polynomial fold.
proof fn lemma_value_folded(a: Seq<int>, s: int, x: int, q: int)
    requires
        q > 0,
        a.len() % 2 == 0,
        pow(x, a.len() / 2) % q == s % q,
    ensures
        value_at(ring::reduced(poly::folded(a, s), q), x) % q == value_at(a, x) % q,
{
    let h = (a.len() / 2) as int;
    let (lo, hi) = (a.take(h), a.skip(h));
    assert(a =~= lo + hi);
    lemma_value_append(lo, hi, x);
    lemma_value_sum(lo, hi, s, x);
    assert(poly::folded(a, s) =~= Seq::new(lo.len(), |i: int| lo[i] + s * hi[i]));
    lemma_value_reduced(poly::folded(a, s), x, q);
    let (u, v, p) = (value_at(lo, x), value_at(hi, x), pow(x, h as nat));
    lemma_mul_mod_noop_left(s, v, q);
    lemma_mul_mod_noop_left(p, v, q);
    lemma_add_mod_noop(u, s * v, q);
    lemma_add_mod_noop(u, p * v, q);
}

/// The power of the root that the value `i` of a polynomial of `Z_q[X]/(X^m - pw[e])` is taken at.
spec fn leaf(n: nat, m: nat, e: int, i: int) -> int
    decreases m,
{
    if m <= 1 {
        e
    } else if i < m / 2 {
        leaf(n, m / 2, e / 2, i)
    } else {
        leaf(n, m / 2, e / 2 + n, i - m / 2)
    }
}

proof fn lemma_leaf(n: nat, m: nat, e: int, i: int) -> (c: int)
    requires
        node(n, m, e),
        0 <= i < m,
    ensures
        0 <= leaf(n, m, e, i) < 2 * n,
        c >= 0,
        leaf(n, m, e, i) * m == e + 2 * n * c,
    decreases m,
{
    if m == 1 {
        assert(e * 1 == e && 2 * n * 0 == 0) by (nonlinear_arith);
        0
    } else {
        lemma_node_children(n, m, e);
        let h = m / 2;
        let l = leaf(n, m, e, i);
        if i < h {
            let c = lemma_leaf(n, h, e / 2, i);
            assert(l * m == e + 2 * n * (2 * c)) by (nonlinear_arith)
                requires
                    m == 2 * h,
                    e == 2 * (e / 2),
                    l * h == e / 2 + 2 * n * c,
            ;
            2 * c
        } else {
            let c = lemma_leaf(n, h, e / 2 + n, i - h);
            assert(l * m == e + 2 * n * (2 * c + 1)) by (nonlinear_arith)
                requires
                    m == 2 * h,
                    e == 2 * (e / 2),
                    l * h == e / 2 + n + 2 * n * c,
            ;
            2 * c + 1
        }
    }
}

/// Powers of a root of `X^n + 1` repeat after `2n`.
proof fn lemma_root_period(psi: int, n: nat, e: nat, c: nat, q: int)
    requires
        q > 0,
        pow(psi, n) % q == (-1int) % q,
    ensures
        pow(psi, e + 2 * n * c) % q == pow(psi, e) % q,
        pow(psi, e + n) % q == (-pow(psi, e)) % q,
{
    let m = pow(psi, n);
    lemma_pow_adds(psi, n, n);
    lemma_mul_mod_noop(m, m, q);
    lemma_mul_mod_noop(-1, -1, q);
    let t = pow(psi, 2 * n);
    assert(n + n == 2 * n);
    assert(t % q == 1int % q);
    lemma_pow_multiplies(psi, 2 * n, c);
    lemma_pow_mod_noop(t, c, q);
    lemma_pow_mod_noop(1, c, q);
    lemma1_pow(c);
    let p = pow(psi, e);
    let r = pow(psi, 2 * n * c);
    lemma_pow_adds(psi, e, 2 * n * c);
    lemma_mul_mod_noop_right(p, r, q);
    lemma_mul_mod_noop_right(p, 1, q);
    assert(r % q == 1int % q);
    assert(p * 1 == p);
    lemma_pow_adds(psi, e, n);
    lemma_mul_mod_noop_right(p, m, q);
    lemma_mul_mod_noop_right(p, -1, q);
    assert(p * (-1) == -p) by (nonlinear_arith);
}

/// The entries of the transform are values at powers of the root.
proof fn lemma_split_values(pw: Seq<int>, psi: int, n: nat, a: Seq<int>, e: int, q: int, i: int)
    requires
        q > 0,
        pw.len() == 2 * n,
        forall|j: int| 0 <= j < 2 * n ==> #[trigger] pw[j] == pow(psi, j as nat) % q,
        pow(psi, n) % q == (-1int) % q,
        node(n, a.len(), e),
        ring::canonical(a, q),
        0 <= i < a.len(),
    ensures
        split_evals(pw, n, a, e, q)[i] % q == value_at(
            a,
            pow(psi, leaf(n, a.len(), e, i) as nat),
        ) % q,
    decreases a.len(),
{
    let m = a.len();
    if m == 1 {
        let x = pow(psi, e as nat);
        lemma_pow0(x);
        assert(a.drop_last() =~= Seq::<int>::empty());
        assert(value_at(a.drop_last(), x) == 0);
        assert(value_at(a, x) == a.last() * pow(x, 0));
        assert(a[0] * 1 == a[0]);
    } else {
        lemma_node_children(n, m, e);
        let h = m / 2;
        let s = pw[e / 2];
        let (f, g) = (
            ring::reduced(poly::folded(a, s), q),
            ring::reduced(poly::folded(a, -s), q),
        );
        ring::lemma_reduced_canonical(poly::folded(a, s), q);
        ring::lemma_reduced_canonical(poly::folded(a, -s), q);
        lemma_split_evals_canonical(pw, n, f, e / 2, q);
        lemma_split_evals_canonical(pw, n, g, e / 2 + n, q);
        let l = leaf(n, m, e, i);
        let x = pow(psi, l as nat);
        let p = pow(psi, (e / 2) as nat);
        lemma_mod_twice(p, q);
        if i < h {
            lemma_split_values(pw, psi, n, f, e / 2, q, i);
            let c = lemma_leaf(n, h, e / 2, i);
            lemma_pow_multiplies(psi, l as nat, h);
            lemma_root_period(psi, n, (e / 2) as nat, c as nat, q);
            assert((l as nat * h) as int == (e / 2) as nat + 2 * n * c as nat);
            lemma_value_folded(a, s, x, q);
        } else {
            lemma_split_values(pw, psi, n, g, e / 2 + n, q, i - h);
            let c = lemma_leaf(n, h, e / 2 + n, i - h);
            lemma_pow_multiplies(psi, l as nat, h);
            lemma_root_period(psi, n, (e / 2 + n) as nat, c as nat, q);
            lemma_root_period(psi, n, (e / 2) as nat, 0, q);
            assert((l as nat * h) as int == (e / 2 + n) as nat + 2 * n * c as nat);
            assert((e / 2) as nat + n == (e / 2 + n) as nat);
            lemma_sub_mod_noop(0, p, q);
            lemma_sub_mod_noop(0, s, q);
            lemma_value_folded(a, -s, x, q);
        }
    }
}

proof fn lemma_leaf_shift(n: nat, m: nat, e: int, d: int, i: int)
    requires
        is_pow2(m),
        e % (m as int) == 0,
        n % m == 0,
    ensures
        leaf(n, m, e + m * d, i) == leaf(n, m, e, i) + d,
    decreases m,
{
    if m > 1 {
        let h = (m / 2) as int;
        assert(m * d == 2 * (h * d)) by (nonlinear_arith)
            requires
                m == 2 * h,
        ;
        lemma_fundamental_div_mod(e, m as int);
        lemma_fundamental_div_mod(n as int, m as int);
        let (k, l) = (e / (m as int), n as int / m as int);
        assert(e == 2 * (k * h) && n == (2 * l) * h) by (nonlinear_arith)
            requires
                e == m * k,
                n == m * l,
                m == 2 * h,
        ;
        assert((e + m * d) / 2 == e / 2 + h * d);
        assert(k * h + (2 * l) * h == (k + 2 * l) * h) by (nonlinear_arith);
        lemma_mod_multiples_basic(k, h);
        lemma_mod_multiples_basic(2 * l, h);
        lemma_mod_multiples_basic(k + 2 * l, h);
        if i < h {
            lemma_leaf_shift(n, m / 2, e / 2, d, i);
        } else {
            lemma_leaf_shift(n, m / 2, e / 2 + n, d, i - h);
        }
    } else {
        assert(m * d == d) by (nonlinear_arith)
            requires
                m == 1,
        ;
    }
}

/// The bit `t` of the index adds `n / 2^t` to the power.
proof fn lemma_leaf_order(n: nat, k: nat, e: int, t: nat, i: int)
    requires
        e % (pow2(k) as int) == 0,
        n % pow2(k) == 0,
        t < k,
        0 <= i < pow2(t),
    ensures
        leaf(n, pow2(k), e, i + pow2(t)) == leaf(n, pow2(k), e, i) + n as int / pow2(t) as int,
        i + pow2(t) < pow2(k),
    decreases k,
{
    let m = pow2(k);
    lemma_pow2_unfold(k);
    lemma_pow2_pos((k - 1) as nat);
    lemma_powers_of_two((k - 1) as nat);
    let h = pow2((k - 1) as nat) as int;
    assert(m == 2 * h && m > 1);
    lemma_fundamental_div_mod(e, m as int);
    lemma_fundamental_div_mod(n as int, m as int);
    let (x, y) = (e / (m as int), n as int / m as int);
    assert(e == 2 * (x * h) && n == (2 * y) * h) by (nonlinear_arith)
        requires
            e == m * x,
            n == m * y,
            m == 2 * h,
    ;
    lemma_mod_multiples_basic(x, h);
    lemma_mod_multiples_basic(2 * y, h);
    if t == k - 1 {
        lemma_div_multiples_vanish(2 * y, h);
        assert(h * (2 * y) == (2 * y) * h) by (nonlinear_arith);
        lemma_leaf_shift(n, (m / 2) as nat, e / 2, 2 * y, i);
    } else {
        lemma_leaf_order(n, (k - 1) as nat, e / 2, t, i);
        assert(pow2(t) <= i + pow2(t) < h);
    }
}

proof fn lemma_first_leaf(n: nat, m: nat)
    requires
        is_pow2(m),
    ensures
        leaf(n, m, m as int, 0) == 1,
    decreases m,
{
    if m > 1 {
        lemma_first_leaf(n, m / 2);
    }
}

/// Below a residue that gives a root, or at it, is the smallest one.
proof fn lemma_first_root(x: int, q: int, n: nat) -> (y: int)
    requires
        0 <= x < q,
        gives_root(x, ((q - 1) / (2 * n as int)) as nat, n, q),
    ensures
        is_first_root(y, q, n),
    decreases x,
{
    let k = ((q - 1) / (2 * n as int)) as nat;
    if exists|z: int| 0 <= z < x && #[trigger] gives_root(z, k, n, q) {
        let z = choose|z: int| 0 <= z < x && #[trigger] gives_root(z, k, n, q);
        lemma_first_root(z, q, n)
    } else {
        x
    }
}

/// What the transform gives: the values of the polynomial at odd powers of a root of `X^n + 1`. The
/// root is the power to `(q - 1) / 2n` of the smallest residue for which that is a root. The first
/// value is that at the root itself, and each bit `t` of the index of a value adds `n / 2^t` to the
/// power.
pub proof fn lemma_transform_values(q: int, n: nat, p: Seq<int>) -> (r: (int, Seq<int>))
    requires
        has_transform(q, n),
        p.len() == n,
        ring::canonical(p, q),
    ensures
        ({
            let (x, powers) = r;
            let k = ((q - 1) / (2 * n as int)) as nat;
            let evals = NttBackendU64::evals_for(q, n, p);
            &&& 0 <= x < q
            &&& pow(pow(x, k), n) % q == (-1int) % q
            &&& forall|y: int| 0 <= y < x ==> pow(#[trigger] pow(y, k), n) % q != (-1int) % q
            &&& powers.len() == n
            &&& powers[0] == 1
            &&& forall|t: nat, i: int|
                0 <= i < pow2(t) && pow2(t) < n ==> #[trigger] powers[i + pow2(t)] == powers[i]
                    + n as int / pow2(t) as int
            &&& evals.len() == n
            &&& forall|i: int|
                0 <= i < n ==> #[trigger] evals[i] == value_at(
                    p,
                    pow(pow(x, k) % q, powers[i] as nat),
                ) % q
        }),
{
    let k = ((q - 1) / (2 * n as int)) as nat;
    let z = choose|z: int| 0 <= z < q && #[trigger] gives_root(z, k, n, q);
    let y = lemma_first_root(z, q, n);
    let x = choose|x: int| is_first_root(x, q, n);
    assert(is_first_root(x, q, n));
    assert forall|y: int| 0 <= y < x implies pow(#[trigger] pow(y, k), n) % q != (-1int) % q by {
        assert(!gives_root(y, k, n, q));
    }
    let psi = pow(x, k) % q;
    lemma_root_test(x, k, n, q);
    lemma_minus_one(q);
    let pw = root_powers(q, n);
    let powers = Seq::new(n, |i: int| leaf(n, n, n as int, i));
    let evals = NttBackendU64::evals_for(q, n, p);
    lemma_root_node(n);
    lemma_first_leaf(n, n);
    lemma_split_evals_canonical(pw, n, p, n as int, q);
    let b = lemma_is_pow2(n);
    lemma_mod_self_0(n as int);
    assert forall|t: nat, i: int| 0 <= i < pow2(t) && pow2(t) < n implies #[trigger] powers[i
        + pow2(t)] == powers[i] + n as int / pow2(t) as int by {
        if t >= b {
            if t > b {
                lemma_pow2_strictly_increases(b, t);
            }
            assert(false);
        }
        lemma_leaf_order(n, b, n as int, t, i);
    }
    assert forall|i: int| 0 <= i < n implies #[trigger] evals[i] == value_at(
        p,
        pow(psi, powers[i] as nat),
    ) % q by {
        lemma_split_values(pw, psi, n, p, n as int, q, i);
        lemma_small_mod(evals[i] as nat, q as nat);
    }
    (x, powers)
}

} // verus!
