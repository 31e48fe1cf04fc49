//! Rescaling of integers in double precision.
//!
//! A double is a number `m * 2^e` with 53 significant bits. Every operation is carried out
//! exactly and its result rounded to the closest double, to the even one of two that are equally
//! close. The numbers here come from machine words, so the exponents stay far from their limits.
use vstd::arithmetic::div_mod::*;
use vstd::arithmetic::mul::*;
use vstd::arithmetic::power2::*;
use vstd::prelude::*;

verus! {

/// The smallest number of 53 bits.
pub const LOW: u128 = 0x10_0000_0000_0000;

/// The smallest number of 54 bits.
pub const HIGH: u128 = 0x20_0000_0000_0000;

/// The integer closest to `n / d`, the even one of two.
pub open spec fn nearest(n: int, d: int) -> int {
    if 2 * (n % d) < d || (2 * (n % d) == d && (n / d) % 2 == 0) {
        n / d
    } else {
        n / d + 1
    }
}

/// The double `m * 2^e` closest to `n / d`, as `(m, e)`: `m` is the integer closest to
/// `n / d / 2^e` for the `e` that leaves 53 bits of it before the point.
pub open spec fn double(n: int, d: int) -> (int, int)
    decreases
            (if n >= HIGH * d {
                2int
            } else if n < LOW * d {
                1int
            } else {
                0int
            }),
            (if n >= HIGH * d {
                n - d
            } else {
                HIGH * d - n
            }),
{
    if n <= 0 || d <= 0 {
        (0, 0)
    } else if n >= HIGH * d {
        let r = double(n, 2 * d);
        (r.0, r.1 + 1)
    } else if n < LOW * d {
        let r = double(2 * n, d);
        (r.0, r.1 - 1)
    } else {
        (nearest(n, d), 0)
    }
}

/// The product of two doubles: a power of two stays out of the rounding.
pub open spec fn times(a: (int, int), b: (int, int)) -> (int, int) {
    let r = double(a.0 * b.0, 1);
    (r.0, r.1 + a.1 + b.1)
}

/// The quotient of two doubles.
pub open spec fn over(a: (int, int), b: (int, int)) -> (int, int) {
    let r = double(a.0, b.0);
    (r.0, r.1 + a.1 - b.1)
}

/// The largest integer not above a double.
pub open spec fn floor(x: (int, int)) -> int {
    if x.1 >= 0 {
        x.0 * pow2(x.1 as nat)
    } else {
        x.0 / pow2((-x.1) as nat) as int
    }
}

/// The integer closest to a double, the larger one of two.
pub open spec fn round(x: (int, int)) -> int {
    if x.1 >= 0 {
        x.0 * pow2(x.1 as nat)
    } else {
        (x.0 + pow2((-x.1 - 1) as nat)) / pow2((-x.1) as nat) as int
    }
}

/// `v * to / from` in double precision.
pub open spec fn rescaled(v: int, from: int, to: int) -> (int, int) {
    over(times(double(v, 1), double(to, 1)), double(from, 1))
}

/// `v * to / from` in double precision, rounded to the closest integer.
pub open spec fn rounded(v: int, from: int, to: int) -> int {
    round(rescaled(v, from, to))
}

/// `v * to / from` in double precision, rounded down.
pub open spec fn floored(v: int, from: int, to: int) -> int {
    floor(rescaled(v, from, to))
}

/// A double: `m * 2^e`.
#[derive(Clone, Copy)]
pub struct Double {
    m: u64,
    e: i128,
}

impl Double {
    pub closed spec fn pair(self) -> (int, int) {
        (self.m as int, self.e as int)
    }

    /// The largest integer not above, if it fits in a word.
    pub fn floor(self) -> (r: Option<u64>)
        ensures
            match r {
                Some(x) => x == floor(self.pair()),
                None => floor(self.pair()) > u64::MAX,
            },
    {
        if self.e >= 0 {
            shifted_up(self.m, self.e)
        } else {
            let k: i128 = -(self.e + 1);
            proof {
                lemma_pow2_pos(k as nat);
                lemma_pow2_unfold((k + 1) as nat);
                lemma_div_denominator(self.m as int, pow2(k as nat) as int, 2);
            }
            Some(shifted_down(self.m, k) / 2)
        }
    }

    /// The closest integer, if it fits in a word.
    pub fn round(self) -> (r: Option<u64>)
        ensures
            match r {
                Some(x) => x == round(self.pair()),
                None => round(self.pair()) > u64::MAX,
            },
    {
        if self.e >= 0 {
            shifted_up(self.m, self.e)
        } else {
            let k: i128 = -(self.e + 1);
            proof {
                let (m, h) = (self.m as int, pow2(k as nat) as int);
                lemma_pow2_pos(k as nat);
                lemma_pow2_unfold((k + 1) as nat);
                lemma_div_plus_one(m, h);
                lemma_div_denominator(m + h, h, 2);
            }
            let h: u64 = shifted_down(self.m, k);
            Some(h / 2 + h % 2)
        }
    }
}

proof fn lemma_div_plus_one(m: int, h: int)
    requires
        h > 0,
    ensures
        (m + h) / h == m / h + 1,
{
    lemma_fundamental_div_mod(m, h);
    lemma_mod_bound(m, h);
    assert(h * (m / h + 1) == h * (m / h) + h) by (nonlinear_arith);
    lemma_fundamental_div_mod_converse(m + h, h, m / h + 1, m % h);
}

fn shifted_up(m: u64, k: i128) -> (r: Option<u64>)
    requires
        k >= 0,
    ensures
        match r {
            Some(x) => x == m * pow2(k as nat),
            None => m * pow2(k as nat) > u64::MAX,
        },
{
    let mut x: u64 = m;
    let mut i: i128 = k;
    if m == 0 {
        return Some(0);
    }
    while i > 0
        invariant
            0 <= i,
            x > 0,
            x * pow2(i as nat) == m * pow2(k as nat),
        decreases i,
    {
        proof {
            let p = pow2((i - 1) as nat) as int;
            lemma_pow2_unfold(i as nat);
            lemma_pow2_pos((i - 1) as nat);
            assert(x * (2 * p) == (2 * x) * p) by (nonlinear_arith);
            assert((2 * x) * p >= 2 * x) by (nonlinear_arith)
                requires
                    x > 0,
                    p >= 1,
            ;
        }
        if x > u64::MAX / 2 {
            return None;
        }
        x = 2 * x;
        i = i - 1;
    }
    proof {
        lemma2_to64();
    }
    Some(x)
}

fn shifted_down(m: u64, k: i128) -> (r: u64)
    requires
        k >= 0,
    ensures
        r == m as int / pow2(k as nat) as int,
{
    let mut x: u64 = m;
    let mut i: i128 = k;
    while i > 0 && x > 0
        invariant
            0 <= i,
            x as int / pow2(i as nat) as int == m as int / pow2(k as nat) as int,
        decreases i,
    {
        proof {
            let p = pow2((i - 1) as nat) as int;
            lemma_pow2_unfold(i as nat);
            lemma_pow2_pos((i - 1) as nat);
            lemma_div_denominator(x as int, 2, p);
        }
        x = x / 2;
        i = i - 1;
    }
    proof {
        lemma2_to64();
        lemma_pow2_pos(i as nat);
        lemma_div_basics(x as int);
        if x == 0 {
            lemma_basic_div(0, pow2(i as nat) as int);
        }
    }
    x
}

/// The double closest to `n / d`, times `2^e`.
fn closest(n: u128, d: u128, e: i128) -> (r: Double)
    requires
        n <= HIGH * HIGH,
        0 < d <= HIGH,
        -8 * HIGH * HIGH <= e <= 8 * HIGH * HIGH,
    ensures
        r.pair() == (double(n as int, d as int).0, double(n as int, d as int).1 + e),
        n > 0 ==> LOW <= r.pair().0 <= HIGH,
        r.pair().0 <= HIGH,
        e - HIGH * HIGH <= r.pair().1 <= e + HIGH * HIGH,
{
    let (mut x, mut y): (u128, u128) = (n, d);
    let mut f: i128 = e;
    if n == 0 {
        return Double { m: 0, e };
    }
    proof {
        lemma_quotient(x as int, y as int);
    }
    while x / y >= HIGH
        invariant
            0 < x <= HIGH * HIGH,
            0 < y <= HIGH * HIGH,
            x == n,
            n > 0,
            -8 * HIGH * HIGH <= e <= 8 * HIGH * HIGH,
            e <= f,
            f - e < y,
            y <= HIGH || LOW * y <= x,
            double(n as int, d as int).1 + e == double(x as int, y as int).1 + f,
            double(n as int, d as int).0 == double(x as int, y as int).0,
        decreases HIGH * HIGH * 2 - y,
    {
        proof {
            lemma_quotient(x as int, y as int);
        }
        y = 2 * y;
        f = f + 1;
    }
    proof {
        lemma_quotient(x as int, y as int);
    }
    let ghost (y0, f0) = (y, f);
    while x / y < LOW
        invariant
            0 < x < HIGH * y,
            0 < y <= HIGH || LOW * y <= x,
            y == y0,
            0 < y <= HIGH * HIGH,
            -8 * HIGH * HIGH <= e <= 8 * HIGH * HIGH,
            e <= f0 < e + y,
            f <= f0,
            f0 - f <= x,
            y > HIGH ==> f == f0,
            double(n as int, d as int).1 + e == double(x as int, y as int).1 + f,
            double(n as int, d as int).0 == double(x as int, y as int).0,
        decreases HIGH * y - x,
    {
        proof {
            lemma_quotient(x as int, y as int);
        }
        x = 2 * x;
        f = f - 1;
    }
    proof {
        lemma_quotient(x as int, y as int);
    }
    let (a, r): (u128, u128) = (x / y, x % y);
    let m: u128 = if r < y - r || (r == y - r && a % 2 == 0) {
        a
    } else {
        a + 1
    };
    Double { m: m as u64, e: f }
}

/// How a quotient compares with the limits of 53 bits.
proof fn lemma_quotient(x: int, y: int)
    requires
        0 <= x,
        0 < y,
    ensures
        x / y >= HIGH <==> x >= HIGH * y,
        x / y < LOW <==> x < LOW * y,
        0 <= x % y < y,
{
    lemma_fundamental_div_mod(x, y);
    lemma_mod_bound(x, y);
    let a = x / y;
    assert(forall|c: int| #![trigger c * y] a >= c <==> x >= c * y) by {
        assert forall|c: int| #![trigger c * y] a >= c <==> x >= c * y by {
            assert(a >= c ==> y * a >= c * y) by (nonlinear_arith)
                requires
                    y > 0,
            ;
            assert(a < c ==> y * a + y <= c * y) by (nonlinear_arith)
                requires
                    y > 0,
            ;
        }
    }
}

/// `v * to / from` in double precision.
pub fn rescale(v: u64, from: u64, to: u64) -> (r: Double)
    requires
        from > 0,
    ensures
        r.pair() == rescaled(v as int, from as int, to as int),
{
    let a: Double = closest(v as u128, 1, 0);
    let b: Double = closest(to as u128, 1, 0);
    let c: Double = closest(from as u128, 1, 0);
    proof {
        let (x, y) = (a.m as int, b.m as int);
        assert(0 <= x * y <= HIGH * HIGH) by (nonlinear_arith)
            requires
                0 <= x <= HIGH,
                0 <= y <= HIGH,
        ;
    }
    let p: Double = closest(a.m as u128 * b.m as u128, 1, a.e + b.e);
    closest(p.m as u128, c.m as u128, p.e - c.e)
}

/// The value of a double in units of `2^-k`.
pub open spec fn value(x: (int, int), k: int) -> int {
    x.0 * pow2((x.1 + k) as nat)
}

/// The closest integer is not further than half.
proof fn lemma_nearest(n: int, d: int)
    requires
        d > 0,
    ensures
        -d <= 2 * (nearest(n, d) * d - n) <= d,
{
    lemma_fundamental_div_mod(n, d);
    lemma_mod_bound(n, d);
    assert((n / d) * d == d * (n / d)) by (nonlinear_arith);
    assert((n / d + 1) * d == d * (n / d) + d) by (nonlinear_arith);
}

/// Which scale a quotient is rounded at: `n * 2^b / (d * 2^a)` has 53 bits before the point.
proof fn lemma_double(n: int, d: int) -> (s: (nat, nat))
    requires
        n > 0,
        d > 0,
    ensures
        ({
            let (x, y) = (n * pow2(s.1), d * pow2(s.0));
            &&& y > 0
            &&& double(n, d) == (nearest(x, y), s.0 - s.1)
            &&& LOW * y <= x < HIGH * y
            &&& LOW <= double(n, d).0 <= HIGH
        }),
    decreases
            (if n >= HIGH * d {
                2int
            } else if n < LOW * d {
                1int
            } else {
                0int
            }),
            (if n >= HIGH * d {
                n - d
            } else {
                HIGH * d - n
            }),
{
    if n >= HIGH * d {
        let t = lemma_double(n, 2 * d);
        lemma_pow2_unfold(t.0 + 1);
        assert(pow2(t.0 + 1) == 2 * pow2(t.0));
        assert((2 * d) * pow2(t.0) == d * (2 * pow2(t.0))) by (nonlinear_arith);
        (t.0 + 1, t.1)
    } else if n < LOW * d {
        let t = lemma_double(2 * n, d);
        lemma_pow2_unfold(t.1 + 1);
        assert(pow2(t.1 + 1) == 2 * pow2(t.1));
        assert((2 * n) * pow2(t.1) == n * (2 * pow2(t.1))) by (nonlinear_arith);
        (t.0, t.1 + 1)
    } else {
        lemma2_to64();
        lemma_quotient(n, d);
        assert(n * pow2(0) == n && d * pow2(0) == d);
        assert(n / d < HIGH && n / d >= LOW);
        (0, 0)
    }
}

/// Rounding changes a number by at most one part in `2^53`.
proof fn lemma_relative(n: int, d: int, k: int)
    requires
        n >= 0,
        d > 0,
        k >= 0,
        double(n, d).1 + k >= 0,
    ensures
        ({
            let x = n * pow2(k as nat);
            -x <= HIGH * (value(double(n, d), k) * d - x) <= x
        }),
{
    let w = value(double(n, d), k);
    if n == 0 {
        assert(0 * pow2(k as nat) == 0 && w == 0) by {
            lemma_mul_basics(pow2(k as nat) as int);
            lemma_mul_basics(pow2((double(n, d).1 + k) as nat) as int);
        }
        lemma_mul_basics(d);
    } else {
        let (a, b) = lemma_double(n, d);
        let (x, y) = (n * pow2(b), d * pow2(a));
        let m = nearest(x, y);
        lemma_nearest(x, y);
        let (pa, pb, pk, pe) = (
            pow2(a) as int,
            pow2(b) as int,
            pow2(k as nat) as int,
            pow2((a - b + k) as nat) as int,
        );
        lemma_pow2_adds((a - b + k) as nat, b);
        lemma_pow2_adds(a, k as nat);
        assert((a - b + k) as nat + b == a + k as nat);
        lemma_pow2_pos(b);
        lemma_pow2_pos(k as nat);
        assert(pe * pb == pa * pk);
        assert((m * pe) * d * pb == m * (d * pa) * pk) by (nonlinear_arith)
            requires
                pe * pb == pa * pk,
        ;
        let (u, t) = ((m * pe) * d, n * pk);
        assert(t * pb == x * pk) by (nonlinear_arith)
            requires
                t == n * pk,
                x == n * pb,
        ;
        assert((u - t) * pb == (m * y - x) * pk) by (nonlinear_arith)
            requires
                u * pb == m * y * pk,
                t * pb == x * pk,
        ;
        let z = m * y - x;
        assert(-x <= HIGH * z <= x);
        assert(-t <= HIGH * (u - t) <= t) by (nonlinear_arith)
            requires
                -x <= HIGH * z <= x,
                (u - t) * pb == z * pk,
                t * pb == x * pk,
                pb > 0,
                pk > 0,
        ;
    }
}

/// A product of doubles is off by at most one part in `2^53`.
proof fn lemma_times(a: (int, int), b: (int, int), k: int)
    requires
        a.0 >= 0,
        b.0 >= 0,
        k >= 0,
        a.1 + k >= 0,
        b.1 + k >= 0,
        times(a, b).1 + k >= 0,
    ensures
        ({
            let ab = value(a, k) * value(b, k);
            -ab <= HIGH * (value(times(a, b), k) * pow2(k as nat) - ab) <= ab
        }),
{
    let (p, r) = (times(a, b), double(a.0 * b.0, 1));
    let (i, j) = ((a.1 + k) as nat, (b.1 + k) as nat);
    let (x, y, s, t) = (
        pow2(i) as int,
        pow2(j) as int,
        pow2(k as nat) as int,
        pow2((p.1 + k) as nat) as int,
    );
    assert(a.0 * b.0 >= 0) by (nonlinear_arith)
        requires
            a.0 >= 0,
            b.0 >= 0,
    ;
    lemma_relative(a.0 * b.0, 1, (i + j) as int);
    lemma_pow2_adds(i, j);
    lemma_pow2_adds((p.1 + k) as nat, k as nat);
    assert((p.1 + k) as nat + k as nat == (r.1 + (i + j)) as nat);
    assert((a.0 * x) * (b.0 * y) == (a.0 * b.0) * (x * y)) by (nonlinear_arith);
    assert((r.0 * t) * s == r.0 * (t * s)) by (nonlinear_arith);
}

/// A quotient of doubles is off by at most one part in `2^53`.
proof fn lemma_over(a: (int, int), b: (int, int), k: int)
    requires
        a.0 >= 0,
        b.0 > 0,
        k >= 0,
        a.1 + k >= 0,
        b.1 + k >= 0,
        over(a, b).1 + k >= 0,
    ensures
        ({
            let n = value(a, k) * pow2(k as nat);
            -n <= HIGH * (value(over(a, b), k) * value(b, k) - n) <= n
        }),
{
    let (q, r) = (over(a, b), double(a.0, b.0));
    let (i, j, l) = ((a.1 + k) as nat, (b.1 + k) as nat, (q.1 + k) as nat);
    let (x, y, s, t) = (
        pow2(i) as int,
        pow2(j) as int,
        pow2(k as nat) as int,
        pow2(l) as int,
    );
    lemma_relative(a.0, b.0, (i + k) as int);
    lemma_pow2_adds(i, k as nat);
    lemma_pow2_adds(l, j);
    assert(l + j == (r.1 + (i + k)) as nat);
    assert(a.0 * (x * s) == (a.0 * x) * s) by (nonlinear_arith);
    assert((r.0 * (t * y)) * b.0 == (r.0 * t) * (b.0 * y)) by (nonlinear_arith);
}

proof fn lemma_square(c: int, x: int, y: int)
    ensures
        (c * x) * (c * y) == c * (c * (x * y)),
{
    assert((c * x) * (c * y) == c * (c * (x * y))) by (nonlinear_arith);
}

/// What the errors of the five roundings of a rescaling come to.
proof fn lemma_errors(
    a: int,
    b: int,
    c: int,
    p: int,
    q: int,
    s: int,
    v: int,
    from: int,
    to: int,
)
    requires
        s > 0,
        v >= 0,
        to >= 0,
        from > 0,
        q >= 0,
        a >= 0,
        b >= 0,
        -(v * s) <= HIGH * (a - v * s) <= v * s,
        -(to * s) <= HIGH * (b - to * s) <= to * s,
        -(from * s) <= HIGH * (c - from * s) <= from * s,
        -(a * b) <= HIGH * (p * s - a * b) <= a * b,
        -(p * s) <= HIGH * (q * c - p * s) <= p * s,
    ensures
        -8 * (v * to * s) <= HIGH * (q * from - v * to * s) <= 8 * (v * to * s),
{
    let (x, y, z) = (v * s, to * s, from * s);
    // The product of the two factors.
    let (ab, xy) = (a * b, x * y);
    assert(0 <= x && 0 <= y) by (nonlinear_arith)
        requires
            x == v * s,
            y == to * s,
            v >= 0,
            to >= 0,
            s > 0,
    ;
    lemma_mul_upper_bound(
        0x20_0000_0000_0000 * a,
        0x20_0000_0000_0001 * x,
        0x20_0000_0000_0000 * b,
        0x20_0000_0000_0001 * y,
    );
    lemma_mul_upper_bound(
        0x1f_ffff_ffff_ffff * x,
        0x20_0000_0000_0000 * a,
        0x1f_ffff_ffff_ffff * y,
        0x20_0000_0000_0000 * b,
    );
    lemma_square(0x20_0000_0000_0000, a, b);
    lemma_square(0x20_0000_0000_0001, x, y);
    lemma_square(0x1f_ffff_ffff_ffff, x, y);
    // The quotient by the divisor.
    let (qc, qz) = (q * c, q * z);
    assert(0x1f_ffff_ffff_ffff * qz <= 0x20_0000_0000_0000 * qc <= 0x20_0000_0000_0001 * qz)
        by (nonlinear_arith)
        requires
            qz == q * z,
            qc == q * c,
            q >= 0,
            0x1f_ffff_ffff_ffff * z <= 0x20_0000_0000_0000 * c <= 0x20_0000_0000_0001 * z,
    ;
    let ps = p * s;
    assert(-8 * xy <= HIGH * (qz - xy) <= 8 * xy) by {
        lemma_error_bound(ab, xy, ps, qc, qz);
    }
    // Both sides hold a factor `s`.
    let (w, t) = (v * to * s, q * from);
    assert(xy == w * s) by (nonlinear_arith)
        requires
            xy == x * y,
            x == v * s,
            y == to * s,
            w == v * to * s,
    ;
    assert(qz == t * s) by (nonlinear_arith)
        requires
            qz == q * z,
            z == from * s,
            t == q * from,
    ;
    assert(-8 * w <= 0x20_0000_0000_0000 * (t - w) <= 8 * w) by (nonlinear_arith)
        requires
            -8 * (w * s) <= 0x20_0000_0000_0000 * (t * s - w * s) <= 8 * (w * s),
            s > 0,
    ;
}

/// The bounds of [`lemma_errors`] chained.
proof fn lemma_error_bound(ab: int, xy: int, ps: int, qc: int, qz: int)
    requires
        0x1f_ffff_ffff_ffff * (0x1f_ffff_ffff_ffff * xy) <= 0x20_0000_0000_0000 * (
        0x20_0000_0000_0000 * ab) <= 0x20_0000_0000_0001 * (0x20_0000_0000_0001 * xy),
        -ab <= 0x20_0000_0000_0000 * (ps - ab) <= ab,
        -ps <= 0x20_0000_0000_0000 * (qc - ps) <= ps,
        0x1f_ffff_ffff_ffff * qz <= 0x20_0000_0000_0000 * qc <= 0x20_0000_0000_0001 * qz,
        xy >= 0,
    ensures
        -8 * xy <= 0x20_0000_0000_0000 * (qz - xy) <= 8 * xy,
{
}

/// The parts of the double closest to a number are not negative, nor zero for a positive one.
proof fn lemma_significand(n: int, d: int)
    requires
        n >= 0,
        d > 0,
    ensures
        0 <= double(n, d).0 <= HIGH,
        n > 0 ==> double(n, d).0 > 0,
{
    if n > 0 {
        let s = lemma_double(n, d);
    }
}

spec fn magnitude(e: int) -> int {
    if e < 0 {
        -e
    } else {
        e
    }
}

/// A rescaled number is off by at most eight parts in `2^53`.
proof fn lemma_rescaled_value(v: int, from: int, to: int) -> (k: int)
    requires
        0 <= v,
        0 < from,
        0 <= to,
    ensures
        k >= 0,
        rescaled(v, from, to).1 + k >= 0,
        value(rescaled(v, from, to), k) >= 0,
        -8 * (v * to * pow2(k as nat)) <= HIGH * (value(rescaled(v, from, to), k) * from - v * to
            * pow2(k as nat)) <= 8 * (v * to * pow2(k as nat)),
{
    let (a, b, c) = (double(v, 1), double(to, 1), double(from, 1));
    let p = times(a, b);
    let q = rescaled(v, from, to);
    let k = magnitude(a.1) + magnitude(b.1) + magnitude(c.1) + magnitude(p.1) + magnitude(q.1);
    lemma_significand(v, 1);
    lemma_significand(to, 1);
    lemma_significand(from, 1);
    assert(a.0 * b.0 >= 0) by (nonlinear_arith)
        requires
            a.0 >= 0,
            b.0 >= 0,
    ;
    lemma_significand(a.0 * b.0, 1);
    lemma_significand(p.0, c.0);
    lemma_value_nonnegative(a, k);
    lemma_value_nonnegative(b, k);
    lemma_value_nonnegative(q, k);
    lemma_relative(v, 1, k);
    lemma_relative(to, 1, k);
    lemma_relative(from, 1, k);
    lemma_times(a, b, k);
    lemma_over(p, c, k);
    lemma_pow2_pos(k as nat);
    lemma_errors(
        value(a, k),
        value(b, k),
        value(c, k),
        value(p, k),
        value(q, k),
        pow2(k as nat) as int,
        v,
        from,
        to,
    );
    k
}

proof fn lemma_value_nonnegative(x: (int, int), k: int)
    requires
        x.0 >= 0,
    ensures
        value(x, k) >= 0,
{
    let p = pow2((x.1 + k) as nat) as int;
    assert(x.0 * p >= 0) by (nonlinear_arith)
        requires
            x.0 >= 0,
            p >= 0,
    ;
}

/// The integers next to a double.
proof fn lemma_integers(x: (int, int), k: int)
    requires
        k >= 0,
        x.1 + k >= 0,
    ensures
        ({
            let (y, s) = (value(x, k), pow2(k as nat));
            &&& floor(x) * s <= y < (floor(x) + 1) * s
            &&& -s < 2 * (round(x) * s - y) <= s
        }),
{
    let (y, s) = (value(x, k), pow2(k as nat) as int);
    lemma_pow2_pos(k as nat);
    if x.1 >= 0 {
        let t = pow2(x.1 as nat) as int;
        lemma_pow2_adds(x.1 as nat, k as nat);
        assert(x.1 as nat + k as nat == (x.1 + k) as nat);
        assert((x.0 * t) * s == x.0 * (t * s)) by (nonlinear_arith);
        assert((x.0 * t + 1) * s == (x.0 * t) * s + s) by (nonlinear_arith);
    } else {
        let e = (-x.1) as nat;
        let (p, h, t) = (
            pow2(e) as int,
            pow2((e - 1) as nat) as int,
            pow2((x.1 + k) as nat) as int,
        );
        lemma_pow2_unfold(e);
        lemma_pow2_pos(e);
        lemma_pow2_pos((x.1 + k) as nat);
        lemma_pow2_adds(e, (x.1 + k) as nat);
        assert(e + (x.1 + k) as nat == k as nat);
        let (f, r) = (x.0 / p, (x.0 + h) / p);
        lemma_fundamental_div_mod(x.0, p);
        lemma_mod_bound(x.0, p);
        lemma_fundamental_div_mod(x.0 + h, p);
        lemma_mod_bound(x.0 + h, p);
        assert(f * (p * t) <= x.0 * t < (f + 1) * (p * t)) by (nonlinear_arith)
            requires
                p * f <= x.0 < p * f + p,
                t > 0,
        ;
        assert(-(p * t) < 2 * (r * (p * t) - x.0 * t) <= p * t) by (nonlinear_arith)
            requires
                p * r <= x.0 + h < p * r + p,
                p == 2 * h,
                t > 0,
        ;
    }
}

/// For results below `2^48` the rescaling is off by at most a quarter: the closest integer is not
/// further than three quarters, and the integer rounded down stays above `x - 5/4` and at most
/// `x + 1/4`, for `x = v * to / from`.
pub proof fn lemma_rescaled_close(v: int, from: int, to: int)
    requires
        0 <= v,
        0 < from,
        0 <= to,
        32 * (v * to) <= HIGH * from,
    ensures
        -3 * from <= 4 * (rounded(v, from, to) * from - v * to) <= 3 * from,
        4 * (floored(v, from, to) * from) <= 4 * (v * to) + from,
        4 * (v * to) < 4 * (floored(v, from, to) * from) + 5 * from,
{
    let x = rescaled(v, from, to);
    let k = lemma_rescaled_value(v, from, to);
    lemma_integers(x, k);
    lemma_pow2_pos(k as nat);
    let (y, s, w) = (value(x, k), pow2(k as nat) as int, v * to);
    let (r, f) = (round(x), floor(x));
    // 4 |y from - w s| <= from s
    assert(32 * (w * s) <= 0x20_0000_0000_0000 * (from * s)) by (nonlinear_arith)
        requires
            32 * w <= 0x20_0000_0000_0000 * from,
            s > 0,
    ;
    let (yf, ws, fs) = (y * from, w * s, from * s);
    assert(-fs <= 4 * (yf - ws) <= fs);
    assert(-fs < 2 * (r * fs - yf) <= fs) by (nonlinear_arith)
        requires
            fs == from * s,
            yf == y * from,
            from > 0,
            -s < 2 * (r * s - y) <= s,
    ;
    assert(f * fs <= yf < f * fs + fs) by (nonlinear_arith)
        requires
            fs == from * s,
            yf == y * from,
            from > 0,
            f * s <= y < (f + 1) * s,
    ;
    assert(r * fs == (r * from) * s && f * fs == (f * from) * s) by (nonlinear_arith)
        requires
            fs == from * s,
    ;
    let (rf, ff) = (r * from, f * from);
    assert(-3 * from <= 4 * (rf - w) <= 3 * from) by (nonlinear_arith)
        requires
            -3 * (from * s) <= 4 * (rf * s - w * s) <= 3 * (from * s),
            s > 0,
    ;
    assert(4 * ff <= 4 * w + from && 4 * w < 4 * ff + 5 * from) by (nonlinear_arith)
        requires
            4 * (ff * s) <= 4 * (w * s) + from * s,
            4 * (w * s) < 4 * (ff * s) + 5 * (from * s),
            s > 0,
    ;
}

/// The range of rescaled residues: at most `to` where that has no more than 48 bits, and below it
/// when rounded down from a modulus of no more than 50 bits.
pub proof fn lemma_rescaled_range(v: int, from: int, to: int)
    requires
        0 <= v < from,
        0 <= to,
    ensures
        0 <= rounded(v, from, to),
        0 <= floored(v, from, to),
        32 * to <= HIGH ==> rounded(v, from, to) <= to,
        8 * from <= HIGH && 0 < to ==> floored(v, from, to) < to,
{
    let x = rescaled(v, from, to);
    let k = lemma_rescaled_value(v, from, to);
    lemma_integers(x, k);
    lemma_pow2_pos(k as nat);
    let (y, s, w) = (value(x, k), pow2(k as nat) as int, v * to);
    let (r, f) = (round(x), floor(x));
    assert(r >= 0 && f >= 0) by (nonlinear_arith)
        requires
            y >= 0,
            s > 0,
            2 * (r * s - y) > -s,
            y < (f + 1) * s,
    ;
    let (yf, ws, fs) = (y * from, w * s, from * s);
    if 32 * to <= HIGH {
        assert(0 <= w <= from * to) by (nonlinear_arith)
            requires
                w == v * to,
                0 <= v <= from,
                0 <= to,
        ;
        assert(0 <= ws <= (from * to) * s) by (nonlinear_arith)
            requires
                ws == w * s,
                0 <= w <= from * to,
                s > 0,
        ;
        let t = (from * to) * s;
        // y from <= from to s + 8 from to s / 2^53
        assert(32 * t <= 0x20_0000_0000_0000 * fs) by (nonlinear_arith)
            requires
                t == (from * to) * s,
                fs == from * s,
                32 * to <= 0x20_0000_0000_0000,
                from > 0,
                s > 0,
        ;
        assert(4 * yf <= 4 * t + fs);
        assert(4 * y <= (4 * to + 1) * s) by (nonlinear_arith)
            requires
                4 * (y * from) <= 4 * ((from * to) * s) + from * s,
                from > 0,
        ;
        assert(r <= to) by (nonlinear_arith)
            requires
                4 * y <= (4 * to + 1) * s,
                2 * (r * s - y) <= s,
                s > 0,
        ;
    }
    if 8 * from <= HIGH && 0 < to {
        let (t, ts) = ((from * to) * s, to * s);
        assert(ws <= t - ts && 0 < ts && 0 <= ws) by (nonlinear_arith)
            requires
                ws == v * to * s,
                t == (from * to) * s,
                ts == to * s,
                0 <= v <= from - 1,
                0 < to,
                s > 0,
        ;
        assert(8 * t <= 0x20_0000_0000_0000 * ts) by (nonlinear_arith)
            requires
                t == (from * to) * s,
                ts == to * s,
                8 * from <= 0x20_0000_0000_0000,
                0 < to,
                s > 0,
        ;
        assert(yf < t);
        assert(y < to * s) by (nonlinear_arith)
            requires
                y * from < (from * to) * s,
                from > 0,
        ;
        assert(f < to) by (nonlinear_arith)
            requires
                f * s <= y,
                y < to * s,
                s > 0,
        ;
    }
}

/// The rescaling of `v` makes no rounding error.
pub open spec fn is_exact(v: int, from: int, to: int) -> bool {
    let x = rescaled(v, from, to);
    exists|k: int|
        k >= 0 && x.1 + k >= 0 && #[trigger] value(x, k) * from == v * to * pow2(k as nat)
}

/// Without a rounding error the integers are the closest one and the largest one not above.
pub proof fn lemma_rescaled_exact(v: int, from: int, to: int)
    requires
        0 < from,
        is_exact(v, from, to),
    ensures
        -from < 2 * (rounded(v, from, to) * from - v * to) <= from,
        floored(v, from, to) * from <= v * to < (floored(v, from, to) + 1) * from,
{
    let x = rescaled(v, from, to);
    let k = choose|k: int|
        k >= 0 && x.1 + k >= 0 && #[trigger] value(x, k) * from == v * to * pow2(k as nat);
    lemma_integers(x, k);
    lemma_pow2_pos(k as nat);
    let (y, s, w) = (value(x, k), pow2(k as nat) as int, v * to);
    let (r, f) = (round(x), floor(x));
    assert(-(from * s) < 2 * (r * from - w) * s <= from * s) by (nonlinear_arith)
        requires
            y * from == w * s,
            from > 0,
            -s < 2 * (r * s - y) <= s,
    ;
    assert((f * from) * s <= w * s < ((f + 1) * from) * s) by (nonlinear_arith)
        requires
            y * from == w * s,
            from > 0,
            f * s <= y < (f + 1) * s,
    ;
    let (rf, ff, fg) = (2 * (r * from - w), f * from, (f + 1) * from);
    assert(-from < rf <= from && ff <= w < fg) by (nonlinear_arith)
        requires
            -(from * s) < rf * s <= from * s,
            ff * s <= w * s < fg * s,
            s > 0,
    ;
}

/// Rounding keeps the order.
proof fn lemma_nearest_monotone(n1: int, d1: int, n2: int, d2: int)
    requires
        d1 > 0,
        d2 > 0,
        n1 * d2 <= n2 * d1,
    ensures
        nearest(n1, d1) <= nearest(n2, d2),
{
    let (m1, m2) = (nearest(n1, d1), nearest(n2, d2));
    lemma_nearest(n1, d1);
    lemma_nearest(n2, d2);
    if m1 > m2 {
        // Both quotients are half above `m2`.
        let c = 2 * m2 + 1;
        assert(c * d1 <= 2 * n1) by (nonlinear_arith)
            requires
                2 * (m1 * d1 - n1) <= d1,
                m1 >= m2 + 1,
                c == 2 * m2 + 1,
                d1 > 0,
        ;
        assert(2 * n2 <= c * d2) by (nonlinear_arith)
            requires
                2 * (m2 * d2 - n2) >= -d2,
                c == 2 * m2 + 1,
                d2 > 0,
        ;
        assert((c * d1) * d2 <= 2 * (n1 * d2)) by (nonlinear_arith)
            requires
                c * d1 <= 2 * n1,
                d2 > 0,
        ;
        assert(2 * (n2 * d1) <= (c * d2) * d1) by (nonlinear_arith)
            requires
                2 * n2 <= c * d2,
                d1 > 0,
        ;
        assert((c * d1) * d2 == (c * d2) * d1) by (nonlinear_arith);
        assert(2 * n1 == c * d1) by (nonlinear_arith)
            requires
                c * d1 <= 2 * n1,
                (c * d1) * d2 == 2 * (n1 * d2),
                d2 > 0,
        ;
        assert(2 * n2 == c * d2) by (nonlinear_arith)
            requires
                2 * n2 <= c * d2,
                (c * d2) * d1 == 2 * (n2 * d1),
                d1 > 0,
        ;
        lemma_half(n1, d1, m2);
        lemma_half(n2, d2, m2);
    }
}

proof fn lemma_half(n: int, d: int, a: int)
    requires
        d > 0,
        2 * n == (2 * a + 1) * d,
    ensures
        n / d == a,
        2 * (n % d) == d,
{
    let r = n - a * d;
    assert(2 * r == d) by (nonlinear_arith)
        requires
            r == n - a * d,
            2 * n == (2 * a + 1) * d,
    ;
    assert(a * d == d * a) by (nonlinear_arith);
    lemma_fundamental_div_mod_converse(n, d, a, r);
}

/// Of two numbers `n / d * 2^s` the double closest to the larger one is not smaller.
proof fn lemma_double_monotone(n1: int, n2: int, d: int, s1: int, s2: int, k: int, l: int)
    requires
        n1 >= 0,
        n2 >= 0,
        d > 0,
        s1 + k >= 0,
        s2 + k >= 0,
        n1 * pow2((s1 + k) as nat) <= n2 * pow2((s2 + k) as nat),
        double(n1, d).1 + s1 + l >= 0,
        double(n2, d).1 + s2 + l >= 0,
    ensures
        value((double(n1, d).0, double(n1, d).1 + s1), l) <= value(
            (double(n2, d).0, double(n2, d).1 + s2),
            l,
        ),
{
    let (x1, x2) = (double(n1, d), double(n2, d));
    lemma_significand(n1, d);
    lemma_significand(n2, d);
    let (q1, q2) = (pow2((s1 + k) as nat) as int, pow2((s2 + k) as nat) as int);
    lemma_pow2_pos((s1 + k) as nat);
    lemma_pow2_pos((s2 + k) as nat);
    if n1 == 0 {
        lemma_value_nonnegative((x2.0, x2.1 + s2), l);
        lemma_mul_basics(pow2((x1.1 + s1 + l) as nat) as int);
    } else {
        assert(n2 > 0) by (nonlinear_arith)
            requires
                n1 > 0,
                q1 > 0,
                n1 * q1 <= n2 * q2,
                q2 > 0,
        ;
        let (a1, b1) = lemma_double(n1, d);
        let (a2, b2) = lemma_double(n2, d);
        let (e1, e2) = (x1.1 + s1, x2.1 + s2);
        let (t1, t2) = (pow2((e1 + l) as nat) as int, pow2((e2 + l) as nat) as int);
        lemma_pow2_pos((e1 + l) as nat);
        lemma_pow2_pos((e2 + l) as nat);
        if e1 < e2 {
            lemma_pow2_unfold((e1 + 1 + l) as nat);
            assert(2 * t1 <= t2) by {
                if e1 + 1 < e2 {
                    lemma_pow2_strictly_increases((e1 + 1 + l) as nat, (e2 + l) as nat);
                }
            }
            assert(x1.0 * t1 <= x2.0 * t2) by (nonlinear_arith)
                requires
                    x1.0 <= 0x20_0000_0000_0000,
                    0x10_0000_0000_0000 <= x2.0,
                    0 < t1,
                    2 * t1 <= t2,
            ;
        } else {
            let j = (e1 - e2) as nat;
            let (m1, c1) = (n1 * pow2(b1), d * pow2(a1));
            let (m2, c2) = (n2 * pow2(b2), d * pow2(a2));
            lemma_cross(n1, n2, d, s1, s2, k, a1, b1, a2, b2, j);
            if j > 0 {
                let p = pow2(j) as int;
                lemma_pow2_unfold(j);
                lemma_pow2_pos((j - 1) as nat);
                // 2^53 c1 c2 <= 2 m1 c2 <= m2 c1 < 2^53 c1 c2
                assert(false) by (nonlinear_arith)
                    requires
                        0x10_0000_0000_0000 * c1 <= m1,
                        m2 < 0x20_0000_0000_0000 * c2,
                        (m1 * c2) * p <= m2 * c1,
                        p >= 2,
                        c1 > 0,
                        c2 > 0,
                {
                    assert(0x10_0000_0000_0000 * (c1 * c2) <= m1 * c2);
                    assert(m1 * c2 >= 0);
                    assert(2 * (m1 * c2) <= (m1 * c2) * p);
                    assert(m2 * c1 < 0x20_0000_0000_0000 * (c2 * c1));
                }
            }
            lemma2_to64();
            lemma_mul_basics(m1 * c2);
            lemma_nearest_monotone(m1, c1, m2, c2);
            assert(x1.0 * t1 <= x2.0 * t1) by (nonlinear_arith)
                requires
                    x1.0 <= x2.0,
                    t1 > 0,
            ;
        }
    }
}

/// The order of two numbers, carried over to the scales that they are rounded at.
proof fn lemma_cross(
    n1: int,
    n2: int,
    d: int,
    s1: int,
    s2: int,
    k: int,
    a1: nat,
    b1: nat,
    a2: nat,
    b2: nat,
    j: nat,
)
    requires
        n1 >= 0,
        n2 >= 0,
        d > 0,
        s1 + k >= 0,
        s2 + k >= 0,
        n1 * pow2((s1 + k) as nat) <= n2 * pow2((s2 + k) as nat),
        j == (a1 - b1 + s1) - (a2 - b2 + s2),
    ensures
        ((n1 * pow2(b1)) * (d * pow2(a2))) * pow2(j) <= (n2 * pow2(b2)) * (d * pow2(a1)),
{
    let (p1, p2) = ((s1 + k) as nat, (s2 + k) as nat);
    let (q1, q2) = (pow2(p1) as int, pow2(p2) as int);
    let (x1, y1, x2, y2, z) = (
        pow2(a1) as int,
        pow2(b1) as int,
        pow2(a2) as int,
        pow2(b2) as int,
        pow2(j) as int,
    );
    lemma_pow2_pos(p2);
    lemma_pow2_pos(a1);
    lemma_pow2_pos(b2);
    // y1 x2 z q2 = x1 y2 q1
    lemma_pow2_adds(b1, a2);
    lemma_pow2_adds(b1 + a2, j);
    lemma_pow2_adds(b1 + a2 + j, p2);
    lemma_pow2_adds(a1, b2);
    lemma_pow2_adds(a1 + b2, p1);
    assert(b1 + a2 + j + p2 == a1 + b2 + p1);
    assert(((y1 * x2) * z) * q2 == (x1 * y2) * q1);
    let (l, r) = (((n1 * y1) * (d * x2)) * z, (n2 * y2) * (d * x1));
    assert((((n1 * y1) * (d * x2)) * z) * q2 == (n1 * d) * (((y1 * x2) * z) * q2))
        by (nonlinear_arith);
    assert((n1 * d) * ((x1 * y2) * q1) == (n1 * q1) * (d * (x1 * y2))) by (nonlinear_arith);
    assert(r * q2 == (n2 * q2) * (d * (x1 * y2))) by (nonlinear_arith)
        requires
            r == (n2 * y2) * (d * x1),
    ;
    assert((n1 * q1) * (d * (x1 * y2)) <= (n2 * q2) * (d * (x1 * y2))) by (nonlinear_arith)
        requires
            n1 * q1 <= n2 * q2,
            d > 0,
            x1 > 0,
            y2 > 0,
    {
        assert(x1 * y2 > 0);
        assert(d * (x1 * y2) > 0);
    }
    assert(l <= r) by (nonlinear_arith)
        requires
            l * q2 <= r * q2,
            q2 > 0,
    ;
}

/// A rescaled number does not get smaller when the number gets larger.
pub proof fn lemma_rescaled_monotone(v1: int, v2: int, from: int, to: int)
    requires
        0 <= v1 <= v2,
        0 < from,
        0 <= to,
    ensures
        rounded(v1, from, to) <= rounded(v2, from, to),
        floored(v1, from, to) <= floored(v2, from, to),
{
    let (b, c) = (double(to, 1), double(from, 1));
    let (a1, a2) = (double(v1, 1), double(v2, 1));
    let (p1, p2) = (times(a1, b), times(a2, b));
    let (q1, q2) = (over(p1, c), over(p2, c));
    let k = magnitude(a1.1) + magnitude(a2.1) + magnitude(b.1) + magnitude(c.1) + magnitude(p1.1)
        + magnitude(p2.1) + magnitude(q1.1) + magnitude(q2.1);
    lemma_significand(v1, 1);
    lemma_significand(v2, 1);
    lemma_significand(to, 1);
    lemma_significand(from, 1);
    lemma2_to64();
    assert(v1 * pow2(0) == v1 && v2 * pow2(0) == v2);
    lemma_double_monotone(v1, v2, 1, 0, 0, 0, k);
    assert(value(a1, k) <= value(a2, k));
    // Both sides times the factor.
    let (x1, x2) = (pow2((a1.1 + k) as nat) as int, pow2((a2.1 + k) as nat) as int);
    let y = pow2((b.1 + k) as nat) as int;
    lemma_pow2_adds((a1.1 + k) as nat, (b.1 + k) as nat);
    lemma_pow2_adds((a2.1 + k) as nat, (b.1 + k) as nat);
    assert((a1.1 + k) as nat + (b.1 + k) as nat == (a1.1 + b.1 + 2 * k) as nat);
    assert((a2.1 + k) as nat + (b.1 + k) as nat == (a2.1 + b.1 + 2 * k) as nat);
    let (m1, m2) = (a1.0 * b.0, a2.0 * b.0);
    assert(0 <= m1 && 0 <= m2 && m1 * (x1 * y) <= m2 * (x2 * y)) by (nonlinear_arith)
        requires
            m1 == a1.0 * b.0,
            m2 == a2.0 * b.0,
            a1.0 * x1 <= a2.0 * x2,
            a1.0 >= 0,
            a2.0 >= 0,
            b.0 >= 0,
            y >= 0,
    {
        assert((a1.0 * x1) * (b.0 * y) <= (a2.0 * x2) * (b.0 * y)) by {
            assert(b.0 * y >= 0);
        }
        assert((a1.0 * x1) * (b.0 * y) == m1 * (x1 * y));
        assert((a2.0 * x2) * (b.0 * y) == m2 * (x2 * y));
    }
    lemma_significand(m1, 1);
    lemma_significand(m2, 1);
    lemma_double_monotone(m1, m2, 1, a1.1 + b.1, a2.1 + b.1, 2 * k, k);
    assert(p1 == (double(m1, 1).0, double(m1, 1).1 + (a1.1 + b.1)));
    assert(p2 == (double(m2, 1).0, double(m2, 1).1 + (a2.1 + b.1)));
    assert(value(p1, k) <= value(p2, k));
    // Both sides by the divisor.
    assert((p1.1 - c.1 + (c.1 + k)) as nat == (p1.1 + k) as nat);
    assert((p2.1 - c.1 + (c.1 + k)) as nat == (p2.1 + k) as nat);
    lemma_double_monotone(p1.0, p2.0, c.0, p1.1 - c.1, p2.1 - c.1, c.1 + k, k);
    assert(q1 == (double(p1.0, c.0).0, double(p1.0, c.0).1 + (p1.1 - c.1)));
    assert(q2 == (double(p2.0, c.0).0, double(p2.0, c.0).1 + (p2.1 - c.1)));
    assert(value(q1, k) <= value(q2, k));
    lemma_integers(q1, k);
    lemma_integers(q2, k);
    lemma_pow2_pos(k as nat);
    let (s, w1, w2) = (pow2(k as nat) as int, value(q1, k), value(q2, k));
    let (f1, f2, r1, r2) = (floor(q1), floor(q2), round(q1), round(q2));
    assert(f1 <= f2) by (nonlinear_arith)
        requires
            f1 * s <= w1,
            w1 <= w2,
            w2 < (f2 + 1) * s,
            s > 0,
    ;
    assert(r1 <= r2) by (nonlinear_arith)
        requires
            2 * (r1 * s - w1) <= s,
            w1 <= w2,
            2 * (r2 * s - w2) > -s,
            s > 0,
    ;
}

/// A number `m * 2^(i - h)` of at most 53 bits is its own double.
proof fn lemma_double_exact(n: int, d: int, m: int, h: nat, i: nat, k: int)
    requires
        n >= 0,
        d > 0,
        0 <= m < HIGH,
        n * pow2(h) == (m * pow2(i)) * d,
        k >= 0,
        double(n, d).1 + k >= 0,
    ensures
        value(double(n, d), k) * d == n * pow2(k as nat),
{
    let (ph, pi) = (pow2(h) as int, pow2(i) as int);
    lemma_pow2_pos(h);
    lemma_pow2_pos(i);
    if n == 0 {
        lemma_mul_basics(pow2(k as nat) as int);
        lemma_mul_basics(pow2((double(n, d).1 + k) as nat) as int);
        lemma_mul_basics(d);
    } else {
        let (a, b) = lemma_double(n, d);
        let (pa, pb) = (pow2(a) as int, pow2(b) as int);
        let (x, y) = (n * pb, d * pa);
        lemma_pow2_pos(a);
        lemma_pow2_pos(b);
        // x 2^(a + h) = (m y) 2^(b + i)
        lemma_pow2_adds(a, h);
        lemma_pow2_adds(b, i);
        let (l, r) = (pow2(a + h) as int, pow2(b + i) as int);
        lemma_pow2_pos(a + h);
        lemma_pow2_pos(b + i);
        assert((n * pb) * (pa * ph) == ((n * ph) * pb) * pa) by (nonlinear_arith);
        assert((((m * pi) * d) * pb) * pa == (m * (d * pa)) * (pb * pi)) by (nonlinear_arith);
        assert(x * l == (m * y) * r);
        if a + h > b + i {
            // Then m has more than 53 bits.
            let t = pow2((a + h - b - i) as nat) as int;
            lemma_pow2_adds(b + i, (a + h - b - i) as nat);
            lemma_pow2_unfold((a + h - b - i) as nat);
            lemma_pow2_pos((a + h - b - i - 1) as nat);
            assert(x * t == m * y) by (nonlinear_arith)
                requires
                    x * (r * t) == (m * y) * r,
                    r > 0,
            ;
            assert(false) by (nonlinear_arith)
                requires
                    x * t == m * y,
                    0x10_0000_0000_0000 * y <= x,
                    y > 0,
                    t >= 2,
                    m < 0x20_0000_0000_0000,
            {
                assert(x * t >= 2 * x);
                assert(m * y < 0x20_0000_0000_0000 * y);
            }
        }
        let j = (b + i - a - h) as nat;
        let t = pow2(j) as int;
        lemma_pow2_adds(a + h, j);
        assert(x == (m * t) * y) by (nonlinear_arith)
            requires
                x * l == (m * y) * (l * t),
                l > 0,
        ;
        let c = m * t;
        assert(y * c == c * y) by (nonlinear_arith);
        lemma_fundamental_div_mod_converse(x, y, c, 0);
        assert(double(n, d).0 == c);
        // c 2^(a - b + k) d = n 2^k
        let (pe, pk) = (pow2((a - b + k) as nat) as int, pow2(k as nat) as int);
        lemma_pow2_adds((a - b + k) as nat, b);
        lemma_pow2_adds(a, k as nat);
        assert((a - b + k) as nat + b == a + k as nat);
        assert(((c * pe) * d) * pb == (c * (d * pa)) * pk) by (nonlinear_arith)
            requires
                pe * pb == pa * pk,
        ;
        assert((c * pe) * d == n * pk) by (nonlinear_arith)
            requires
                ((c * pe) * d) * pb == (n * pb) * pk,
                pb > 0,
        ;
    }
}

/// Integers of at most 53 bits are doubles.
proof fn lemma_integer(n: int, k: int)
    requires
        0 <= n < HIGH,
        k >= 0,
        double(n, 1).1 + k >= 0,
    ensures
        value(double(n, 1), k) == n * pow2(k as nat),
{
    lemma2_to64();
    assert(n * pow2(0) == n);
    lemma_double_exact(n, 1, n, 0, 0, k);
}

/// Where the numbers, their product and the quotient `v * to / from = m / 2^h` have at most 53
/// bits, the rescaling makes no rounding error.
pub proof fn lemma_is_exact(v: int, from: int, to: int, m: int, h: nat)
    requires
        0 <= v < HIGH,
        0 < from < HIGH,
        0 <= to < HIGH,
        0 <= v * to < HIGH,
        0 <= m < HIGH,
        v * to * pow2(h) == m * from,
    ensures
        is_exact(v, from, to),
{
    let (a, b, c) = (double(v, 1), double(to, 1), double(from, 1));
    let p = times(a, b);
    let q = rescaled(v, from, to);
    let k = magnitude(a.1) + magnitude(b.1) + magnitude(c.1) + magnitude(p.1) + magnitude(q.1);
    let s = pow2(k as nat) as int;
    lemma_significand(v, 1);
    lemma_significand(to, 1);
    lemma_significand(from, 1);
    lemma_pow2_pos(k as nat);
    lemma_integer(v, k);
    lemma_integer(to, k);
    lemma_integer(from, k);
    // The product.
    let (n, w, r) = (a.0 * b.0, v * to, double(a.0 * b.0, 1));
    let (i, j) = ((a.1 + k) as nat, (b.1 + k) as nat);
    let (x, y, t) = (pow2(i) as int, pow2(j) as int, pow2((p.1 + k) as nat) as int);
    lemma_pow2_adds(i, j);
    lemma_pow2_adds(k as nat, k as nat);
    assert(n * (x * y) == (a.0 * x) * (b.0 * y)) by (nonlinear_arith)
        requires
            n == a.0 * b.0,
    ;
    assert((v * s) * (to * s) == w * (s * s)) by (nonlinear_arith)
        requires
            w == v * to,
    ;
    assert(n >= 0) by (nonlinear_arith)
        requires
            n == a.0 * b.0,
            a.0 >= 0,
            b.0 >= 0,
    ;
    lemma_double_exact(n, 1, w, i + j, k as nat + k as nat, (i + j) as int);
    lemma_pow2_adds((p.1 + k) as nat, k as nat);
    assert((p.1 + k) as nat + k as nat == (r.1 + (i + j)) as nat);
    assert((r.0 * t) * s == r.0 * (t * s)) by (nonlinear_arith);
    assert(value(p, k) * s == w * (s * s));
    assert(value(p, k) == w * s) by (nonlinear_arith)
        requires
            value(p, k) * s == w * (s * s),
            s > 0,
    ;
    // The quotient.
    lemma_significand(n, 1);
    let (pp, pc, ph) = ((p.1 + k) as nat, (c.1 + k) as nat, pow2(h) as int);
    let z = pow2(pc) as int;
    lemma_pow2_adds(pp, h);
    assert(p.0 * (t * ph) == (m * z) * c.0) by (nonlinear_arith)
        requires
            p.0 * t == w * s,
            c.0 * z == from * s,
            w * ph == m * from,
    {
        assert(p.0 * (t * ph) == (p.0 * t) * ph);
        assert((w * s) * ph == (w * ph) * s);
        assert((m * from) * s == m * (from * s));
        assert(m * (c.0 * z) == (m * z) * c.0);
    }
    let (u, l) = (double(p.0, c.0), (q.1 + k) as nat);
    lemma_double_exact(p.0, c.0, m, pp + h, pc, (pp + k) as int);
    lemma_pow2_adds(pp, k as nat);
    lemma_pow2_adds(l, pc);
    assert(l + pc == (u.1 + (pp + k)) as nat);
    let o = pow2(l) as int;
    assert((u.0 * (o * z)) * c.0 == (u.0 * o) * (c.0 * z)) by (nonlinear_arith);
    assert(p.0 * (t * s) == (p.0 * t) * s) by (nonlinear_arith);
    let e = value(q, k);
    assert(e * (from * s) == (w * s) * s);
    assert(e * from == w * s) by (nonlinear_arith)
        requires
            e * (from * s) == (w * s) * s,
            s > 0,
    ;
}

/// The double for `n / d` is `m * 2^e` with an `m` of 53 bits, or the next power of two: the
/// closest to the quotient, and the even one of two that are equally close. Zero stays zero.
pub proof fn lemma_double_closest(n: int, d: int) -> (s: (nat, nat))
    requires
        n >= 0,
        d > 0,
    ensures
        n == 0 ==> double(n, d).0 == 0,
        n > 0 ==> {
            let (m, e) = double(n, d);
            let (x, y) = (n * pow2(s.1), d * pow2(s.0));
            &&& e == s.0 - s.1
            &&& y > 0
            &&& 0x10_0000_0000_0000 * y <= x < 0x20_0000_0000_0000 * y
            &&& 0x10_0000_0000_0000 <= m <= 0x20_0000_0000_0000
            &&& -y <= 2 * (m * y - x) <= y
            &&& 2 * (m * y - x) == y || 2 * (m * y - x) == -y ==> m % 2 == 0
        },
{
    if n == 0 {
        (0, 0)
    } else {
        let s = lemma_double(n, d);
        let (x, y) = (n * pow2(s.1), d * pow2(s.0));
        lemma_nearest(x, y);
        lemma_fundamental_div_mod(x, y);
        lemma_mod_bound(x, y);
        assert((x / y) * y == y * (x / y)) by (nonlinear_arith);
        assert((x / y + 1) * y == y * (x / y) + y) by (nonlinear_arith);
        s
    }
}

/// A number is rescaled by a product and then a quotient, each rounded once to a double: the
/// significands are multiplied or divided, and the exponents added or subtracted.
pub proof fn lemma_rescaled_steps(v: int, from: int, to: int)
    ensures
        ({
            let (a, b, c) = (double(v, 1), double(to, 1), double(from, 1));
            let p = double(a.0 * b.0, 1);
            let r = double(p.0, c.0);
            &&& rescaled(v, from, to) == (r.0, r.1 + (p.1 + a.1 + b.1) - c.1)
            &&& rounded(v, from, to) == round(rescaled(v, from, to))
            &&& floored(v, from, to) == floor(rescaled(v, from, to))
        }),
{
}

/// The integers next to `m * 2^e`: the largest one not above it, and the closest one, the larger
/// of two.
pub proof fn lemma_next_integers(m: int, e: int)
    ensures
        e >= 0 ==> floor((m, e)) == m * pow2(e as nat) && round((m, e)) == m * pow2(e as nat),
        e < 0 ==> {
            let s = pow2((-e) as nat);
            &&& floor((m, e)) * s <= m < (floor((m, e)) + 1) * s
            &&& -s < 2 * (round((m, e)) * s - m) <= s
        },
{
    if e < 0 {
        lemma_integers((m, e), -e);
        lemma2_to64();
        assert(value((m, e), -e) == m * 1);
    }
}

} // verus!
