//! Gadget decomposition: residues as combinations of fixed gadget factors with small digits.
use crate::backend::{self, Element};
use crate::ring;
use vstd::arithmetic::div_mod::*;
use vstd::arithmetic::mul::*;
use vstd::arithmetic::power::*;
use vstd::prelude::*;

verus! {

/// Splits residues into digits, one for each factor of a gadget.
pub trait Decomposer {
    type Element: Element;

    spec fn q(&self) -> int;

    spec fn wf(&self) -> bool;

    /// The number of digits.
    spec fn count(&self) -> nat;

    /// The digits of `v`.
    spec fn digits(&self, v: int) -> Seq<int>;

    /// The gadget factors.
    spec fn gadget(&self) -> Seq<int>;

    /// Digits and gadget factors are residues.
    proof fn lemma_digits(&self, v: int)
        requires
            self.wf(),
            0 <= v <= self.q(),
        ensures
            self.digits(v).len() == self.count(),
            ring::canonical(self.digits(v), self.q()),
            self.gadget().len() == self.count(),
            ring::canonical(self.gadget(), self.q()),
    ;

    fn decomposition_count(&self) -> (d: usize)
        requires
            self.wf(),
        ensures
            d == self.count(),
    ;

    fn gadget_vector(&self) -> (g: Vec<Self::Element>)
        requires
            self.wf(),
        ensures
            backend::vals(g@) == self.gadget(),
    ;

    /// The digits of a residue, or of the modulus itself.
    fn decompose(&self, v: &Self::Element) -> (r: Vec<Self::Element>)
        requires
            self.wf(),
            0 <= v.val() <= self.q(),
        ensures
            backend::vals(r@) == self.digits(v.val()),
    ;
}

/// The signed digits of a residue to a fixed base, lowest first.
///
/// A residue above half of the modulus stands for a negative number. Digits are at most half of
/// the base in magnitude, and a negative digit is handed out as its residue.
#[derive(Clone, Copy)]
pub struct DefaultDecomposer {
    pub q: u64,
    pub base: u64,
    pub count: usize,
}

impl DefaultDecomposer {
    pub fn new(q: u64, base: u64, count: usize) -> (r: DefaultDecomposer)
        requires
            2 <= base <= q,
        ensures
            r.wf(),
            r.q() == q,
            r.base == base,
            r.count() == count,
    {
        DefaultDecomposer { q, base, count }
    }

    /// The digit of `v` at position `j`, as a signed number.
    pub open spec fn signed_digit(&self, v: int, j: int) -> int {
        let (b, q) = (self.base as int, self.q as int);
        signed(v, q, low_digit(carried(magnitude(v, q), b, j), b))
    }
}

/// The remainder of `y` to `base` that is closest to zero; half of the base stays positive.
pub open spec fn low_digit(y: int, base: int) -> int {
    if 2 * (y % base) > base {
        y % base - base
    } else {
        y % base
    }
}

/// What is left of `x` once its `j` lowest digits are split off.
pub open spec fn carried(x: int, base: int, j: int) -> int
    decreases j,
{
    if j <= 0 {
        x
    } else {
        let y = carried(x, base, j - 1);
        (y - low_digit(y, base)) / base
    }
}

/// `x` with the sign of the number that the residue `v` stands for.
pub open spec fn signed(v: int, q: int, x: int) -> int {
    if backend::centered(v, q) < 0 {
        -x
    } else {
        x
    }
}

/// The magnitude of the number that the residue `v` stands for.
pub open spec fn magnitude(v: int, q: int) -> int {
    signed(v, q, backend::centered(v, q))
}

/// The sum of the first `j` digits, each times its gadget factor.
pub open spec fn recomposed(digits: Seq<int>, gadget: Seq<int>, j: int) -> int
    decreases j,
{
    if j <= 0 {
        0
    } else {
        recomposed(digits, gadget, j - 1) + digits[j - 1] * gadget[j - 1]
    }
}

impl Decomposer for DefaultDecomposer {
    type Element = u64;

    open spec fn q(&self) -> int {
        self.q as int
    }

    open spec fn wf(&self) -> bool {
        2 <= self.base <= self.q
    }

    open spec fn count(&self) -> nat {
        self.count as nat
    }

    open spec fn digits(&self, v: int) -> Seq<int> {
        Seq::new(self.count as nat, |j: int| self.signed_digit(v, j) % (self.q as int))
    }

    open spec fn gadget(&self) -> Seq<int> {
        Seq::new(self.count as nat, |j: int| pow(self.base as int, j as nat) % (self.q as int))
    }

    proof fn lemma_digits(&self, v: int) {
        let (b, q) = (self.base as int, self.q as int);
        assert forall|j: int| 0 <= j < self.count implies 0 <= #[trigger] self.digits(v)[j]
            < self.q by {
            lemma_mod_bound(self.signed_digit(v, j), q);
        }
        assert forall|j: int| 0 <= j < self.count implies 0 <= #[trigger] self.gadget()[j]
            < self.q by {
            lemma_mod_bound(pow(b, j as nat), q);
        }
    }

    fn decomposition_count(&self) -> usize {
        self.count
    }

    fn gadget_vector(&self) -> Vec<u64> {
        let mut g: Vec<u64> = Vec::new();
        let mut p: u64 = 1;
        proof {
            lemma_pow0(self.base as int);
            lemma_small_mod(1, self.q as nat);
        }
        for i in 0..self.count
            invariant
                self.wf(),
                g.len() == i,
                p < self.q,
                p == pow(self.base as int, i as nat) % (self.q as int),
                forall|j: int|
                    0 <= j < i ==> (#[trigger] g[j]).val() == pow(self.base as int, j as nat) % (
                    self.q as int),
        {
            g.push(p);
            proof {
                let (b, q) = (self.base as int, self.q as int);
                lemma_pow_adds(b, i as nat, 1);
                lemma_pow1(b);
                lemma_mul_mod_noop_left(pow(b, i as nat), b, q);
                lemma_mod_bound(p * b, q);
                assert(0 <= p * b <= 0xffff_ffff_ffff_ffff * 0xffff_ffff_ffff_ffff)
                    by (nonlinear_arith)
                    requires
                        0 <= p <= 0xffff_ffff_ffff_ffff,
                        0 <= b <= 0xffff_ffff_ffff_ffff,
                ;
            }
            p = ((p as u128 * self.base as u128) % self.q as u128) as u64;
        }
        assert(backend::vals(g@) =~= self.gadget());
        g
    }

    fn decompose(&self, v: &u64) -> Vec<u64> {
        let mut r: Vec<u64> = Vec::new();
        let negative: bool = *v > self.q / 2 && *v < self.q;
        let mut y: u64 = if *v > self.q / 2 {
            self.q - *v
        } else {
            *v
        };
        let ghost m = magnitude(*v as int, self.q as int);
        for i in 0..self.count
            invariant
                self.wf(),
                negative == (backend::centered(*v as int, self.q as int) < 0),
                m == magnitude(*v as int, self.q as int),
                r.len() == i,
                y <= self.q,
                y == carried(m, self.base as int, i as int),
                forall|j: int|
                    0 <= j < i ==> (#[trigger] r[j]).val() == self.signed_digit(*v as int, j) % (
                    self.q as int),
        {
            let low: u64 = y % self.base;
            let up: bool = low > self.base - low;
            let digit: u64 = if up {
                self.base - low
            } else {
                low
            };
            proof {
                lemma_carry(y as int, self.base as int);
                lemma_signed_residue(digit as int, self.q as int);
            }
            // Of the sign of the number and that of the digit, one alone makes it negative.
            r.push(
                if digit > 0 && negative != up {
                    self.q - digit
                } else {
                    digit
                },
            );
            y = if up {
                y / self.base + 1
            } else {
                y / self.base
            };
        }
        assert(backend::vals(r@) =~= self.digits(v.val()));
        r
    }
}

/// One digit split off: what is left, and how both add up again.
proof fn lemma_carry(y: int, base: int)
    requires
        0 <= y,
        2 <= base,
    ensures
        y == base * ((y - low_digit(y, base)) / base) + low_digit(y, base),
        (y - low_digit(y, base)) / base == if 2 * (y % base) > base {
            y / base + 1
        } else {
            y / base
        },
        0 <= (y - low_digit(y, base)) / base <= y,
        -base < 2 * low_digit(y, base) <= base,
{
    let (a, r) = (y / base, y % base);
    lemma_fundamental_div_mod(y, base);
    lemma_mod_bound(y, base);
    lemma_div_pos_is_pos(y, base);
    if 2 * r > base {
        assert(base * (a + 1) == base * a + base) by (nonlinear_arith);
        lemma_fundamental_div_mod_converse(y - low_digit(y, base), base, a + 1, 0);
        assert(a + 1 <= y) by (nonlinear_arith)
            requires
                y == base * a + r,
                2 <= base,
                0 <= a,
                2 * r > base,
        ;
    } else {
        lemma_fundamental_div_mod_converse(y - low_digit(y, base), base, a, 0);
        assert(a <= y) by (nonlinear_arith)
            requires
                y == base * a + r,
                2 <= base,
                0 <= a,
                0 <= r,
        ;
    }
}

/// The residues of a small number and of its negative.
proof fn lemma_signed_residue(d: int, q: int)
    requires
        0 <= d < q,
    ensures
        d % q == d,
        (-d) % q == if d == 0 {
            0
        } else {
            q - d
        },
{
    lemma_small_mod(d as nat, q as nat);
    if d > 0 {
        lemma_fundamental_div_mod_converse(-d, q, -1, q - d);
    }
}

/// What is left of a magnitude is never negative.
proof fn lemma_carried_nonnegative(x: int, base: int, j: int)
    requires
        0 <= x,
        2 <= base,
    ensures
        0 <= carried(x, base, j),
    decreases j,
{
    if j > 0 {
        lemma_carried_nonnegative(x, base, j - 1);
        lemma_carry(carried(x, base, j - 1), base);
    }
}

/// Digits are small: at most half of the base in magnitude.
pub proof fn lemma_digits_small(d: DefaultDecomposer, v: int, j: int)
    requires
        d.wf(),
        0 <= v <= d.q,
        0 <= j < d.count,
    ensures
        -d.base <= 2 * d.signed_digit(v, j) <= d.base,
        d.digits(v)[j] == d.signed_digit(v, j) % (d.q as int),
{
    let (b, q) = (d.base as int, d.q as int);
    lemma_carried_nonnegative(magnitude(v, q), b, j);
    lemma_carry(carried(magnitude(v, q), b, j), b);
}

/// What the first `j` digits recompose to.
proof fn lemma_recomposed_prefix(d: DefaultDecomposer, v: int, j: int)
    requires
        d.wf(),
        0 <= v <= d.q,
        0 <= j <= d.count,
    ensures
        ({
            let (b, q) = (d.base as int, d.q as int);
            let m = magnitude(v, q);
            recomposed(d.digits(v), d.gadget(), j) % q == signed(
                v,
                q,
                m - carried(m, b, j) * pow(b, j as nat),
            ) % q
        }),
    decreases j,
{
    let (b, q) = (d.base as int, d.q as int);
    let m = magnitude(v, q);
    if j == 0 {
        lemma_pow0(b);
        lemma_mul_basics(m);
    } else {
        lemma_recomposed_prefix(d, v, j - 1);
        let p = pow(b, (j - 1) as nat);
        let y = carried(m, b, j - 1);
        let (low, rest) = (low_digit(y, b), carried(m, b, j));
        lemma_carried_nonnegative(m, b, j - 1);
        lemma_carry(y, b);
        lemma_pow_adds(b, (j - 1) as nat, 1);
        lemma_pow1(b);
        assert(m - y * p + low * p == m - rest * (p * b)) by (nonlinear_arith)
            requires
                y == b * rest + low,
        ;
        assert((-low) * p == -(low * p)) by (nonlinear_arith);
        let (head, digit) = (signed(v, q, m - y * p), signed(v, q, low));
        let r = recomposed(d.digits(v), d.gadget(), j - 1);
        lemma_mul_mod_noop(digit, p, q);
        lemma_add_mod_noop(r, (digit % q) * (p % q), q);
        lemma_add_mod_noop(head, digit * p, q);
    }
}

/// Nothing is left of a number once enough digits are split off.
proof fn lemma_carried_to_zero(x: int, base: int, j: int, count: int)
    requires
        0 <= x,
        2 <= base,
        0 <= j <= count,
        2 * x <= pow(base, count as nat),
    ensures
        0 <= 2 * carried(x, base, j) <= pow(base, (count - j) as nat),
    decreases j,
{
    if j > 0 {
        lemma_carried_to_zero(x, base, j - 1, count);
        let y = carried(x, base, j - 1);
        let p = pow(base, (count - j) as nat);
        lemma_pow_adds(base, 1, (count - j) as nat);
        lemma_pow1(base);
        lemma_fundamental_div_mod(y, base);
        lemma_mod_bound(y, base);
        lemma_carry(y, base);
        let (a, r) = (y / base, y % base);
        if 2 * r > base {
            assert(2 * (a + 1) <= p) by (nonlinear_arith)
                requires
                    y == base * a + r,
                    2 * y <= base * p,
                    2 * r > base,
                    2 <= base,
            ;
        } else {
            assert(2 * a <= p) by (nonlinear_arith)
                requires
                    y == base * a + r,
                    2 * y <= base * p,
                    0 <= r,
                    2 <= base,
            ;
        }
    }
}

/// Enough digits recompose exactly: the sum of the digits, each times its gadget factor, is
/// congruent to the number that was decomposed.
pub proof fn lemma_recomposed(d: DefaultDecomposer, v: int)
    requires
        d.wf(),
        0 <= v <= d.q,
        2 * magnitude(v, d.q as int) <= pow(d.base as int, d.count as nat),
    ensures
        recomposed(d.digits(v), d.gadget(), d.count as int) % (d.q as int) == v % (d.q as int),
{
    let (b, q) = (d.base as int, d.q as int);
    let m = magnitude(v, q);
    lemma_recomposed_prefix(d, v, d.count as int);
    lemma_carried_to_zero(m, b, d.count as int, d.count as int);
    lemma_pow0(b);
    lemma_mul_basics(pow(b, d.count as nat));
    lemma_mod_multiples_vanish(-1, v, q);
}

/// The parts of a decomposer: one digit for each power of the base, all as residues.
pub proof fn lemma_digit_residues(d: DefaultDecomposer, v: int, j: int)
    requires
        0 <= j < d.count,
    ensures
        d.q() == d.q,
        d.count() == d.count,
        d.wf() <==> 2 <= d.base <= d.q,
        d.digits(v).len() == d.count,
        d.gadget().len() == d.count,
        d.digits(v)[j] == d.signed_digit(v, j) % (d.q as int),
        d.gadget()[j] == pow(d.base as int, j as nat) % (d.q as int),
{
}

/// Digits are at most half of the base in magnitude; half of the base itself has the sign of the
/// number that the residue stands for.
pub proof fn lemma_digit_signs(d: DefaultDecomposer, v: int, j: int)
    requires
        d.wf(),
        0 <= v <= d.q,
        0 <= j < d.count,
    ensures
        backend::centered(v, d.q as int) >= 0 ==> -d.base < 2 * d.signed_digit(v, j) <= d.base,
        backend::centered(v, d.q as int) < 0 ==> -d.base <= 2 * d.signed_digit(v, j) < d.base,
{
    let (b, q) = (d.base as int, d.q as int);
    lemma_carried_nonnegative(magnitude(v, q), b, j);
    lemma_carry(carried(magnitude(v, q), b, j), b);
}

/// The digits are split off one after the other, lowest first: the number that the residue stands
/// for is the first digit plus the base times a rest, that is the second digit plus the base times
/// a rest, and so on.
pub proof fn lemma_digit_chain(d: DefaultDecomposer, v: int) -> (rest: Seq<int>)
    requires
        d.wf(),
        0 <= v <= d.q,
    ensures
        rest.len() == d.count + 1,
        rest[0] == backend::centered(v, d.q as int),
        forall|j: int|
            0 <= j < d.count ==> #[trigger] rest[j] == d.signed_digit(v, j) + d.base * rest[j + 1],
{
    let (b, q) = (d.base as int, d.q as int);
    let m = magnitude(v, q);
    let rest = Seq::new((d.count + 1) as nat, |j: int| signed(v, q, carried(m, b, j)));
    assert forall|j: int| 0 <= j < d.count implies #[trigger] rest[j] == d.signed_digit(v, j)
        + d.base * rest[j + 1] by {
        let y = carried(m, b, j);
        lemma_carried_nonnegative(m, b, j);
        lemma_carry(y, b);
        let next = carried(m, b, j + 1);
        assert(next == (y - low_digit(y, b)) / b);
        assert(b * (-next) == -(b * next)) by (nonlinear_arith);
    }
    rest
}

/// What digits recompose to is made of one product for each digit.
pub proof fn lemma_recomposed_terms(digits: Seq<int>, gadget: Seq<int>, j: int)
    requires
        j >= 0,
    ensures
        recomposed(digits, gadget, 0) == 0,
        recomposed(digits, gadget, j + 1) == recomposed(digits, gadget, j) + digits[j] * gadget[j],
{
}

} // verus!
