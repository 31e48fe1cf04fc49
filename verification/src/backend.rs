//! Modular arithmetic: the traits that the algorithms are generic over, and their
//! implementation on `u64` residues.
use crate::double;
use crate::ring;
use vstd::arithmetic::div_mod::*;
use vstd::prelude::*;

verus! {

/// A machine word that holds a residue.
pub trait Element: Copy + Sized {
    /// The integer that the word stands for.
    spec fn val(self) -> int;

    /// The word that stands for zero.
    fn zero() -> (r: Self)
        ensures
            r.val() == 0,
    ;
}

/// The integers that a sequence of words stands for.
pub open spec fn vals<E: Element>(s: Seq<E>) -> Seq<int> {
    Seq::new(s.len(), |i: int| s[i].val())
}

/// The integers that the rows of a matrix stand for.
pub open spec fn mat<E: Element>(m: Seq<Vec<E>>) -> Seq<Seq<int>> {
    Seq::new(m.len(), |i: int| vals(m[i]@))
}

/// Every row has `cols` entries, each a residue in `0..q`.
pub open spec fn rows_canonical(m: Seq<Seq<int>>, cols: nat, q: int) -> bool {
    forall|i: int|
        0 <= i < m.len() ==> (#[trigger] m[i]).len() == cols && ring::canonical(m[i], q)
}

/// The representative of the residue `v` that is closest to zero: residues above half of the
/// modulus stand for negative numbers.
pub open spec fn centered(v: int, q: int) -> int {
    if v > q / 2 {
        v - q
    } else {
        v
    }
}

/// The residues of signed numbers.
pub open spec fn residues(s: Seq<i32>, q: int) -> Seq<int> {
    Seq::new(s.len(), |i: int| s[i] as int % q)
}

/// Every number is smaller than `q` in absolute value.
pub open spec fn within(s: Seq<i32>, q: int) -> bool {
    forall|i: int| 0 <= i < s.len() ==> -q < #[trigger] s[i] < q
}

/// A ciphertext modulus.
pub trait Modulus: Sized {
    type Element: Element;

    /// The modulus as an integer.
    spec fn q(&self) -> int;

    /// What the implementation needs of the modulus.
    spec fn wf(&self) -> bool;

    proof fn lemma_positive(&self)
        requires
            self.wf(),
        ensures
            self.q() > 0,
    ;

    /// The residue of a signed number.
    fn map_element_from_i64(&self, v: i64) -> (r: Self::Element)
        requires
            self.wf(),
            -self.q() < v < self.q(),
        ensures
            r.val() == v as int % self.q(),
    ;

    /// The signed number closest to zero with the given residue.
    fn map_element_to_i64(&self, v: &Self::Element) -> (r: i64)
        requires
            self.wf(),
            0 <= v.val() < self.q(),
        ensures
            r == centered(v.val(), self.q()),
    ;

    /// Rescales a number from this modulus to `to`, in double precision, to the closest integer.
    fn switch_rounded(&self, v: &Self::Element, to: &Self) -> (r: Self::Element)
        requires
            self.wf(),
            to.wf(),
            0 <= v.val(),
            double::rounded(v.val(), self.q(), to.q()) <= to.q(),
        ensures
            r.val() == double::rounded(v.val(), self.q(), to.q()),
    ;

    /// Rescales a number from this modulus to `to`, in double precision, and rounds it down.
    fn switch_floored(&self, v: &Self::Element, to: usize) -> (r: usize)
        requires
            self.wf(),
            0 <= v.val(),
            double::floored(v.val(), self.q(), to as int) <= usize::MAX,
        ensures
            r == double::floored(v.val(), self.q(), to as int),
    ;
}

/// Something that works modulo a fixed `q`.
pub trait Residues {
    type Element: Element;

    spec fn q(&self) -> int;

    spec fn wf(&self) -> bool;

    proof fn lemma_q_positive(&self)
        requires
            self.wf(),
        ensures
            self.q() > 0,
    ;
}

/// Access to the modulus of an operator.
pub trait GetModulus: Residues {
    type M: Modulus<Element = Self::Element>;

    fn modulus(&self) -> (m: &Self::M)
        requires
            self.wf(),
        ensures
            m.wf(),
            m.q() == self.q(),
    ;
}

/// Operators that are built from a modulus.
pub trait ModInit: GetModulus + Sized {
    fn new(q: Self::M) -> (r: Self)
        requires
            q.wf(),
        ensures
            r.wf(),
            r.q() == q.q(),
    ;
}

/// Arithmetic on single residues. A summand may also be the modulus itself.
pub trait ArithmeticOps: Residues {
    fn add(&self, a: &Self::Element, b: &Self::Element) -> (r: Self::Element)
        requires
            self.wf(),
            0 <= a.val() <= self.q(),
            0 <= b.val() <= self.q(),
        ensures
            r.val() == (a.val() + b.val()) % self.q(),
    ;

    fn sub(&self, a: &Self::Element, b: &Self::Element) -> (r: Self::Element)
        requires
            self.wf(),
            0 <= a.val() < self.q(),
            0 <= b.val() < self.q(),
        ensures
            r.val() == (a.val() - b.val()) % self.q(),
    ;

    fn mul(&self, a: &Self::Element, b: &Self::Element) -> (r: Self::Element)
        requires
            self.wf(),
            0 <= a.val() < self.q(),
            0 <= b.val() < self.q(),
        ensures
            r.val() == (a.val() * b.val()) % self.q(),
    ;

    fn neg(&self, a: &Self::Element) -> (r: Self::Element)
        requires
            self.wf(),
            0 <= a.val() < self.q(),
        ensures
            r.val() == (-a.val()) % self.q(),
    ;
}

/// Arithmetic on slices of residues.
pub trait VectorOps: Residues {
    fn elwise_scalar_mul(
        &self,
        out: &mut [Self::Element],
        a: &[Self::Element],
        b: &Self::Element,
    )
        requires
            self.wf(),
            old(out).len() == a.len(),
            ring::canonical(vals(a@), self.q()),
            0 <= b.val() < self.q(),
        ensures
            vals(final(out)@) == ring::poly_scale(b.val(), vals(a@), self.q()),
    ;

    fn elwise_add_mut(&self, a: &mut [Self::Element], b: &[Self::Element])
        requires
            self.wf(),
            old(a).len() == b.len(),
            ring::canonical(vals(old(a)@), self.q()),
            ring::canonical(vals(b@), self.q()),
        ensures
            vals(final(a)@) == ring::poly_add(vals(old(a)@), vals(b@), self.q()),
    ;

    fn elwise_sub_mut(&self, a: &mut [Self::Element], b: &[Self::Element])
        requires
            self.wf(),
            old(a).len() == b.len(),
            ring::canonical(vals(old(a)@), self.q()),
            ring::canonical(vals(b@), self.q()),
        ensures
            vals(final(a)@) == ring::poly_sub(vals(old(a)@), vals(b@), self.q()),
    ;

    fn elwise_mul_mut(&self, a: &mut [Self::Element], b: &[Self::Element])
        requires
            self.wf(),
            old(a).len() == b.len(),
            ring::canonical(vals(old(a)@), self.q()),
            ring::canonical(vals(b@), self.q()),
        ensures
            vals(final(a)@) == ring::pointwise(vals(old(a)@), vals(b@), self.q()),
    ;

    fn elwise_scalar_mul_mut(&self, a: &mut [Self::Element], b: &Self::Element)
        requires
            self.wf(),
            ring::canonical(vals(old(a)@), self.q()),
            0 <= b.val() < self.q(),
        ensures
            vals(final(a)@) == ring::poly_scale(b.val(), vals(old(a)@), self.q()),
    ;

    fn elwise_neg_mut(&self, a: &mut [Self::Element])
        requires
            self.wf(),
            ring::canonical(vals(old(a)@), self.q()),
        ensures
            vals(final(a)@) == ring::poly_neg(vals(old(a)@), self.q()),
    ;

    /// Adds `b * c` to `a`.
    fn elwise_fma_scalar_mut(
        &self,
        a: &mut [Self::Element],
        b: &[Self::Element],
        c: &Self::Element,
    )
        requires
            self.wf(),
            old(a).len() == b.len(),
            ring::canonical(vals(old(a)@), self.q()),
            ring::canonical(vals(b@), self.q()),
            0 <= c.val() < self.q(),
        ensures
            vals(final(a)@) == ring::poly_add(
                vals(old(a)@),
                ring::poly_scale(c.val(), vals(b@), self.q()),
                self.q(),
            ),
    ;

    /// Adds the entry-by-entry product of `b` and `c` to `a`.
    fn elwise_fma_mut(&self, a: &mut [Self::Element], b: &[Self::Element], c: &[Self::Element])
        requires
            self.wf(),
            old(a).len() == b.len(),
            c.len() == b.len(),
            ring::canonical(vals(old(a)@), self.q()),
            ring::canonical(vals(b@), self.q()),
            ring::canonical(vals(c@), self.q()),
        ensures
            vals(final(a)@) == ring::poly_add(
                vals(old(a)@),
                ring::pointwise(vals(b@), vals(c@), self.q()),
                self.q(),
            ),
    ;
}

/// Multiplication by fixed factors through a value precomputed from each factor (Shoup's method).
pub trait ShoupMatrixFMA: Residues {
    /// The value precomputed from the factor `w`.
    spec fn shoup(&self, w: int) -> int;

    fn shoup_repr(&self, w: &Self::Element) -> (r: Self::Element)
        requires
            self.wf(),
            0 <= w.val() < self.q(),
        ensures
            r.val() == self.shoup(w.val()),
    ;

    /// Adds the entry-by-entry product of `b` and `c` to `a`, given what was precomputed from `b`.
    fn shoup_fma_mut(
        &self,
        a: &mut [Self::Element],
        b: &[Self::Element],
        b_shoup: &[Self::Element],
        c: &[Self::Element],
    )
        requires
            self.wf(),
            old(a).len() == b.len(),
            b_shoup.len() == b.len(),
            c.len() == b.len(),
            ring::canonical(vals(old(a)@), self.q()),
            ring::canonical(vals(b@), self.q()),
            ring::canonical(vals(c@), self.q()),
            forall|i: int|
                0 <= i < b.len() ==> (#[trigger] b_shoup[i]).val() == self.shoup(b[i].val()),
        ensures
            vals(final(a)@) == ring::poly_add(
                vals(old(a)@),
                ring::pointwise(vals(b@), vals(c@), self.q()),
                self.q(),
            ),
    ;
}

/// The word that `num_traits::Zero::zero` gives for `u64`: the integer zero.
#[verifier::external_body]
fn zero_u64() -> (r: u64)
    ensures
        r == 0,
{
    num_traits::Zero::zero()
}

impl Element for u64 {
    open spec fn val(self) -> int {
        self as int
    }

    fn zero() -> u64 {
        zero_u64()
    }
}

/// A ciphertext modulus that fits in a `u64`.
#[derive(Clone, Copy)]
pub struct CiphertextModulus {
    pub q: u64,
}

impl CiphertextModulus {
    pub fn new_non_native(q: u64) -> (r: CiphertextModulus)
        requires
            q > 0,
        ensures
            r.wf(),
            r.q() == q,
    {
        CiphertextModulus { q }
    }
}

impl Modulus for CiphertextModulus {
    type Element = u64;

    open spec fn q(&self) -> int {
        self.q as int
    }

    open spec fn wf(&self) -> bool {
        self.q > 0
    }

    proof fn lemma_positive(&self) {
    }

    fn map_element_from_i64(&self, v: i64) -> u64 {
        if v < 0 {
            let r: u64 = (self.q as i128 + v as i128) as u64;
            proof {
                lemma_mod_add_multiples_vanish(v as int, self.q as int);
                lemma_small_mod(r as nat, self.q as nat);
            }
            r
        } else {
            proof {
                lemma_small_mod(v as nat, self.q as nat);
            }
            v as u64
        }
    }

    fn map_element_to_i64(&self, v: &u64) -> i64 {
        if *v > self.q / 2 {
            (*v as i128 - self.q as i128) as i64
        } else {
            *v as i64
        }
    }

    fn switch_rounded(&self, v: &u64, to: &CiphertextModulus) -> u64 {
        match double::rescale(*v, self.q, to.q).round() {
            Some(r) => r,
            None => {
                assert(false);
                0
            },
        }
    }

    fn switch_floored(&self, v: &u64, to: usize) -> usize {
        match double::rescale(*v, self.q, to as u64).floor() {
            Some(r) => r as usize,
            None => {
                assert(false);
                0
            },
        }
    }
}

/// Arithmetic modulo a `u64`.
#[derive(Clone, Copy)]
pub struct ModularOpsU64 {
    pub modulus: CiphertextModulus,
}

impl Residues for ModularOpsU64 {
    type Element = u64;

    open spec fn q(&self) -> int {
        self.modulus.q as int
    }

    open spec fn wf(&self) -> bool {
        self.modulus.q > 0
    }

    proof fn lemma_q_positive(&self) {
    }
}

impl GetModulus for ModularOpsU64 {
    type M = CiphertextModulus;

    fn modulus(&self) -> &CiphertextModulus {
        &self.modulus
    }
}

impl ModInit for ModularOpsU64 {
    fn new(q: CiphertextModulus) -> ModularOpsU64 {
        ModularOpsU64 { modulus: q }
    }
}

impl ArithmeticOps for ModularOpsU64 {
    fn add(&self, a: &u64, b: &u64) -> u64 {
        let q: u128 = self.modulus.q as u128;
        let s: u128 = *a as u128 + *b as u128;
        proof {
            lemma_small_mod(0, q as nat);
            if s < q {
                lemma_small_mod(s as nat, q as nat);
            } else if s < 2 * q {
                lemma_fundamental_div_mod_converse(s as int, q as int, 1, s - q);
            } else {
                lemma_fundamental_div_mod_converse(s as int, q as int, 2, 0);
            }
        }
        if s < q {
            s as u64
        } else if s < q + q {
            (s - q) as u64
        } else {
            0
        }
    }

    fn sub(&self, a: &u64, b: &u64) -> u64 {
        let q: u64 = self.modulus.q;
        if *a >= *b {
            proof {
                lemma_small_mod((*a - *b) as nat, q as nat);
            }
            *a - *b
        } else {
            proof {
                lemma_mod_add_multiples_vanish(*a - *b, q as int);
                lemma_small_mod((q + *a - *b) as nat, q as nat);
            }
            q - (*b - *a)
        }
    }

    fn mul(&self, a: &u64, b: &u64) -> u64 {
        proof {
            lemma_mul_u64(*a, *b);
            lemma_mod_bound(*a * *b, self.q());
        }
        ((*a as u128 * *b as u128) % self.modulus.q as u128) as u64
    }

    fn neg(&self, a: &u64) -> u64 {
        let q: u64 = self.modulus.q;
        if *a == 0 {
            proof {
                lemma_small_mod(0, q as nat);
            }
            0
        } else {
            proof {
                lemma_mod_add_multiples_vanish(-(*a as int), q as int);
                lemma_small_mod((q - *a) as nat, q as nat);
            }
            q - *a
        }
    }
}

impl VectorOps for ModularOpsU64 {
    fn elwise_scalar_mul(&self, out: &mut [u64], a: &[u64], b: &u64) {
        let n: usize = out.len();
        let ghost orig = out@;
        for i in 0..n
            invariant
                self.wf(),
                n == out.len() == orig.len(),
                a.len() == n,
                ring::canonical(vals(a@), self.q()),
                0 <= b.val() < self.q(),
                forall|j: int|
                    0 <= j < i ==> (#[trigger] out[j]).val() == (b.val() * a[j].val()) % self.q(),
        {
            proof {
                assert(vals(a@)[i as int] == a[i as int].val());
            }
            out[i] = self.mul(b, &a[i]);
        }
        assert(vals(out@) =~= ring::poly_scale(b.val(), vals(a@), self.q()));
    }

    fn elwise_add_mut(&self, a: &mut [u64], b: &[u64]) {
        let n: usize = a.len();
        let ghost orig = a@;
        for i in 0..n
            invariant
                self.wf(),
                n == a.len() == orig.len(),
                b.len() == n,
                ring::canonical(vals(b@), self.q()),
                ring::canonical(vals(orig), self.q()),
                forall|j: int| i <= j < n ==> #[trigger] a[j] == orig[j],
                forall|j: int|
                    0 <= j < i ==> (#[trigger] a[j]).val() == (orig[j].val() + b[j].val())
                        % self.q(),
        {
            proof {
                assert(vals(b@)[i as int] == b[i as int].val());
                assert(vals(orig)[i as int] == orig[i as int].val());
            }
            a[i] = self.add(&a[i], &b[i]);
        }
        assert(vals(a@) =~= ring::poly_add(vals(orig), vals(b@), self.q()));
    }

    fn elwise_sub_mut(&self, a: &mut [u64], b: &[u64]) {
        let n: usize = a.len();
        let ghost orig = a@;
        for i in 0..n
            invariant
                self.wf(),
                n == a.len() == orig.len(),
                b.len() == n,
                ring::canonical(vals(b@), self.q()),
                ring::canonical(vals(orig), self.q()),
                forall|j: int| i <= j < n ==> #[trigger] a[j] == orig[j],
                forall|j: int|
                    0 <= j < i ==> (#[trigger] a[j]).val() == (orig[j].val() - b[j].val())
                        % self.q(),
        {
            proof {
                assert(vals(b@)[i as int] == b[i as int].val());
                assert(vals(orig)[i as int] == orig[i as int].val());
            }
            a[i] = self.sub(&a[i], &b[i]);
        }
        assert(vals(a@) =~= ring::poly_sub(vals(orig), vals(b@), self.q()));
    }

    fn elwise_mul_mut(&self, a: &mut [u64], b: &[u64]) {
        let n: usize = a.len();
        let ghost orig = a@;
        for i in 0..n
            invariant
                self.wf(),
                n == a.len() == orig.len(),
                b.len() == n,
                ring::canonical(vals(b@), self.q()),
                ring::canonical(vals(orig), self.q()),
                forall|j: int| i <= j < n ==> #[trigger] a[j] == orig[j],
                forall|j: int|
                    0 <= j < i ==> (#[trigger] a[j]).val() == (orig[j].val() * b[j].val())
                        % self.q(),
        {
            proof {
                assert(vals(b@)[i as int] == b[i as int].val());
                assert(vals(orig)[i as int] == orig[i as int].val());
            }
            a[i] = self.mul(&a[i], &b[i]);
        }
        assert(vals(a@) =~= ring::pointwise(vals(orig), vals(b@), self.q()));
    }

    fn elwise_scalar_mul_mut(&self, a: &mut [u64], b: &u64) {
        let n: usize = a.len();
        let ghost orig = a@;
        for i in 0..n
            invariant
                self.wf(),
                n == a.len() == orig.len(),
                ring::canonical(vals(orig), self.q()),
                forall|j: int| i <= j < n ==> #[trigger] a[j] == orig[j],
                0 <= b.val() < self.q(),
                forall|j: int|
                    0 <= j < i ==> (#[trigger] a[j]).val() == (b.val() * orig[j].val()) % self.q(),
        {
            proof {
                assert(vals(orig)[i as int] == orig[i as int].val());
            }
            a[i] = self.mul(b, &a[i]);
        }
        assert(vals(a@) =~= ring::poly_scale(b.val(), vals(orig), self.q()));
    }

    fn elwise_neg_mut(&self, a: &mut [u64]) {
        let n: usize = a.len();
        let ghost orig = a@;
        for i in 0..n
            invariant
                self.wf(),
                n == a.len() == orig.len(),
                ring::canonical(vals(orig), self.q()),
                forall|j: int| i <= j < n ==> #[trigger] a[j] == orig[j],
                forall|j: int|
                    0 <= j < i ==> (#[trigger] a[j]).val() == (-orig[j].val()) % self.q(),
        {
            proof {
                assert(vals(orig)[i as int] == orig[i as int].val());
            }
            a[i] = self.neg(&a[i]);
        }
        assert(vals(a@) =~= ring::poly_neg(vals(orig), self.q()));
    }

    fn elwise_fma_scalar_mut(&self, a: &mut [u64], b: &[u64], c: &u64) {
        let n: usize = a.len();
        let ghost orig = a@;
        for i in 0..n
            invariant
                self.wf(),
                n == a.len() == orig.len(),
                b.len() == n,
                ring::canonical(vals(b@), self.q()),
                ring::canonical(vals(orig), self.q()),
                forall|j: int| i <= j < n ==> #[trigger] a[j] == orig[j],
                0 <= c.val() < self.q(),
                forall|j: int|
                    0 <= j < i ==> (#[trigger] a[j]).val() == (orig[j].val() + (c.val()
                        * b[j].val()) % self.q()) % self.q(),
        {
            proof {
                assert(vals(b@)[i as int] == b[i as int].val());
                assert(vals(orig)[i as int] == orig[i as int].val());
            }
            let t: u64 = self.mul(c, &b[i]);
            proof {
                lemma_mod_bound(c.val() * b[i as int].val(), self.q());
            }
            a[i] = self.add(&a[i], &t);
        }
        assert(vals(a@) =~= ring::poly_add(
            vals(orig),
            ring::poly_scale(c.val(), vals(b@), self.q()),
            self.q(),
        ));
    }

    fn elwise_fma_mut(&self, a: &mut [u64], b: &[u64], c: &[u64]) {
        let n: usize = a.len();
        let ghost orig = a@;
        for i in 0..n
            invariant
                self.wf(),
                n == a.len() == orig.len(),
                b.len() == n,
                ring::canonical(vals(b@), self.q()),
                c.len() == n,
                ring::canonical(vals(c@), self.q()),
                ring::canonical(vals(orig), self.q()),
                forall|j: int| i <= j < n ==> #[trigger] a[j] == orig[j],
                forall|j: int|
                    0 <= j < i ==> (#[trigger] a[j]).val() == (orig[j].val() + (b[j].val()
                        * c[j].val()) % self.q()) % self.q(),
        {
            proof {
                assert(vals(b@)[i as int] == b[i as int].val());
                assert(vals(c@)[i as int] == c[i as int].val());
                assert(vals(orig)[i as int] == orig[i as int].val());
            }
            let t: u64 = self.mul(&b[i], &c[i]);
            proof {
                lemma_mod_bound(b[i as int].val() * c[i as int].val(), self.q());
            }
            a[i] = self.add(&a[i], &t);
        }
        assert(vals(a@) =~= ring::poly_add(
            vals(orig),
            ring::pointwise(vals(b@), vals(c@), self.q()),
            self.q(),
        ));
    }
}

/// One more than the largest `u64`.
pub const WORD: u128 = 0x1_0000_0000_0000_0000;

/// Shoup's quotient estimate is at most one too small.
proof fn lemma_shoup(w: int, b: int, q: int, ws: int, h: int)
    requires
        0 <= w < q,
        0 <= b < WORD,
        ws == (w * WORD) / q,
        h == (ws * b) / (WORD as int),
    ensures
        0 <= w * b - h * q < 2 * q,
        0 <= ws < WORD,
        0 <= h < WORD,
{
    let z = WORD as int;
    let rho = (w * z) % q;
    let sigma = (ws * b) % z;
    lemma_fundamental_div_mod(w * z, q);
    lemma_fundamental_div_mod(ws * b, z);
    lemma_mod_bound(w * z, q);
    lemma_mod_bound(ws * b, z);
    assert(0 <= ws < z) by (nonlinear_arith)
        requires
            w * z == q * ws + rho,
            0 <= rho < q,
            0 <= w < q,
            z > 0,
    ;
    assert(0 <= h < z) by (nonlinear_arith)
        requires
            ws * b == z * h + sigma,
            0 <= sigma < z,
            0 <= ws < z,
            0 <= b < z,
    ;
    let r = w * b - h * q;
    assert(r * z == rho * b + sigma * q) by (nonlinear_arith)
        requires
            w * z == q * ws + rho,
            ws * b == z * h + sigma,
            r == w * b - h * q,
    ;
    assert(0 <= rho * b < q * z) by (nonlinear_arith)
        requires
            0 <= rho < q,
            0 <= b < z,
    ;
    assert(0 <= sigma * q < z * q) by (nonlinear_arith)
        requires
            0 <= sigma < z,
            0 < q,
    ;
    assert(0 <= r < 2 * q) by (nonlinear_arith)
        requires
            0 <= r * z < 2 * (q * z),
            z > 0,
    ;
}

impl ShoupMatrixFMA for ModularOpsU64 {
    open spec fn shoup(&self, w: int) -> int {
        (w * WORD) / self.q()
    }

    fn shoup_repr(&self, w: &u64) -> u64 {
        proof {
            lemma_shoup(*w as int, 0, self.q(), (*w * WORD) / self.q(), 0);
        }
        ((*w as u128 * WORD) / self.modulus.q as u128) as u64
    }

    fn shoup_fma_mut(&self, a: &mut [u64], b: &[u64], b_shoup: &[u64], c: &[u64]) {
        let n: usize = a.len();
        let q: u128 = self.modulus.q as u128;
        let ghost orig = a@;
        for i in 0..n
            invariant
                self.wf(),
                q == self.q(),
                n == a.len() == orig.len(),
                b.len() == n,
                b_shoup.len() == n,
                c.len() == n,
                ring::canonical(vals(orig), self.q()),
                ring::canonical(vals(b@), self.q()),
                ring::canonical(vals(c@), self.q()),
                forall|j: int|
                    0 <= j < n ==> (#[trigger] b_shoup[j]).val() == self.shoup(b[j].val()),
                forall|j: int| i <= j < n ==> #[trigger] a[j] == orig[j],
                forall|j: int|
                    0 <= j < i ==> (#[trigger] a[j]).val() == (orig[j].val() + (b[j].val()
                        * c[j].val()) % self.q()) % self.q(),
        {
            proof {
                assert(vals(b@)[i as int] == b[i as int].val());
                assert(vals(c@)[i as int] == c[i as int].val());
                assert(vals(orig)[i as int] == orig[i as int].val());
                lemma_mul_u64(b_shoup[i as int], c[i as int]);
                lemma_mul_u64(b[i as int], c[i as int]);
                assert(b_shoup[i as int].val() == self.shoup(b[i as int].val()));
                lemma_shoup(
                    b[i as int] as int,
                    c[i as int] as int,
                    self.q(),
                    b_shoup[i as int] as int,
                    (b_shoup[i as int] * c[i as int]) / (WORD as int),
                );
            }
            let h: u128 = (b_shoup[i] as u128 * c[i] as u128) / WORD;
            proof {
                lemma_mul_u64(h as u64, q as u64);
            }
            let t: u128 = b[i] as u128 * c[i] as u128 - h * q;
            proof {
                let k = b[i as int] * c[i as int];
                if t < q {
                    lemma_fundamental_div_mod_converse(k, q as int, h as int, t as int);
                } else {
                    assert(q * (h + 1) == h * q + q) by (nonlinear_arith);
                    lemma_fundamental_div_mod_converse(k, q as int, h + 1, t - q);
                }
            }
            let t: u64 = if t < q {
                t as u64
            } else {
                (t - q) as u64
            };
            a[i] = self.add(&a[i], &t);
        }
        assert(vals(a@) =~= ring::poly_add(
            vals(orig),
            ring::pointwise(vals(b@), vals(c@), self.q()),
            self.q(),
        ));
    }
}

proof fn lemma_mul_u64(a: u64, b: u64)
    ensures
        0 <= a * b <= 0xffff_ffff_ffff_ffff * 0xffff_ffff_ffff_ffff,
{
    assert(0 <= a * b <= 0xffff_ffff_ffff_ffff * 0xffff_ffff_ffff_ffff) by (nonlinear_arith)
        requires
            0 <= a <= 0xffff_ffff_ffff_ffff,
            0 <= b <= 0xffff_ffff_ffff_ffff,
    ;
}

/// Words stand for their integers, entry by entry.
pub proof fn lemma_words<E: Element>(s: Seq<E>, m: Seq<Vec<E>>)
    ensures
        vals(s).len() == s.len(),
        forall|i: int| 0 <= i < s.len() ==> #[trigger] vals(s)[i] == s[i].val(),
        mat(m).len() == m.len(),
        forall|i: int| 0 <= i < m.len() ==> #[trigger] mat(m)[i] == vals(m[i]@),
{
}

/// The representative closest to zero: congruent, and at most half of the modulus away.
pub proof fn lemma_centered(v: int, q: int)
    requires
        0 <= v < q,
    ensures
        centered(v, q) % q == v,
        -q < 2 * centered(v, q) <= q,
{
    lemma_small_mod(v as nat, q as nat);
    lemma_mod_multiples_vanish(-1, v, q);
}

/// A signed number comes back from its residue.
pub proof fn lemma_centered_residue(x: int, q: int)
    requires
        -q < 2 * x <= q,
    ensures
        centered(x % q, q) == x,
{
    if x < 0 {
        lemma_fundamental_div_mod_converse(x, q, -1, x + q);
    } else {
        lemma_small_mod(x as nat, q as nat);
    }
}

/// The residues of signed numbers, entry by entry, for numbers smaller than the modulus.
pub proof fn lemma_residues(s: Seq<i32>, q: int)
    ensures
        residues(s, q).len() == s.len(),
        forall|i: int| 0 <= i < s.len() ==> #[trigger] residues(s, q)[i] == s[i] as int % q,
        within(s, q) <==> (forall|i: int| 0 <= i < s.len() ==> -q < #[trigger] s[i] && s[i] < q),
{
}

/// The rows of a matrix are canonical exactly if each of them has `cols` residues.
pub proof fn lemma_rows_canonical(m: Seq<Seq<int>>, cols: nat, q: int)
    ensures
        rows_canonical(m, cols, q) <==> (forall|i: int|
            0 <= i < m.len() ==> (#[trigger] m[i]).len() == cols && (forall|k: int|
                0 <= k < cols ==> 0 <= #[trigger] m[i][k] && m[i][k] < q)),
{
    if rows_canonical(m, cols, q) {
        assert forall|i: int| 0 <= i < m.len() implies (#[trigger] m[i]).len() == cols && (forall|
            k: int,
        |
            0 <= k < cols ==> 0 <= #[trigger] m[i][k] && m[i][k] < q) by {
            assert(ring::canonical(m[i], q));
        }
    }
}

/// Words stand for themselves, and a modulus for its number.
pub proof fn lemma_machine_words(x: u64, m: CiphertextModulus, op: ModularOpsU64)
    ensures
        x.val() == x,
        m.q() == m.q,
        m.wf() <==> m.q > 0,
        op.q() == op.modulus.q,
        op.wf() <==> op.modulus.q > 0,
{
}

/// What is precomputed from the factor `w` is `w * 2^64 / q`, rounded down.
pub proof fn lemma_shoup_factor(op: ModularOpsU64, w: int)
    requires
        op.wf(),
    ensures
        op.shoup(w) * op.q() <= w * 0x1_0000_0000_0000_0000 < (op.shoup(w) + 1) * op.q(),
{
    let (x, q) = (w * 0x1_0000_0000_0000_0000, op.q());
    lemma_fundamental_div_mod(x, q);
    lemma_mod_bound(x, q);
    let s = x / q;
    assert(s * q == q * s && (s + 1) * q == q * s + q) by (nonlinear_arith);
}

} // verus!
