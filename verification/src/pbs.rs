//! Programmable bootstrapping of LWE ciphertexts.
use crate::backend::{
    self, ArithmeticOps, Element, Modulus, Residues, ShoupMatrixFMA, VectorOps,
};
use crate::decomposer::Decomposer;
use crate::double;
use crate::lwe::{self, lwe_key_switch};
use crate::ntt::Ntt;
use crate::poly;
use crate::rgsw::{self, rlwe_auto_shoup, rlwe_by_rgsw_shoup};
use crate::ring;
use crate::utils::zeros;
use vstd::arithmetic::div_mod::*;
use vstd::arithmetic::mul::*;
use vstd::prelude::*;

verus! {

/// Monomial multiplication (p(X)*X^{mon_exp})
///
/// - p_out: Output is written to p_out and independent of values in p_out
pub fn monomial_mul<El: Element, ModOp: ArithmeticOps<Element = El>>(
    p_in: &[El],
    p_out: &mut [El],
    mon_exp: usize,
    mon_sign: bool,
    ring_size: usize,
    mod_op: &ModOp,
)
    requires
        mod_op.wf(),
        p_in.len() == ring_size,
        old(p_out).len() == ring_size,
        mon_exp < ring_size,
        ring::canonical(backend::vals(p_in@), mod_op.q()),
    ensures
        backend::vals(final(p_out)@) == ring::monomial_times(
            backend::vals(p_in@),
            if mon_sign {
                mon_exp as int
            } else {
                mon_exp + ring_size
            },
            mod_op.q(),
        ),
        final(p_out).len() == ring_size,
        ring::canonical(backend::vals(final(p_out)@), mod_op.q()),
{
    let ghost q = mod_op.q();
    let ghost p = backend::vals(p_in@);
    let ghost e = if mon_sign {
        mon_exp as int
    } else {
        mon_exp + ring_size
    };
    proof {
        mod_op.lemma_q_positive();
    }
    for index in 0..ring_size
        invariant
            mod_op.wf(),
            q == mod_op.q(),
            q > 0,
            p == backend::vals(p_in@),
            ring::canonical(p, q),
            p_in.len() == ring_size,
            p_out.len() == ring_size,
            mon_exp < ring_size,
            e == (if mon_sign {
                mon_exp as int
            } else {
                mon_exp + ring_size
            }),
            forall|k: int|
                mon_exp <= k < ring_size && k - mon_exp < index ==> (#[trigger] p_out[k]).val()
                    == ring::coeff_at(p, k - e) % q,
            forall|k: int|
                0 <= k < mon_exp && k - mon_exp + ring_size < index ==> (
                #[trigger] p_out[k]).val() == ring::coeff_at(p, k - e) % q,
    {
        let v: &El = &p_in[index];
        let wraps: bool = index >= ring_size - mon_exp;
        let to_index: usize = if wraps {
            index - (ring_size - mon_exp)
        } else {
            index + mon_exp
        };
        let to_sign: bool = if wraps {
            !mon_sign
        } else {
            mon_sign
        };
        proof {
            assert(p[index as int] == p_in[index as int].val());
            ring::lemma_coeff_at(p, index as int);
            ring::lemma_coeff_at(p, to_index - e);
            ring::lemma_coeff_at(p, index - ring_size);
            lemma_small_mod(p[index as int] as nat, q as nat);
        }
        if !to_sign {
            p_out[to_index] = mod_op.neg(v);
        } else {
            p_out[to_index] = *v;
        }
    }
    proof {
        let r = ring::monomial_times(p, e, q);
        assert(p.len() == ring_size);
        assert(backend::vals(p_out@) =~= r);
        assert forall|k: int| 0 <= k < r.len() implies 0 <= #[trigger] r[k] < q by {
            lemma_mod_bound(ring::coeff_at(p, k - e), q);
        }
    }
}

/// The LWE ciphertext of the coefficient `index` of what an RLWE ciphertext encrypts.
pub open spec fn extracted(ct: Seq<Seq<int>>, index: int, q: int) -> Seq<int> {
    seq![ct[1][index]] + Seq::new(ct[0].len(), |i: int| ring::coeff_at(ct[0], index - i) % q)
}

/// Extracts the LWE ciphertext of one coefficient from an RLWE ciphertext.
pub fn sample_extract<El: Element, ModOp: ArithmeticOps<Element = El>>(
    lwe_out: &mut [El],
    rlwe_in: &Vec<Vec<El>>,
    mod_op: &ModOp,
    index: usize,
)
    requires
        mod_op.wf(),
        old(lwe_out).len() > 0,
        rgsw::is_rlwe(backend::mat(rlwe_in@), (old(lwe_out).len() - 1) as nat, mod_op.q()),
        index < old(lwe_out).len() - 1,
    ensures
        backend::vals(final(lwe_out)@) == extracted(
            backend::mat(rlwe_in@),
            index as int,
            mod_op.q(),
        ),
        final(lwe_out).len() == old(lwe_out).len(),
        ring::canonical(backend::vals(final(lwe_out)@), mod_op.q()),
{
    let ghost q = mod_op.q();
    let ghost ct = backend::mat(rlwe_in@);
    let ghost n = (lwe_out.len() - 1) as nat;
    proof {
        mod_op.lemma_q_positive();
        rgsw::lemma_rlwe_rows(rlwe_in@, n, q);
    }
    let from: &Vec<El> = &rlwe_in[0];
    let ring_size: usize = from.len();
    // index..=0
    for i in 0..index + 1
        invariant
            q == mod_op.q(),
            q > 0,
            index < ring_size,
            ring_size == from.len(),
            ring_size + 1 == lwe_out.len(),
            ct[0] == backend::vals(from@),
            ring::canonical(ct[0], q),
            forall|k: int|
                0 <= k < i ==> (#[trigger] lwe_out[k + 1]).val() == ring::coeff_at(
                    ct[0],
                    index - k,
                ) % q,
    {
        proof {
            assert(ct[0][index - i] == from[index - i].val());
            ring::lemma_coeff_at(ct[0], index - i);
            lemma_small_mod(ct[0][index - i] as nat, q as nat);
        }
        let ghost before = lwe_out@;
        lwe_out[i + 1] = from[index - i];
        assert forall|k: int| 0 <= k < i + 1 implies (#[trigger] lwe_out[k + 1]).val()
            == ring::coeff_at(ct[0], index - k) % q by {
            if k < i {
                assert(lwe_out[k + 1] == before[k + 1]);
            }
        }
    }
    // -(N..index)
    for i in index + 1..ring_size
        invariant
            mod_op.wf(),
            q == mod_op.q(),
            q > 0,
            index < ring_size,
            ring_size == from.len(),
            ring_size + 1 == lwe_out.len(),
            ct[0] == backend::vals(from@),
            ring::canonical(ct[0], q),
            forall|k: int|
                0 <= k < i ==> (#[trigger] lwe_out[k + 1]).val() == ring::coeff_at(
                    ct[0],
                    index - k,
                ) % q,
    {
        proof {
            assert(ct[0][ring_size + index - i] == from[ring_size + index - i].val());
            ring::lemma_coeff_at(ct[0], index - i);
        }
        let ghost before = lwe_out@;
        lwe_out[i + 1] = mod_op.neg(&from[ring_size - (i - index)]);
        assert forall|k: int| 0 <= k < i + 1 implies (#[trigger] lwe_out[k + 1]).val()
            == ring::coeff_at(ct[0], index - k) % q by {
            if k < i {
                assert(lwe_out[k + 1] == before[k + 1]);
            }
        }
    }
    // set b
    let ghost before = lwe_out@;
    lwe_out[0] = rlwe_in[1][index];
    proof {
        let r = extracted(ct, index as int, q);
        let v = backend::vals(lwe_out@);
        assert(ct[1][index as int] == rlwe_in[1][index as int].val());
        assert forall|k: int| 0 <= k < r.len() implies #[trigger] v[k] == r[k] && 0 <= r[k] < q by {
            if k > 0 {
                assert(lwe_out[(k - 1) + 1] == before[(k - 1) + 1]);
                assert(v[k] == lwe_out[(k - 1) + 1].val());
                lemma_mod_bound(ring::coeff_at(ct[0], index - (k - 1)), q);
            }
        }
        assert(v =~= r);
    }
}

/// The odd number among `v` and `v + 1`.
pub open spec fn odd_up(v: int) -> int {
    if v % 2 == 0 {
        v + 1
    } else {
        v
    }
}

/// The odd number among `v` and `v + 1`.
fn make_odd(v: usize) -> (r: usize)
    ensures
        r == odd_up(v as int),
        r % 2 == 1,
{
    assert((v & 1) == v % 2) by (bit_vector);
    assert(0usize ^ 1 == 1 && 1usize ^ 1 == 0) by (bit_vector);
    assert(usize::MAX % 2 == 1);
    v + ((v & 1) ^ 1)
}

/// What lies between a multiple of `m` and a larger one orders their factors.
proof fn lemma_between(a: int, b: int, x: int, m: int)
    requires
        0 < m,
        a * m <= x < b * m,
    ensures
        a < b,
{
    assert(a < b) by (nonlinear_arith)
        requires
            0 < m,
            a * m < b * m,
    ;
}

/// Without a rounding error the odd rescaling of `v` is the one odd number at most one above, and
/// less than one below, `v * to / from`.
pub proof fn lemma_odd_rescaling(v: int, from: int, to: int)
    requires
        0 < from,
        double::is_exact(v, from, to),
    ensures
        ({
            let r = odd_up(double::floored(v, from, to));
            &&& r % 2 == 1
            &&& (r - 1) * from <= v * to < (r + 1) * from
            &&& forall|s: int|
                s % 2 == 1 && (s - 1) * from <= v * to && v * to < #[trigger] ((s + 1) * from)
                    ==> s == r
        }),
{
    double::lemma_rescaled_exact(v, from, to);
    let f = double::floored(v, from, to);
    let r = odd_up(f);
    assert((f - 1) * from <= f * from && (f + 1) * from <= (f + 2) * from) by (nonlinear_arith)
        requires
            0 < from,
    ;
    assert forall|s: int|
        s % 2 == 1 && (s - 1) * from <= v * to && v * to < #[trigger] ((s + 1) * from) implies s
        == r by {
        lemma_between(s - 1, r + 1, v * to, from);
        lemma_between(r - 1, s + 1, v * to, from);
    }
}

/// For results below `2^48` the odd rescaling of `v` is not further than `5/4` from
/// `v * to / from`. For a residue modulo `from` of at most 50 bits it is below an even `to`.
pub proof fn lemma_odd_rescaling_close(v: int, from: int, to: int)
    requires
        0 <= v,
        0 < from,
        0 <= to,
    ensures
        ({
            let r = odd_up(double::floored(v, from, to));
            &&& r % 2 == 1
            &&& 32 * (v * to) <= double::HIGH * from ==> (4 * r - 5) * from <= 4 * (v * to) < (4 * r
                + 5) * from
            &&& v < from && 8 * from <= double::HIGH && 0 < to && to % 2 == 0 ==> 0 < r < to
        }),
{
    let f = double::floored(v, from, to);
    let r = odd_up(f);
    if 32 * (v * to) <= double::HIGH * from {
        double::lemma_rescaled_close(v, from, to);
        assert((4 * f - 1) * from == 4 * (f * from) - from) by (nonlinear_arith);
        assert((4 * f - 5) * from == 4 * (f * from) - 5 * from) by (nonlinear_arith);
        assert((4 * f + 5) * from == 4 * (f * from) + 5 * from) by (nonlinear_arith);
        assert((4 * f + 9) * from == 4 * (f * from) + 9 * from) by (nonlinear_arith);
    }
    if v < from {
        double::lemma_rescaled_range(v, from, to);
    }
}

/// The odd rescaling keeps the order.
pub proof fn lemma_odd_rescaling_monotone(v1: int, v2: int, from: int, to: int)
    requires
        0 <= v1 <= v2,
        0 < from,
        0 <= to,
    ensures
        odd_up(double::floored(v1, from, to)) <= odd_up(double::floored(v2, from, to)),
{
    double::lemma_rescaled_monotone(v1, v2, from, to);
}

/// Rescales a number by `to_q / from_q`, in double precision, to an odd number.
pub fn mod_switch_odd<M: Modulus>(v: &M::Element, from_q: &M, to_q: usize) -> (r: usize)
    requires
        from_q.wf(),
        0 <= v.val(),
        double::floored(v.val(), from_q.q(), to_q as int) <= usize::MAX,
    ensures
        r == odd_up(double::floored(v.val(), from_q.q(), to_q as int)),
        r % 2 == 1,
{
    make_odd(from_q.switch_floored(v, to_q))
}

/// A matrix together with what was precomputed from its entries.
pub trait WithShoupRepr {
    type Element: Element;

    spec fn rows(&self) -> Seq<Seq<int>>;

    spec fn shoup_rows(&self) -> Seq<Seq<int>>;

    fn as_ref(&self) -> (m: &Vec<Vec<Self::Element>>)
        ensures
            backend::mat(m@) == self.rows(),
    ;

    fn shoup_repr(&self) -> (m: &Vec<Vec<Self::Element>>)
        ensures
            backend::mat(m@) == self.shoup_rows(),
    ;
}

/// The keys of a bootstrapping.
pub trait PbsKey {
    type Element: Element;

    type RgswCt: WithShoupRepr<Element = Self::Element>;

    type AutoKey: WithShoupRepr<Element = Self::Element>;

    /// Whether there is an RGSW ciphertext for the LWE secret element `si`.
    spec fn has_rgsw_ct(&self, si: int) -> bool;

    spec fn rgsw_ct(&self, si: int) -> Self::RgswCt;

    /// Whether there is a key for the automorphism with g^k.
    spec fn has_galois_key(&self, k: int) -> bool;

    spec fn galois_key(&self, k: int) -> Self::AutoKey;

    spec fn lwe_ksk_rows(&self) -> Seq<Seq<int>>;

    /// RGSW ciphertext of LWE secret elements
    fn rgsw_ct_lwe_si(&self, si: usize) -> (r: &Self::RgswCt)
        requires
            self.has_rgsw_ct(si as int),
        ensures
            *r == self.rgsw_ct(si as int),
    ;

    /// Key for automorphism with g^k. For -g use k = 0
    fn galois_key_for_auto(&self, k: usize) -> (r: &Self::AutoKey)
        requires
            self.has_galois_key(k as int),
        ensures
            *r == self.galois_key(k as int),
    ;

    /// LWE ksk to key switch from RLWE secret to LWE secret
    fn lwe_ksk(&self) -> (r: &Vec<Vec<Self::Element>>)
        ensures
            backend::mat(r@) == self.lwe_ksk_rows(),
    ;
}

/// The parameters of a bootstrapping.
pub struct PbsParameters<D, N, R, L> {
    pub rlwe_q: int,
    pub lwe_q: int,
    pub br_q: int,
    pub rlwe_n: nat,
    pub lwe_n: nat,
    pub embedding_factor: int,
    pub w: int,
    pub g: int,
    pub lwe_decomposer: D,
    pub rlwe_rgsw_decomposer: (D, D),
    pub auto_decomposer: D,
    pub modop_lweq: L,
    pub modop_rlweq: R,
    pub nttop_rlweq: N,
    pub g_k_dlog_map: Seq<usize>,
    pub rlwe_auto_maps: Map<int, (Seq<usize>, Seq<bool>)>,
}

/// Access to the parameters of a bootstrapping.
pub trait PbsInfo {
    type Element: Element;

    /// Type of Ciphertext modulus
    type Modulus: Modulus<Element = Self::Element>;

    /// Type of Ntt Operator for Ring polynomials
    type NttOp: Ntt<Element = Self::Element>;

    /// Type of Signed Decomposer
    type D: Decomposer<Element = Self::Element>;

    // Although both `RlweModOp` and `LweModOp` types have same bounds, they can be
    // different types. For ex, type RlweModOp may only support native modulus,
    // where LweModOp may only support prime modulus, etc.
    /// Type of RLWE Modulus Operator
    type RlweModOp: ArithmeticOps<Element = Self::Element> + ShoupMatrixFMA<
        Element = Self::Element,
    >;

    /// Type of LWE Modulus Operator
    type LweModOp: VectorOps<Element = Self::Element> + ArithmeticOps<Element = Self::Element>;

    /// What the implementation needs of the parameters.
    spec fn wf(&self) -> bool;

    spec fn parameters(&self) -> PbsParameters<
        Self::D,
        Self::NttOp,
        Self::RlweModOp,
        Self::LweModOp,
    >;

    /// RLWE ciphertext modulus
    fn rlwe_q(&self) -> (r: &Self::Modulus)
        requires
            self.wf(),
        ensures
            r.wf(),
            r.q() == self.parameters().rlwe_q,
    ;

    /// LWE ciphertext modulus
    fn lwe_q(&self) -> (r: &Self::Modulus)
        requires
            self.wf(),
        ensures
            r.wf(),
            r.q() == self.parameters().lwe_q,
    ;

    /// Blind rotation modulus. It is the modulus to which we switch for blind
    /// rotation. Since blind rotation decrypts LWE ciphetext in the exponent of
    /// ring polynmial (which is a ring mod 2N), `br_q <= 2N`
    fn br_q(&self) -> (r: usize)
        ensures
            r == self.parameters().br_q,
    ;

    /// Ring polynomial size `N`
    fn rlwe_n(&self) -> (r: usize)
        ensures
            r == self.parameters().rlwe_n,
    ;

    /// LWE dimension `n`
    fn lwe_n(&self) -> (r: usize)
        ensures
            r == self.parameters().lwe_n,
    ;

    /// Embedding fator for ring X^{q}+1 inside
    fn embedding_factor(&self) -> (r: usize)
        ensures
            r == self.parameters().embedding_factor,
    ;

    /// Window size parameter LKMC++ blind rotaiton
    fn w(&self) -> (r: usize)
        ensures
            r == self.parameters().w,
    ;

    /// generator `g` for group Z^*_{br_q}
    fn g(&self) -> (r: isize)
        ensures
            r == self.parameters().g,
    ;

    /// LWE key switching decomposer
    fn lwe_decomposer(&self) -> (r: &Self::D)
        ensures
            *r == self.parameters().lwe_decomposer,
    ;

    /// RLWE x RGSW decoposer
    fn rlwe_rgsw_decomposer(&self) -> (r: &(Self::D, Self::D))
        ensures
            *r == self.parameters().rlwe_rgsw_decomposer,
    ;

    /// RLWE auto decomposer
    fn auto_decomposer(&self) -> (r: &Self::D)
        ensures
            *r == self.parameters().auto_decomposer,
    ;

    /// LWE modulus operator
    fn modop_lweq(&self) -> (r: &Self::LweModOp)
        ensures
            *r == self.parameters().modop_lweq,
    ;

    /// RLWE modulus operator
    fn modop_rlweq(&self) -> (r: &Self::RlweModOp)
        ensures
            *r == self.parameters().modop_rlweq,
    ;

    /// Ntt operators
    fn nttop_rlweq(&self) -> (r: &Self::NttOp)
        ensures
            *r == self.parameters().nttop_rlweq,
    ;

    /// Maps a \in Z^*_{br_q} to discrete log k, with generator g (i.e. g^k =
    /// a). Returned vector is of size q that stores dlog of `a` at `vec[a]`.
    ///
    /// For any `a`, if k is s.t. `a = g^{k} % br_q`, then `k` is expressed as
    /// k. If `k` is s.t `a = -g^{k} % br_q`, then `k` is expressed as
    /// k=k+q/4
    fn g_k_dlog_map(&self) -> (r: &[usize])
        ensures
            r@ == self.parameters().g_k_dlog_map,
    ;

    /// Returns auto map and index vector for auto element g^k. For auto element
    /// -g set k = 0.
    fn rlwe_auto_map(&self, k: usize) -> (r: &(Vec<usize>, Vec<bool>))
        requires
            self.parameters().rlwe_auto_maps.contains_key(k as int),
        ensures
            (r.0@, r.1@) == self.parameters().rlwe_auto_maps[k as int],
    ;
}

/// A step of a blind rotation.
pub enum RotationStep {
    /// The product with the RGSW ciphertext of an LWE secret element.
    Secret(int),
    /// The automorphism for g^k, or for -g if k is 0.
    Auto(int),
}

/// What the steps of a blind rotation work with.
pub struct Rotation<K, D, A, N> {
    pub key: K,
    pub rlwe_rgsw_decomposer: (D, D),
    pub auto_decomposer: A,
    pub ntt: N,
    pub auto_maps: Map<int, (Seq<usize>, Seq<bool>)>,
}

impl<K: PbsKey, D: Decomposer, A: Decomposer, N: Ntt> Rotation<K, D, A, N> {
    /// One step on a ciphertext. The flag tells whether the ciphertext is still trivial.
    pub open spec fn step(
        self,
        state: (Seq<Seq<int>>, bool),
        step: RotationStep,
    ) -> (Seq<Seq<int>>, bool) {
        match step {
            RotationStep::Secret(i) => (
                rgsw::rgsw_product(
                    state.0,
                    self.key.rgsw_ct(i).rows(),
                    self.rlwe_rgsw_decomposer,
                    self.ntt,
                    state.1,
                ),
                false,
            ),
            RotationStep::Auto(k) => (
                rgsw::auto_switched(
                    state.0,
                    self.key.galois_key(k).rows(),
                    self.auto_maps[k].0,
                    self.auto_maps[k].1,
                    self.auto_decomposer,
                    self.ntt,
                    state.1,
                ),
                state.1,
            ),
        }
    }

    /// All steps, one after the other.
    pub open spec fn run(
        self,
        state: (Seq<Seq<int>>, bool),
        steps: Seq<RotationStep>,
    ) -> (Seq<Seq<int>>, bool)
        decreases steps.len(),
    {
        if steps.len() == 0 {
            state
        } else {
            self.step(self.run(state, steps.drop_last()), steps.last())
        }
    }

    /// The keys, and for an automorphism the map, that a step needs are there and fit.
    pub open spec fn ready<Op: ShoupMatrixFMA>(self, mod_op: Op, step: RotationStep) -> bool {
        let n = self.ntt.n();
        let q = self.ntt.q();
        match step {
            RotationStep::Secret(i) => {
                let ct = self.key.rgsw_ct(i);
                &&& 0 <= i
                &&& self.key.has_rgsw_ct(i)
                &&& ct.rows().len() == 2 * self.rlwe_rgsw_decomposer.0.count() + 2
                    * self.rlwe_rgsw_decomposer.1.count()
                &&& backend::rows_canonical(ct.rows(), n, q)
                &&& rgsw::is_shoup_of(mod_op, ct.rows(), ct.shoup_rows())
            },
            RotationStep::Auto(k) => {
                let key = self.key.galois_key(k);
                &&& 0 <= k
                &&& self.key.has_galois_key(k)
                &&& key.rows().len() == 2 * self.auto_decomposer.count()
                &&& backend::rows_canonical(key.rows(), n, q)
                &&& rgsw::is_shoup_of(mod_op, key.rows(), key.shoup_rows())
                &&& self.auto_maps.contains_key(k)
                &&& rgsw::is_auto_map(self.auto_maps[k].0, self.auto_maps[k].1, n)
            },
        }
    }

    pub proof fn lemma_run_append(
        self,
        state: (Seq<Seq<int>>, bool),
        a: Seq<RotationStep>,
        b: Seq<RotationStep>,
    )
        ensures
            self.run(state, a + b) == self.run(self.run(state, a), b),
        decreases b.len(),
    {
        if b.len() == 0 {
            assert(a + b =~= a);
        } else {
            self.lemma_run_append(state, a, b.drop_last());
            assert((a + b).drop_last() =~= a + b.drop_last());
        }
    }
}

/// The products with the secret elements in `s`, in their order.
pub open spec fn secret_steps(s: Seq<usize>) -> Seq<RotationStep> {
    Seq::new(s.len(), |i: int| RotationStep::Secret(s[i] as int))
}

/// The steps for the lists `base + i` to `base + 1`, highest first: the products with the listed
/// secret elements, and after each list one level of g. The levels since the last automorphism,
/// `v`, are made up for by one automorphism as soon as the next list is not empty, `w` of them
/// have come together, or the last list is done.
pub open spec fn descent(
    gk_to_si: Seq<Seq<usize>>,
    base: int,
    i: int,
    v: int,
    w: int,
) -> Seq<RotationStep>
    decreases i,
{
    if i <= 0 {
        Seq::empty()
    } else if gk_to_si[base + i - 1].len() != 0 || v + 1 == w || i == 1 {
        secret_steps(gk_to_si[base + i]) + seq![RotationStep::Auto(v + 1)] + descent(
            gk_to_si,
            base,
            i - 1,
            0,
            w,
        )
    } else {
        secret_steps(gk_to_si[base + i]) + descent(gk_to_si, base, i - 1, v + 1, w)
    }
}

/// The steps of a blind rotation: the lists of the negative powers, then the automorphism for -g,
/// then the lists of the positive powers.
pub open spec fn schedule(gk_to_si: Seq<Seq<usize>>, w: int, q: int) -> Seq<RotationStep> {
    descent(gk_to_si, q / 4, q / 4 - 1, 0, w) + secret_steps(gk_to_si[q / 4]) + seq![
        RotationStep::Auto(0),
    ] + descent(gk_to_si, 0, q / 4 - 1, 0, w) + secret_steps(gk_to_si[0])
}

/// The lists as sequences.
pub open spec fn lists(gk_to_si: Seq<Vec<usize>>) -> Seq<Seq<usize>> {
    Seq::new(gk_to_si.len(), |i: int| gk_to_si[i]@)
}

/// Multiplies an RLWE ciphertext by the RGSW ciphertexts of the listed secret elements. Returns
/// whether the ciphertext is still trivial.
fn apply_secrets<
    El: Element,
    D: Decomposer<Element = El>,
    A: Decomposer<Element = El>,
    NttOp: Ntt<Element = El>,
    ModOp: ShoupMatrixFMA<Element = El>,
    K: PbsKey<Element = El>,
>(
    rlwe: &mut Vec<Vec<El>>,
    s_indices: &Vec<usize>,
    rlwe_rgsw_decomposer: &(D, D),
    ntt_op: &NttOp,
    mod_op: &ModOp,
    pbs_key: &K,
    is_trivial: bool,
    Ghost(rotation): Ghost<Rotation<K, D, A, NttOp>>,
) -> (r: bool)
    requires
        rotation.key == *pbs_key,
        rotation.rlwe_rgsw_decomposer == *rlwe_rgsw_decomposer,
        rotation.ntt == *ntt_op,
        mod_op.wf(),
        ntt_op.wf(),
        ntt_op.q() == mod_op.q(),
        rlwe_rgsw_decomposer.0.wf(),
        rlwe_rgsw_decomposer.1.wf(),
        rlwe_rgsw_decomposer.0.q() == mod_op.q(),
        rlwe_rgsw_decomposer.1.q() == mod_op.q(),
        rgsw::is_rlwe(backend::mat(old(rlwe)@), ntt_op.n(), mod_op.q()),
        forall|i: int|
            0 <= i < s_indices.len() ==> rotation.ready(
                *mod_op,
                #[trigger] secret_steps(s_indices@)[i],
            ),
    ensures
        (backend::mat(final(rlwe)@), r) == rotation.run(
            (backend::mat(old(rlwe)@), is_trivial),
            secret_steps(s_indices@),
        ),
        rgsw::is_rlwe(backend::mat(final(rlwe)@), ntt_op.n(), mod_op.q()),
{
    let n: usize = s_indices.len();
    let ghost start = (backend::mat(rlwe@), is_trivial);
    let ghost steps = secret_steps(s_indices@);
    let mut trivial: bool = is_trivial;
    assert(steps.take(0) =~= Seq::empty());
    for i in 0..n
        invariant
            n == s_indices.len(),
            steps == secret_steps(s_indices@),
            rotation.key == *pbs_key,
            rotation.rlwe_rgsw_decomposer == *rlwe_rgsw_decomposer,
            rotation.ntt == *ntt_op,
            mod_op.wf(),
            ntt_op.wf(),
            ntt_op.q() == mod_op.q(),
            rlwe_rgsw_decomposer.0.wf(),
            rlwe_rgsw_decomposer.1.wf(),
            rlwe_rgsw_decomposer.0.q() == mod_op.q(),
            rlwe_rgsw_decomposer.1.q() == mod_op.q(),
            rgsw::is_rlwe(backend::mat(rlwe@), ntt_op.n(), mod_op.q()),
            forall|k: int| 0 <= k < n ==> rotation.ready(*mod_op, #[trigger] steps[k]),
            (backend::mat(rlwe@), trivial) == rotation.run(start, steps.take(i as int)),
    {
        assert(rotation.ready(*mod_op, steps[i as int]));
        assert(steps.take(i + 1).drop_last() =~= steps.take(i as int));
        let ct: &K::RgswCt = pbs_key.rgsw_ct_lwe_si(s_indices[i]);
        let rows: &Vec<Vec<El>> = ct.as_ref();
        assert(backend::mat(rows@).len() == rows.len());
        rlwe_by_rgsw_shoup(
            rlwe,
            rows,
            ct.shoup_repr(),
            rlwe_rgsw_decomposer,
            ntt_op,
            mod_op,
            trivial,
        );
        trivial = false;
    }
    assert(steps.take(n as int) =~= steps);
    trivial
}

/// Applies the automorphism for g^k, or for -g if k is 0.
fn apply_automorphism<
    El: Element,
    D: Decomposer<Element = El>,
    A: Decomposer<Element = El>,
    NttOp: Ntt<Element = El>,
    ModOp: ArithmeticOps<Element = El> + ShoupMatrixFMA<Element = El>,
    K: PbsKey<Element = El>,
    P: PbsInfo<Element = El>,
>(
    rlwe: &mut Vec<Vec<El>>,
    k: usize,
    auto_decomposer: &A,
    ntt_op: &NttOp,
    mod_op: &ModOp,
    parameters: &P,
    pbs_key: &K,
    is_trivial: bool,
    Ghost(rotation): Ghost<Rotation<K, D, A, NttOp>>,
)
    requires
        rotation.key == *pbs_key,
        rotation.auto_decomposer == *auto_decomposer,
        rotation.ntt == *ntt_op,
        rotation.auto_maps == parameters.parameters().rlwe_auto_maps,
        mod_op.wf(),
        ntt_op.wf(),
        ntt_op.q() == mod_op.q(),
        auto_decomposer.wf(),
        auto_decomposer.q() == mod_op.q(),
        rgsw::is_rlwe(backend::mat(old(rlwe)@), ntt_op.n(), mod_op.q()),
        rotation.ready(*mod_op, RotationStep::Auto(k as int)),
    ensures
        (backend::mat(final(rlwe)@), is_trivial) == rotation.step(
            (backend::mat(old(rlwe)@), is_trivial),
            RotationStep::Auto(k as int),
        ),
        rgsw::is_rlwe(backend::mat(final(rlwe)@), ntt_op.n(), mod_op.q()),
{
    let map: &(Vec<usize>, Vec<bool>) = parameters.rlwe_auto_map(k);
    let auto_key: &K::AutoKey = pbs_key.galois_key_for_auto(k);
    let rows: &Vec<Vec<El>> = auto_key.as_ref();
    assert(backend::mat(rows@).len() == rows.len());
    rlwe_auto_shoup(
        rlwe,
        rows,
        auto_key.shoup_repr(),
        &map.0,
        &map.1,
        mod_op,
        ntt_op,
        auto_decomposer,
        is_trivial,
    );
}

/// The steps for the lists `base + q_by_4 - 1` to `base + 1`. Returns whether the ciphertext is
/// still trivial.
fn descend<
    El: Element,
    D: Decomposer<Element = El>,
    A: Decomposer<Element = El>,
    NttOp: Ntt<Element = El>,
    ModOp: ArithmeticOps<Element = El> + ShoupMatrixFMA<Element = El>,
    K: PbsKey<Element = El>,
    P: PbsInfo<Element = El>,
>(
    rlwe: &mut Vec<Vec<El>>,
    base: usize,
    q_by_4: usize,
    w: usize,
    gk_to_si: &[Vec<usize>],
    rlwe_rgsw_decomposer: &(D, D),
    auto_decomposer: &A,
    ntt_op: &NttOp,
    mod_op: &ModOp,
    parameters: &P,
    pbs_key: &K,
    is_trivial: bool,
    Ghost(rotation): Ghost<Rotation<K, D, A, NttOp>>,
) -> (r: bool)
    requires
        rotation.key == *pbs_key,
        rotation.rlwe_rgsw_decomposer == *rlwe_rgsw_decomposer,
        rotation.auto_decomposer == *auto_decomposer,
        rotation.ntt == *ntt_op,
        rotation.auto_maps == parameters.parameters().rlwe_auto_maps,
        mod_op.wf(),
        ntt_op.wf(),
        ntt_op.q() == mod_op.q(),
        rlwe_rgsw_decomposer.0.wf(),
        rlwe_rgsw_decomposer.1.wf(),
        auto_decomposer.wf(),
        rlwe_rgsw_decomposer.0.q() == mod_op.q(),
        rlwe_rgsw_decomposer.1.q() == mod_op.q(),
        auto_decomposer.q() == mod_op.q(),
        rgsw::is_rlwe(backend::mat(old(rlwe)@), ntt_op.n(), mod_op.q()),
        base + q_by_4 <= gk_to_si.len(),
        forall|i: int|
            0 <= i < descent(lists(gk_to_si@), base as int, q_by_4 - 1, 0, w as int).len()
                ==> rotation.ready(
                *mod_op,
                #[trigger] descent(lists(gk_to_si@), base as int, q_by_4 - 1, 0, w as int)[i],
            ),
    ensures
        (backend::mat(final(rlwe)@), r) == rotation.run(
            (backend::mat(old(rlwe)@), is_trivial),
            descent(lists(gk_to_si@), base as int, q_by_4 - 1, 0, w as int),
        ),
        rgsw::is_rlwe(backend::mat(final(rlwe)@), ntt_op.n(), mod_op.q()),
{
    let ghost start = (backend::mat(rlwe@), is_trivial);
    let ghost gk = lists(gk_to_si@);
    let ghost all = descent(gk, base as int, q_by_4 - 1, 0, w as int);
    let ghost mut done: Seq<RotationStep> = Seq::empty();
    let mut trivial: bool = is_trivial;
    let mut v: usize = 0;
    let mut i: usize = if q_by_4 == 0 {
        0
    } else {
        q_by_4 - 1
    };
    assert(done + descent(gk, base as int, i as int, v as int, w as int) =~= all);
    while i > 0
        invariant
            rotation.key == *pbs_key,
            rotation.rlwe_rgsw_decomposer == *rlwe_rgsw_decomposer,
            rotation.auto_decomposer == *auto_decomposer,
            rotation.ntt == *ntt_op,
            rotation.auto_maps == parameters.parameters().rlwe_auto_maps,
            mod_op.wf(),
            ntt_op.wf(),
            ntt_op.q() == mod_op.q(),
            rlwe_rgsw_decomposer.0.wf(),
            rlwe_rgsw_decomposer.1.wf(),
            auto_decomposer.wf(),
            rlwe_rgsw_decomposer.0.q() == mod_op.q(),
            rlwe_rgsw_decomposer.1.q() == mod_op.q(),
            auto_decomposer.q() == mod_op.q(),
            rgsw::is_rlwe(backend::mat(rlwe@), ntt_op.n(), mod_op.q()),
            base + q_by_4 <= gk_to_si.len(),
            i == 0 || i < q_by_4,
            v + i <= q_by_4,
            gk == lists(gk_to_si@),
            forall|k: int| 0 <= k < all.len() ==> rotation.ready(*mod_op, #[trigger] all[k]),
            done + descent(gk, base as int, i as int, v as int, w as int) == all,
            (backend::mat(rlwe@), trivial) == rotation.run(start, done),
        decreases i,
    {
        let ghost rest = descent(gk, base as int, i as int, v as int, w as int);
        let ghost steps = secret_steps(gk[base + i]);
        assert(gk[base + i] == gk_to_si[base + i]@);
        assert(gk[base + i - 1] == gk_to_si[base + i - 1]@);
        assert forall|k: int| 0 <= k < steps.len() implies rotation.ready(
            *mod_op,
            #[trigger] steps[k],
        ) by {
            assert(steps[k] == rest[k]);
            assert(rest[k] == all[done.len() + k]);
        }
        trivial =
        apply_secrets::<El, D, A, NttOp, ModOp, K>(
            rlwe,
            &gk_to_si[base + i],
            rlwe_rgsw_decomposer,
            ntt_op,
            mod_op,
            pbs_key,
            trivial,
            Ghost(rotation),
        );
        proof {
            rotation.lemma_run_append(start, done, steps);
            done = done + steps;
        }
        v = v + 1;
        if gk_to_si[base + i - 1].len() != 0 || v == w || i == 1 {
            let ghost next = seq![RotationStep::Auto(v as int)];
            let ghost later = descent(gk, base as int, i - 1, 0, w as int);
            assert(rest =~= steps + next + later);
            assert(rest[steps.len() as int] == next[0]);
            assert(all[done.len() as int] == next[0]);
            apply_automorphism::<El, D, A, NttOp, ModOp, K, P>(
                rlwe,
                v,
                auto_decomposer,
                ntt_op,
                mod_op,
                parameters,
                pbs_key,
                trivial,
                Ghost(rotation),
            );
            proof {
                assert((done + next).drop_last() =~= done);
                done = done + next;
                assert(done + later =~= all);
            }
            v = 0;
        } else {
            assert(done + descent(gk, base as int, i - 1, v as int, w as int) =~= all);
        }
        i = i - 1;
    }
    assert(done =~= all);
    trivial
}

/// LMKCY+ Blind rotation
///
/// - gk_to_si: Contains LWE secret index `i` in array of secret indices at k^th
///   index if a_i = g^k if k < q/4 or a_i = -g^k if k > q/4. [g^0, ...,
///   g^{q/2-1}, -g^0, -g^1, .., -g^{q/2-1}]
pub fn blind_rotation<
    El: Element,
    D: Decomposer<Element = El>,
    A: Decomposer<Element = El>,
    NttOp: Ntt<Element = El>,
    ModOp: ArithmeticOps<Element = El> + ShoupMatrixFMA<Element = El>,
    K: PbsKey<Element = El>,
    P: PbsInfo<Element = El>,
>(
    trivial_rlwe_test_poly: &mut Vec<Vec<El>>,
    _g: isize,
    w: usize,
    q: usize,
    gk_to_si: &[Vec<usize>],
    rlwe_rgsw_decomposer: &(D, D),
    auto_decomposer: &A,
    ntt_op: &NttOp,
    mod_op: &ModOp,
    parameters: &P,
    pbs_key: &K,
)
    requires
        mod_op.wf(),
        ntt_op.wf(),
        ntt_op.q() == mod_op.q(),
        rlwe_rgsw_decomposer.0.wf(),
        rlwe_rgsw_decomposer.1.wf(),
        auto_decomposer.wf(),
        rlwe_rgsw_decomposer.0.q() == mod_op.q(),
        rlwe_rgsw_decomposer.1.q() == mod_op.q(),
        auto_decomposer.q() == mod_op.q(),
        rgsw::is_rlwe(backend::mat(old(trivial_rlwe_test_poly)@), ntt_op.n(), mod_op.q()),
        gk_to_si.len() > 0,
        gk_to_si.len() >= 2 * (q as int / 4),
        ({
            let rotation = Rotation {
                key: *pbs_key,
                rlwe_rgsw_decomposer: *rlwe_rgsw_decomposer,
                auto_decomposer: *auto_decomposer,
                ntt: *ntt_op,
                auto_maps: parameters.parameters().rlwe_auto_maps,
            };
            let steps = schedule(lists(gk_to_si@), w as int, q as int);
            forall|i: int|
                0 <= i < steps.len() ==> rotation.ready(*mod_op, #[trigger] steps[i])
        }),
    ensures
        ({
            let rotation = Rotation {
                key: *pbs_key,
                rlwe_rgsw_decomposer: *rlwe_rgsw_decomposer,
                auto_decomposer: *auto_decomposer,
                ntt: *ntt_op,
                auto_maps: parameters.parameters().rlwe_auto_maps,
            };
            let steps = schedule(lists(gk_to_si@), w as int, q as int);
            backend::mat(final(trivial_rlwe_test_poly)@) == rotation.run(
                (backend::mat(old(trivial_rlwe_test_poly)@), true),
                steps,
            ).0
        }),
        rgsw::is_rlwe(backend::mat(final(trivial_rlwe_test_poly)@), ntt_op.n(), mod_op.q()),
{
    let ghost rotation = Rotation {
        key: *pbs_key,
        rlwe_rgsw_decomposer: *rlwe_rgsw_decomposer,
        auto_decomposer: *auto_decomposer,
        ntt: *ntt_op,
        auto_maps: parameters.parameters().rlwe_auto_maps,
    };
    let ghost gk = lists(gk_to_si@);
    let ghost steps = schedule(gk, w as int, q as int);
    let ghost start = (backend::mat(trivial_rlwe_test_poly@), true);
    let q_by_4: usize = q >> 2;
    assert(q >> 2 == q / 4) by (bit_vector);
    let ghost negative = descent(gk, q_by_4 as int, q_by_4 - 1, 0, w as int);
    let ghost negative_0 = secret_steps(gk[q_by_4 as int]);
    let ghost turn = seq![RotationStep::Auto(0)];
    let ghost positive = descent(gk, 0, q_by_4 - 1, 0, w as int);
    let ghost positive_0 = secret_steps(gk[0]);
    proof {
        let (a, b, c, d, e) = (negative, negative_0, turn, positive, positive_0);
        assert(steps == a + b + c + d + e);
        assert forall|i: int| 0 <= i < a.len() implies rotation.ready(*mod_op, #[trigger] a[i]) by {
            assert(a[i] == steps[i]);
        }
        assert forall|i: int| 0 <= i < b.len() implies rotation.ready(*mod_op, #[trigger] b[i]) by {
            assert(b[i] == steps[a.len() + i]);
        }
        assert(c[0] == steps[(a + b).len() as int]);
        assert forall|i: int| 0 <= i < d.len() implies rotation.ready(*mod_op, #[trigger] d[i]) by {
            assert(d[i] == steps[(a + b + c).len() + i]);
        }
        assert forall|i: int| 0 <= i < e.len() implies rotation.ready(*mod_op, #[trigger] e[i]) by {
            assert(e[i] == steps[(a + b + c + d).len() + i]);
        }
        assert(gk[q_by_4 as int] == gk_to_si[q_by_4 as int]@);
        assert(gk[0] == gk_to_si[0]@);
        rotation.lemma_run_append(start, a, b);
        assert((a + b + c).drop_last() =~= a + b);
        rotation.lemma_run_append(start, a + b + c, d);
        rotation.lemma_run_append(start, a + b + c + d, e);
    }
    // -(g^k)
    let trivial: bool = descend(
        trivial_rlwe_test_poly,
        q_by_4,
        q_by_4,
        w,
        gk_to_si,
        rlwe_rgsw_decomposer,
        auto_decomposer,
        ntt_op,
        mod_op,
        parameters,
        pbs_key,
        true,
        Ghost(rotation),
    );
    // -(g^0)
    let trivial: bool = apply_secrets::<El, D, A, NttOp, ModOp, K>(
        trivial_rlwe_test_poly,
        &gk_to_si[q_by_4],
        rlwe_rgsw_decomposer,
        ntt_op,
        mod_op,
        pbs_key,
        trivial,
        Ghost(rotation),
    );
    apply_automorphism::<El, D, A, NttOp, ModOp, K, P>(
        trivial_rlwe_test_poly,
        0,
        auto_decomposer,
        ntt_op,
        mod_op,
        parameters,
        pbs_key,
        trivial,
        Ghost(rotation),
    );
    // +(g^k)
    let trivial: bool = descend(
        trivial_rlwe_test_poly,
        0,
        q_by_4,
        w,
        gk_to_si,
        rlwe_rgsw_decomposer,
        auto_decomposer,
        ntt_op,
        mod_op,
        parameters,
        pbs_key,
        trivial,
        Ghost(rotation),
    );
    // +(g^0)
    let _trivial: bool = apply_secrets::<El, D, A, NttOp, ModOp, K>(
        trivial_rlwe_test_poly,
        &gk_to_si[0],
        rlwe_rgsw_decomposer,
        ntt_op,
        mod_op,
        pbs_key,
        trivial,
        Ghost(rotation),
    );
}

/// The steps of the blind rotation of a bootstrapping.
pub open spec fn rotation_of<P: PbsInfo, K: PbsKey>(info: P, key: K) -> Rotation<
    K,
    P::D,
    P::D,
    P::NttOp,
> {
    let p = info.parameters();
    Rotation {
        key,
        rlwe_rgsw_decomposer: p.rlwe_rgsw_decomposer,
        auto_decomposer: p.auto_decomposer,
        ntt: p.nttop_rlweq,
        auto_maps: p.rlwe_auto_maps,
    }
}

/// The parameters fit together and the keys fit the parameters.
pub open spec fn pbs_ready<P: PbsInfo, K: PbsKey>(info: P, key: K) -> bool {
    let p = info.parameters();
    let rotation = rotation_of(info, key);
    &&& info.wf()
    &&& p.modop_rlweq.wf() && p.modop_rlweq.q() == p.rlwe_q
    &&& p.nttop_rlweq.wf() && p.nttop_rlweq.q() == p.rlwe_q && p.nttop_rlweq.n() == p.rlwe_n
    &&& p.rlwe_rgsw_decomposer.0.wf() && p.rlwe_rgsw_decomposer.0.q() == p.rlwe_q
    &&& p.rlwe_rgsw_decomposer.1.wf() && p.rlwe_rgsw_decomposer.1.q() == p.rlwe_q
    &&& p.auto_decomposer.wf() && p.auto_decomposer.q() == p.rlwe_q
    &&& p.modop_lweq.wf() && p.modop_lweq.q() == p.lwe_q
    &&& p.lwe_decomposer.wf() && p.lwe_decomposer.q() == p.lwe_q
    &&& p.br_q > 0 && p.br_q % 4 == 0
    &&& p.g > 0 && p.g % 2 == 1
    &&& p.embedding_factor > 0 && p.embedding_factor * (p.br_q / 2 - 1) < p.rlwe_n
    &&& p.embedding_factor == 1 ==> p.rlwe_n == p.br_q / 2
    &&& p.g_k_dlog_map.len() >= p.br_q
    &&& forall|a: int|
        0 <= a < p.br_q && a % 2 == 1 ==> (#[trigger] p.g_k_dlog_map[a]) < p.br_q / 2
    &&& key.lwe_ksk_rows().len() == p.rlwe_n * p.lwe_decomposer.count()
    &&& backend::rows_canonical(key.lwe_ksk_rows(), p.lwe_n + 1, p.lwe_q)
}

/// Gaps of up to `w` powers of `g` are closed by one automorphism; without a window, which is
/// what a `w` of 0 stands for, gaps of any length are.
pub open spec fn in_window(k: int, w: int) -> bool {
    0 <= k && (w <= 0 || k <= w)
}

/// There are keys for every LWE secret element and for every automorphism that a blind rotation
/// may come to.
pub open spec fn keys_ready<P: PbsInfo, K: PbsKey>(info: P, key: K) -> bool {
    let p = info.parameters();
    let rotation = rotation_of(info, key);
    &&& forall|i: int|
        0 <= i < p.lwe_n ==> #[trigger] rotation.ready(p.modop_rlweq, RotationStep::Secret(i))
    &&& forall|k: int|
        in_window(k, p.w) && k < p.br_q / 4 ==> #[trigger] rotation.ready(
            p.modop_rlweq,
            RotationStep::Auto(k),
        )
}

/// A ciphertext with the odd exponents `odds` can be rotated by: the entries of its mask are below
/// the modulus, and the steps that they ask for have their keys.
pub open spec fn odds_fit<P: PbsInfo, K: PbsKey>(info: P, key: K, odds: Seq<int>) -> bool {
    let p = info.parameters();
    let steps = rotation_steps(info, odds.skip(1));
    &&& odds.len() == p.lwe_n + 1
    &&& p.g * odds[0] <= usize::MAX
    &&& forall|i: int| 1 <= i < odds.len() ==> #[trigger] odds[i] < p.br_q
    &&& forall|t: int|
        0 <= t < steps.len() ==> rotation_of(info, key).ready(
            p.modop_rlweq,
            #[trigger] steps[t],
        )
}

/// A ciphertext can be bootstrapped: its entries stay residues, or become the modulus itself, when
/// they are rescaled, and the odd exponents that it comes to can be rotated by.
pub open spec fn input_fits<P: PbsInfo, K: PbsKey>(info: P, key: K, lwe_in: Seq<int>) -> bool {
    let p = info.parameters();
    let scaled = rescaled(lwe_in, p.rlwe_q, p.lwe_q);
    &&& forall|i: int| 0 <= i < scaled.len() ==> #[trigger] scaled[i] <= p.lwe_q
    &&& odds_fit(info, key, rotation_exponents(info, key, lwe_in))
}

/// Rescales every entry to the closest integer.
pub open spec fn rescaled(ct: Seq<int>, from: int, to: int) -> Seq<int> {
    Seq::new(ct.len(), |i: int| double::rounded(ct[i], from, to))
}

/// Rescales every entry to an odd number.
pub open spec fn odd_rescaled(ct: Seq<int>, from: int, to: int) -> Seq<int> {
    Seq::new(ct.len(), |i: int| odd_up(double::floored(ct[i], from, to)))
}

/// The indices below `j` of the entries whose discrete logarithm is `k`, in increasing order.
pub open spec fn bucket(odds: Seq<int>, dlog: Seq<usize>, k: int, j: int) -> Seq<usize>
    decreases j,
{
    if j <= 0 {
        Seq::empty()
    } else if dlog[odds[j - 1]] == k {
        bucket(odds, dlog, k, j - 1).push((j - 1) as usize)
    } else {
        bucket(odds, dlog, k, j - 1)
    }
}

/// For each discrete logarithm below `count`, the indices below `j` of the entries that have it.
pub open spec fn buckets(odds: Seq<int>, dlog: Seq<usize>, count: int, j: int) -> Seq<Seq<usize>> {
    Seq::new(count as nat, |k: int| bucket(odds, dlog, k, j))
}

/// The polynomial `t(X^f)` with `n` coefficients.
pub open spec fn embedded(t: Seq<int>, f: int, n: nat) -> Seq<int> {
    Seq::new(
        n,
        |k: int|
            if k % f == 0 && k / f < t.len() {
                t[k / f]
            } else {
                0
            },
    )
}

pub proof fn lemma_bucket(odds: Seq<int>, dlog: Seq<usize>, k: int, j: int)
    requires
        0 <= j <= usize::MAX,
    ensures
        forall|i: int|
            0 <= i < bucket(odds, dlog, k, j).len() ==> 0 <= #[trigger] bucket(
                odds,
                dlog,
                k,
                j,
            )[i] < j,
    decreases j,
{
    if j > 0 {
        lemma_bucket(odds, dlog, k, j - 1);
        let r = bucket(odds, dlog, k, j);
        let before = bucket(odds, dlog, k, j - 1);
        assert forall|i: int| 0 <= i < r.len() implies 0 <= #[trigger] r[i] < j by {
            if i < before.len() {
                assert(r[i] == before[i]);
            }
        }
    }
}

/// A step that needs a key of the secret elements below `n` or of the automorphisms for the
/// powers in the window and below `l`.
pub open spec fn step_within(step: RotationStep, n: int, w: int, l: int) -> bool {
    match step {
        RotationStep::Secret(i) => 0 <= i < n,
        RotationStep::Auto(k) => in_window(k, w) && k < l,
    }
}

proof fn lemma_descent_within(
    gk: Seq<Seq<usize>>,
    base: int,
    i: int,
    v: int,
    w: int,
    n: int,
    l: int,
)
    requires
        0 <= base,
        base + i < gk.len(),
        0 <= v,
        w <= 0 || v < w,
        v + i < l,
        forall|a: int, b: int|
            0 <= a < gk.len() && 0 <= b < gk[a].len() ==> 0 <= #[trigger] gk[a][b] < n,
    ensures
        forall|t: int|
            0 <= t < descent(gk, base, i, v, w).len() ==> step_within(
                #[trigger] descent(gk, base, i, v, w)[t],
                n,
                w,
                l,
            ),
    decreases i,
{
    if i > 0 {
        let s = secret_steps(gk[base + i]);
        let d = descent(gk, base, i, v, w);
        if gk[base + i - 1].len() != 0 || v + 1 == w || i == 1 {
            lemma_descent_within(gk, base, i - 1, 0, w, n, l);
            let next = seq![RotationStep::Auto(v + 1)];
            let rest = descent(gk, base, i - 1, 0, w);
            assert forall|t: int| 0 <= t < d.len() implies step_within(
                #[trigger] d[t],
                n,
                w,
                l,
            ) by {
                if t < s.len() {
                    assert(d[t] == s[t]);
                    assert(0 <= gk[base + i][t] < n);
                } else if t == s.len() {
                    assert(d[t] == next[0]);
                } else {
                    assert(d[t] == rest[t - s.len() - 1]);
                }
            }
        } else {
            lemma_descent_within(gk, base, i - 1, v + 1, w, n, l);
            let rest = descent(gk, base, i - 1, v + 1, w);
            assert forall|t: int| 0 <= t < d.len() implies step_within(
                #[trigger] d[t],
                n,
                w,
                l,
            ) by {
                if t < s.len() {
                    assert(d[t] == s[t]);
                    assert(0 <= gk[base + i][t] < n);
                } else {
                    assert(d[t] == rest[t - s.len()]);
                }
            }
        }
    }
}

pub proof fn lemma_schedule_within(gk: Seq<Seq<usize>>, w: int, q: int, n: int)
    requires
        q >= 4,
        gk.len() >= 2 * (q / 4),
        forall|a: int, b: int|
            0 <= a < gk.len() && 0 <= b < gk[a].len() ==> 0 <= #[trigger] gk[a][b] < n,
    ensures
        forall|t: int|
            0 <= t < schedule(gk, w, q).len() ==> step_within(
                #[trigger] schedule(gk, w, q)[t],
                n,
                w,
                q / 4,
            ),
{
    let l = q / 4;
    let (a, b, d, e) = (
        descent(gk, l, l - 1, 0, w),
        secret_steps(gk[l]),
        descent(gk, 0, l - 1, 0, w),
        secret_steps(gk[0]),
    );
    let c = seq![RotationStep::Auto(0)];
    let steps = a + b + c + d + e;
    assert(steps == schedule(gk, w, q));
    lemma_descent_within(gk, l, l - 1, 0, w, n, l);
    lemma_descent_within(gk, 0, l - 1, 0, w, n, l);
    assert forall|t: int| 0 <= t < steps.len() implies step_within(
        #[trigger] steps[t],
        n,
        w,
        l,
    ) by {
        if t < a.len() {
            assert(steps[t] == a[t]);
        } else if t < (a + b).len() {
            assert(steps[t] == b[t - a.len()]);
            assert(0 <= gk[l][t - a.len()] < n);
        } else if t == (a + b).len() {
            assert(steps[t] == c[0]);
        } else if t < (a + b + c + d).len() {
            assert(steps[t] == d[t - (a + b + c).len()]);
        } else {
            assert(steps[t] == e[t - (a + b + c + d).len()]);
            assert(0 <= gk[0][t - (a + b + c + d).len()] < n);
        }
    }
}

/// A matrix of two rows of zeros and `b`.
fn trivial_rlwe<El: Element>(b: Vec<El>) -> (r: Vec<Vec<El>>)
    ensures
        backend::mat(r@) == seq![poly::zeros(b.len() as nat), backend::vals(b@)],
{
    let a: Vec<El> = zeros(b.len());
    let mut r: Vec<Vec<El>> = Vec::new();
    r.push(a);
    r.push(b);
    assert(backend::mat(r@) =~= seq![poly::zeros(b.len() as nat), backend::vals(b@)]);
    r
}

/// Embeds a polynomial `t` of the ring `X^{q/2}+1` in the bigger ring `X^{N}+1`.
fn embed<El: Element>(t: &[El], embed_factor: usize, ring_size: usize) -> (r: Vec<El>)
    requires
        embed_factor > 0,
        t.len() > 0,
        embed_factor * (t.len() - 1) < ring_size,
    ensures
        backend::vals(r@) == embedded(
            backend::vals(t@),
            embed_factor as int,
            ring_size as nat,
        ),
        r.len() == ring_size,
{
    let ghost f = embed_factor as int;
    let ghost tv = backend::vals(t@);
    let mut r: Vec<El> = zeros(ring_size);
    proof {
        assert forall|k: int| 0 <= k < ring_size implies (#[trigger] r[k]).val() == 0 by {
            assert(backend::vals(r@)[k] == r[k].val());
        }
        assert forall|k: int| 0 <= k < ring_size implies (#[trigger] r[k]).val() == (if k % f == 0
            && k / f < 0 {
            tv[k / f]
        } else {
            0
        }) by {
            lemma_div_pos_is_pos(k, f);
        }
    }
    let m: usize = t.len();
    for index in 0..m
        invariant
            f == embed_factor,
            f > 0,
            m == t.len(),
            tv == backend::vals(t@),
            r.len() == ring_size,
            f * (m - 1) < ring_size,
            forall|k: int|
                0 <= k < ring_size ==> (#[trigger] r[k]).val() == (if k % f == 0 && k / f < index {
                    tv[k / f]
                } else {
                    0
                }),
    {
        proof {
            assert(f * index <= f * (m - 1)) by (nonlinear_arith)
                requires
                    f > 0,
                    index <= m - 1,
            ;
            assert(f * index >= 0) by (nonlinear_arith)
                requires
                    f > 0,
                    index >= 0,
            ;
            assert(tv[index as int] == t[index as int].val());
            lemma_mul_is_commutative(f, index as int);
            lemma_div_multiples_vanish(index as int, f);
            lemma_mod_multiples_basic(index as int, f);
        }
        let ghost before = r@;
        let to: usize = embed_factor * index;
        r[to] = t[index];
        assert forall|k: int| 0 <= k < ring_size implies (#[trigger] r[k]).val() == (if k % f == 0
            && k / f < index + 1 {
            tv[k / f]
        } else {
            0
        }) by {
            if k != to {
                assert(r[k] == before[k]);
                lemma_fundamental_div_mod(k, f);
            }
        }
    }
    assert(backend::vals(r@) =~= embedded(tv, f, ring_size as nat));
    r
}

/// A row of `n` empty lists.
fn empty_lists(n: usize) -> (r: Vec<Vec<usize>>)
    ensures
        lists(r@) == Seq::new(n as nat, |i: int| Seq::<usize>::empty()),
{
    let mut r: Vec<Vec<usize>> = Vec::new();
    for i in 0..n
        invariant
            r.len() == i,
            forall|k: int| 0 <= k < i ==> (#[trigger] r[k])@ == Seq::<usize>::empty(),
    {
        r.push(Vec::new());
    }
    assert(lists(r@) =~= Seq::new(n as nat, |i: int| Seq::<usize>::empty()));
    r
}

/// The product of odd numbers is odd, and stays so modulo an even number.
proof fn lemma_odd_product(g: int, b: int, q: int)
    requires
        g >= 0,
        b >= 0,
        g % 2 == 1,
        b % 2 == 1,
        q > 0,
        q % 2 == 0,
    ensures
        g * b >= 0,
        0 <= (g * b) % q < q,
        ((g * b) % q) % 2 == 1,
{
    let (x, y) = (g / 2, b / 2);
    assert(g * b == 2 * (2 * x * y + x + y) + 1) by (nonlinear_arith)
        requires
            g == 2 * x + 1,
            b == 2 * y + 1,
    ;
    assert(g * b >= 0) by (nonlinear_arith)
        requires
            g >= 0,
            b >= 0,
    ;
    lemma_mod_bound(g * b, q);
    lemma_mod_mod(g * b, 2, q / 2);
}

/// The monomial `X^{g*b}` in the ring of `br_q / 2` coefficients: its exponent below `br_q / 2`
/// and its sign.
fn monomial_of(g: usize, b: usize, br_q: usize) -> (r: (usize, bool))
    requires
        br_q > 0,
        br_q % 4 == 0,
        g % 2 == 1,
        b % 2 == 1,
        g * b <= usize::MAX,
    ensures
        r.0 < br_q / 2,
        (if r.1 {
            r.0 as int
        } else {
            r.0 + br_q / 2
        }) == (g * b) % (br_q as int),
{
    proof {
        lemma_odd_product(g as int, b as int, br_q as int);
    }
    let g_times_b: usize = (g * b) % br_q;
    let br_qby2: usize = br_q / 2;
    if g_times_b > br_qby2 {
        (g_times_b - br_qby2, false)
    } else {
        (g_times_b, true)
    }
}

/// A ciphertext modulo the LWE modulus, switched to the LWE secret.
pub open spec fn key_switched_down<P: PbsInfo, K: PbsKey>(
    info: P,
    key: K,
    lwe_in: Seq<int>,
) -> Seq<int> {
    let p = info.parameters();
    lwe::key_switched(
        poly::zeros(p.lwe_n + 1),
        lwe_in,
        key.lwe_ksk_rows(),
        p.lwe_decomposer,
        p.lwe_q,
    )
}

/// The ciphertext after the first two steps of a bootstrapping: every entry rescaled to the LWE
/// modulus, and the key switched to the LWE secret.
pub open spec fn switched_down<P: PbsInfo, K: PbsKey>(
    info: P,
    key: K,
    lwe_in: Seq<int>,
) -> Seq<int> {
    let p = info.parameters();
    key_switched_down(info, key, rescaled(lwe_in, p.rlwe_q, p.lwe_q))
}

/// The odd exponents that the ciphertext is rescaled to for the blind rotation.
pub open spec fn rotation_exponents<P: PbsInfo, K: PbsKey>(
    info: P,
    key: K,
    lwe_in: Seq<int>,
) -> Seq<int> {
    let p = info.parameters();
    odd_rescaled(switched_down(info, key, lwe_in), p.lwe_q, p.br_q)
}

/// The ciphertext at the start of the blind rotation: the trivial ciphertext of the test
/// polynomial times `X^{g*b}`, embedded in the ring.
pub open spec fn rotation_start<P: PbsInfo>(info: P, test_vec: Seq<int>, b: int) -> (
    Seq<Seq<int>>,
    bool,
) {
    let p = info.parameters();
    (
        seq![
            poly::zeros(p.rlwe_n),
            embedded(
                ring::monomial_times(test_vec, p.g * b, p.rlwe_q),
                p.embedding_factor,
                p.rlwe_n,
            ),
        ],
        true,
    )
}

/// The steps of the blind rotation for the odd exponents `odds` of the mask.
pub open spec fn rotation_steps<P: PbsInfo>(info: P, odds: Seq<int>) -> Seq<RotationStep> {
    let p = info.parameters();
    schedule(
        buckets(odds, p.g_k_dlog_map, p.br_q / 2, odds.len() as int),
        p.w,
        p.br_q,
    )
}

/// The sample extracted after the blind rotation for the odd exponents `odds` of a ciphertext.
pub open spec fn rotated_sample<P: PbsInfo, K: PbsKey>(
    info: P,
    key: K,
    test_vec: Seq<int>,
    odds: Seq<int>,
) -> Seq<int> {
    let rotated = rotation_of(info, key).run(
        rotation_start(info, test_vec, odds[0]),
        rotation_steps(info, odds.skip(1)),
    ).0;
    extracted(rotated, 0, info.parameters().rlwe_q)
}

/// The result of a bootstrapping.
pub open spec fn bootstrapped<P: PbsInfo, K: PbsKey>(
    info: P,
    key: K,
    test_vec: Seq<int>,
    lwe_in: Seq<int>,
) -> Seq<int> {
    rotated_sample(info, key, test_vec, rotation_exponents(info, key, lwe_in))
}

/// Numbers as integers.
pub open spec fn exponents(odds: Seq<usize>) -> Seq<int> {
    Seq::new(odds.len(), |i: int| odds[i] as int)
}

/// Switches a ciphertext modulo the LWE modulus to the LWE secret. An entry of `lwe_in` may also
/// be the modulus itself.
fn pbs_switch_key<El: Element, P: PbsInfo<Element = El>, K: PbsKey<Element = El>>(
    pbs_info: &P,
    lwe_in: &[El],
    pbs_key: &K,
    lwe_out: &mut [El],
)
    requires
        pbs_ready(*pbs_info, *pbs_key),
        lwe_in.len() == pbs_info.parameters().rlwe_n + 1,
        forall|i: int|
            0 <= i < lwe_in.len() ==> 0 <= (#[trigger] lwe_in[i]).val()
                <= pbs_info.parameters().lwe_q,
        old(lwe_out).len() == pbs_info.parameters().lwe_n + 1,
    ensures
        backend::vals(final(lwe_out)@) == key_switched_down(
            *pbs_info,
            *pbs_key,
            backend::vals(lwe_in@),
        ),
        final(lwe_out).len() == old(lwe_out).len(),
        ring::canonical(backend::vals(final(lwe_out)@), pbs_info.parameters().lwe_q),
{
    let ghost p = pbs_info.parameters();
    proof {
        p.modop_lweq.lemma_q_positive();
    }
    let len: usize = lwe_out.len();
    for i in 0..len
        invariant
            len == lwe_out.len(),
            forall|k: int| 0 <= k < i ==> (#[trigger] lwe_out[k]).val() == 0,
    {
        lwe_out[i] = El::zero();
    }
    assert(backend::vals(lwe_out@) =~= poly::zeros(p.lwe_n + 1));
    let ksk: &Vec<Vec<El>> = pbs_key.lwe_ksk();
    assert(backend::mat(ksk@).len() == ksk.len());
    lwe_key_switch(
        lwe_out,
        lwe_in,
        ksk,
        pbs_info.modop_lweq(),
        pbs_info.lwe_decomposer(),
    );
}

/// Sorts the indices of the entries by their discrete logarithms.
fn sort_by_dlog(odds: &[usize], g_k_dlog_map: &[usize], br_q: usize) -> (r: Vec<Vec<usize>>)
    requires
        odds.len() > 0,
        br_q % 2 == 0,
        g_k_dlog_map.len() >= br_q,
        forall|i: int| 1 <= i < odds.len() ==> #[trigger] odds[i] < br_q && odds[i] % 2 == 1,
        forall|a: int|
            0 <= a < br_q && a % 2 == 1 ==> (#[trigger] g_k_dlog_map[a]) < br_q as int / 2,
    ensures
        lists(r@) == buckets(
            exponents(odds@).skip(1),
            g_k_dlog_map@,
            br_q as int / 2,
            odds.len() - 1,
        ),
{
    let ghost ov = exponents(odds@);
    let ghost mask = ov.skip(1);
    let ghost dlog = g_k_dlog_map@;
    let count: usize = odds.len() - 1;
    assert(br_q >> 1 == br_q / 2) by (bit_vector);
    let br_qby2: usize = br_q >> 1;
    let mut g_k_si: Vec<Vec<usize>> = empty_lists(br_qby2);
    assert(lists(g_k_si@) =~= buckets(mask, dlog, br_qby2 as int, 0));
    for index in 0..count
        invariant
            br_qby2 == br_q / 2,
            odds.len() == count + 1,
            forall|i: int| 1 <= i < odds.len() ==> #[trigger] odds[i] < br_q && odds[i] % 2 == 1,
            ov == exponents(odds@),
            mask == ov.skip(1),
            dlog == g_k_dlog_map@,
            g_k_dlog_map.len() >= br_q,
            forall|a: int|
                0 <= a < br_q && a % 2 == 1 ==> (#[trigger] g_k_dlog_map[a]) < br_q as int / 2,
            lists(g_k_si@) == buckets(mask, dlog, br_qby2 as int, index as int),
    {
        let ghost before = lists(g_k_si@);
        let odd_v: usize = odds[index + 1];
        assert(mask[index as int] == ov[index + 1]);
        // dlog `k` for `odd_v` is stored as `k` if odd_v = +g^{k}. If odd_v = -g^{k},
        // then `k` is stored as `q/4 + k`.
        let k: usize = g_k_dlog_map[odd_v];
        assert(g_k_dlog_map[odd_v as int] < br_q as int / 2);
        assert(before.len() == g_k_si.len());
        assert(before[k as int] == g_k_si[k as int]@);
        g_k_si[k].push(index);
        proof {
            let after = buckets(mask, dlog, br_qby2 as int, index + 1);
            assert(lists(g_k_si@) =~= before.update(k as int, before[k as int].push(index)));
            assert(before.update(k as int, before[k as int].push(index)) =~= after);
        }
    }
    g_k_si
}

/// The exponent of a monomial counts modulo twice the number of coefficients.
proof fn lemma_monomial_reduced(v: Seq<int>, e: int, m: int, q: int)
    requires
        m == 2 * v.len(),
        m > 0,
    ensures
        ring::monomial_times(v, e % m, q) == ring::monomial_times(v, e, q),
{
    let (r, t) = (ring::monomial_times(v, e % m, q), ring::monomial_times(v, e, q));
    assert forall|k: int| 0 <= k < v.len() implies #[trigger] r[k] == t[k] by {
        lemma_sub_mod_noop_right(k, e, m);
    }
    assert(r =~= t);
}

/// A polynomial embedded in its own ring stays as it is.
proof fn lemma_embedded_whole(t: Seq<int>)
    ensures
        embedded(t, 1, t.len()) == t,
{
    let m = embedded(t, 1, t.len());
    assert forall|k: int| 0 <= k < t.len() implies #[trigger] m[k] == t[k] by {
        lemma_div_basics(k);
        lemma_fundamental_div_mod(k, 1);
    }
    assert(m =~= t);
}

proof fn lemma_embedded_canonical(t: Seq<int>, f: int, n: nat, q: int)
    requires
        f > 0,
        q > 0,
        ring::canonical(t, q),
    ensures
        ring::canonical(embedded(t, f, n), q),
{
    let m = embedded(t, f, n);
    assert forall|k: int| 0 <= k < n implies 0 <= #[trigger] m[k] < q by {
        lemma_div_pos_is_pos(k, f);
        if k % f == 0 && k / f < t.len() {
            assert(0 <= t[k / f] < q);
        }
    }
}

/// The trivial ciphertext of the test polynomial times `X^{g*b}`, embedded in the ring.
fn start_rotation<El: Element, P: PbsInfo<Element = El>>(
    pbs_info: &P,
    test_vec: &[El],
    b: usize,
) -> (r: Vec<Vec<El>>)
    requires
        ({
            let p = pbs_info.parameters();
            &&& p.modop_rlweq.wf() && p.modop_rlweq.q() == p.rlwe_q
            &&& p.br_q > 0 && p.br_q % 4 == 0
            &&& p.g > 0 && p.g % 2 == 1
            &&& p.embedding_factor > 0 && p.embedding_factor * (p.br_q / 2 - 1) < p.rlwe_n
            &&& p.embedding_factor == 1 ==> p.rlwe_n == p.br_q / 2
        }),
        test_vec.len() == pbs_info.parameters().br_q / 2,
        ring::canonical(backend::vals(test_vec@), pbs_info.parameters().rlwe_q),
        pbs_info.parameters().g * b <= usize::MAX,
        b % 2 == 1,
    ensures
        backend::mat(r@) == rotation_start(*pbs_info, backend::vals(test_vec@), b as int).0,
        rgsw::is_rlwe(
            backend::mat(r@),
            pbs_info.parameters().rlwe_n,
            pbs_info.parameters().rlwe_q,
        ),
{
    let ghost p = pbs_info.parameters();
    let br_q: usize = pbs_info.br_q();
    let rlwe_n: usize = pbs_info.rlwe_n();
    let br_qby2: usize = br_q / 2;
    proof {
        p.modop_rlweq.lemma_q_positive();
    }
    // v = (v(X) * X^{g*b}) mod X^{q/2}+1
    let g: usize = pbs_info.g() as usize;
    let (gb_monomial_exp, gb_monomial_sign): (usize, bool) = monomial_of(g, b, br_q);
    let mut t: Vec<El> = zeros(br_qby2);
    monomial_mul(
        test_vec,
        t.as_mut_slice(),
        gb_monomial_exp,
        gb_monomial_sign,
        br_qby2,
        pbs_info.modop_rlweq(),
    );
    let ghost tv = ring::monomial_times(backend::vals(test_vec@), p.g * b, p.rlwe_q);
    proof {
        assert(backend::vals(test_vec@).len() == br_qby2);
        lemma_monomial_reduced(backend::vals(test_vec@), p.g * b, p.br_q, p.rlwe_q);
        assert(backend::vals(t@) == tv);
    }
    let embed_factor: usize = pbs_info.embedding_factor();
    let body: Vec<El> = if embed_factor == 1 {
        proof {
            lemma_embedded_whole(tv);
        }
        t
    } else {
        // emebed poly `t` in ring X^{q/2}+1 inside the bigger ring X^{N}+1
        embed(t.as_slice(), embed_factor, rlwe_n)
    };
    let ghost test_poly = embedded(tv, p.embedding_factor, p.rlwe_n);
    assert(backend::vals(body@) == test_poly);
    assert(backend::vals(body@).len() == body.len());
    let r: Vec<Vec<El>> = trivial_rlwe(body);
    proof {
        let m = backend::mat(r@);
        lemma_embedded_canonical(tv, p.embedding_factor, p.rlwe_n, p.rlwe_q);
        assert(ring::canonical(m[0], p.rlwe_q));
        assert(ring::canonical(m[1], p.rlwe_q));
    }
    r
}

/// The steps of the rotation have their keys.
proof fn lemma_steps_ready<P: PbsInfo, K: PbsKey>(info: P, key: K, odds: Seq<int>)
    requires
        info.parameters().br_q >= 4,
        info.parameters().br_q % 4 == 0,
        keys_ready(info, key),
        odds.len() == info.parameters().lwe_n,
        odds.len() <= usize::MAX,
    ensures
        forall|i: int|
            0 <= i < rotation_steps(info, odds).len() ==> rotation_of(info, key).ready(
                info.parameters().modop_rlweq,
                #[trigger] rotation_steps(info, odds)[i],
            ),
{
    let p = info.parameters();
    let rotation = rotation_of(info, key);
    let gk = buckets(odds, p.g_k_dlog_map, p.br_q / 2, p.lwe_n as int);
    let steps = rotation_steps(info, odds);
    assert forall|a: int, c: int| 0 <= a < gk.len() && 0 <= c < gk[a].len() implies 0
        <= #[trigger] gk[a][c] < p.lwe_n by {
        lemma_bucket(odds, p.g_k_dlog_map, a, p.lwe_n as int);
        assert(gk[a] == bucket(odds, p.g_k_dlog_map, a, p.lwe_n as int));
    }
    lemma_schedule_within(gk, p.w, p.br_q, p.lwe_n as int);
    assert forall|i: int| 0 <= i < steps.len() implies rotation.ready(
        p.modop_rlweq,
        #[trigger] steps[i],
    ) by {
        assert(step_within(steps[i], p.lwe_n as int, p.w, p.br_q / 4));
        match steps[i] {
            RotationStep::Secret(c) => {
                assert(rotation.ready(p.modop_rlweq, RotationStep::Secret(c)));
            },
            RotationStep::Auto(c) => {
                assert(rotation.ready(p.modop_rlweq, RotationStep::Auto(c)));
            },
        }
    }
}

/// With all keys and an LWE modulus of at most 48 bits every ciphertext can be bootstrapped.
pub proof fn lemma_input_fits<P: PbsInfo, K: PbsKey>(info: P, key: K, lwe_in: Seq<int>)
    requires
        pbs_ready(info, key),
        keys_ready(info, key),
        info.parameters().lwe_n <= usize::MAX,
        info.parameters().g * info.parameters().br_q <= usize::MAX,
        32 * info.parameters().lwe_q <= double::HIGH,
        lwe_in.len() == info.parameters().rlwe_n + 1,
        ring::canonical(lwe_in, info.parameters().rlwe_q),
    ensures
        input_fits(info, key, lwe_in),
{
    let p = info.parameters();
    let scaled = rescaled(lwe_in, p.rlwe_q, p.lwe_q);
    let switched = switched_down(info, key, lwe_in);
    let odds = rotation_exponents(info, key, lwe_in);
    p.modop_lweq.lemma_q_positive();
    assert forall|i: int| 0 <= i < scaled.len() implies 0 <= #[trigger] scaled[i] <= p.lwe_q by {
        double::lemma_rescaled_range(lwe_in[i], p.rlwe_q, p.lwe_q);
    }
    assert(ring::canonical(poly::zeros(p.lwe_n + 1), p.lwe_q));
    lwe::lemma_key_switched(
        poly::zeros(p.lwe_n + 1),
        scaled,
        key.lwe_ksk_rows(),
        p.lwe_decomposer,
        p.lwe_q,
    );
    assert forall|i: int| 0 <= i < odds.len() implies 0 < #[trigger] odds[i] < p.br_q by {
        lemma_odd_rescaling_close(switched[i], p.lwe_q, p.br_q);
    }
    assert(p.g * odds[0] <= p.g * p.br_q) by (nonlinear_arith)
        requires
            p.g > 0,
            odds[0] < p.br_q,
    ;
    lemma_steps_ready(info, key, odds.skip(1));
}

/// Rotates the test polynomial by what the ciphertext with the odd exponents `odds` decrypts to,
/// and extracts the sample at zero.
fn pbs_rotate<El: Element, P: PbsInfo<Element = El>, K: PbsKey<Element = El>>(
    pbs_info: &P,
    test_vec: &[El],
    odds: &[usize],
    pbs_key: &K,
    lwe_out: &mut [El],
)
    requires
        pbs_ready(*pbs_info, *pbs_key),
        test_vec.len() == pbs_info.parameters().br_q / 2,
        ring::canonical(backend::vals(test_vec@), pbs_info.parameters().rlwe_q),
        odds_fit(*pbs_info, *pbs_key, exponents(odds@)),
        forall|i: int| 0 <= i < odds.len() ==> #[trigger] odds[i] % 2 == 1,
        old(lwe_out).len() == pbs_info.parameters().rlwe_n + 1,
    ensures
        backend::vals(final(lwe_out)@) == rotated_sample(
            *pbs_info,
            *pbs_key,
            backend::vals(test_vec@),
            exponents(odds@),
        ),
        final(lwe_out).len() == old(lwe_out).len(),
        ring::canonical(backend::vals(final(lwe_out)@), pbs_info.parameters().rlwe_q),
{
    let br_q: usize = pbs_info.br_q();
    proof {
        assert(exponents(odds@).len() == odds.len());
        assert forall|i: int| 1 <= i < odds.len() implies #[trigger] odds[i] < br_q by {
            assert(exponents(odds@)[i] == odds[i]);
        }
        assert(exponents(odds@)[0] == odds[0]);
    }
    let g_k_si: Vec<Vec<usize>> = sort_by_dlog(odds, pbs_info.g_k_dlog_map(), br_q);
    // handle b and set trivial test RLWE
    let mut trivial_rlwe_test_poly: Vec<Vec<El>> = start_rotation(pbs_info, test_vec, odds[0]);
    proof {
        let p = pbs_info.parameters();
        let mask = exponents(odds@).skip(1);
        assert(lists(g_k_si@).len() == g_k_si.len());
        assert(schedule(lists(g_k_si@), p.w, p.br_q) == rotation_steps(*pbs_info, mask));
        pbs_info.parameters().nttop_rlweq.lemma_positive();
    }
    // blind rotate
    blind_rotation(
        &mut trivial_rlwe_test_poly,
        pbs_info.g(),
        pbs_info.w(),
        br_q,
        g_k_si.as_slice(),
        pbs_info.rlwe_rgsw_decomposer(),
        pbs_info.auto_decomposer(),
        pbs_info.nttop_rlweq(),
        pbs_info.modop_rlweq(),
        pbs_info,
        pbs_key,
    );
    // sample extract
    sample_extract(lwe_out, &trivial_rlwe_test_poly, pbs_info.modop_rlweq(), 0);
}

/// - Mod down
/// - key switching
/// - mod down
/// - blind rotate
pub fn pbs<
    El: Element,
    P: PbsInfo<Element = El>,
    K: PbsKey<Element = El>,
>(
    pbs_info: &P,
    test_vec: &[El],
    lwe_in: &mut [El],
    pbs_key: &K,
    scratch_lwe_vec: &mut [El],
)
    requires
        pbs_ready(*pbs_info, *pbs_key),
        test_vec.len() == pbs_info.parameters().br_q / 2,
        ring::canonical(backend::vals(test_vec@), pbs_info.parameters().rlwe_q),
        old(lwe_in).len() == pbs_info.parameters().rlwe_n + 1,
        ring::canonical(backend::vals(old(lwe_in)@), pbs_info.parameters().rlwe_q),
        input_fits(*pbs_info, *pbs_key, backend::vals(old(lwe_in)@)),
        old(scratch_lwe_vec).len() == pbs_info.parameters().lwe_n + 1,
    ensures
        backend::vals(final(lwe_in)@) == bootstrapped(
            *pbs_info,
            *pbs_key,
            backend::vals(test_vec@),
            backend::vals(old(lwe_in)@),
        ),
        backend::vals(final(scratch_lwe_vec)@) == switched_down(
            *pbs_info,
            *pbs_key,
            backend::vals(old(lwe_in)@),
        ),
        final(lwe_in).len() == old(lwe_in).len(),
        final(scratch_lwe_vec).len() == old(scratch_lwe_vec).len(),
        ring::canonical(backend::vals(final(lwe_in)@), pbs_info.parameters().rlwe_q),
{
    let ghost p = pbs_info.parameters();
    let rlwe_q: &P::Modulus = pbs_info.rlwe_q();
    let lwe_q: &P::Modulus = pbs_info.lwe_q();
    let br_q: usize = pbs_info.br_q();
    let ghost lwe0 = lwe_in@;
    // moddown Q -> Q_ks
    let len: usize = lwe_in.len();
    for i in 0..len
        invariant
            len == lwe_in.len(),
            len == lwe0.len(),
            rlwe_q.wf(),
            lwe_q.wf(),
            ring::canonical(backend::vals(lwe0), rlwe_q.q()),
            forall|k: int| i <= k < len ==> #[trigger] lwe_in[k] == lwe0[k],
            forall|k: int|
                0 <= k < len ==> #[trigger] rescaled(
                    backend::vals(lwe0),
                    rlwe_q.q(),
                    lwe_q.q(),
                )[k] <= lwe_q.q(),
            forall|k: int|
                0 <= k < i ==> 0 <= (#[trigger] lwe_in[k]).val() <= lwe_q.q() && lwe_in[k].val()
                    == double::rounded(lwe0[k].val(), rlwe_q.q(), lwe_q.q()),
    {
        proof {
            let v = lwe0[i as int].val();
            assert(backend::vals(lwe0)[i as int] == v);
            assert(rescaled(backend::vals(lwe0), rlwe_q.q(), lwe_q.q())[i as int] <= lwe_q.q());
            lwe_q.lemma_positive();
            double::lemma_rescaled_range(v, rlwe_q.q(), lwe_q.q());
        }
        lwe_in[i] = rlwe_q.switch_rounded(&lwe_in[i], lwe_q);
    }
    assert(backend::vals(lwe_in@) =~= rescaled(backend::vals(lwe0), p.rlwe_q, p.lwe_q));
    // key switch RLWE secret to LWE secret
    pbs_switch_key(pbs_info, lwe_in, pbs_key, scratch_lwe_vec);
    let ghost switched = backend::vals(scratch_lwe_vec@);
    // odd moddown Q_ks -> q
    let mut odds: Vec<usize> = Vec::new();
    let scratch_len: usize = scratch_lwe_vec.len();
    let ghost want = odd_rescaled(switched, p.lwe_q, p.br_q);
    assert(want == rotation_exponents(*pbs_info, *pbs_key, backend::vals(lwe0)));
    assert(want[0] <= usize::MAX) by (nonlinear_arith)
        requires
            p.g > 0,
            p.g * want[0] <= usize::MAX,
    ;
    for i in 0..scratch_len
        invariant
            lwe_q.wf(),
            lwe_q.q() == p.lwe_q,
            br_q == p.br_q,
            scratch_len == scratch_lwe_vec.len(),
            switched == backend::vals(scratch_lwe_vec@),
            want == odd_rescaled(switched, p.lwe_q, p.br_q),
            want.len() == scratch_len,
            want[0] <= usize::MAX,
            forall|k: int| 1 <= k < want.len() ==> #[trigger] want[k] < br_q,
            ring::canonical(switched, p.lwe_q),
            odds.len() == i,
            forall|k: int| 0 <= k < i ==> #[trigger] odds[k] == want[k] && odds[k] % 2 == 1,
    {
        assert(switched[i as int] == scratch_lwe_vec[i as int].val());
        assert(want[i as int] <= usize::MAX);
        odds.push(mod_switch_odd(&scratch_lwe_vec[i], lwe_q, br_q));
    }
    assert(exponents(odds@) =~= want);
    // blind rotate and sample extract
    pbs_rotate(pbs_info, test_vec, odds.as_slice(), pbs_key, lwe_in);
}

/// The odd number among a number and the next.
pub proof fn lemma_odd_up(v: int)
    ensures
        odd_up(v) % 2 == 1,
        v <= odd_up(v) <= v + 1,
{
}

/// What the steps of a blind rotation need: the RGSW ciphertext of a secret element, or the key and
/// the map of an automorphism, of the right shape and with what was precomputed from them.
pub proof fn lemma_ready<K: PbsKey, D: Decomposer, A: Decomposer, N: Ntt, Op: ShoupMatrixFMA>(
    rotation: Rotation<K, D, A, N>,
    mod_op: Op,
    i: int,
)
    ensures
        rotation.ready(mod_op, RotationStep::Secret(i)) <==> {
            let ct = rotation.key.rgsw_ct(i);
            0 <= i && rotation.key.has_rgsw_ct(i) && ct.rows().len() == 2
                * rotation.rlwe_rgsw_decomposer.0.count() + 2
                * rotation.rlwe_rgsw_decomposer.1.count() && backend::rows_canonical(
                ct.rows(),
                rotation.ntt.n(),
                rotation.ntt.q(),
            ) && rgsw::is_shoup_of(mod_op, ct.rows(), ct.shoup_rows())
        },
        rotation.ready(mod_op, RotationStep::Auto(i)) <==> {
            let key = rotation.key.galois_key(i);
            0 <= i && rotation.key.has_galois_key(i) && key.rows().len() == 2
                * rotation.auto_decomposer.count() && backend::rows_canonical(
                key.rows(),
                rotation.ntt.n(),
                rotation.ntt.q(),
            ) && rgsw::is_shoup_of(mod_op, key.rows(), key.shoup_rows())
                && rotation.auto_maps.contains_key(i) && rgsw::is_auto_map(
                rotation.auto_maps[i].0,
                rotation.auto_maps[i].1,
                rotation.ntt.n(),
            )
        },
{
}

/// Which parameters, keys and ciphertexts a bootstrapping takes.
pub proof fn lemma_bootstrap_inputs<P: PbsInfo, K: PbsKey>(info: P, key: K, lwe_in: Seq<int>)
    ensures
        pbs_ready(info, key) <==> {
            let p = info.parameters();
            info.wf() && p.modop_rlweq.wf() && p.modop_rlweq.q() == p.rlwe_q
                && p.nttop_rlweq.wf() && p.nttop_rlweq.q() == p.rlwe_q && p.nttop_rlweq.n()
                == p.rlwe_n && p.rlwe_rgsw_decomposer.0.wf() && p.rlwe_rgsw_decomposer.0.q()
                == p.rlwe_q && p.rlwe_rgsw_decomposer.1.wf() && p.rlwe_rgsw_decomposer.1.q()
                == p.rlwe_q && p.auto_decomposer.wf() && p.auto_decomposer.q() == p.rlwe_q
                && p.modop_lweq.wf() && p.modop_lweq.q() == p.lwe_q && p.lwe_decomposer.wf()
                && p.lwe_decomposer.q() == p.lwe_q && p.br_q > 0 && p.br_q % 4 == 0 && p.g > 0
                && p.g % 2 == 1 && p.embedding_factor > 0 && p.embedding_factor * (p.br_q / 2 - 1)
                < p.rlwe_n && (p.embedding_factor == 1 ==> p.rlwe_n == p.br_q / 2)
                && p.g_k_dlog_map.len() >= p.br_q && (forall|a: int|
                0 <= a < p.br_q && a % 2 == 1 ==> (#[trigger] p.g_k_dlog_map[a]) < p.br_q / 2)
                && key.lwe_ksk_rows().len() == p.rlwe_n * p.lwe_decomposer.count()
                && backend::rows_canonical(key.lwe_ksk_rows(), p.lwe_n + 1, p.lwe_q)
        },
        input_fits(info, key, lwe_in) <==> {
            let p = info.parameters();
            let scaled = rescaled(lwe_in, p.rlwe_q, p.lwe_q);
            let odds = rotation_exponents(info, key, lwe_in);
            let steps = rotation_steps(info, odds.skip(1));
            (forall|i: int| 0 <= i < scaled.len() ==> #[trigger] scaled[i] <= p.lwe_q)
                && odds.len() == p.lwe_n + 1 && p.g * odds[0] <= usize::MAX && (forall|i: int|
                1 <= i < odds.len() ==> #[trigger] odds[i] < p.br_q) && (forall|t: int|
                0 <= t < steps.len() ==> rotation_of(info, key).ready(
                    p.modop_rlweq,
                    #[trigger] steps[t],
                ))
        },
        keys_ready(info, key) <==> {
            let p = info.parameters();
            let rotation = rotation_of(info, key);
            (forall|i: int|
                0 <= i < p.lwe_n ==> #[trigger] rotation.ready(
                    p.modop_rlweq,
                    RotationStep::Secret(i),
                )) && (forall|k: int|
                in_window(k, p.w) && k < p.br_q / 4 ==> #[trigger] rotation.ready(
                    p.modop_rlweq,
                    RotationStep::Auto(k),
                ))
        },
{
}

/// What the parts of a bootstrapping are made of: every entry of a ciphertext is rescaled, lists of
/// numbers are taken as they are, and the rotation has the parts of the parameters.
pub proof fn lemma_rotation_parts<P: PbsInfo, K: PbsKey>(
    info: P,
    key: K,
    ct: Seq<int>,
    gk: Seq<Vec<usize>>,
    i: int,
    from: int,
    to: int,
)
    ensures
        rescaled(ct, from, to).len() == ct.len(),
        0 <= i < ct.len() ==> rescaled(ct, from, to)[i] == double::rounded(ct[i], from, to),
        odd_rescaled(ct, from, to).len() == ct.len(),
        0 <= i < ct.len() ==> odd_rescaled(ct, from, to)[i] == odd_up(
            double::floored(ct[i], from, to),
        ),
        lists(gk).len() == gk.len(),
        0 <= i < gk.len() ==> lists(gk)[i] == gk[i]@,
        rotation_of(info, key).key == key,
        rotation_of(info, key).rlwe_rgsw_decomposer == info.parameters().rlwe_rgsw_decomposer,
        rotation_of(info, key).auto_decomposer == info.parameters().auto_decomposer,
        rotation_of(info, key).ntt == info.parameters().nttop_rlweq,
        rotation_of(info, key).auto_maps == info.parameters().rlwe_auto_maps,
{
}

/// The coefficients of an embedded polynomial: those of the powers of `X^f` are those of the
/// polynomial, the others are zero.
pub proof fn lemma_embedded_coefficients(t: Seq<int>, f: int, n: nat, k: int)
    requires
        f > 0,
        0 <= k < n,
    ensures
        embedded(t, f, n).len() == n,
        k % f != 0 ==> embedded(t, f, n)[k] == 0,
        k % f == 0 && k < f * t.len() ==> embedded(t, f, n)[k] == t[k / f],
        k % f == 0 && k >= f * t.len() ==> embedded(t, f, n)[k] == 0,
{
    let (d, l) = (k / f, t.len() as int);
    lemma_fundamental_div_mod(k, f);
    if k % f == 0 {
        assert(k == f * d);
        assert(d < l <==> k < f * l) by (nonlinear_arith)
            requires
                f > 0,
                k == f * d,
        ;
    }
}

/// The steps of a bootstrapping: every entry is rescaled to the LWE modulus, the key is switched,
/// every entry is rescaled to an odd exponent, the test polynomial times `X^{g b}` is rotated by
/// the exponents of the mask, and the sample at zero is extracted.
pub proof fn lemma_bootstrap_steps<P: PbsInfo, K: PbsKey>(
    info: P,
    key: K,
    test_vec: Seq<int>,
    lwe_in: Seq<int>,
)
    ensures
        ({
            let p = info.parameters();
            let switched = lwe::key_switched(
                poly::zeros(p.lwe_n + 1),
                rescaled(lwe_in, p.rlwe_q, p.lwe_q),
                key.lwe_ksk_rows(),
                p.lwe_decomposer,
                p.lwe_q,
            );
            let odds = odd_rescaled(switched, p.lwe_q, p.br_q);
            let mask = odds.skip(1);
            let start = embedded(
                ring::monomial_times(test_vec, p.g * odds[0], p.rlwe_q),
                p.embedding_factor,
                p.rlwe_n,
            );
            let steps = schedule(
                buckets(mask, p.g_k_dlog_map, p.br_q / 2, mask.len() as int),
                p.w,
                p.br_q,
            );
            let rotated = rotation_of(info, key).run(
                (seq![poly::zeros(p.rlwe_n), start], true),
                steps,
            ).0;
            &&& switched_down(info, key, lwe_in) == switched
            &&& rotation_exponents(info, key, lwe_in) == odds
            &&& rotation_steps(info, mask) == steps
            &&& bootstrapped(info, key, test_vec, lwe_in) == extracted(rotated, 0, p.rlwe_q)
        }),
{
}

/// The steps of a rotation: a product with the RGSW ciphertext of a secret element, after which the
/// ciphertext is no longer trivial, or an automorphism with its map and key, one after the other.
pub proof fn lemma_rotation_steps<K: PbsKey, D: Decomposer, A: Decomposer, N: Ntt>(
    rotation: Rotation<K, D, A, N>,
    state: (Seq<Seq<int>>, bool),
    steps: Seq<RotationStep>,
    step: RotationStep,
    i: int,
)
    ensures
        rotation.run(state, Seq::empty()) == state,
        rotation.run(state, steps.push(step)) == rotation.step(rotation.run(state, steps), step),
        rotation.step(state, RotationStep::Secret(i)) == (
            rgsw::rgsw_product(
                state.0,
                rotation.key.rgsw_ct(i).rows(),
                rotation.rlwe_rgsw_decomposer,
                rotation.ntt,
                state.1,
            ),
            false,
        ),
        rotation.step(state, RotationStep::Auto(i)) == (
            rgsw::auto_switched(
                state.0,
                rotation.key.galois_key(i).rows(),
                rotation.auto_maps[i].0,
                rotation.auto_maps[i].1,
                rotation.auto_decomposer,
                rotation.ntt,
                state.1,
            ),
            state.1,
        ),
{
    assert(steps.push(step).drop_last() =~= steps);
}

/// The order of the steps: from the highest list of the second half down, the automorphism for
/// `-g`, and from the highest list of the first half down. Within a half, the levels of `g` since
/// the last automorphism, `v`, grow by one after each list, and one automorphism makes up for them
/// where the next list is not empty, the window is full or the last list is reached.
pub proof fn lemma_descent_terms(gk: Seq<Seq<usize>>, base: int, i: int, v: int, w: int, q: int)
    requires
        i > 0,
    ensures
        descent(gk, base, 0, v, w) == Seq::<RotationStep>::empty(),
        gk[base + i - 1].len() > 0 || v + 1 == w || i == 1 ==> descent(gk, base, i, v, w)
            == secret_steps(gk[base + i]).push(RotationStep::Auto(v + 1)) + descent(
            gk,
            base,
            i - 1,
            0,
            w,
        ),
        gk[base + i - 1].len() == 0 && v + 1 != w && i > 1 ==> descent(gk, base, i, v, w)
            == secret_steps(gk[base + i]) + descent(gk, base, i - 1, v + 1, w),
        schedule(gk, w, q) == descent(gk, q / 4, q / 4 - 1, 0, w) + secret_steps(gk[q / 4]).push(
            RotationStep::Auto(0),
        ) + descent(gk, 0, q / 4 - 1, 0, w) + secret_steps(gk[0]),
        secret_steps(gk[base]).len() == gk[base].len(),
        forall|t: int|
            0 <= t < gk[base].len() ==> #[trigger] secret_steps(gk[base])[t]
                == RotationStep::Secret(gk[base][t] as int),
{
    let a = seq![RotationStep::Auto(v + 1)];
    assert(secret_steps(gk[base + i]) + a =~= secret_steps(gk[base + i]).push(
        RotationStep::Auto(v + 1),
    ));
    let (d, b, c) = (
        descent(gk, q / 4, q / 4 - 1, 0, w),
        secret_steps(gk[q / 4]),
        seq![RotationStep::Auto(0)],
    );
    assert(b + c =~= b.push(RotationStep::Auto(0)));
    assert(d + b + c =~= d + (b + c));
}

} // verus!
