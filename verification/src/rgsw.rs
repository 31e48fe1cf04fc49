//! RLWE ciphertexts, their products with RGSW ciphertexts and their automorphisms.
//!
//! An RLWE ciphertext is a pair of polynomials `(a, b)`, held as a matrix of two rows. Keys are
//! held as matrices whose rows are values of polynomials.
use crate::backend::{self, ArithmeticOps, Element, GetModulus, Residues, ShoupMatrixFMA, VectorOps};
use crate::decomposer::Decomposer;
use crate::multi_party::mul_by_evaluated;
use crate::ntt::Ntt;
use crate::poly;
use crate::ring;
use crate::utils::{self, copied, pow_mod, try_convert_from, zeros};
use vstd::arithmetic::div_mod::*;
use vstd::arithmetic::mul::*;
use vstd::arithmetic::power::*;
use vstd::prelude::*;

verus! {

/// An RLWE ciphertext: two rows of `n` residues.
pub open spec fn is_rlwe(ct: Seq<Seq<int>>, n: nat, q: int) -> bool {
    ct.len() == 2 && backend::rows_canonical(ct, n, q)
}

/// What an RLWE ciphertext decrypts to under `s`, noise included: `b - s * a`.
pub open spec fn rlwe_phase(ct: Seq<Seq<int>>, s: Seq<int>, q: int) -> Seq<int> {
    ring::poly_sub(ct[1], ring::nega_mul(s, ct[0], q), q)
}

/// The polynomial of the `j`-th digits of the coefficients of `x`.
pub open spec fn digit_poly<D: Decomposer>(decomposer: D, x: Seq<int>, j: int) -> Seq<int> {
    Seq::new(x.len(), |i: int| decomposer.digits(x[i])[j])
}

/// `init` plus the first `j` products of a digit polynomial of `x` and a row of the key, which
/// holds values, from row `first` on.
pub open spec fn gadget_sum<D: Decomposer, N: Ntt>(
    init: Seq<int>,
    x: Seq<int>,
    key: Seq<Seq<int>>,
    first: int,
    decomposer: D,
    ntt: N,
    j: int,
) -> Seq<int>
    decreases j,
{
    if j <= 0 {
        init
    } else {
        ring::poly_add(
            gadget_sum(init, x, key, first, decomposer, ntt, j - 1),
            ring::nega_mul(
                digit_poly(decomposer, x, j - 1),
                ntt.coeffs(key[first + j - 1]),
                ntt.q(),
            ),
            ntt.q(),
        )
    }
}

/// All digits of `x` times the rows of the key from row `first` on, added to `init`.
pub open spec fn gadget_product<D: Decomposer, N: Ntt>(
    init: Seq<int>,
    x: Seq<int>,
    key: Seq<Seq<int>>,
    first: int,
    decomposer: D,
    ntt: N,
) -> Seq<int> {
    gadget_sum(init, x, key, first, decomposer, ntt, decomposer.count() as int)
}

/// The product of an RLWE and an RGSW ciphertext. The rows of the RGSW ciphertext are the parts
/// `a`, then the parts `b`, of the encryptions of `-s * m` times each factor of the first gadget,
/// and the same of the encryptions of `m` times each factor of the second gadget. The part `a`
/// of a trivial ciphertext is zero and left out.
pub open spec fn rgsw_product<D: Decomposer, N: Ntt>(
    ct: Seq<Seq<int>>,
    rgsw: Seq<Seq<int>>,
    decomposers: (D, D),
    ntt: N,
    is_trivial: bool,
) -> Seq<Seq<int>> {
    let (da, db) = (decomposers.0.count() as int, decomposers.1.count() as int);
    let z = poly::zeros(ntt.n());
    let (xa, xb) = if is_trivial {
        (z, z)
    } else {
        (
            gadget_product(z, ct[0], rgsw, 0, decomposers.0, ntt),
            gadget_product(z, ct[0], rgsw, da, decomposers.0, ntt),
        )
    };
    seq![
        gadget_product(xa, ct[1], rgsw, 2 * da, decomposers.1, ntt),
        gadget_product(xb, ct[1], rgsw, 2 * da + db, decomposers.1, ntt),
    ]
}

/// `p` with its first `j` coefficients moved to the places in `index`, negated where `sign` is
/// false; coefficients that nothing is moved to are zero.
pub open spec fn moved(
    p: Seq<int>,
    index: Seq<usize>,
    sign: Seq<bool>,
    j: int,
    q: int,
) -> Seq<int>
    decreases j,
{
    if j <= 0 {
        poly::zeros(p.len())
    } else {
        moved(p, index, sign, j - 1, q).update(
            index[j - 1] as int,
            if sign[j - 1] {
                p[j - 1]
            } else {
                (-p[j - 1]) % q
            },
        )
    }
}

/// The image of `p` under the automorphism with the given map.
pub open spec fn auto_image(p: Seq<int>, index: Seq<usize>, sign: Seq<bool>, q: int) -> Seq<int> {
    moved(p, index, sign, p.len() as int, q)
}

/// An automorphism of an RLWE ciphertext: both parts are mapped, and the part `a` is switched
/// back to the secret with the key, whose rows are the parts `a`, then the parts `b`, of
/// encryptions of the mapped negated secret times each factor of the gadget. The part `a` of a
/// trivial ciphertext is zero and left alone.
pub open spec fn auto_switched<D: Decomposer, N: Ntt>(
    ct: Seq<Seq<int>>,
    ksk: Seq<Seq<int>>,
    index: Seq<usize>,
    sign: Seq<bool>,
    decomposer: D,
    ntt: N,
    is_trivial: bool,
) -> Seq<Seq<int>> {
    let q = ntt.q();
    let b = auto_image(ct[1], index, sign, q);
    if is_trivial {
        seq![ct[0], b]
    } else {
        let a = auto_image(ct[0], index, sign, q);
        let z = poly::zeros(ntt.n());
        seq![
            gadget_product(z, a, ksk, 0, decomposer, ntt),
            ring::poly_add(
                gadget_product(z, a, ksk, decomposer.count() as int, decomposer, ntt),
                b,
                q,
            ),
        ]
    }
}

/// `index` names a place in a row of `n` for each of `n` coefficients.
pub open spec fn is_auto_map(index: Seq<usize>, sign: Seq<bool>, n: nat) -> bool {
    &&& index.len() == n
    &&& sign.len() == n
    &&& forall|i: int| 0 <= i < n ==> (#[trigger] index[i]) < n
}

/// Where the automorphism `X -> X^k` sends `X^i`: to `X^index` if the sign is true, else to
/// `-X^index`.
pub open spec fn auto_target(i: int, k: int, n: int) -> (int, bool) {
    let e = (i * k) % (2 * n);
    if e < n {
        (e, true)
    } else {
        (e - n, false)
    }
}

/// The places that the automorphism `X -> X^k` moves the coefficients to.
pub open spec fn auto_indices(n: nat, k: int) -> Seq<usize> {
    Seq::new(n, |i: int| auto_target(i, k, n as int).0 as usize)
}

/// The signs that the coefficients keep (true) or lose there.
pub open spec fn auto_signs(n: nat, k: int) -> Seq<bool> {
    Seq::new(n, |i: int| auto_target(i, k, n as int).1)
}

/// The map of the automorphism `X -> X^k` of `Z_q[X]/(X^n + 1)` for an odd `k`.
pub fn generate_auto_map(ring_size: usize, k: isize) -> (r: (Vec<usize>, Vec<bool>))
    requires
        0 < ring_size,
        2 * ring_size <= isize::MAX,
        k % 2 != 0,
    ensures
        is_auto_map(r.0@, r.1@, ring_size as nat),
        r.0@ == auto_indices(ring_size as nat, k as int),
        r.1@ == auto_signs(ring_size as nat, k as int),
{
    let m: usize = 2 * ring_size;
    let step: usize = if k < 0 {
        let t: usize = ((-(k as i128)) % (m as i128)) as usize;
        if t == 0 {
            0
        } else {
            m - t
        }
    } else {
        k as usize % m
    };
    proof {
        let (kk, mm) = (k as int, m as int);
        if k < 0 {
            let t = (-kk) % mm;
            lemma_mod_bound(-kk, mm);
            lemma_sub_mod_noop(0, -kk, mm);
            lemma_small_mod(0, m as nat);
            if t != 0 {
                lemma_mod_add_multiples_vanish(0 - t, mm);
                lemma_small_mod((mm - t) as nat, m as nat);
            }
        }
        assert(step == kk % mm);
        lemma_mod_bound(kk, mm);
    }
    let mut index: Vec<usize> = Vec::new();
    let mut sign: Vec<bool> = Vec::new();
    // The exponent i * k modulo 2n.
    let mut e: usize = 0;
    proof {
        lemma_small_mod(0, m as nat);
        assert(0 * (k as int) == 0);
    }
    for i in 0..ring_size
        invariant
            0 < ring_size,
            m == 2 * ring_size,
            m <= isize::MAX,
            step == k as int % (m as int),
            step < m,
            e < m,
            e == (i * k) % (m as int),
            index.len() == i,
            sign.len() == i,
            forall|j: int|
                #![trigger index[j]]
                #![trigger sign[j]]
                0 <= j < i ==> index[j] < ring_size && (index[j] as int, sign[j]) == auto_target(
                    j,
                    k as int,
                    ring_size as int,
                ),
    {
        if e >= ring_size {
            index.push(e - ring_size);
            sign.push(false);
        } else {
            index.push(e);
            sign.push(true);
        }
        proof {
            let (kk, mm) = (k as int, m as int);
            lemma_add_mod_noop(i * kk, kk, mm);
            assert((i + 1) * kk == i * kk + kk) by (nonlinear_arith);
            let f = e + step;
            if f < mm {
                lemma_small_mod(f as nat, m as nat);
            } else {
                lemma_fundamental_div_mod_converse(f, mm, 1, f - mm);
            }
        }
        e = e + step;
        if e >= m {
            e = e - m;
        }
    }
    assert(index@ =~= auto_indices(ring_size as nat, k as int));
    assert(sign@ =~= auto_signs(ring_size as nat, k as int));
    (index, sign)
}

/// The exponent of the automorphism `k`: -g if `k` is 0, else g^k.
pub open spec fn auto_exponent(g: int, br_q: int, k: int) -> int {
    if k == 0 {
        -g
    } else {
        pow(g, k as nat) % br_q
    }
}

/// The exponent of the automorphism `k`.
pub fn auto_element(g: usize, br_q: usize, k: usize) -> (r: isize)
    requires
        0 < br_q <= isize::MAX,
        br_q % 2 == 0,
        g <= isize::MAX,
        g % 2 == 1,
    ensures
        r == auto_exponent(g as int, br_q as int, k as int),
        r % 2 != 0,
{
    proof {
        lemma_mod_bound(pow(g as int, k as nat), br_q as int);
        utils::lemma_pow_odd(g as int, k as nat, br_q as int);
    }
    if k == 0 {
        -(g as isize)
    } else {
        pow_mod(g, k, br_q) as isize
    }
}

/// `shoup` holds what was precomputed from each entry of `key`.
pub open spec fn is_shoup_of<Op: ShoupMatrixFMA>(
    op: Op,
    key: Seq<Seq<int>>,
    shoup: Seq<Seq<int>>,
) -> bool {
    &&& shoup.len() == key.len()
    &&& forall|i: int| 0 <= i < key.len() ==> (#[trigger] shoup[i]).len() == key[i].len()
    &&& forall|i: int, j: int|
        0 <= i < key.len() && 0 <= j < key[i].len() ==> #[trigger] shoup[i][j] == op.shoup(
            key[i][j],
        )
}

/// Decrypts an RLWE ciphertext: `b - s * a`.
pub fn decrypt_rlwe<
    El: Element,
    NttOp: Ntt<Element = El>,
    ModOp: VectorOps<Element = El> + GetModulus<Element = El>,
>(rlwe_ct: &Vec<Vec<El>>, s: &[i32], ntt_op: &NttOp, mod_op: &ModOp) -> (m: Vec<El>)
    requires
        mod_op.wf(),
        ntt_op.wf(),
        mod_op.q() == ntt_op.q(),
        s.len() == ntt_op.n(),
        backend::within(s@, mod_op.q()),
        is_rlwe(backend::mat(rlwe_ct@), ntt_op.n(), mod_op.q()),
    ensures
        backend::vals(m@) == rlwe_phase(
            backend::mat(rlwe_ct@),
            backend::residues(s@, mod_op.q()),
            mod_op.q(),
        ),
        m.len() == ntt_op.n(),
        ring::canonical(backend::vals(m@), mod_op.q()),
{
    let ghost ct = backend::mat(rlwe_ct@);
    let ghost q = mod_op.q();
    let ghost n = ntt_op.n();
    let ghost sv = backend::residues(s@, q);
    assert(ct.len() == rlwe_ct.len());
    assert(ct[0] == backend::vals(rlwe_ct[0]@) && ct[1] == backend::vals(rlwe_ct[1]@));
    assert(ct[0].len() == n && ct[1].len() == n);
    let mut a: Vec<El> = copied(rlwe_ct[0].as_slice());
    ntt_op.forward(a.as_mut_slice());
    let mut sa: Vec<El> = try_convert_from(s, mod_op.modulus());
    mul_by_evaluated(sa.as_mut_slice(), a.as_slice(), mod_op, ntt_op, Ghost(ct[0]));
    let mut m: Vec<El> = copied(rlwe_ct[1].as_slice());
    mod_op.elwise_sub_mut(m.as_mut_slice(), sa.as_slice());
    proof {
        mod_op.lemma_q_positive();
        ring::lemma_reduced_canonical(poly::minus(ct[1], ring::nega_mul(sv, ct[0], q)), q);
        assert(backend::vals(m@).len() == m.len());
    }
    m
}

proof fn lemma_moved(p: Seq<int>, index: Seq<usize>, sign: Seq<bool>, j: int, q: int)
    requires
        q > 0,
        0 <= j <= p.len(),
        is_auto_map(index, sign, p.len()),
        ring::canonical(p, q),
    ensures
        moved(p, index, sign, j, q).len() == p.len(),
        ring::canonical(moved(p, index, sign, j, q), q),
    decreases j,
{
    if j > 0 {
        lemma_moved(p, index, sign, j - 1, q);
        lemma_mod_bound(-p[j - 1], q);
        assert(index[j - 1] < p.len());
    }
}

/// The image of a polynomial under an automorphism.
pub fn apply_auto<El: Element, ModOp: ArithmeticOps<Element = El>>(
    p: &[El],
    index: &Vec<usize>,
    sign: &Vec<bool>,
    mod_op: &ModOp,
) -> (r: Vec<El>)
    requires
        mod_op.wf(),
        ring::canonical(backend::vals(p@), mod_op.q()),
        is_auto_map(index@, sign@, p.len() as nat),
    ensures
        backend::vals(r@) == auto_image(backend::vals(p@), index@, sign@, mod_op.q()),
        r.len() == p.len(),
        ring::canonical(backend::vals(r@), mod_op.q()),
{
    let n: usize = p.len();
    let ghost q = mod_op.q();
    let ghost pv = backend::vals(p@);
    let mut r: Vec<El> = zeros(n);
    proof {
        mod_op.lemma_q_positive();
    }
    for i in 0..n
        invariant
            mod_op.wf(),
            q == mod_op.q(),
            q > 0,
            n == p.len(),
            n == r.len(),
            pv == backend::vals(p@),
            ring::canonical(pv, q),
            is_auto_map(index@, sign@, n as nat),
            backend::vals(r@) == moved(pv, index@, sign@, i as int, q),
    {
        let ghost before = backend::vals(r@);
        let to: usize = index[i];
        assert(pv[i as int] == p[i as int].val());
        let v: El = if sign[i] {
            p[i]
        } else {
            mod_op.neg(&p[i])
        };
        r[to] = v;
        assert(backend::vals(r@) =~= before.update(to as int, v.val()));
    }
    proof {
        lemma_moved(pv, index@, sign@, n as int, q);
    }
    r
}

proof fn lemma_digit_poly<D: Decomposer>(decomposer: D, x: Seq<int>, j: int)
    requires
        decomposer.wf(),
        ring::canonical(x, decomposer.q()),
        0 <= j < decomposer.count(),
    ensures
        digit_poly(decomposer, x, j).len() == x.len(),
        ring::canonical(digit_poly(decomposer, x, j), decomposer.q()),
{
    assert forall|i: int| 0 <= i < x.len() implies 0 <= #[trigger] digit_poly(
        decomposer,
        x,
        j,
    )[i] < decomposer.q() by {
        decomposer.lemma_digits(x[i]);
    }
}

/// The values of the digit polynomials of `x`.
fn decompose_to_evals<El: Element, D: Decomposer<Element = El>, NttOp: Ntt<Element = El>>(
    x: &[El],
    decomposer: &D,
    ntt_op: &NttOp,
) -> (r: Vec<Vec<El>>)
    requires
        decomposer.wf(),
        ntt_op.wf(),
        decomposer.q() == ntt_op.q(),
        x.len() == ntt_op.n(),
        ring::canonical(backend::vals(x@), ntt_op.q()),
    ensures
        r.len() == decomposer.count(),
        forall|j: int|
            0 <= j < r.len() ==> backend::vals((#[trigger] r[j])@) == ntt_op.evals(
                digit_poly(*decomposer, backend::vals(x@), j),
            ),
{
    let n: usize = x.len();
    let d: usize = decomposer.decomposition_count();
    let ghost q = ntt_op.q();
    let ghost xv = backend::vals(x@);
    let mut all: Vec<Vec<El>> = Vec::new();
    for i in 0..n
        invariant
            decomposer.wf(),
            decomposer.q() == q,
            n == x.len(),
            xv == backend::vals(x@),
            ring::canonical(xv, q),
            all.len() == i,
            forall|k: int|
                0 <= k < i ==> backend::vals((#[trigger] all[k])@) == decomposer.digits(xv[k]),
    {
        assert(xv[i as int] == x[i as int].val());
        all.push(decomposer.decompose(&x[i]));
    }
    let mut r: Vec<Vec<El>> = Vec::new();
    for j in 0..d
        invariant
            decomposer.wf(),
            ntt_op.wf(),
            decomposer.q() == q,
            ntt_op.q() == q,
            ntt_op.n() == n,
            n == x.len(),
            d == decomposer.count(),
            xv == backend::vals(x@),
            ring::canonical(xv, q),
            all.len() == n,
            forall|k: int|
                0 <= k < n ==> backend::vals((#[trigger] all[k])@) == decomposer.digits(xv[k]),
            r.len() == j,
            forall|k: int|
                0 <= k < j ==> backend::vals((#[trigger] r[k])@) == ntt_op.evals(
                    digit_poly(*decomposer, xv, k),
                ),
    {
        let mut p: Vec<El> = Vec::new();
        for i in 0..n
            invariant
                decomposer.wf(),
                decomposer.q() == q,
                xv.len() == n,
                ring::canonical(xv, q),
                all.len() == n,
                j < d,
                d == decomposer.count(),
                forall|k: int|
                    0 <= k < n ==> backend::vals((#[trigger] all[k])@) == decomposer.digits(xv[k]),
                p.len() == i,
                forall|k: int|
                    0 <= k < i ==> (#[trigger] p[k]).val() == decomposer.digits(xv[k])[j as int],
        {
            proof {
                decomposer.lemma_digits(xv[i as int]);
                assert(backend::vals(all[i as int]@).len() == all[i as int].len());
                assert(backend::vals(all[i as int]@)[j as int] == all[i as int][j as int].val());
            }
            p.push(all[i][j]);
        }
        proof {
            assert(backend::vals(p@) =~= digit_poly(*decomposer, xv, j as int));
            lemma_digit_poly(*decomposer, xv, j as int);
        }
        ntt_op.forward(p.as_mut_slice());
        r.push(p);
    }
    r
}

pub proof fn lemma_gadget_sum<D: Decomposer, N: Ntt>(
    init: Seq<int>,
    x: Seq<int>,
    key: Seq<Seq<int>>,
    first: int,
    decomposer: D,
    ntt: N,
    j: int,
)
    requires
        ntt.wf(),
        init.len() == ntt.n(),
        ring::canonical(init, ntt.q()),
    ensures
        gadget_sum(init, x, key, first, decomposer, ntt, j).len() == ntt.n(),
        ring::canonical(gadget_sum(init, x, key, first, decomposer, ntt, j), ntt.q()),
    decreases j,
{
    ntt.lemma_positive();
    if j > 0 {
        lemma_gadget_sum(init, x, key, first, decomposer, ntt, j - 1);
        ring::lemma_reduced_canonical(
            poly::plus(
                gadget_sum(init, x, key, first, decomposer, ntt, j - 1),
                ring::nega_mul(
                    digit_poly(decomposer, x, j - 1),
                    ntt.coeffs(key[first + j - 1]),
                    ntt.q(),
                ),
            ),
            ntt.q(),
        );
    }
}

/// One more product of the sum, on values.
proof fn lemma_gadget_step<N: Ntt>(ntt: N, c: Seq<int>, p: Seq<int>, row: Seq<int>)
    requires
        ntt.wf(),
        c.len() == ntt.n(),
        p.len() == ntt.n(),
        row.len() == ntt.n(),
        ring::canonical(c, ntt.q()),
        ring::canonical(p, ntt.q()),
        ring::canonical(row, ntt.q()),
    ensures
        ring::poly_add(ntt.evals(c), ring::pointwise(row, ntt.evals(p), ntt.q()), ntt.q())
            == ntt.evals(
            ring::poly_add(c, ring::nega_mul(p, ntt.coeffs(row), ntt.q()), ntt.q()),
        ),
        ntt.evals(c).len() == ntt.n(),
        ring::canonical(ntt.evals(c), ntt.q()),
        ntt.evals(p).len() == ntt.n(),
        ring::canonical(ntt.evals(p), ntt.q()),
{
    let q = ntt.q();
    let r = ntt.coeffs(row);
    ntt.lemma_positive();
    ntt.lemma_canonical(c);
    ntt.lemma_canonical(p);
    ntt.lemma_canonical(row);
    ntt.lemma_inverse(row);
    ntt.lemma_product(p, r);
    let e = ring::pointwise(ntt.evals(p), row, q);
    assert forall|i: int| 0 <= i < e.len() implies 0 <= #[trigger] e[i] < q by {
        lemma_mod_bound(ntt.evals(p)[i] * row[i], q);
    }
    ntt.lemma_inverse(e);
    let f = ring::pointwise(row, ntt.evals(p), q);
    assert forall|i: int| 0 <= i < e.len() implies #[trigger] f[i] == e[i] by {
        lemma_mul_is_commutative(row[i], ntt.evals(p)[i]);
    }
    assert(f =~= e);
    ring::lemma_nega_mul_is_product(p, r, q);
    poly::lemma_product_len(p, r, -1);
    ring::lemma_reduced_canonical(poly::product(p, r, -1), q);
    ntt.lemma_sum(c, ring::nega_mul(p, r, q));
}

/// The values of the zero polynomial are zero.
proof fn lemma_evals_zeros<N: Ntt>(ntt: N)
    requires
        ntt.wf(),
    ensures
        ntt.evals(poly::zeros(ntt.n())) == poly::zeros(ntt.n()),
        ring::canonical(poly::zeros(ntt.n()), ntt.q()),
{
    let z = poly::zeros(ntt.n());
    let q = ntt.q();
    ntt.lemma_positive();
    assert(ring::canonical(z, q));
    ntt.lemma_canonical(z);
    ntt.lemma_sum(z, z);
    ring::lemma_reduced_canonical(z, q);
    assert(poly::plus(z, z) =~= z);
    let e = ntt.evals(z);
    assert forall|i: int| 0 <= i < ntt.n() implies #[trigger] e[i] == 0 by {
        assert(ring::poly_add(e, e, q)[i] == (e[i] + e[i]) % q);
        if e[i] + e[i] < q {
            lemma_small_mod((e[i] + e[i]) as nat, q as nat);
        } else {
            lemma_fundamental_div_mod_converse(e[i] + e[i], q, 1, e[i] + e[i] - q);
        }
    }
    assert(e =~= z);
}

/// Adds to `acc` the products of digits and key rows, all as values, with what was
/// precomputed from the key.
fn gadget_fma_shoup<
    El: Element,
    D: Decomposer<Element = El>,
    NttOp: Ntt<Element = El>,
    ModOp: ShoupMatrixFMA<Element = El>,
>(
    acc: &mut [El],
    digits: &Vec<Vec<El>>,
    key: &Vec<Vec<El>>,
    key_shoup: &Vec<Vec<El>>,
    first: usize,
    mod_op: &ModOp,
    Ghost(decomposer): Ghost<D>,
    Ghost(ntt): Ghost<NttOp>,
    Ghost(x): Ghost<Seq<int>>,
    Ghost(init): Ghost<Seq<int>>,
)
    requires
        mod_op.wf(),
        decomposer.wf(),
        ntt.wf(),
        decomposer.q() == mod_op.q(),
        ntt.q() == mod_op.q(),
        x.len() == ntt.n(),
        init.len() == ntt.n(),
        ring::canonical(x, mod_op.q()),
        ring::canonical(init, mod_op.q()),
        backend::vals(old(acc)@) == ntt.evals(init),
        digits.len() == decomposer.count(),
        forall|j: int|
            0 <= j < digits.len() ==> backend::vals((#[trigger] digits[j])@) == ntt.evals(
                digit_poly(decomposer, x, j),
            ),
        first + digits.len() <= key.len(),
        backend::rows_canonical(backend::mat(key@), ntt.n(), mod_op.q()),
        is_shoup_of(*mod_op, backend::mat(key@), backend::mat(key_shoup@)),
    ensures
        backend::vals(final(acc)@) == ntt.evals(
            gadget_product(init, x, backend::mat(key@), first as int, decomposer, ntt),
        ),
        final(acc).len() == old(acc).len(),
{
    let d: usize = digits.len();
    let ghost q = mod_op.q();
    let ghost kv = backend::mat(key@);
    let ghost n = ntt.n();
    let ghost alen = acc.len();
    for j in 0..d
        invariant
            mod_op.wf(),
            decomposer.wf(),
            ntt.wf(),
            q == mod_op.q(),
            decomposer.q() == q,
            ntt.q() == q,
            n == ntt.n(),
            x.len() == n,
            init.len() == n,
            ring::canonical(x, q),
            ring::canonical(init, q),
            d == digits.len(),
            d == decomposer.count(),
            kv == backend::mat(key@),
            forall|k: int|
                0 <= k < d ==> backend::vals((#[trigger] digits[k])@) == ntt.evals(
                    digit_poly(decomposer, x, k),
                ),
            first + d <= key.len(),
            backend::rows_canonical(kv, n, q),
            is_shoup_of(*mod_op, kv, backend::mat(key_shoup@)),
            acc.len() == alen,
            backend::vals(acc@) == ntt.evals(
                gadget_sum(init, x, kv, first as int, decomposer, ntt, j as int),
            ),
    {
        let ghost c = gadget_sum(init, x, kv, first as int, decomposer, ntt, j as int);
        let ghost p = digit_poly(decomposer, x, j as int);
        let ghost r = first + j;
        proof {
            lemma_gadget_sum(init, x, kv, first as int, decomposer, ntt, j as int);
            lemma_digit_poly(decomposer, x, j as int);
            assert(kv[r] == backend::vals(key[r]@));
            assert(kv[r].len() == key[r].len());
            lemma_gadget_step(ntt, c, p, kv[r]);
            assert(backend::vals(acc@).len() == acc.len());
            assert(backend::vals(digits[j as int]@).len() == digits[j as int].len());
            let sh = backend::mat(key_shoup@);
            assert(sh[r] == backend::vals(key_shoup[r]@));
            assert(sh.len() == key_shoup.len());
            assert(sh[r].len() == key_shoup[r].len());
            assert forall|i: int| 0 <= i < n implies (#[trigger] key_shoup[r][i]).val()
                == mod_op.shoup(key[r][i].val()) by {
                assert(sh[r][i] == key_shoup[r][i].val());
                assert(kv[r][i] == key[r][i].val());
            }
        }
        mod_op.shoup_fma_mut(
            acc,
            key[first + j].as_slice(),
            key_shoup[first + j].as_slice(),
            digits[j].as_slice(),
        );
        assert(backend::vals(acc@).len() == acc.len());
    }
}

/// Adds to `acc` the products of digits and key rows, all as values.
fn gadget_fma<
    El: Element,
    D: Decomposer<Element = El>,
    NttOp: Ntt<Element = El>,
    ModOp: VectorOps<Element = El>,
>(
    acc: &mut [El],
    digits: &Vec<Vec<El>>,
    key: &Vec<Vec<El>>,
    first: usize,
    mod_op: &ModOp,
    Ghost(decomposer): Ghost<D>,
    Ghost(ntt): Ghost<NttOp>,
    Ghost(x): Ghost<Seq<int>>,
    Ghost(init): Ghost<Seq<int>>,
)
    requires
        mod_op.wf(),
        decomposer.wf(),
        ntt.wf(),
        decomposer.q() == mod_op.q(),
        ntt.q() == mod_op.q(),
        x.len() == ntt.n(),
        init.len() == ntt.n(),
        ring::canonical(x, mod_op.q()),
        ring::canonical(init, mod_op.q()),
        backend::vals(old(acc)@) == ntt.evals(init),
        digits.len() == decomposer.count(),
        forall|j: int|
            0 <= j < digits.len() ==> backend::vals((#[trigger] digits[j])@) == ntt.evals(
                digit_poly(decomposer, x, j),
            ),
        first + digits.len() <= key.len(),
        backend::rows_canonical(backend::mat(key@), ntt.n(), mod_op.q()),
    ensures
        backend::vals(final(acc)@) == ntt.evals(
            gadget_product(init, x, backend::mat(key@), first as int, decomposer, ntt),
        ),
        final(acc).len() == old(acc).len(),
{
    let d: usize = digits.len();
    let ghost q = mod_op.q();
    let ghost kv = backend::mat(key@);
    let ghost n = ntt.n();
    let ghost alen = acc.len();
    for j in 0..d
        invariant
            mod_op.wf(),
            decomposer.wf(),
            ntt.wf(),
            q == mod_op.q(),
            decomposer.q() == q,
            ntt.q() == q,
            n == ntt.n(),
            x.len() == n,
            init.len() == n,
            ring::canonical(x, q),
            ring::canonical(init, q),
            d == digits.len(),
            d == decomposer.count(),
            kv == backend::mat(key@),
            forall|k: int|
                0 <= k < d ==> backend::vals((#[trigger] digits[k])@) == ntt.evals(
                    digit_poly(decomposer, x, k),
                ),
            first + d <= key.len(),
            backend::rows_canonical(kv, n, q),
            acc.len() == alen,
            backend::vals(acc@) == ntt.evals(
                gadget_sum(init, x, kv, first as int, decomposer, ntt, j as int),
            ),
    {
        let ghost c = gadget_sum(init, x, kv, first as int, decomposer, ntt, j as int);
        let ghost p = digit_poly(decomposer, x, j as int);
        let ghost r = first + j;
        proof {
            lemma_gadget_sum(init, x, kv, first as int, decomposer, ntt, j as int);
            lemma_digit_poly(decomposer, x, j as int);
            assert(kv[r] == backend::vals(key[r]@));
            assert(kv[r].len() == key[r].len());
            lemma_gadget_step(ntt, c, p, kv[r]);
            assert(backend::vals(acc@).len() == acc.len());
            assert(backend::vals(digits[j as int]@).len() == digits[j as int].len());
        }
        mod_op.elwise_fma_mut(acc, key[first + j].as_slice(), digits[j].as_slice());
        assert(backend::vals(acc@).len() == acc.len());
    }
}

/// Adds the row `b` to the row `a`.
fn add_row<El: Element, ModOp: ArithmeticOps<Element = El>>(
    a: &mut [El],
    b: &[El],
    mod_op: &ModOp,
)
    requires
        mod_op.wf(),
        old(a).len() == b.len(),
        ring::canonical(backend::vals(old(a)@), mod_op.q()),
        ring::canonical(backend::vals(b@), mod_op.q()),
    ensures
        backend::vals(final(a)@) == ring::poly_add(
            backend::vals(old(a)@),
            backend::vals(b@),
            mod_op.q(),
        ),
        final(a).len() == old(a).len(),
{
    let n: usize = a.len();
    let ghost q = mod_op.q();
    let ghost a0 = a@;
    for i in 0..n
        invariant
            mod_op.wf(),
            q == mod_op.q(),
            n == a.len(),
            n == b.len(),
            n == a0.len(),
            ring::canonical(backend::vals(a0), q),
            ring::canonical(backend::vals(b@), q),
            forall|k: int| i <= k < n ==> #[trigger] a[k] == a0[k],
            forall|k: int|
                0 <= k < i ==> (#[trigger] a[k]).val() == (a0[k].val() + b[k].val()) % q,
    {
        proof {
            assert(backend::vals(a0)[i as int] == a0[i as int].val());
            assert(backend::vals(b@)[i as int] == b[i as int].val());
        }
        a[i] = mod_op.add(&a[i], &b[i]);
    }
    assert(backend::vals(a@) =~= ring::poly_add(backend::vals(a0), backend::vals(b@), q));
}

/// What the rows of an RLWE ciphertext tell of its matrix.
pub proof fn lemma_rlwe_rows<El: Element>(ct: Seq<Vec<El>>, n: nat, q: int)
    requires
        is_rlwe(backend::mat(ct), n, q),
    ensures
        ct.len() == 2,
        backend::mat(ct)[0] == backend::vals(ct[0]@),
        backend::mat(ct)[1] == backend::vals(ct[1]@),
        ct[0].len() == n,
        ct[1].len() == n,
        ring::canonical(backend::vals(ct[0]@), q),
        ring::canonical(backend::vals(ct[1]@), q),
{
    let m = backend::mat(ct);
    assert(m.len() == ct.len());
    assert(m[0].len() == n && m[1].len() == n);
    assert(m[0].len() == ct[0].len() && m[1].len() == ct[1].len());
}

/// Multiplies an RLWE ciphertext by an RGSW ciphertext, given what was precomputed from the
/// latter.
pub fn rlwe_by_rgsw_shoup<
    El: Element,
    D: Decomposer<Element = El>,
    NttOp: Ntt<Element = El>,
    ModOp: ShoupMatrixFMA<Element = El>,
>(
    rlwe: &mut Vec<Vec<El>>,
    rgsw: &Vec<Vec<El>>,
    rgsw_shoup: &Vec<Vec<El>>,
    decomposers: &(D, D),
    ntt_op: &NttOp,
    mod_op: &ModOp,
    is_trivial: bool,
)
    requires
        mod_op.wf(),
        ntt_op.wf(),
        ntt_op.q() == mod_op.q(),
        decomposers.0.wf(),
        decomposers.1.wf(),
        decomposers.0.q() == mod_op.q(),
        decomposers.1.q() == mod_op.q(),
        is_rlwe(backend::mat(old(rlwe)@), ntt_op.n(), mod_op.q()),
        rgsw.len() == 2 * decomposers.0.count() + 2 * decomposers.1.count(),
        backend::rows_canonical(backend::mat(rgsw@), ntt_op.n(), mod_op.q()),
        is_shoup_of(*mod_op, backend::mat(rgsw@), backend::mat(rgsw_shoup@)),
    ensures
        backend::mat(final(rlwe)@) == rgsw_product(
            backend::mat(old(rlwe)@),
            backend::mat(rgsw@),
            *decomposers,
            *ntt_op,
            is_trivial,
        ),
        is_rlwe(backend::mat(final(rlwe)@), ntt_op.n(), mod_op.q()),
{
    let ghost q = mod_op.q();
    let ghost n = ntt_op.n();
    let ghost ct = backend::mat(rlwe@);
    let ghost kv = backend::mat(rgsw@);
    let ghost z = poly::zeros(n);
    let da: usize = decomposers.0.decomposition_count();
    let db: usize = decomposers.1.decomposition_count();
    proof {
        lemma_rlwe_rows(rlwe@, n, q);
        lemma_evals_zeros(*ntt_op);
    }
    let ring_size: usize = rlwe[0].len();
    let mut acc_a: Vec<El> = zeros(ring_size);
    let mut acc_b: Vec<El> = zeros(ring_size);
    let ghost mut xa = z;
    let ghost mut xb = z;
    if !is_trivial {
        let digits: Vec<Vec<El>> = decompose_to_evals(rlwe[0].as_slice(), &decomposers.0, ntt_op);
        gadget_fma_shoup::<El, D, NttOp, ModOp>(
            acc_a.as_mut_slice(),
            &digits,
            rgsw,
            rgsw_shoup,
            0,
            mod_op,
            Ghost(decomposers.0),
            Ghost(*ntt_op),
            Ghost(ct[0]),
            Ghost(z),
        );
        gadget_fma_shoup::<El, D, NttOp, ModOp>(
            acc_b.as_mut_slice(),
            &digits,
            rgsw,
            rgsw_shoup,
            da,
            mod_op,
            Ghost(decomposers.0),
            Ghost(*ntt_op),
            Ghost(ct[0]),
            Ghost(z),
        );
        proof {
            xa = gadget_product(z, ct[0], kv, 0, decomposers.0, *ntt_op);
            xb = gadget_product(z, ct[0], kv, da as int, decomposers.0, *ntt_op);
            lemma_gadget_sum(z, ct[0], kv, 0, decomposers.0, *ntt_op, da as int);
            lemma_gadget_sum(z, ct[0], kv, da as int, decomposers.0, *ntt_op, da as int);
        }
    }
    let digits: Vec<Vec<El>> = decompose_to_evals(rlwe[1].as_slice(), &decomposers.1, ntt_op);
    gadget_fma_shoup::<El, D, NttOp, ModOp>(
        acc_a.as_mut_slice(),
        &digits,
        rgsw,
        rgsw_shoup,
        2 * da,
        mod_op,
        Ghost(decomposers.1),
        Ghost(*ntt_op),
        Ghost(ct[1]),
        Ghost(xa),
    );
    gadget_fma_shoup::<El, D, NttOp, ModOp>(
        acc_b.as_mut_slice(),
        &digits,
        rgsw,
        rgsw_shoup,
        2 * da + db,
        mod_op,
        Ghost(decomposers.1),
        Ghost(*ntt_op),
        Ghost(ct[1]),
        Ghost(xb),
    );
    let ghost ra = gadget_product(xa, ct[1], kv, 2 * da as int, decomposers.1, *ntt_op);
    let ghost rb = gadget_product(xb, ct[1], kv, 2 * da + db, decomposers.1, *ntt_op);
    proof {
        lemma_gadget_sum(xa, ct[1], kv, 2 * da as int, decomposers.1, *ntt_op, db as int);
        lemma_gadget_sum(xb, ct[1], kv, 2 * da + db, decomposers.1, *ntt_op, db as int);
        ntt_op.lemma_canonical(ra);
        ntt_op.lemma_canonical(rb);
        ntt_op.lemma_inverse(ra);
        ntt_op.lemma_inverse(rb);
    }
    ntt_op.backward(acc_a.as_mut_slice());
    ntt_op.backward(acc_b.as_mut_slice());
    rlwe[0] = acc_a;
    rlwe[1] = acc_b;
    assert(backend::mat(rlwe@) =~= seq![ra, rb]);
}

/// Applies an automorphism to an RLWE ciphertext, given what was precomputed from the key.
pub fn rlwe_auto_shoup<
    El: Element,
    D: Decomposer<Element = El>,
    NttOp: Ntt<Element = El>,
    ModOp: ArithmeticOps<Element = El> + ShoupMatrixFMA<Element = El>,
>(
    rlwe: &mut Vec<Vec<El>>,
    ksk: &Vec<Vec<El>>,
    ksk_shoup: &Vec<Vec<El>>,
    auto_map_index: &Vec<usize>,
    auto_map_sign: &Vec<bool>,
    mod_op: &ModOp,
    ntt_op: &NttOp,
    decomposer: &D,
    is_trivial: bool,
)
    requires
        mod_op.wf(),
        ntt_op.wf(),
        ntt_op.q() == mod_op.q(),
        decomposer.wf(),
        decomposer.q() == mod_op.q(),
        is_rlwe(backend::mat(old(rlwe)@), ntt_op.n(), mod_op.q()),
        is_auto_map(auto_map_index@, auto_map_sign@, ntt_op.n()),
        ksk.len() == 2 * decomposer.count(),
        backend::rows_canonical(backend::mat(ksk@), ntt_op.n(), mod_op.q()),
        is_shoup_of(*mod_op, backend::mat(ksk@), backend::mat(ksk_shoup@)),
    ensures
        backend::mat(final(rlwe)@) == auto_switched(
            backend::mat(old(rlwe)@),
            backend::mat(ksk@),
            auto_map_index@,
            auto_map_sign@,
            *decomposer,
            *ntt_op,
            is_trivial,
        ),
        is_rlwe(backend::mat(final(rlwe)@), ntt_op.n(), mod_op.q()),
{
    let ghost q = mod_op.q();
    let ghost n = ntt_op.n();
    let ghost ct = backend::mat(rlwe@);
    let ghost kv = backend::mat(ksk@);
    let ghost z = poly::zeros(n);
    let d: usize = decomposer.decomposition_count();
    proof {
        lemma_rlwe_rows(rlwe@, n, q);
        lemma_evals_zeros(*ntt_op);
        mod_op.lemma_q_positive();
    }
    let b: Vec<El> = apply_auto(rlwe[1].as_slice(), auto_map_index, auto_map_sign, mod_op);
    let ghost bv = backend::vals(b@);
    if is_trivial {
        rlwe[1] = b;
        assert(backend::mat(rlwe@) =~= seq![ct[0], bv]);
    } else {
        let ring_size: usize = rlwe[0].len();
        let a: Vec<El> = apply_auto(rlwe[0].as_slice(), auto_map_index, auto_map_sign, mod_op);
        let ghost av = backend::vals(a@);
        let digits: Vec<Vec<El>> = decompose_to_evals(a.as_slice(), decomposer, ntt_op);
        let mut acc_a: Vec<El> = zeros(ring_size);
        let mut acc_b: Vec<El> = zeros(ring_size);
        gadget_fma_shoup::<El, D, NttOp, ModOp>(
            acc_a.as_mut_slice(),
            &digits,
            ksk,
            ksk_shoup,
            0,
            mod_op,
            Ghost(*decomposer),
            Ghost(*ntt_op),
            Ghost(av),
            Ghost(z),
        );
        gadget_fma_shoup::<El, D, NttOp, ModOp>(
            acc_b.as_mut_slice(),
            &digits,
            ksk,
            ksk_shoup,
            d,
            mod_op,
            Ghost(*decomposer),
            Ghost(*ntt_op),
            Ghost(av),
            Ghost(z),
        );
        let ghost ra = gadget_product(z, av, kv, 0, *decomposer, *ntt_op);
        let ghost rb = gadget_product(z, av, kv, d as int, *decomposer, *ntt_op);
        proof {
            lemma_gadget_sum(z, av, kv, 0, *decomposer, *ntt_op, d as int);
            lemma_gadget_sum(z, av, kv, d as int, *decomposer, *ntt_op, d as int);
            ntt_op.lemma_canonical(ra);
            ntt_op.lemma_canonical(rb);
            ntt_op.lemma_inverse(ra);
            ntt_op.lemma_inverse(rb);
        }
        ntt_op.backward(acc_a.as_mut_slice());
        ntt_op.backward(acc_b.as_mut_slice());
        proof {
            assert(backend::vals(acc_b@).len() == acc_b.len());
            ring::lemma_reduced_canonical(poly::plus(rb, bv), q);
        }
        add_row(acc_b.as_mut_slice(), b.as_slice(), mod_op);
        rlwe[0] = acc_a;
        rlwe[1] = acc_b;
        assert(backend::mat(rlwe@) =~= seq![ra, ring::poly_add(rb, bv, q)]);
    }
}

/// Applies an automorphism to an RLWE ciphertext.
pub fn rlwe_auto<
    El: Element,
    D: Decomposer<Element = El>,
    NttOp: Ntt<Element = El>,
    ModOp: ArithmeticOps<Element = El> + VectorOps<Element = El>,
>(
    rlwe: &mut Vec<Vec<El>>,
    ksk: &Vec<Vec<El>>,
    auto_map_index: &Vec<usize>,
    auto_map_sign: &Vec<bool>,
    mod_op: &ModOp,
    ntt_op: &NttOp,
    decomposer: &D,
    is_trivial: bool,
)
    requires
        mod_op.wf(),
        ntt_op.wf(),
        ntt_op.q() == mod_op.q(),
        decomposer.wf(),
        decomposer.q() == mod_op.q(),
        is_rlwe(backend::mat(old(rlwe)@), ntt_op.n(), mod_op.q()),
        is_auto_map(auto_map_index@, auto_map_sign@, ntt_op.n()),
        ksk.len() == 2 * decomposer.count(),
        backend::rows_canonical(backend::mat(ksk@), ntt_op.n(), mod_op.q()),
    ensures
        backend::mat(final(rlwe)@) == auto_switched(
            backend::mat(old(rlwe)@),
            backend::mat(ksk@),
            auto_map_index@,
            auto_map_sign@,
            *decomposer,
            *ntt_op,
            is_trivial,
        ),
        is_rlwe(backend::mat(final(rlwe)@), ntt_op.n(), mod_op.q()),
{
    let ghost q = mod_op.q();
    let ghost n = ntt_op.n();
    let ghost ct = backend::mat(rlwe@);
    let ghost kv = backend::mat(ksk@);
    let ghost z = poly::zeros(n);
    let d: usize = decomposer.decomposition_count();
    proof {
        lemma_rlwe_rows(rlwe@, n, q);
        lemma_evals_zeros(*ntt_op);
        mod_op.lemma_q_positive();
    }
    let b: Vec<El> = apply_auto(rlwe[1].as_slice(), auto_map_index, auto_map_sign, mod_op);
    let ghost bv = backend::vals(b@);
    if is_trivial {
        rlwe[1] = b;
        assert(backend::mat(rlwe@) =~= seq![ct[0], bv]);
    } else {
        let ring_size: usize = rlwe[0].len();
        let a: Vec<El> = apply_auto(rlwe[0].as_slice(), auto_map_index, auto_map_sign, mod_op);
        let ghost av = backend::vals(a@);
        let digits: Vec<Vec<El>> = decompose_to_evals(a.as_slice(), decomposer, ntt_op);
        let mut acc_a: Vec<El> = zeros(ring_size);
        let mut acc_b: Vec<El> = zeros(ring_size);
        gadget_fma::<El, D, NttOp, ModOp>(
            acc_a.as_mut_slice(),
            &digits,
            ksk,
            0,
            mod_op,
            Ghost(*decomposer),
            Ghost(*ntt_op),
            Ghost(av),
            Ghost(z),
        );
        gadget_fma::<El, D, NttOp, ModOp>(
            acc_b.as_mut_slice(),
            &digits,
            ksk,
            d,
            mod_op,
            Ghost(*decomposer),
            Ghost(*ntt_op),
            Ghost(av),
            Ghost(z),
        );
        let ghost ra = gadget_product(z, av, kv, 0, *decomposer, *ntt_op);
        let ghost rb = gadget_product(z, av, kv, d as int, *decomposer, *ntt_op);
        proof {
            lemma_gadget_sum(z, av, kv, 0, *decomposer, *ntt_op, d as int);
            lemma_gadget_sum(z, av, kv, d as int, *decomposer, *ntt_op, d as int);
            ntt_op.lemma_canonical(ra);
            ntt_op.lemma_canonical(rb);
            ntt_op.lemma_inverse(ra);
            ntt_op.lemma_inverse(rb);
        }
        ntt_op.backward(acc_a.as_mut_slice());
        ntt_op.backward(acc_b.as_mut_slice());
        proof {
            assert(backend::vals(acc_b@).len() == acc_b.len());
            ring::lemma_reduced_canonical(poly::plus(rb, bv), q);
        }
        add_row(acc_b.as_mut_slice(), b.as_slice(), mod_op);
        rlwe[0] = acc_a;
        rlwe[1] = acc_b;
        assert(backend::mat(rlwe@) =~= seq![ra, ring::poly_add(rb, bv, q)]);
    }
}

/// What an RLWE ciphertext decrypts to, coefficient by coefficient.
pub proof fn lemma_phase_coefficients(ct: Seq<Seq<int>>, s: Seq<int>, q: int)
    requires
        ct[0].len() == ct[1].len(),
    ensures
        rlwe_phase(ct, s, q).len() == ct[1].len(),
        forall|i: int|
            0 <= i < ct[1].len() ==> #[trigger] rlwe_phase(ct, s, q)[i] == (ct[1][i]
                - ring::nega_mul(s, ct[0], q)[i]) % q,
{
}

/// An RLWE ciphertext is two rows of `n` residues.
pub proof fn lemma_is_rlwe(ct: Seq<Seq<int>>, n: nat, q: int)
    ensures
        is_rlwe(ct, n, q) <==> (ct.len() == 2 && ct[0].len() == n && ct[1].len() == n && (forall|
            k: int,
        |
            0 <= k < n ==> 0 <= #[trigger] ct[0][k] && ct[0][k] < q) && (forall|k: int|
            0 <= k < n ==> 0 <= #[trigger] ct[1][k] && ct[1][k] < q)),
{
    if is_rlwe(ct, n, q) {
        assert(ring::canonical(ct[0], q) && ring::canonical(ct[1], q));
    }
}

/// The automorphism `X -> X^k` sends `X^i` to `X^(i * k)`: to plus or minus the power at the
/// index, since `X^n` is `-1`.
pub proof fn lemma_auto_map(n: nat, k: int, i: int)
    requires
        0 <= i < n,
        n <= usize::MAX,
    ensures
        auto_indices(n, k).len() == n,
        auto_signs(n, k).len() == n,
        auto_indices(n, k)[i] < n,
        (i * k - auto_indices(n, k)[i]) % (2 * n as int) == (if auto_signs(n, k)[i] {
            0
        } else {
            n as int
        }),
{
    let m = 2 * n as int;
    let e = (i * k) % m;
    lemma_mod_bound(i * k, m);
    let t = auto_indices(n, k)[i] as int;
    lemma_add_mod_noop_right(-t, i * k, m);
    lemma_small_mod((e - t) as nat, m as nat);
}

/// The exponents of the automorphisms: `-g`, then the powers of `g`.
pub proof fn lemma_auto_exponent(g: int, br_q: int, k: int)
    ensures
        auto_exponent(g, br_q, 0) == -g,
        k > 0 ==> auto_exponent(g, br_q, k) == pow(g, k as nat) % br_q,
{
}

/// The digit polynomials, coefficient by coefficient.
pub proof fn lemma_digit_coefficients<D: Decomposer>(decomposer: D, x: Seq<int>, j: int)
    ensures
        digit_poly(decomposer, x, j).len() == x.len(),
        forall|i: int|
            0 <= i < x.len() ==> #[trigger] digit_poly(decomposer, x, j)[i] == decomposer.digits(
                x[i],
            )[j],
{
}

/// The image under a map, coefficient by coefficient: each goes to its place, with its sign.
pub proof fn lemma_moved_terms(p: Seq<int>, index: Seq<usize>, sign: Seq<bool>, j: int, q: int)
    requires
        j >= 0,
    ensures
        moved(p, index, sign, 0, q) == poly::zeros(p.len()),
        moved(p, index, sign, j + 1, q) == moved(p, index, sign, j, q).update(
            index[j] as int,
            if sign[j] {
                p[j]
            } else {
                (-p[j]) % q
            },
        ),
        auto_image(p, index, sign, q) == moved(p, index, sign, p.len() as int, q),
        is_auto_map(index, sign, p.len()) <==> index.len() == p.len() && sign.len() == p.len() && (
        forall|i: int| 0 <= i < p.len() ==> (#[trigger] index[i]) < p.len()),
{
}

/// What was precomputed from a key is so entry by entry.
pub proof fn lemma_is_shoup_of<Op: ShoupMatrixFMA>(
    op: Op,
    key: Seq<Seq<int>>,
    shoup: Seq<Seq<int>>,
)
    ensures
        is_shoup_of(op, key, shoup) <==> shoup.len() == key.len() && (forall|i: int|
            0 <= i < key.len() ==> (#[trigger] shoup[i]).len() == key[i].len()) && (forall|
            i: int,
            j: int,
        |
            0 <= i < key.len() && 0 <= j < key[i].len() ==> #[trigger] shoup[i][j] == op.shoup(
                key[i][j],
            )),
{
}

/// What a product of digits and rows is made of: each digit polynomial times its row is added. The
/// product with an RGSW ciphertext takes the digits of both parts, an automorphism those of the
/// image of the part `a`.
pub proof fn lemma_gadget_terms<D: Decomposer, N: Ntt>(
    init: Seq<int>,
    x: Seq<int>,
    ct: Seq<Seq<int>>,
    key: Seq<Seq<int>>,
    index: Seq<usize>,
    sign: Seq<bool>,
    decs: (D, D),
    ntt: N,
    first: int,
    j: int,
)
    requires
        j >= 0,
    ensures
        gadget_sum(init, x, key, first, decs.0, ntt, 0) == init,
        gadget_sum(init, x, key, first, decs.0, ntt, j + 1) == ring::poly_add(
            gadget_sum(init, x, key, first, decs.0, ntt, j),
            ring::nega_mul(digit_poly(decs.0, x, j), ntt.coeffs(key[first + j]), ntt.q()),
            ntt.q(),
        ),
        ({
            let (da, db) = (decs.0.count() as int, decs.1.count() as int);
            let z = poly::zeros(ntt.n());
            let a = gadget_sum(z, ct[0], key, 0, decs.0, ntt, da);
            let b = gadget_sum(z, ct[0], key, da, decs.0, ntt, da);
            &&& rgsw_product(ct, key, decs, ntt, false) == seq![
                gadget_sum(a, ct[1], key, 2 * da, decs.1, ntt, db),
                gadget_sum(b, ct[1], key, 2 * da + db, decs.1, ntt, db),
            ]
            &&& rgsw_product(ct, key, decs, ntt, true) == seq![
                gadget_sum(z, ct[1], key, 2 * da, decs.1, ntt, db),
                gadget_sum(z, ct[1], key, 2 * da + db, decs.1, ntt, db),
            ]
        }),
        ({
            let d = decs.0.count() as int;
            let z = poly::zeros(ntt.n());
            let a = auto_image(ct[0], index, sign, ntt.q());
            let b = auto_image(ct[1], index, sign, ntt.q());
            &&& auto_switched(ct, key, index, sign, decs.0, ntt, true) == seq![ct[0], b]
            &&& auto_switched(ct, key, index, sign, decs.0, ntt, false) == seq![
                gadget_sum(z, a, key, 0, decs.0, ntt, d),
                ring::poly_add(gadget_sum(z, a, key, d, decs.0, ntt, d), b, ntt.q()),
            ]
        }),
{
}

} // verus!
