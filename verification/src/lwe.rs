//! LWE ciphertexts `(b, a_0, a_1, ..)`.
use crate::backend::{self, ArithmeticOps, Element, GetModulus, Residues, VectorOps};
use crate::decomposer::Decomposer;
use crate::poly;
use crate::ring;
use crate::utils::try_convert_from;
use vstd::arithmetic::div_mod::*;
use vstd::prelude::*;

verus! {

/// The first `j` terms of the inner product of `a` and `s`.
pub open spec fn dot(a: Seq<int>, s: Seq<int>, j: int) -> int
    decreases j,
{
    if j <= 0 {
        0
    } else {
        dot(a, s, j - 1) + a[j - 1] * s[j - 1]
    }
}

/// Signed numbers as integers.
pub open spec fn signed(s: Seq<i32>) -> Seq<int> {
    Seq::new(s.len(), |i: int| s[i] as int)
}

/// The mask of an LWE ciphertext `(b, a_0, a_1, ..)`.
pub open spec fn lwe_mask(ct: Seq<int>) -> Seq<int> {
    ct.skip(1)
}

/// What an LWE ciphertext decrypts to under `s`, noise included: `b - <a, s>`.
pub open spec fn lwe_phase(ct: Seq<int>, s: Seq<int>, q: int) -> int {
    (ct[0] - dot(lwe_mask(ct), s, s.len() as int)) % q
}

pub proof fn lemma_dot_plus(a: Seq<int>, s: Seq<int>, t: Seq<int>, j: int)
    requires
        j <= s.len(),
        s.len() == t.len(),
    ensures
        dot(a, poly::plus(s, t), j) == dot(a, s, j) + dot(a, t, j),
    decreases j,
{
    if j > 0 {
        lemma_dot_plus(a, s, t, j - 1);
        let (x, u, v) = (a[j - 1], s[j - 1], t[j - 1]);
        assert(x * (u + v) == x * u + x * v) by (nonlinear_arith);
    }
}

pub proof fn lemma_dot_zeros(a: Seq<int>, n: nat, j: int)
    requires
        j <= n,
    ensures
        dot(a, poly::zeros(n), j) == 0,
    decreases j,
{
    if j > 0 {
        lemma_dot_zeros(a, n, j - 1);
        let x = a[j - 1];
        assert(x * 0 == 0) by (nonlinear_arith);
    }
}

/// Decrypts an LWE ciphertext: `b - <a, s>`.
pub fn decrypt_lwe<
    El: Element,
    ModOp: ArithmeticOps<Element = El> + GetModulus<Element = El>,
>(lwe_ct: &[El], s: &[i32], mod_op: &ModOp) -> (m: El)
    requires
        mod_op.wf(),
        lwe_ct.len() == s.len() + 1,
        ring::canonical(backend::vals(lwe_ct@), mod_op.q()),
        backend::within(s@, mod_op.q()),
    ensures
        m.val() == lwe_phase(backend::vals(lwe_ct@), signed(s@), mod_op.q()),
{
    let n: usize = s.len();
    let ghost q = mod_op.q();
    let ghost a = lwe_mask(backend::vals(lwe_ct@));
    let ghost sv = signed(s@);
    let sq: Vec<El> = try_convert_from(s, mod_op.modulus());
    let mut sa: El = El::zero();
    proof {
        mod_op.lemma_q_positive();
        lemma_small_mod(0, q as nat);
    }
    for i in 0..n
        invariant
            mod_op.wf(),
            q == mod_op.q(),
            q > 0,
            n == s.len(),
            lwe_ct.len() == n + 1,
            sq.len() == n,
            ring::canonical(backend::vals(lwe_ct@), q),
            ring::canonical(backend::vals(sq@), q),
            backend::vals(sq@) == backend::residues(s@, q),
            a == lwe_mask(backend::vals(lwe_ct@)),
            sv == signed(s@),
            sa.val() == dot(a, sv, i as int) % q,
    {
        proof {
            let (x, y, d) = (sv[i as int], a[i as int], dot(a, sv, i as int));
            assert(y == backend::vals(lwe_ct@)[i + 1]);
            assert(backend::vals(lwe_ct@)[i + 1] == lwe_ct[i + 1].val());
            assert(backend::vals(sq@)[i as int] == sq[i as int].val());
            assert(backend::residues(s@, q)[i as int] == x % q);
            lemma_mod_bound(d, q);
            lemma_mul_mod_noop_right(y, x, q);
            lemma_mod_bound(y * (x % q), q);
            lemma_add_mod_noop(d, y * x, q);
        }
        let t: El = mod_op.mul(&lwe_ct[i + 1], &sq[i]);
        sa = mod_op.add(&sa, &t);
    }
    proof {
        let d = dot(a, sv, n as int);
        assert(backend::vals(lwe_ct@)[0] == lwe_ct[0].val());
        lemma_mod_bound(d, q);
        lemma_sub_mod_noop_right(lwe_ct[0].val(), d, q);
    }
    mod_op.sub(&lwe_ct[0], &sa)
}

/// `out` plus the first `j` of the rows of `ksk` from row `first` on, each times its digit.
pub open spec fn add_digit_rows(
    out: Seq<int>,
    digits: Seq<int>,
    ksk: Seq<Seq<int>>,
    first: int,
    j: int,
    q: int,
) -> Seq<int>
    decreases j,
{
    if j <= 0 {
        out
    } else {
        ring::poly_add(
            add_digit_rows(out, digits, ksk, first, j - 1, q),
            ring::poly_scale(digits[j - 1], ksk[first + j - 1], q),
            q,
        )
    }
}

/// `out` plus what the first `i` entries of the mask contribute to a key switch.
pub open spec fn add_mask_rows<D: Decomposer>(
    out: Seq<int>,
    mask: Seq<int>,
    ksk: Seq<Seq<int>>,
    decomposer: D,
    i: int,
    q: int,
) -> Seq<int>
    decreases i,
{
    if i <= 0 {
        out
    } else {
        add_digit_rows(
            add_mask_rows(out, mask, ksk, decomposer, i - 1, q),
            decomposer.digits(mask[i - 1]),
            ksk,
            (i - 1) * decomposer.count(),
            decomposer.count() as int,
            q,
        )
    }
}

/// The key switch of `ct`, added to `out`: each digit of each mask entry times its row of `ksk`,
/// and the body of `ct`.
pub open spec fn key_switched<D: Decomposer>(
    out: Seq<int>,
    ct: Seq<int>,
    ksk: Seq<Seq<int>>,
    decomposer: D,
    q: int,
) -> Seq<int> {
    let o = add_mask_rows(out, lwe_mask(ct), ksk, decomposer, ct.len() - 1, q);
    o.update(0, (o[0] + ct[0]) % q)
}

proof fn lemma_add_digit_rows(
    out: Seq<int>,
    digits: Seq<int>,
    ksk: Seq<Seq<int>>,
    first: int,
    j: int,
    q: int,
)
    requires
        q > 0,
        ring::canonical(out, q),
    ensures
        add_digit_rows(out, digits, ksk, first, j, q).len() == out.len(),
        ring::canonical(add_digit_rows(out, digits, ksk, first, j, q), q),
    decreases j,
{
    if j > 0 {
        lemma_add_digit_rows(out, digits, ksk, first, j - 1, q);
        ring::lemma_reduced_canonical(
            poly::plus(
                add_digit_rows(out, digits, ksk, first, j - 1, q),
                ring::poly_scale(digits[j - 1], ksk[first + j - 1], q),
            ),
            q,
        );
    }
}

proof fn lemma_add_mask_rows<D: Decomposer>(
    out: Seq<int>,
    mask: Seq<int>,
    ksk: Seq<Seq<int>>,
    decomposer: D,
    i: int,
    q: int,
)
    requires
        q > 0,
        ring::canonical(out, q),
    ensures
        add_mask_rows(out, mask, ksk, decomposer, i, q).len() == out.len(),
        ring::canonical(add_mask_rows(out, mask, ksk, decomposer, i, q), q),
    decreases i,
{
    if i > 0 {
        lemma_add_mask_rows(out, mask, ksk, decomposer, i - 1, q);
        lemma_add_digit_rows(
            add_mask_rows(out, mask, ksk, decomposer, i - 1, q),
            decomposer.digits(mask[i - 1]),
            ksk,
            (i - 1) * decomposer.count(),
            decomposer.count() as int,
            q,
        );
    }
}

/// A key switch keeps the length of what it is added to and gives residues.
pub proof fn lemma_key_switched<D: Decomposer>(
    out: Seq<int>,
    ct: Seq<int>,
    ksk: Seq<Seq<int>>,
    decomposer: D,
    q: int,
)
    requires
        q > 0,
        out.len() > 0,
        ring::canonical(out, q),
    ensures
        key_switched(out, ct, ksk, decomposer, q).len() == out.len(),
        ring::canonical(key_switched(out, ct, ksk, decomposer, q), q),
{
    lemma_add_mask_rows(out, lwe_mask(ct), ksk, decomposer, ct.len() - 1, q);
    let o = add_mask_rows(out, lwe_mask(ct), ksk, decomposer, ct.len() - 1, q);
    lemma_mod_bound(o[0] + ct[0], q);
}

/// Key switches `lwe_in` and adds the result to `lwe_out`. The entries of `lwe_in` may also be
/// the modulus itself.
pub fn lwe_key_switch<
    El: Element,
    ModOp: VectorOps<Element = El> + ArithmeticOps<Element = El>,
    D: Decomposer<Element = El>,
>(
    lwe_out: &mut [El],
    lwe_in: &[El],
    lwe_ksk: &Vec<Vec<El>>,
    operator: &ModOp,
    decomposer: &D,
)
    requires
        operator.wf(),
        decomposer.wf(),
        decomposer.q() == operator.q(),
        old(lwe_out).len() > 0,
        lwe_in.len() > 0,
        ring::canonical(backend::vals(old(lwe_out)@), operator.q()),
        forall|i: int| 0 <= i < lwe_in.len() ==> 0 <= (#[trigger] lwe_in[i]).val() <= operator.q(),
        lwe_ksk.len() == (lwe_in.len() - 1) * decomposer.count(),
        backend::rows_canonical(backend::mat(lwe_ksk@), old(lwe_out).len() as nat, operator.q()),
    ensures
        backend::vals(final(lwe_out)@) == key_switched(
            backend::vals(old(lwe_out)@),
            backend::vals(lwe_in@),
            backend::mat(lwe_ksk@),
            *decomposer,
            operator.q(),
        ),
        final(lwe_out).len() == old(lwe_out).len(),
        ring::canonical(backend::vals(final(lwe_out)@), operator.q()),
{
    let n: usize = lwe_in.len() - 1;
    let cols: usize = lwe_out.len();
    let d: usize = decomposer.decomposition_count();
    let ghost q = operator.q();
    let ghost out0 = backend::vals(lwe_out@);
    let ghost (mask, ksk) = (lwe_mask(backend::vals(lwe_in@)), backend::mat(lwe_ksk@));
    proof {
        operator.lemma_q_positive();
    }
    let mut first: usize = 0;
    assert(first == 0 * d) by (nonlinear_arith)
        requires
            first == 0,
    ;
    for i in 0..n
        invariant
            operator.wf(),
            decomposer.wf(),
            q == operator.q(),
            q == decomposer.q(),
            q > 0,
            n == lwe_in.len() - 1,
            cols == lwe_out.len(),
            cols > 0,
            d == decomposer.count(),
            mask == lwe_mask(backend::vals(lwe_in@)),
            ksk == backend::mat(lwe_ksk@),
            lwe_ksk.len() == n * d,
            backend::rows_canonical(ksk, cols as nat, q),
            forall|k: int| 0 <= k < lwe_in.len() ==> 0 <= (#[trigger] lwe_in[k]).val() <= q,
            first == i * d,
            ring::canonical(backend::vals(lwe_out@), q),
            backend::vals(lwe_out@) == add_mask_rows(out0, mask, ksk, *decomposer, i as int, q),
    {
        let digits: Vec<El> = decomposer.decompose(&lwe_in[i + 1]);
        let ghost dv = backend::vals(digits@);
        let ghost out1 = backend::vals(lwe_out@);
        proof {
            assert(mask[i as int] == backend::vals(lwe_in@)[i + 1]);
            assert(backend::vals(lwe_in@)[i + 1] == lwe_in[i + 1].val());
            decomposer.lemma_digits(mask[i as int]);
            assert(dv.len() == digits.len());
            assert((i + 1) * d <= n * d && (i + 1) * d == i * d + d) by (nonlinear_arith)
                requires
                    0 <= i < n,
                    d >= 0,
            ;
        }
        for j in 0..d
            invariant
                operator.wf(),
                q == operator.q(),
                q > 0,
                cols == lwe_out.len(),
                cols > 0,
                digits.len() == d,
                dv == backend::vals(digits@),
                ring::canonical(dv, q),
                ksk == backend::mat(lwe_ksk@),
                first + d <= lwe_ksk.len(),
                backend::rows_canonical(ksk, cols as nat, q),
                ring::canonical(backend::vals(lwe_out@), q),
                backend::vals(lwe_out@) == add_digit_rows(out1, dv, ksk, first as int, j as int, q),
        {
            proof {
                assert(dv[j as int] == digits[j as int].val());
                assert(ksk[first + j] == backend::vals(lwe_ksk[first + j]@));
                assert(ksk[first + j].len() == lwe_ksk[first + j].len());
            }
            operator.elwise_fma_scalar_mut(lwe_out, lwe_ksk[first + j].as_slice(), &digits[j]);
            proof {
                let o = add_digit_rows(out1, dv, ksk, first as int, j as int, q);
                ring::lemma_reduced_canonical(
                    poly::plus(o, ring::poly_scale(dv[j as int], ksk[first + j], q)),
                    q,
                );
                assert(backend::vals(lwe_out@).len() == lwe_out.len());
            }
        }
        first = first + d;
    }
    let ghost o = backend::vals(lwe_out@);
    proof {
        assert(o[0] == lwe_out[0].val());
        assert(backend::vals(lwe_in@)[0] == lwe_in[0].val());
        lemma_mod_bound(o[0] + lwe_in[0].val(), q);
    }
    lwe_out[0] = operator.add(&lwe_out[0], &lwe_in[0]);
    assert(backend::vals(lwe_out@) =~= o.update(0, (o[0] + lwe_in[0].val()) % q));
}

/// An inner product has one term for each entry.
pub proof fn lemma_dot_terms(a: Seq<int>, s: Seq<int>, j: int)
    requires
        j >= 0,
    ensures
        dot(a, s, 0) == 0,
        dot(a, s, j + 1) == dot(a, s, j) + a[j] * s[j],
{
}

proof fn lemma_dot_push(a: Seq<int>, s: Seq<int>, x: int, y: int, j: int)
    requires
        j <= a.len(),
        j <= s.len(),
    ensures
        dot(a.push(x), s.push(y), j) == dot(a, s, j),
    decreases j,
{
    if j > 0 {
        lemma_dot_push(a, s, x, y, j - 1);
    }
}

/// What a ciphertext decrypts to, entry by entry of its mask: a body alone to itself, and each
/// further entry takes its product with the element of the secret away.
pub proof fn lemma_phase_terms(ct: Seq<int>, s: Seq<int>, x: int, y: int, q: int)
    requires
        q > 0,
        ct.len() == s.len() + 1,
    ensures
        lwe_phase(seq![x], Seq::<int>::empty(), q) == x % q,
        lwe_phase(ct.push(x), s.push(y), q) == (lwe_phase(ct, s, q) - x * y) % q,
{
    let n = s.len() as int;
    let (m, t) = (lwe_mask(ct), s.push(y));
    assert(lwe_mask(ct.push(x)) =~= m.push(x));
    lemma_dot_push(m, s, x, y, n);
    assert(m.push(x)[n] == x && t[n] == y);
    let d = dot(m, s, n);
    assert(dot(m.push(x), t, n + 1) == d + x * y);
    lemma_sub_mod_noop(ct[0] - d, x * y, q);
    lemma_sub_mod_noop((ct[0] - d) % q, x * y, q);
    lemma_mod_twice(ct[0] - d, q);
}

/// Signed numbers stand for themselves.
pub proof fn lemma_signed(s: Seq<i32>)
    ensures
        signed(s).len() == s.len(),
        forall|i: int| 0 <= i < s.len() ==> #[trigger] signed(s)[i] == s[i],
{
}

/// What a key switch is made of: each digit of each entry of the mask adds its row of the key times
/// the digit, and the body is added to the first entry.
pub proof fn lemma_key_switch_terms<D: Decomposer>(
    out: Seq<int>,
    ct: Seq<int>,
    digits: Seq<int>,
    ksk: Seq<Seq<int>>,
    decomposer: D,
    first: int,
    j: int,
    q: int,
)
    requires
        j >= 0,
    ensures
        add_digit_rows(out, digits, ksk, first, 0, q) == out,
        add_digit_rows(out, digits, ksk, first, j + 1, q) == ring::poly_add(
            add_digit_rows(out, digits, ksk, first, j, q),
            ring::poly_scale(digits[j], ksk[first + j], q),
            q,
        ),
        add_mask_rows(out, ct.skip(1), ksk, decomposer, 0, q) == out,
        add_mask_rows(out, ct.skip(1), ksk, decomposer, j + 1, q) == add_digit_rows(
            add_mask_rows(out, ct.skip(1), ksk, decomposer, j, q),
            decomposer.digits(ct.skip(1)[j]),
            ksk,
            j * decomposer.count(),
            decomposer.count() as int,
            q,
        ),
        ({
            let o = add_mask_rows(out, ct.skip(1), ksk, decomposer, ct.len() - 1, q);
            key_switched(out, ct, ksk, decomposer, q) == o.update(0, (o[0] + ct[0]) % q)
        }),
{
}

} // verus!
