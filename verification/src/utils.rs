//! Rows of residues and their conversions.
use crate::backend::{self, Element, Modulus};
use crate::poly;
use crate::ring;
use vstd::arithmetic::div_mod::*;
use vstd::arithmetic::mul::*;
use vstd::arithmetic::power::*;
use vstd::prelude::*;

verus! {

/// A row of `n` zeros.
pub fn zeros<El: Element>(n: usize) -> (r: Vec<El>)
    ensures
        r.len() == n,
        backend::vals(r@) == poly::zeros(n as nat),
{
    let mut r: Vec<El> = Vec::new();
    for i in 0..n
        invariant
            r.len() == i,
            forall|j: int| 0 <= j < i ==> (#[trigger] r[j]).val() == 0,
    {
        r.push(El::zero());
    }
    assert(backend::vals(r@) =~= poly::zeros(n as nat));
    r
}

/// A copy of a row.
pub fn copied<El: Element>(a: &[El]) -> (r: Vec<El>)
    ensures
        r@ == a@,
{
    let n: usize = a.len();
    let mut r: Vec<El> = Vec::new();
    for i in 0..n
        invariant
            n == a.len(),
            r.len() == i,
            forall|j: int| 0 <= j < i ==> #[trigger] r[j] == a[j],
    {
        r.push(a[i]);
    }
    assert(r@ =~= a@);
    r
}

/// The residues of small signed numbers.
pub fn try_convert_from<M: Modulus>(s: &[i32], q: &M) -> (r: Vec<M::Element>)
    requires
        q.wf(),
        backend::within(s@, q.q()),
    ensures
        r.len() == s.len(),
        backend::vals(r@) == backend::residues(s@, q.q()),
        ring::canonical(backend::vals(r@), q.q()),
{
    let n: usize = s.len();
    let mut r: Vec<M::Element> = Vec::new();
    proof {
        q.lemma_positive();
    }
    for i in 0..n
        invariant
            n == s.len(),
            q.wf(),
            q.q() > 0,
            backend::within(s@, q.q()),
            r.len() == i,
            forall|j: int| 0 <= j < i ==> (#[trigger] r[j]).val() == s[j] as int % q.q(),
    {
        r.push(q.map_element_from_i64(s[i] as i64));
    }
    proof {
        assert(backend::vals(r@) =~= backend::residues(s@, q.q()));
        assert forall|i: int| 0 <= i < n implies 0 <= #[trigger] backend::vals(r@)[i] < q.q() by {
            lemma_mod_bound(s[i] as int, q.q());
        }
    }
    r
}

/// Signed numbers as integers.
pub open spec fn signed(v: Seq<i64>) -> Seq<int> {
    Seq::new(v.len(), |i: int| v[i] as int)
}

/// The representatives closest to zero of a row of residues.
pub open spec fn centered_row(a: Seq<int>, q: int) -> Seq<int> {
    Seq::new(a.len(), |i: int| backend::centered(a[i], q))
}

/// The signed numbers closest to zero with the given residues.
pub fn try_convert_to_signed<M: Modulus>(a: &[M::Element], q: &M) -> (r: Vec<i64>)
    requires
        q.wf(),
        ring::canonical(backend::vals(a@), q.q()),
    ensures
        signed(r@) == centered_row(backend::vals(a@), q.q()),
{
    let n: usize = a.len();
    let mut r: Vec<i64> = Vec::new();
    for i in 0..n
        invariant
            n == a.len(),
            q.wf(),
            ring::canonical(backend::vals(a@), q.q()),
            r.len() == i,
            forall|j: int| 0 <= j < i ==> #[trigger] r[j] == backend::centered(a[j].val(), q.q()),
    {
        assert(backend::vals(a@)[i as int] == a[i as int].val());
        r.push(q.map_element_to_i64(&a[i]));
    }
    assert(signed(r@) =~= centered_row(backend::vals(a@), q.q()));
    r
}

/// The polynomial `X^{si * embedding_factor}` of the ring of `ring_size` coefficients.
pub fn encode_x_pow_si_with_emebedding_factor<M: Modulus>(
    si: i32,
    embedding_factor: usize,
    ring_size: usize,
    modulus: &M,
) -> (m: Vec<M::Element>)
    requires
        modulus.wf(),
        modulus.q() > 1,
        -ring_size < si * embedding_factor < ring_size,
    ensures
        backend::vals(m@) == ring::monomial_times(
            poly::one(ring_size as nat),
            si * embedding_factor,
            modulus.q(),
        ),
        m.len() == ring_size,
        ring::canonical(backend::vals(m@), modulus.q()),
{
    let ghost (q, n, e) = (modulus.q(), ring_size as int, si * embedding_factor);
    let ghost one = poly::one(ring_size as nat);
    let mut m: Vec<M::Element> = zeros(ring_size);
    let ghost z = backend::vals(m@);
    let exp: i128 = si as i128 * embedding_factor as i128;
    let ghost c = if e < 0 {
        (-1int) % q
    } else {
        1int % q
    };
    let to: usize = if exp < 0 {
        (ring_size as i128 + exp) as usize
    } else {
        exp as usize
    };
    let v: M::Element = modulus.map_element_from_i64(
        if exp < 0 {
            -1
        } else {
            1
        },
    );
    m[to] = v;
    proof {
        let r = ring::monomial_times(one, e, q);
        let mv = backend::vals(m@);
        assert(mv =~= z.update(to as int, c));
        assert forall|k: int| 0 <= k < n implies #[trigger] r[k] == mv[k] && 0 <= r[k] < q by {
            lemma_mod_bound(ring::coeff_at(one, k - e), q);
            lemma_small_mod(0, q as nat);
            // X^e has its coefficient at e, or at e + n with the other sign.
            let d = k - e;
            ring::lemma_coeff_at(one, d);
        }
        assert(r =~= mv);
    }
    m
}

/// `g^k % q`.
pub fn pow_mod(g: usize, k: usize, q: usize) -> (r: usize)
    requires
        q > 0,
    ensures
        r == pow(g as int, k as nat) % (q as int),
{
    let mut r: usize = 1 % q;
    proof {
        lemma_pow0(g as int);
        lemma_mod_bound(1, q as int);
    }
    for i in 0..k
        invariant
            q > 0,
            r < q,
            r == pow(g as int, i as nat) % (q as int),
    {
        proof {
            let p = pow(g as int, i as nat);
            lemma_pow_adds(g as int, i as nat, 1);
            lemma_pow1(g as int);
            lemma_mul_mod_noop_left(p, g as int, q as int);
            lemma_mod_bound(r * g, q as int);
            assert(0 <= r * g <= usize::MAX * usize::MAX) by (nonlinear_arith)
                requires
                    0 <= r <= usize::MAX,
                    0 <= g <= usize::MAX,
            ;
            assert(usize::MAX * usize::MAX <= 0xffff_ffff_ffff_ffff * 0xffff_ffff_ffff_ffff)
                by (nonlinear_arith)
                requires
                    0 <= usize::MAX <= 0xffff_ffff_ffff_ffff,
            ;
        }
        r = ((r as u128 * g as u128) % q as u128) as usize;
    }
    r
}

/// Powers of an odd number stay odd modulo an even number.
pub proof fn lemma_pow_odd(g: int, k: nat, q: int)
    requires
        g % 2 == 1,
        q > 0,
        q % 2 == 0,
    ensures
        (pow(g, k) % q) % 2 == 1,
    decreases k,
{
    lemma_mod_mod(pow(g, k), 2, q / 2);
    assert(2 * (q / 2) == q);
    if k == 0 {
        lemma_pow0(g);
    } else {
        let p = pow(g, (k - 1) as nat);
        lemma_pow_odd(g, (k - 1) as nat, q);
        lemma_mod_mod(p, 2, q / 2);
        lemma_pow_adds(g, (k - 1) as nat, 1);
        lemma_pow1(g);
        lemma_mul_mod_noop(p, g, 2);
    }
}

/// Signed numbers stand for themselves, and rows are centered entry by entry.
pub proof fn lemma_rows(v: Seq<i64>, a: Seq<int>, q: int)
    ensures
        signed(v).len() == v.len(),
        forall|i: int| 0 <= i < v.len() ==> #[trigger] signed(v)[i] == v[i],
        centered_row(a, q).len() == a.len(),
        forall|i: int|
            0 <= i < a.len() ==> #[trigger] centered_row(a, q)[i] == backend::centered(a[i], q),
{
}

} // verus!
