//! Measurement of the noise in the keys of a server.
use crate::automorphism;
use crate::backend::{
    self, ArithmeticOps, Element, GetModulus, ModInit, Modulus, Residues, VectorOps,
};
use crate::decomposer::Decomposer;
use crate::decryption;
use crate::lwe::{self, decrypt_lwe, lwe_key_switch};
use crate::multi_party::{self, mul_by_evaluated};
use crate::ntt::{Ntt, NttInit};
use crate::poly;
use crate::random::{self, RandomFillUniformInModulus};
use crate::rgsw::{self, apply_auto, auto_element, decrypt_rlwe, generate_auto_map, rlwe_auto};
use crate::ring;
use crate::utils::{
    self, copied, encode_x_pow_si_with_emebedding_factor, try_convert_from, try_convert_to_signed,
    zeros,
};
use vstd::arithmetic::div_mod::*;
use vstd::prelude::*;

verus! {

/// Access to the keys of a server.
pub trait CollectRuntimeServerKeyStats {
    type Element: Element;

    /// Whether there is an RGSW ciphertext for the LWE secret element `s_index`.
    spec fn has_rgsw_ct(&self, s_index: int) -> bool;

    spec fn rgsw_ct(&self, s_index: int) -> Seq<Seq<int>>;

    /// Whether there is a key for the automorphism g^k.
    spec fn has_galois_key(&self, k: int) -> bool;

    spec fn galois_key(&self, k: int) -> Seq<Seq<int>>;

    spec fn lwe_ksk_rows(&self) -> Seq<Seq<int>>;

    /// RGSW ciphertext X^{s[s_index]} in evaluation domain where s the LWE
    /// secret
    fn rgsw_cts_lwe_si(&self, s_index: usize) -> (r: &Vec<Vec<Self::Element>>)
        requires
            self.has_rgsw_ct(s_index as int),
        ensures
            backend::mat(r@) == self.rgsw_ct(s_index as int),
    ;

    /// Auto key in evaluation domain for automorphism g^k. For auto key for
    /// automorphism corresponding to -g, set k = 0
    fn galois_key_for_auto(&self, k: usize) -> (r: &Vec<Vec<Self::Element>>)
        requires
            self.has_galois_key(k as int),
        ensures
            backend::mat(r@) == self.galois_key(k as int),
    ;

    /// LWE key switching key
    fn lwe_ksk(&self) -> (r: &Vec<Vec<Self::Element>>)
        ensures
            backend::mat(r@) == self.lwe_ksk_rows(),
    ;
}

/// Samples of a random quantity.
pub struct Stats<T> {
    pub samples: Vec<T>,
}

impl<T> Default for Stats<T> {
    fn default() -> (r: Stats<T>)
        ensures
            r.samples@ == Seq::<T>::empty(),
    {
        Stats { samples: Vec::new() }
    }
}

impl<T: Copy> Stats<T> {
    /// Appends samples.
    pub fn add_more(&mut self, values: &[T])
        ensures
            final(self).samples@ == old(self).samples@ + values@,
    {
        let n: usize = values.len();
        let ghost before = self.samples@;
        assert(before + values@.take(0) =~= before);
        for i in 0..n
            invariant
                n == values.len(),
                self.samples@ == before + values@.take(i as int),
        {
            self.samples.push(values[i]);
            assert(before + values@.take(i + 1) =~= (before + values@.take(i as int)).push(
                values[i as int],
            ));
        }
        assert(values@.take(n as int) =~= values@);
    }
}

/// Samples of the noise in the keys of a server.
pub struct ServerKeyStats<T> {
    pub brk_rgsw_cts: (Stats<T>, Stats<T>),
    pub post_1_auto: Stats<T>,
    pub post_lwe_key_switch: Stats<T>,
}

impl<T: Copy> ServerKeyStats<T> {
    pub fn new() -> (r: Self)
        ensures
            r.brk_rgsw_cts.0.samples@ == Seq::<T>::empty(),
            r.brk_rgsw_cts.1.samples@ == Seq::<T>::empty(),
            r.post_1_auto.samples@ == Seq::<T>::empty(),
            r.post_lwe_key_switch.samples@ == Seq::<T>::empty(),
    {
        ServerKeyStats {
            brk_rgsw_cts: (Stats::default(), Stats::default()),
            post_1_auto: Stats::default(),
            post_lwe_key_switch: Stats::default(),
        }
    }

    pub fn add_noise_brk_rgsw_cts_nsm(&mut self, noise: &[T])
        ensures
            final(self).brk_rgsw_cts.0.samples@ == old(self).brk_rgsw_cts.0.samples@ + noise@,
            final(self).brk_rgsw_cts.1 == old(self).brk_rgsw_cts.1,
            final(self).post_1_auto == old(self).post_1_auto,
            final(self).post_lwe_key_switch == old(self).post_lwe_key_switch,
    {
        self.brk_rgsw_cts.0.add_more(noise);
    }

    pub fn add_noise_brk_rgsw_cts_m(&mut self, noise: &[T])
        ensures
            final(self).brk_rgsw_cts.1.samples@ == old(self).brk_rgsw_cts.1.samples@ + noise@,
            final(self).brk_rgsw_cts.0 == old(self).brk_rgsw_cts.0,
            final(self).post_1_auto == old(self).post_1_auto,
            final(self).post_lwe_key_switch == old(self).post_lwe_key_switch,
    {
        self.brk_rgsw_cts.1.add_more(noise);
    }

    pub fn add_noise_post_1_auto(&mut self, noise: &[T])
        ensures
            final(self).post_1_auto.samples@ == old(self).post_1_auto.samples@ + noise@,
            final(self).brk_rgsw_cts == old(self).brk_rgsw_cts,
            final(self).post_lwe_key_switch == old(self).post_lwe_key_switch,
    {
        self.post_1_auto.add_more(noise);
    }

    pub fn add_noise_post_kwe_key_switch(&mut self, noise: &[T])
        ensures
            final(self).post_lwe_key_switch.samples@ == old(self).post_lwe_key_switch.samples@
                + noise@,
            final(self).brk_rgsw_cts == old(self).brk_rgsw_cts,
            final(self).post_1_auto == old(self).post_1_auto,
    {
        self.post_lwe_key_switch.add_more(noise);
    }
}

/// The secrets of one party.
pub struct ClientKey {
    pub sk_rlwe: Vec<i32>,
    pub sk_lwe: Vec<i32>,
}

/// The RLWE secrets of the parties.
pub open spec fn rlwe_secrets(cks: Seq<ClientKey>) -> Seq<Seq<int>> {
    Seq::new(cks.len(), |p: int| lwe::signed(cks[p].sk_rlwe@))
}

/// The LWE secrets of the parties.
pub open spec fn lwe_secrets(cks: Seq<ClientKey>) -> Seq<Seq<int>> {
    Seq::new(cks.len(), |p: int| lwe::signed(cks[p].sk_lwe@))
}

/// The secrets have `n` elements each, and the sums over the first parties fit in an `i32`.
pub open spec fn sums_fit(secrets: Seq<Seq<int>>, n: nat) -> bool {
    &&& forall|p: int| 0 <= p < secrets.len() ==> (#[trigger] secrets[p]).len() == n
    &&& forall|k: int, i: int|
        0 <= k <= secrets.len() && 0 <= i < n ==> i32::MIN
            <= #[trigger] multi_party::collective_secret(secrets, n, k)[i] <= i32::MAX
}

/// Adds the secret of the party `k` to the sum of the secrets of the parties before it.
fn add_secret(
    sum: &mut Vec<i32>,
    sk: &Vec<i32>,
    Ghost(secrets): Ghost<Seq<Seq<int>>>,
    Ghost(k): Ghost<int>,
)
    requires
        0 <= k < secrets.len(),
        sums_fit(secrets, old(sum).len() as nat),
        secrets[k] == lwe::signed(sk@),
        lwe::signed(old(sum)@) == multi_party::collective_secret(
            secrets,
            old(sum).len() as nat,
            k,
        ),
    ensures
        lwe::signed(final(sum)@) == multi_party::collective_secret(
            secrets,
            old(sum).len() as nat,
            k + 1,
        ),
        final(sum).len() == old(sum).len(),
{
    let n: usize = sum.len();
    let ghost s0 = sum@;
    let ghost before = multi_party::collective_secret(secrets, n as nat, k);
    let ghost after = multi_party::collective_secret(secrets, n as nat, k + 1);
    assert(secrets[k].len() == sk.len());
    for i in 0..n
        invariant
            n == sum.len(),
            n == s0.len(),
            n == sk.len(),
            0 <= k < secrets.len(),
            sums_fit(secrets, n as nat),
            secrets[k] == lwe::signed(sk@),
            before == multi_party::collective_secret(secrets, n as nat, k),
            after == multi_party::collective_secret(secrets, n as nat, k + 1),
            after == poly::plus(before, secrets[k]),
            lwe::signed(s0) == before,
            forall|j: int| i <= j < n ==> #[trigger] sum[j] == s0[j],
            forall|j: int| 0 <= j < i ==> #[trigger] sum[j] == after[j],
    {
        proof {
            assert(lwe::signed(s0)[i as int] == s0[i as int]);
            assert(lwe::signed(sk@)[i as int] == sk[i as int]);
            assert(after[i as int] == before[i as int] + secrets[k][i as int]);
            assert(i32::MIN <= multi_party::collective_secret(
                secrets,
                n as nat,
                k + 1,
            )[i as int] <= i32::MAX);
        }
        sum[i] = sum[i] + sk[i];
    }
    assert(after.len() == before.len() == lwe::signed(s0).len());
    assert(lwe::signed(sum@) =~= after);
}

/// A row of `n` zeros.
fn zero_secret(n: usize) -> (r: Vec<i32>)
    ensures
        lwe::signed(r@) == poly::zeros(n as nat),
        r.len() == n,
{
    let mut r: Vec<i32> = Vec::new();
    for i in 0..n
        invariant
            r.len() == i,
            forall|j: int| 0 <= j < i ==> #[trigger] r[j] == 0,
    {
        r.push(0);
    }
    assert(lwe::signed(r@) =~= poly::zeros(n as nat));
    r
}

/// The RLWE secret that the parties share: the sum of their RLWE secrets.
pub fn ideal_sk_rlwe(cks: &[ClientKey]) -> (r: Vec<i32>)
    requires
        cks.len() > 0,
        sums_fit(rlwe_secrets(cks@), cks[0].sk_rlwe.len() as nat),
    ensures
        lwe::signed(r@) == shared_sk_rlwe(cks@),
        r.len() == cks[0].sk_rlwe.len(),
{
    let n: usize = cks[0].sk_rlwe.len();
    let parties: usize = cks.len();
    let ghost secrets = rlwe_secrets(cks@);
    let mut sum: Vec<i32> = zero_secret(n);
    for k in 0..parties
        invariant
            parties == cks.len(),
            secrets == rlwe_secrets(cks@),
            sums_fit(secrets, n as nat),
            n == sum.len(),
            lwe::signed(sum@) == multi_party::collective_secret(secrets, n as nat, k as int),
    {
        add_secret(&mut sum, &cks[k].sk_rlwe, Ghost(secrets), Ghost(k as int));
    }
    sum
}

/// The LWE secret that the parties share: the sum of their LWE secrets.
pub fn ideal_sk_lwe(cks: &[ClientKey]) -> (r: Vec<i32>)
    requires
        cks.len() > 0,
        sums_fit(lwe_secrets(cks@), cks[0].sk_lwe.len() as nat),
    ensures
        lwe::signed(r@) == shared_sk_lwe(cks@),
        r.len() == cks[0].sk_lwe.len(),
{
    let n: usize = cks[0].sk_lwe.len();
    let parties: usize = cks.len();
    let ghost secrets = lwe_secrets(cks@);
    let mut sum: Vec<i32> = zero_secret(n);
    for k in 0..parties
        invariant
            parties == cks.len(),
            secrets == lwe_secrets(cks@),
            sums_fit(secrets, n as nat),
            n == sum.len(),
            lwe::signed(sum@) == multi_party::collective_secret(secrets, n as nat, k as int),
    {
        add_secret(&mut sum, &cks[k].sk_lwe, Ghost(secrets), Ghost(k as int));
    }
    sum
}

/// The parameters of the keys of a server.
pub struct BoolParameters<M, D> {
    pub rlwe_q: M,
    pub lwe_q: M,
    pub br_q: usize,
    pub rlwe_n: usize,
    pub lwe_n: usize,
    pub g: usize,
    pub w: usize,
    pub rlwe_rgsw_decomposer: (D, D),
    pub auto_decomposer: D,
    pub lwe_decomposer: D,
}

impl<M, D> BoolParameters<M, D> {
    /// The discrete logarithms of the automorphisms that a server has keys for: 0 stands for -g,
    /// any other k for g^k.
    pub fn auto_element_dlogs(&self) -> (r: Vec<usize>)
        requires
            self.w < usize::MAX,
        ensures
            r.len() == self.w + 1,
            forall|i: int| 0 <= i <= self.w ==> #[trigger] r[i] == i,
    {
        let mut r: Vec<usize> = Vec::new();
        let n: usize = self.w + 1;
        for i in 0..n
            invariant
                r.len() == i,
                forall|j: int| 0 <= j < i ==> #[trigger] r[j] == j,
        {
            r.push(i);
        }
        r
    }
}

/// The difference of what was decrypted and what was encrypted, as numbers closest to zero.
pub open spec fn noise(back: Seq<int>, want: Seq<int>, q: int) -> Seq<int> {
    utils::centered_row(ring::poly_sub(back, want, q), q)
}

/// What the noise in the keys of a server is measured with.
pub struct NoiseModel<S, D, N> {
    pub server_key: S,
    pub sk_rlwe: Seq<int>,
    pub sk_lwe: Seq<int>,
    pub lwe_q: int,
    pub br_q: int,
    pub g: int,
    pub rlwe_rgsw_decomposer: (D, D),
    pub auto_decomposer: D,
    pub lwe_decomposer: D,
    pub ntt: N,
}

impl<S: CollectRuntimeServerKeyStats, D: Decomposer, N: Ntt> NoiseModel<S, D, N> {
    /// The RLWE secret as a polynomial.
    pub open spec fn secret(self) -> Seq<int> {
        ring::reduced(self.sk_rlwe, self.ntt.q())
    }

    /// The factor between the exponents of the ring and those modulo `br_q`.
    pub open spec fn embedding_factor(self) -> int {
        (2 * self.ntt.n() as int) / self.br_q
    }

    /// The polynomial `X^{s[i]}` in the ring in which the powers of `X` are embedded.
    pub open spec fn message(self, i: int) -> Seq<int> {
        ring::monomial_times(
            poly::one(self.ntt.n()),
            self.sk_lwe[i] * self.embedding_factor(),
            self.ntt.q(),
        )
    }

    /// The noise of two rows of a key, taken as an RLWE ciphertext of `want`.
    pub open spec fn row_noise(
        self,
        rows: Seq<Seq<int>>,
        a: int,
        b: int,
        want: Seq<int>,
    ) -> Seq<int> {
        noise(
            rgsw::rlwe_phase(
                seq![self.ntt.coeffs(rows[a]), self.ntt.coeffs(rows[b])],
                self.secret(),
                self.ntt.q(),
            ),
            want,
            self.ntt.q(),
        )
    }

    /// The noise of the row `j` of RLWE'(-sm) in the RGSW ciphertext of the secret element `i`.
    pub open spec fn nsm_noise(self, i: int, j: int) -> Seq<int> {
        let q = self.ntt.q();
        self.row_noise(
            self.server_key.rgsw_ct(i),
            j,
            j + self.rlwe_rgsw_decomposer.0.count(),
            ring::poly_scale(
                self.rlwe_rgsw_decomposer.0.gadget()[j],
                ring::nega_mul(self.message(i), ring::poly_neg(self.secret(), q), q),
                q,
            ),
        )
    }

    /// The noise of the row `j` of RLWE'(m) in the RGSW ciphertext of the secret element `i`.
    pub open spec fn m_noise(self, i: int, j: int) -> Seq<int> {
        let da = self.rlwe_rgsw_decomposer.0.count() as int;
        self.row_noise(
            self.server_key.rgsw_ct(i),
            j + 2 * da,
            j + 2 * da + self.rlwe_rgsw_decomposer.1.count(),
            ring::poly_scale(
                self.rlwe_rgsw_decomposer.1.gadget()[j],
                self.message(i),
                self.ntt.q(),
            ),
        )
    }

    /// The noise of the first `j` rows of RLWE'(-sm) of the secret element `i`.
    pub open spec fn nsm_row_noises(self, i: int, j: int) -> Seq<int>
        decreases j,
    {
        if j <= 0 {
            Seq::empty()
        } else {
            self.nsm_row_noises(i, j - 1) + self.nsm_noise(i, j - 1)
        }
    }

    /// The noise of the first `j` rows of RLWE'(m) of the secret element `i`.
    pub open spec fn m_row_noises(self, i: int, j: int) -> Seq<int>
        decreases j,
    {
        if j <= 0 {
            Seq::empty()
        } else {
            self.m_row_noises(i, j - 1) + self.m_noise(i, j - 1)
        }
    }

    /// The noise of RLWE'(-sm) of the first `i` secret elements.
    pub open spec fn nsm_noises(self, i: int) -> Seq<int>
        decreases i,
    {
        if i <= 0 {
            Seq::empty()
        } else {
            self.nsm_noises(i - 1) + self.nsm_row_noises(
                i - 1,
                self.rlwe_rgsw_decomposer.0.count() as int,
            )
        }
    }

    /// The noise of RLWE'(m) of the first `i` secret elements.
    pub open spec fn m_noises(self, i: int) -> Seq<int>
        decreases i,
    {
        if i <= 0 {
            Seq::empty()
        } else {
            self.m_noises(i - 1) + self.m_row_noises(
                i - 1,
                self.rlwe_rgsw_decomposer.1.count() as int,
            )
        }
    }

    /// The exponent of the automorphism with the discrete logarithm `k`.
    pub open spec fn auto_exponent(self, k: int) -> int {
        rgsw::auto_exponent(self.g, self.br_q, k)
    }

    /// The noise that the automorphism with the discrete logarithm `k` adds to the ciphertext
    /// with `m` in its part `a`: the result should decrypt to `m(X^{g^k}) * -s(X^{g^k})`.
    pub open spec fn auto_noise(self, k: int, m: Seq<int>) -> Seq<int> {
        let q = self.ntt.q();
        let n = self.ntt.n();
        let index = rgsw::auto_indices(n, self.auto_exponent(k));
        let sign = rgsw::auto_signs(n, self.auto_exponent(k));
        let out = rgsw::auto_switched(
            seq![m, poly::zeros(n)],
            self.server_key.galois_key(k),
            index,
            sign,
            self.auto_decomposer,
            self.ntt,
            false,
        );
        let want = ring::nega_mul(
            rgsw::auto_image(m, index, sign, q),
            rgsw::auto_image(ring::poly_neg(self.secret(), q), index, sign, q),
            q,
        );
        noise(rgsw::rlwe_phase(out, self.secret(), q), want, q)
    }

    /// The noise of the automorphisms with the discrete logarithms below `k`, each on the next
    /// polynomial that `rng` draws.
    pub open spec fn auto_noises<M: Modulus, R: RandomFillUniformInModulus<M>>(
        self,
        rng: R,
        k: int,
    ) -> Seq<int>
        decreases k,
    {
        if k <= 0 {
            Seq::empty()
        } else {
            self.auto_noises::<M, R>(rng, k - 1) + self.auto_noise(
                k - 1,
                random::uniform_fill::<M, R>(rng, self.ntt.q(), self.ntt.n(), (k - 1) as nat),
            )
        }
    }

    /// The noise that the LWE key switch adds to the ciphertext with the mask `a` and the body
    /// zero: the result should decrypt to `-<a, s>`.
    pub open spec fn key_switch_noise(self, a: Seq<int>) -> int {
        let q = self.lwe_q;
        let out = lwe::key_switched(
            poly::zeros(self.sk_lwe.len() + 1),
            seq![0int] + a,
            self.server_key.lwe_ksk_rows(),
            self.lwe_decomposer,
            q,
        );
        let want = (-lwe::dot(a, self.sk_rlwe, self.sk_rlwe.len() as int)) % q;
        backend::centered((want - lwe::lwe_phase(out, self.sk_lwe, q)) % q, q)
    }

    /// The noise of the first `t` key switches, each on the next mask that `rng` draws.
    pub open spec fn key_switch_noises<M: Modulus, R: RandomFillUniformInModulus<M>>(
        self,
        rng: R,
        t: int,
    ) -> Seq<int>
        decreases t,
    {
        if t <= 0 {
            Seq::empty()
        } else {
            self.key_switch_noises::<M, R>(rng, t - 1).push(
                self.key_switch_noise(
                    random::uniform_fill::<M, R>(
                        rng,
                        self.lwe_q,
                        self.ntt.n(),
                        (t - 1) as nat,
                    ),
                ),
            )
        }
    }

    /// The keys and the secrets fit the parameters.
    pub open spec fn ready(self, w: int) -> bool {
        keys_fit(
            self.server_key,
            self.sk_rlwe,
            self.sk_lwe,
            self.ntt.n(),
            self.ntt.q(),
            self.lwe_q,
            self.br_q,
            self.g,
            w,
            self.rlwe_rgsw_decomposer,
            self.auto_decomposer,
            self.lwe_decomposer,
        )
    }
}

/// The parameters fit together, and the keys and the secrets fit the parameters.
pub open spec fn keys_fit<S: CollectRuntimeServerKeyStats, D: Decomposer>(
    server_key: S,
    sk_rlwe: Seq<int>,
    sk_lwe: Seq<int>,
    rlwe_n: nat,
    rlwe_q: int,
    lwe_q: int,
    br_q: int,
    g: int,
    w: int,
    rlwe_rgsw_decomposer: (D, D),
    auto_decomposer: D,
    lwe_decomposer: D,
) -> bool {
    let da = rlwe_rgsw_decomposer.0.count();
    let db = rlwe_rgsw_decomposer.1.count();
    &&& rlwe_q > 1
    &&& 2 * rlwe_n <= isize::MAX
    &&& 0 < br_q <= isize::MAX && br_q % 2 == 0
    &&& 0 <= g <= isize::MAX && g % 2 == 1
    &&& 0 <= w < usize::MAX
    &&& rlwe_rgsw_decomposer.0.wf() && rlwe_rgsw_decomposer.0.q() == rlwe_q
    &&& rlwe_rgsw_decomposer.1.wf() && rlwe_rgsw_decomposer.1.q() == rlwe_q
    &&& auto_decomposer.wf() && auto_decomposer.q() == rlwe_q
    &&& lwe_decomposer.wf() && lwe_decomposer.q() == lwe_q
    &&& sk_rlwe.len() == rlwe_n
    &&& sk_lwe.len() < usize::MAX
    &&& forall|i: int|
        0 <= i < rlwe_n ==> -rlwe_q < #[trigger] sk_rlwe[i] < rlwe_q && -lwe_q < sk_rlwe[i] < lwe_q
    &&& forall|i: int|
        0 <= i < sk_lwe.len() ==> -lwe_q < #[trigger] sk_lwe[i] < lwe_q && -rlwe_n < sk_lwe[i] * ((2
            * rlwe_n as int) / br_q) < rlwe_n
    &&& 2 * da + 2 * db <= usize::MAX
    &&& forall|i: int|
        0 <= i < sk_lwe.len() ==> #[trigger] server_key.has_rgsw_ct(i) && server_key.rgsw_ct(
            i,
        ).len() >= 2 * da + 2 * db && backend::rows_canonical(
            server_key.rgsw_ct(i),
            rlwe_n,
            rlwe_q,
        )
    &&& forall|k: int|
        0 <= k <= w ==> #[trigger] server_key.has_galois_key(k) && server_key.galois_key(k).len()
            == 2 * auto_decomposer.count() && backend::rows_canonical(
            server_key.galois_key(k),
            rlwe_n,
            rlwe_q,
        )
    &&& server_key.lwe_ksk_rows().len() == rlwe_n * lwe_decomposer.count()
    &&& backend::rows_canonical(server_key.lwe_ksk_rows(), sk_lwe.len() + 1, lwe_q)
}

/// The RLWE secret that the parties share.
pub open spec fn shared_sk_rlwe(cks: Seq<ClientKey>) -> Seq<int> {
    multi_party::collective_secret(
        rlwe_secrets(cks),
        cks[0].sk_rlwe.len() as nat,
        cks.len() as int,
    )
}

/// The LWE secret that the parties share.
pub open spec fn shared_sk_lwe(cks: Seq<ClientKey>) -> Seq<int> {
    multi_party::collective_secret(
        lwe_secrets(cks),
        cks[0].sk_lwe.len() as nat,
        cks.len() as int,
    )
}

/// The keys of the server and of the parties fit the parameters.
pub open spec fn server_key_fits<
    M: Modulus,
    D: Decomposer,
    S: CollectRuntimeServerKeyStats,
>(parameters: BoolParameters<M, D>, cks: Seq<ClientKey>, server_key: S) -> bool {
    &&& cks.len() > 0
    &&& sums_fit(rlwe_secrets(cks), parameters.rlwe_n as nat)
    &&& sums_fit(lwe_secrets(cks), parameters.lwe_n as nat)
    &&& parameters.rlwe_q.wf()
    &&& parameters.lwe_q.wf()
    &&& keys_fit(
        server_key,
        shared_sk_rlwe(cks),
        shared_sk_lwe(cks),
        parameters.rlwe_n as nat,
        parameters.rlwe_q.q(),
        parameters.lwe_q.q(),
        parameters.br_q as int,
        parameters.g as int,
        parameters.w as int,
        parameters.rlwe_rgsw_decomposer,
        parameters.auto_decomposer,
        parameters.lwe_decomposer,
    )
}

/// `stats` holds the samples of the noise in the keys, and `after` is the state of the source of
/// random polynomials and masks `rng` after they were drawn.
pub open spec fn collected<
    M: Modulus,
    D: Decomposer,
    N: Ntt,
    S: CollectRuntimeServerKeyStats,
    R: RandomFillUniformInModulus<M>,
>(
    stats: ServerKeyStats<i64>,
    parameters: BoolParameters<M, D>,
    cks: Seq<ClientKey>,
    server_key: S,
    ntt: N,
    rng: R,
    after: R,
) -> bool {
    let model = noise_model(parameters, cks, server_key, ntt);
    let n = parameters.rlwe_n as nat;
    let autos = parameters.w + 1;
    let switch_rng = random::after_uniforms::<M, R>(
        rng,
        parameters.rlwe_q.q(),
        n,
        autos as nat,
    );
    &&& utils::signed(stats.brk_rgsw_cts.0.samples@) == model.nsm_noises(parameters.lwe_n as int)
    &&& utils::signed(stats.brk_rgsw_cts.1.samples@) == model.m_noises(parameters.lwe_n as int)
    &&& utils::signed(stats.post_1_auto.samples@) == model.auto_noises::<M, R>(rng, autos)
    &&& utils::signed(stats.post_lwe_key_switch.samples@) == model.key_switch_noises::<M, R>(
        switch_rng,
        10,
    )
    &&& after == random::after_uniforms::<M, R>(switch_rng, parameters.lwe_q.q(), n, 10)
}

/// `ntt` is the transform that is built for the modulus `q` and `n` coefficients.
pub open spec fn is_transform_for<M: Modulus, N: NttInit<M>>(ntt: N, q: int, n: nat) -> bool {
    &&& ntt.wf()
    &&& ntt.q() == q
    &&& ntt.n() == n
    &&& forall|p: Seq<int>| #[trigger] ntt.evals(p) == N::evals_for(q, n, p)
    &&& forall|e: Seq<int>| #[trigger] ntt.coeffs(e) == N::coeffs_for(q, n, e)
}

/// A model for the given parameters, secrets and keys.
pub open spec fn noise_model<M: Modulus, S, D, N>(
    parameters: BoolParameters<M, D>,
    cks: Seq<ClientKey>,
    server_key: S,
    ntt: N,
) -> NoiseModel<S, D, N> {
    NoiseModel {
        server_key,
        sk_rlwe: shared_sk_rlwe(cks),
        sk_lwe: shared_sk_lwe(cks),
        lwe_q: parameters.lwe_q.q(),
        br_q: parameters.br_q as int,
        g: parameters.g as int,
        rlwe_rgsw_decomposer: parameters.rlwe_rgsw_decomposer,
        auto_decomposer: parameters.auto_decomposer,
        lwe_decomposer: parameters.lwe_decomposer,
        ntt,
    }
}

proof fn lemma_signed_append(a: Seq<i64>, b: Seq<i64>)
    ensures
        utils::signed(a + b) == utils::signed(a) + utils::signed(b),
{
    assert(utils::signed(a + b) =~= utils::signed(a) + utils::signed(b));
}

/// A ciphertext of two rows.
fn rlwe_of<El: Element>(a: Vec<El>, b: Vec<El>) -> (r: Vec<Vec<El>>)
    ensures
        backend::mat(r@) == seq![backend::vals(a@), backend::vals(b@)],
{
    let mut r: Vec<Vec<El>> = Vec::new();
    r.push(a);
    r.push(b);
    assert(backend::mat(r@) =~= seq![backend::vals(a@), backend::vals(b@)]);
    r
}

/// Decrypts `rlwe_ct` and returns the difference to `want`.
fn decryption_noise<
    El: Element,
    NttOp: Ntt<Element = El>,
    ModOp: VectorOps<Element = El> + GetModulus<Element = El>,
>(
    rlwe_ct: &Vec<Vec<El>>,
    want: &Vec<El>,
    sk_rlwe: &Vec<i32>,
    rlwe_nttop: &NttOp,
    rlwe_modop: &ModOp,
) -> (r: Vec<i64>)
    requires
        rlwe_modop.wf(),
        rlwe_nttop.wf(),
        rlwe_modop.q() == rlwe_nttop.q(),
        sk_rlwe.len() == rlwe_nttop.n(),
        backend::within(sk_rlwe@, rlwe_modop.q()),
        rgsw::is_rlwe(backend::mat(rlwe_ct@), rlwe_nttop.n(), rlwe_modop.q()),
        want.len() == rlwe_nttop.n(),
        ring::canonical(backend::vals(want@), rlwe_modop.q()),
    ensures
        utils::signed(r@) == noise(
            rgsw::rlwe_phase(
                backend::mat(rlwe_ct@),
                ring::reduced(lwe::signed(sk_rlwe@), rlwe_modop.q()),
                rlwe_modop.q(),
            ),
            backend::vals(want@),
            rlwe_modop.q(),
        ),
{
    let mut back: Vec<El> = decrypt_rlwe(rlwe_ct, sk_rlwe.as_slice(), rlwe_nttop, rlwe_modop);
    let ghost bv = backend::vals(back@);
    rlwe_modop.elwise_sub_mut(back.as_mut_slice(), want.as_slice());
    proof {
        let q = rlwe_modop.q();
        rlwe_modop.lemma_q_positive();
        ring::lemma_reduced_canonical(poly::minus(bv, backend::vals(want@)), q);
        assert(backend::residues(sk_rlwe@, q) =~= ring::reduced(lwe::signed(sk_rlwe@), q));
    }
    try_convert_to_signed(back.as_slice(), rlwe_modop.modulus())
}

/// Takes two rows of a key in evaluation domain as an RLWE ciphertext and returns the difference
/// of what it decrypts to and `want`.
fn key_row_noise<
    El: Element,
    NttOp: Ntt<Element = El>,
    ModOp: VectorOps<Element = El> + GetModulus<Element = El>,
>(
    rows: &Vec<Vec<El>>,
    a: usize,
    b: usize,
    want: &Vec<El>,
    sk_rlwe: &Vec<i32>,
    rlwe_nttop: &NttOp,
    rlwe_modop: &ModOp,
) -> (r: Vec<i64>)
    requires
        rlwe_modop.wf(),
        rlwe_nttop.wf(),
        rlwe_modop.q() == rlwe_nttop.q(),
        sk_rlwe.len() == rlwe_nttop.n(),
        backend::within(sk_rlwe@, rlwe_modop.q()),
        a < rows.len(),
        b < rows.len(),
        backend::rows_canonical(backend::mat(rows@), rlwe_nttop.n(), rlwe_modop.q()),
        want.len() == rlwe_nttop.n(),
        ring::canonical(backend::vals(want@), rlwe_modop.q()),
    ensures
        utils::signed(r@) == noise(
            rgsw::rlwe_phase(
                seq![
                    rlwe_nttop.coeffs(backend::mat(rows@)[a as int]),
                    rlwe_nttop.coeffs(backend::mat(rows@)[b as int]),
                ],
                ring::reduced(lwe::signed(sk_rlwe@), rlwe_modop.q()),
                rlwe_modop.q(),
            ),
            backend::vals(want@),
            rlwe_modop.q(),
        ),
{
    let ghost m = backend::mat(rows@);
    proof {
        assert(m[a as int] == backend::vals(rows[a as int]@));
        assert(m[b as int] == backend::vals(rows[b as int]@));
        assert(m[a as int].len() == rows[a as int].len());
        assert(m[b as int].len() == rows[b as int].len());
        rlwe_nttop.lemma_canonical(m[a as int]);
        rlwe_nttop.lemma_canonical(m[b as int]);
    }
    // RGSW ciphertexts are in eval domain. We put RLWE ciphertexts back in
    // coefficient domain
    let mut part_a: Vec<El> = copied(rows[a].as_slice());
    let mut part_b: Vec<El> = copied(rows[b].as_slice());
    rlwe_nttop.backward(part_a.as_mut_slice());
    rlwe_nttop.backward(part_b.as_mut_slice());
    let rlwe_ct: Vec<Vec<El>> = rlwe_of(part_a, part_b);
    decryption_noise(&rlwe_ct, want, sk_rlwe, rlwe_nttop, rlwe_modop)
}

/// Measures the noise in the RGSW ciphertexts of the LWE secret elements.
fn collect_rgsw_noise<
    El: Element,
    M: Modulus<Element = El>,
    D: Decomposer<Element = El>,
    NttOp: Ntt<Element = El>,
    ModOp: VectorOps<Element = El> + GetModulus<Element = El>,
    S: CollectRuntimeServerKeyStats<Element = El>,
>(
    stats: &mut ServerKeyStats<i64>,
    parameters: &BoolParameters<M, D>,
    sk_rlwe: &Vec<i32>,
    sk_lwe: &Vec<i32>,
    server_key: &S,
    rlwe_nttop: &NttOp,
    rlwe_modop: &ModOp,
    Ghost(model): Ghost<NoiseModel<S, D, NttOp>>,
)
    requires
        model.ready(parameters.w as int),
        model.server_key == *server_key,
        model.ntt == *rlwe_nttop,
        model.rlwe_rgsw_decomposer == parameters.rlwe_rgsw_decomposer,
        model.br_q == parameters.br_q,
        model.sk_rlwe == lwe::signed(sk_rlwe@),
        model.sk_lwe == lwe::signed(sk_lwe@),
        parameters.rlwe_q.wf(),
        parameters.rlwe_q.q() == rlwe_modop.q(),
        parameters.rlwe_n == rlwe_nttop.n(),
        rlwe_nttop.wf(),
        rlwe_modop.wf(),
        rlwe_modop.q() == rlwe_nttop.q(),
    ensures
        utils::signed(final(stats).brk_rgsw_cts.0.samples@) == utils::signed(
            old(stats).brk_rgsw_cts.0.samples@,
        ) + model.nsm_noises(sk_lwe.len() as int),
        utils::signed(final(stats).brk_rgsw_cts.1.samples@) == utils::signed(
            old(stats).brk_rgsw_cts.1.samples@,
        ) + model.m_noises(sk_lwe.len() as int),
        final(stats).post_1_auto == old(stats).post_1_auto,
        final(stats).post_lwe_key_switch == old(stats).post_lwe_key_switch,
{
    let ghost q = rlwe_modop.q();
    let ghost n = rlwe_nttop.n();
    let ghost s = model.secret();
    let ghost stats0 = *stats;
    let ghost (nsm0, m0) = (
        utils::signed(stats.brk_rgsw_cts.0.samples@),
        utils::signed(stats.brk_rgsw_cts.1.samples@),
    );
    let rlwe_q: &M = &parameters.rlwe_q;
    let rlwe_n: usize = parameters.rlwe_n;
    let embedding_factor: usize = (2 * rlwe_n) / parameters.br_q;
    let da: usize = parameters.rlwe_rgsw_decomposer.0.decomposition_count();
    let db: usize = parameters.rlwe_rgsw_decomposer.1.decomposition_count();
    let gadget_a: Vec<El> = parameters.rlwe_rgsw_decomposer.0.gadget_vector();
    let gadget_b: Vec<El> = parameters.rlwe_rgsw_decomposer.1.gadget_vector();
    proof {
        model.rlwe_rgsw_decomposer.0.lemma_digits(0);
        model.rlwe_rgsw_decomposer.1.lemma_digits(0);
        assert(backend::vals(gadget_a@).len() == gadget_a.len());
        assert(backend::vals(gadget_b@).len() == gadget_b.len());
        lemma_within(sk_rlwe@, q);
        assert(backend::residues(sk_rlwe@, q) =~= s);
    }
    // -s(X)
    let mut neg_s_eval: Vec<El> = try_convert_from(sk_rlwe.as_slice(), rlwe_q);
    rlwe_modop.elwise_neg_mut(neg_s_eval.as_mut_slice());
    let ghost neg_s = ring::poly_neg(s, q);
    proof {
        assert forall|i: int| 0 <= i < neg_s.len() implies 0 <= #[trigger] neg_s[i] < q by {
            lemma_mod_bound(-s[i], q);
        }
        assert(backend::vals(neg_s_eval@).len() == neg_s_eval.len());
    }
    rlwe_nttop.forward(neg_s_eval.as_mut_slice());
    let count: usize = sk_lwe.len();
    assert(nsm0 + model.nsm_noises(0) =~= nsm0);
    assert(m0 + model.m_noises(0) =~= m0);
    for i in 0..count
        invariant
            model.ready(parameters.w as int),
            model.server_key == *server_key,
            model.ntt == *rlwe_nttop,
            model.rlwe_rgsw_decomposer == parameters.rlwe_rgsw_decomposer,
            model.br_q == parameters.br_q,
            model.sk_rlwe == lwe::signed(sk_rlwe@),
            model.sk_lwe == lwe::signed(sk_lwe@),
            rlwe_q.wf(),
            rlwe_q.q() == q,
            rlwe_n == n,
            n == rlwe_nttop.n(),
            q == rlwe_modop.q(),
            rlwe_nttop.wf(),
            rlwe_modop.wf(),
            rlwe_modop.q() == rlwe_nttop.q(),
            s == model.secret(),
            neg_s == ring::poly_neg(s, q),
            neg_s.len() == n,
            ring::canonical(neg_s, q),
            backend::vals(neg_s_eval@) == rlwe_nttop.evals(neg_s),
            sk_rlwe.len() == n,
            backend::within(sk_rlwe@, q),
            embedding_factor == model.embedding_factor(),
            count == sk_lwe.len(),
            da == model.rlwe_rgsw_decomposer.0.count(),
            db == model.rlwe_rgsw_decomposer.1.count(),
            gadget_a.len() == da,
            gadget_b.len() == db,
            backend::vals(gadget_a@) == model.rlwe_rgsw_decomposer.0.gadget(),
            backend::vals(gadget_b@) == model.rlwe_rgsw_decomposer.1.gadget(),
            ring::canonical(backend::vals(gadget_a@), q),
            ring::canonical(backend::vals(gadget_b@), q),
            stats.post_1_auto == stats0.post_1_auto,
            stats.post_lwe_key_switch == stats0.post_lwe_key_switch,
            utils::signed(stats.brk_rgsw_cts.0.samples@) == nsm0 + model.nsm_noises(i as int),
            utils::signed(stats.brk_rgsw_cts.1.samples@) == m0 + model.m_noises(i as int),
    {
        let ghost (nsm1, m1) = (nsm0 + model.nsm_noises(i as int), m0 + model.m_noises(i as int));
        proof {
            assert(model.sk_lwe[i as int] == sk_lwe[i as int]);
            assert(model.server_key.has_rgsw_ct(i as int));
        }
        let rgsw_ct_i: &Vec<Vec<El>> = server_key.rgsw_cts_lwe_si(i);
        let ghost rows = backend::mat(rgsw_ct_i@);
        assert(rows.len() == rgsw_ct_i.len());
        // X^{s[i]}
        let m_si: Vec<El> = encode_x_pow_si_with_emebedding_factor(
            sk_lwe[i],
            embedding_factor,
            rlwe_n,
            rlwe_q,
        );
        let ghost m = model.message(i as int);
        assert(backend::vals(m_si@) == m);
        // RLWE'(-sm)
        assert(nsm1 + model.nsm_row_noises(i as int, 0) =~= nsm1);
        for j in 0..da
            invariant
                model.ntt == *rlwe_nttop,
                model.server_key.rgsw_ct(i as int) == rows,
                rows == backend::mat(rgsw_ct_i@),
                rows.len() == rgsw_ct_i.len(),
                rows.len() >= 2 * da + 2 * db,
                backend::rows_canonical(rows, n, q),
                rlwe_n == n,
                n == rlwe_nttop.n(),
                q == rlwe_modop.q(),
                rlwe_nttop.wf(),
                rlwe_modop.wf(),
                rlwe_modop.q() == rlwe_nttop.q(),
                s == model.secret(),
                s == ring::reduced(lwe::signed(sk_rlwe@), q),
                neg_s == ring::poly_neg(s, q),
                neg_s.len() == n,
                ring::canonical(neg_s, q),
                backend::vals(neg_s_eval@) == rlwe_nttop.evals(neg_s),
                sk_rlwe.len() == n,
                backend::within(sk_rlwe@, q),
                m == model.message(i as int),
                backend::vals(m_si@) == m,
                m_si.len() == n,
                ring::canonical(m, q),
                da == model.rlwe_rgsw_decomposer.0.count(),
                gadget_a.len() == da,
                backend::vals(gadget_a@) == model.rlwe_rgsw_decomposer.0.gadget(),
                ring::canonical(backend::vals(gadget_a@), q),
                stats.post_1_auto == stats0.post_1_auto,
                stats.post_lwe_key_switch == stats0.post_lwe_key_switch,
                utils::signed(stats.brk_rgsw_cts.0.samples@) == nsm1 + model.nsm_row_noises(
                    i as int,
                    j as int,
                ),
                utils::signed(stats.brk_rgsw_cts.1.samples@) == m1,
        {
            // -s[X]*X^{s_lwe[i]}*B_j
            let mut m_ideal: Vec<El> = copied(m_si.as_slice());
            mul_by_evaluated(
                m_ideal.as_mut_slice(),
                neg_s_eval.as_slice(),
                rlwe_modop,
                rlwe_nttop,
                Ghost(neg_s),
            );
            assert(backend::vals(gadget_a@)[j as int] == gadget_a[j as int].val());
            rlwe_modop.elwise_scalar_mul_mut(m_ideal.as_mut_slice(), &gadget_a[j]);
            proof {
                rlwe_modop.lemma_q_positive();
                ring::lemma_reduced_canonical(
                    poly::scaled(gadget_a[j as int].val(), ring::nega_mul(m, neg_s, q)),
                    q,
                );
                assert(backend::vals(m_ideal@).len() == m_ideal.len());
            }
            // RLWE(-s*X^{s_lwe[i]}*B_j)
            let noise: Vec<i64> = key_row_noise(
                rgsw_ct_i,
                j,
                j + da,
                &m_ideal,
                sk_rlwe,
                rlwe_nttop,
                rlwe_modop,
            );
            proof {
                lemma_signed_append(stats.brk_rgsw_cts.0.samples@, noise@);
                assert(utils::signed(noise@) == model.nsm_noise(i as int, j as int));
                assert(nsm1 + model.nsm_row_noises(i as int, j + 1) =~= nsm1
                    + model.nsm_row_noises(i as int, j as int) + model.nsm_noise(
                    i as int,
                    j as int,
                ));
            }
            stats.add_noise_brk_rgsw_cts_nsm(noise.as_slice());
        }
        // RLWE'(m)
        let ghost nsm2 = nsm1 + model.nsm_row_noises(i as int, da as int);
        assert(m1 + model.m_row_noises(i as int, 0) =~= m1);
        for j in 0..db
            invariant
                model.ntt == *rlwe_nttop,
                model.server_key.rgsw_ct(i as int) == rows,
                rows == backend::mat(rgsw_ct_i@),
                rows.len() == rgsw_ct_i.len(),
                rows.len() >= 2 * da + 2 * db,
                backend::rows_canonical(rows, n, q),
                n == rlwe_nttop.n(),
                q == rlwe_modop.q(),
                rlwe_nttop.wf(),
                rlwe_modop.wf(),
                rlwe_modop.q() == rlwe_nttop.q(),
                s == model.secret(),
                s == ring::reduced(lwe::signed(sk_rlwe@), q),
                sk_rlwe.len() == n,
                backend::within(sk_rlwe@, q),
                m == model.message(i as int),
                backend::vals(m_si@) == m,
                m_si.len() == n,
                ring::canonical(m, q),
                da == model.rlwe_rgsw_decomposer.0.count(),
                db == model.rlwe_rgsw_decomposer.1.count(),
                gadget_b.len() == db,
                backend::vals(gadget_b@) == model.rlwe_rgsw_decomposer.1.gadget(),
                ring::canonical(backend::vals(gadget_b@), q),
                stats.post_1_auto == stats0.post_1_auto,
                stats.post_lwe_key_switch == stats0.post_lwe_key_switch,
                utils::signed(stats.brk_rgsw_cts.0.samples@) == nsm2,
                utils::signed(stats.brk_rgsw_cts.1.samples@) == m1 + model.m_row_noises(
                    i as int,
                    j as int,
                ),
        {
            // X^{s_lwe[i]}*B_j
            let mut m_ideal: Vec<El> = copied(m_si.as_slice());
            assert(backend::vals(gadget_b@)[j as int] == gadget_b[j as int].val());
            rlwe_modop.elwise_scalar_mul_mut(m_ideal.as_mut_slice(), &gadget_b[j]);
            proof {
                rlwe_modop.lemma_q_positive();
                ring::lemma_reduced_canonical(poly::scaled(gadget_b[j as int].val(), m), q);
                assert(backend::vals(m_ideal@).len() == m_ideal.len());
            }
            // RLWE(X^{s_lwe[i]}*B_j)
            let noise: Vec<i64> = key_row_noise(
                rgsw_ct_i,
                j + 2 * da,
                j + 2 * da + db,
                &m_ideal,
                sk_rlwe,
                rlwe_nttop,
                rlwe_modop,
            );
            proof {
                lemma_signed_append(stats.brk_rgsw_cts.1.samples@, noise@);
                assert(utils::signed(noise@) == model.m_noise(i as int, j as int));
                assert(m1 + model.m_row_noises(i as int, j + 1) =~= m1 + model.m_row_noises(
                    i as int,
                    j as int,
                ) + model.m_noise(i as int, j as int));
            }
            stats.add_noise_brk_rgsw_cts_m(noise.as_slice());
        }
        assert(nsm2 =~= nsm0 + model.nsm_noises(i + 1));
        assert(m1 + model.m_row_noises(i as int, db as int) =~= m0 + model.m_noises(i + 1));
    }
}

proof fn lemma_within(s: Seq<i32>, q: int)
    requires
        forall|i: int| 0 <= i < s.len() ==> -q < #[trigger] lwe::signed(s)[i] < q,
    ensures
        backend::within(s, q),
{
    assert forall|i: int| 0 <= i < s.len() implies -q < #[trigger] s[i] < q by {
        assert(lwe::signed(s)[i] == s[i]);
    }
}

/// Measures the noise in ciphertexts after one automorphism. For each auto key g^k, a random
/// polynomial m(X) is multiplied with -s(X^{g^k}) using the key.
fn collect_auto_noise<
    El: Element,
    M: Modulus<Element = El>,
    D: Decomposer<Element = El>,
    NttOp: Ntt<Element = El>,
    ModOp: VectorOps<Element = El> + ArithmeticOps<Element = El> + GetModulus<Element = El>,
    S: CollectRuntimeServerKeyStats<Element = El>,
    Rng: RandomFillUniformInModulus<M>,
>(
    stats: &mut ServerKeyStats<i64>,
    parameters: &BoolParameters<M, D>,
    sk_rlwe: &Vec<i32>,
    server_key: &S,
    rlwe_nttop: &NttOp,
    rlwe_modop: &ModOp,
    rng: &mut Rng,
    Ghost(model): Ghost<NoiseModel<S, D, NttOp>>,
)
    requires
        model.ready(parameters.w as int),
        model.server_key == *server_key,
        model.ntt == *rlwe_nttop,
        model.auto_decomposer == parameters.auto_decomposer,
        model.br_q == parameters.br_q,
        model.g == parameters.g,
        model.sk_rlwe == lwe::signed(sk_rlwe@),
        parameters.rlwe_q.wf(),
        parameters.rlwe_q.q() == rlwe_modop.q(),
        parameters.rlwe_n == rlwe_nttop.n(),
        rlwe_nttop.wf(),
        rlwe_modop.wf(),
        rlwe_modop.q() == rlwe_nttop.q(),
    ensures
        utils::signed(final(stats).post_1_auto.samples@) == utils::signed(
            old(stats).post_1_auto.samples@,
        ) + model.auto_noises::<M, Rng>(*old(rng), parameters.w + 1),
        final(stats).brk_rgsw_cts == old(stats).brk_rgsw_cts,
        final(stats).post_lwe_key_switch == old(stats).post_lwe_key_switch,
        *final(rng) == random::after_uniforms::<M, Rng>(
            *old(rng),
            rlwe_modop.q(),
            rlwe_nttop.n(),
            (parameters.w + 1) as nat,
        ),
{
    let ghost q = rlwe_modop.q();
    let ghost n = rlwe_nttop.n();
    let ghost s = model.secret();
    let ghost stats0 = *stats;
    let ghost rng0 = *rng;
    let ghost base = utils::signed(stats.post_1_auto.samples@);
    let rlwe_q: &M = &parameters.rlwe_q;
    let rlwe_n: usize = parameters.rlwe_n;
    let g: usize = parameters.g;
    let br_q: usize = parameters.br_q;
    proof {
        lemma_within(sk_rlwe@, q);
        assert(backend::residues(sk_rlwe@, q) =~= s);
        rlwe_modop.lemma_q_positive();
        rlwe_nttop.lemma_positive();
    }
    let mut neg_s: Vec<El> = try_convert_from(sk_rlwe.as_slice(), rlwe_q);
    rlwe_modop.elwise_neg_mut(neg_s.as_mut_slice());
    let ghost neg = ring::poly_neg(s, q);
    proof {
        assert forall|i: int| 0 <= i < neg.len() implies 0 <= #[trigger] neg[i] < q by {
            lemma_mod_bound(-s[i], q);
        }
        assert(backend::vals(neg_s@).len() == neg_s.len());
    }
    let g_dlogs: Vec<usize> = parameters.auto_element_dlogs();
    let count: usize = g_dlogs.len();
    assert(base + model.auto_noises::<M, Rng>(rng0, 0) =~= base);
    for t in 0..count
        invariant
            model.ready(parameters.w as int),
            model.server_key == *server_key,
            model.ntt == *rlwe_nttop,
            model.auto_decomposer == parameters.auto_decomposer,
            model.br_q == br_q,
            model.g == g,
            rlwe_q.wf(),
            rlwe_q.q() == q,
            rlwe_n == n,
            n > 0,
            q > 0,
            n == rlwe_nttop.n(),
            q == rlwe_modop.q(),
            rlwe_nttop.wf(),
            rlwe_modop.wf(),
            rlwe_modop.q() == rlwe_nttop.q(),
            s == model.secret(),
            s == ring::reduced(lwe::signed(sk_rlwe@), q),
            neg == ring::poly_neg(s, q),
            neg.len() == n,
            neg_s.len() == n,
            backend::vals(neg_s@) == neg,
            ring::canonical(neg, q),
            sk_rlwe.len() == n,
            backend::within(sk_rlwe@, q),
            count == g_dlogs.len(),
            count == parameters.w + 1,
            forall|i: int| 0 <= i <= parameters.w ==> #[trigger] g_dlogs[i] == i,
            stats.brk_rgsw_cts == stats0.brk_rgsw_cts,
            stats.post_lwe_key_switch == stats0.post_lwe_key_switch,
            *rng == random::after_uniforms::<M, Rng>(rng0, q, n, t as nat),
            utils::signed(stats.post_1_auto.samples@) == base + model.auto_noises::<M, Rng>(
                rng0,
                t as int,
            ),
    {
        let k: usize = g_dlogs[t];
        assert(model.server_key.has_galois_key(k as int));
        let g_pow_k: isize = auto_element(g, br_q, k);
        // Send s(X) -> s(X^{g^k})
        let (auto_index_map, auto_sign_map): (Vec<usize>, Vec<bool>) = generate_auto_map(
            rlwe_n,
            g_pow_k,
        );
        let mut neg_s_g_k: Vec<El> = apply_auto(
            neg_s.as_slice(),
            &auto_index_map,
            &auto_sign_map,
            rlwe_modop,
        );
        let ghost neg_k = backend::vals(neg_s_g_k@);
        let mut m: Vec<El> = zeros(rlwe_n);
        RandomFillUniformInModulus::random_fill(rng, rlwe_q, m.as_mut_slice());
        let ghost mv = backend::vals(m@);
        // We want -m(X^{g^k})s(X^{g^k}) after key switch
        let mut want_m: Vec<El> = apply_auto(
            m.as_slice(),
            &auto_index_map,
            &auto_sign_map,
            rlwe_modop,
        );
        rlwe_nttop.forward(neg_s_g_k.as_mut_slice());
        mul_by_evaluated(
            want_m.as_mut_slice(),
            neg_s_g_k.as_slice(),
            rlwe_modop,
            rlwe_nttop,
            Ghost(neg_k),
        );
        // RLWE auto sends part A, A(X), of RLWE to A(X^{g^k}) and then multiplies it
        // with -s(X^{g^k}) using auto key. Deliberately set RLWE = (0, m(X))
        // (ie. m in part A) to get back RLWE(-m(X^{g^k})s(X^{g^k}))
        let mut rlwe: Vec<Vec<El>> = rlwe_of(m, zeros(rlwe_n));
        let key: &Vec<Vec<El>> = server_key.galois_key_for_auto(k);
        assert(backend::mat(key@).len() == key.len());
        assert(ring::canonical(poly::zeros(n), q));
        rlwe_auto(
            &mut rlwe,
            key,
            &auto_index_map,
            &auto_sign_map,
            rlwe_modop,
            rlwe_nttop,
            &parameters.auto_decomposer,
            false,
        );
        // check difference
        let noise: Vec<i64> = decryption_noise(&rlwe, &want_m, sk_rlwe, rlwe_nttop, rlwe_modop);
        proof {
            lemma_signed_append(stats.post_1_auto.samples@, noise@);
            assert(mv == random::uniform_fill::<M, Rng>(rng0, q, n, t as nat));
            assert(utils::signed(noise@) == model.auto_noise(t as int, mv));
            assert(base + model.auto_noises::<M, Rng>(rng0, t + 1) =~= base
                + model.auto_noises::<M, Rng>(rng0, t as int) + model.auto_noise(t as int, mv));
        }
        stats.add_noise_post_1_auto(noise.as_slice());
    }
}

/// Measures the noise that the LWE key switch adds, on ten random ciphertexts.
///
/// LWE key switches LWE_in = LWE_{Q_ks,N, s}(m) = (b, a_0, ... a_N) -> LWE_out =
/// LWE_{Q_{ks}, n, z}(m) = (b', a'_0, ..., a'n)
/// If LWE_in = (0, a = {a_0, ..., a_N}), then LWE_out = LWE(-a \cdot s_{rlwe})
fn collect_key_switch_noise<
    El: Element,
    M: Modulus<Element = El>,
    D: Decomposer<Element = El>,
    NttOp: Ntt<Element = El>,
    ModOp: VectorOps<Element = El> + ArithmeticOps<Element = El> + GetModulus<Element = El>,
    S: CollectRuntimeServerKeyStats<Element = El>,
    Rng: RandomFillUniformInModulus<M>,
>(
    stats: &mut ServerKeyStats<i64>,
    parameters: &BoolParameters<M, D>,
    sk_rlwe: &Vec<i32>,
    sk_lwe: &Vec<i32>,
    server_key: &S,
    lwe_modop: &ModOp,
    rng: &mut Rng,
    Ghost(model): Ghost<NoiseModel<S, D, NttOp>>,
)
    requires
        model.ready(parameters.w as int),
        model.server_key == *server_key,
        model.lwe_decomposer == parameters.lwe_decomposer,
        model.lwe_q == parameters.lwe_q.q(),
        model.sk_rlwe == lwe::signed(sk_rlwe@),
        model.sk_lwe == lwe::signed(sk_lwe@),
        parameters.lwe_q.wf(),
        parameters.lwe_q.q() == lwe_modop.q(),
        parameters.lwe_n == sk_lwe.len(),
        parameters.rlwe_n == model.ntt.n(),
        lwe_modop.wf(),
    ensures
        utils::signed(final(stats).post_lwe_key_switch.samples@) == utils::signed(
            old(stats).post_lwe_key_switch.samples@,
        ) + model.key_switch_noises::<M, Rng>(*old(rng), 10),
        final(stats).brk_rgsw_cts == old(stats).brk_rgsw_cts,
        final(stats).post_1_auto == old(stats).post_1_auto,
        *final(rng) == random::after_uniforms::<M, Rng>(
            *old(rng),
            lwe_modop.q(),
            model.ntt.n(),
            10,
        ),
{
    let ghost q = lwe_modop.q();
    let ghost n = model.ntt.n();
    let ghost stats0 = *stats;
    let ghost rng0 = *rng;
    let ghost base = utils::signed(stats.post_lwe_key_switch.samples@);
    let lwe_q: &M = &parameters.lwe_q;
    let rlwe_n: usize = parameters.rlwe_n;
    let lwe_n: usize = parameters.lwe_n;
    proof {
        lemma_within(sk_rlwe@, q);
        lemma_within(sk_lwe@, q);
        lwe_modop.lemma_q_positive();
        assert(lwe::signed(sk_rlwe@).len() == sk_rlwe.len());
        assert(lwe::signed(sk_lwe@).len() == sk_lwe.len());
    }
    assert(base + model.key_switch_noises::<M, Rng>(rng0, 0) =~= base);
    for t in 0..10usize
        invariant
            model.ready(parameters.w as int),
            model.server_key == *server_key,
            model.lwe_decomposer == parameters.lwe_decomposer,
            model.lwe_q == q,
            model.sk_rlwe == lwe::signed(sk_rlwe@),
            model.sk_lwe == lwe::signed(sk_lwe@),
            lwe_q.wf(),
            lwe_q.q() == q,
            q > 0,
            q == lwe_modop.q(),
            lwe_modop.wf(),
            n == model.ntt.n(),
            rlwe_n == n,
            rlwe_n < usize::MAX,
            lwe_n < usize::MAX,
            lwe_n == sk_lwe.len(),
            lwe_n == model.sk_lwe.len(),
            sk_rlwe.len() == n,
            backend::within(sk_rlwe@, q),
            backend::within(sk_lwe@, q),
            stats.brk_rgsw_cts == stats0.brk_rgsw_cts,
            stats.post_1_auto == stats0.post_1_auto,
            *rng == random::after_uniforms::<M, Rng>(rng0, q, n, t as nat),
            utils::signed(stats.post_lwe_key_switch.samples@) == base + model.key_switch_noises::<
                M,
                Rng,
            >(rng0, t as int),
    {
        let mut mask: Vec<El> = zeros(rlwe_n);
        RandomFillUniformInModulus::random_fill(rng, lwe_q, mask.as_mut_slice());
        let ghost a = backend::vals(mask@);
        let mut lwe_in: Vec<El> = Vec::new();
        lwe_in.push(El::zero());
        for i in 0..rlwe_n
            invariant
                rlwe_n == mask.len(),
                lwe_in.len() == i + 1,
                lwe_in[0].val() == 0,
                forall|j: int| 0 <= j < i ==> #[trigger] lwe_in[j + 1] == mask[j],
        {
            let ghost before = lwe_in@;
            lwe_in.push(mask[i]);
            assert forall|j: int| 0 <= j < i + 1 implies #[trigger] lwe_in[j + 1] == mask[j] by {
                if j < i {
                    assert(lwe_in[j + 1] == before[j + 1]);
                }
            }
        }
        let ghost ct = backend::vals(lwe_in@);
        proof {
            let c = seq![0int] + a;
            assert(ct.len() == c.len());
            assert forall|j: int| 0 <= j < c.len() implies #[trigger] ct[j] == c[j] by {
                if j > 0 {
                    assert(lwe_in[(j - 1) + 1] == mask[j - 1]);
                }
            }
            assert(ct =~= c);
            assert forall|i: int| 0 <= i < lwe_in.len() implies 0 <= (#[trigger] lwe_in[i]).val()
                <= q by {
                assert(ct[i] == lwe_in[i].val());
                if i > 0 {
                    assert(c[i] == a[i - 1]);
                }
            }
        }
        // Key switch
        let mut lwe_out: Vec<El> = zeros(lwe_n + 1);
        let ksk: &Vec<Vec<El>> = server_key.lwe_ksk();
        assert(backend::mat(ksk@).len() == ksk.len());
        assert(ring::canonical(poly::zeros(lwe_n as nat + 1), q));
        lwe_key_switch(
            lwe_out.as_mut_slice(),
            lwe_in.as_slice(),
            ksk,
            lwe_modop,
            &parameters.lwe_decomposer,
        );
        // -a \cdot s
        let want_m: El = negated_product(&mask, sk_rlwe, lwe_q, lwe_modop);
        // decrypt lwe out
        let back_m: El = decrypt_lwe(lwe_out.as_slice(), sk_lwe.as_slice(), lwe_modop);
        proof {
            lemma_mod_bound(-lwe::dot(a, model.sk_rlwe, n as int), q);
            let out = backend::vals(lwe_out@);
            lemma_mod_bound(out[0] - lwe::dot(lwe::lwe_mask(out), model.sk_lwe, lwe_n as int), q);
            lemma_mod_bound(want_m.val() - back_m.val(), q);
        }
        let noise: El = lwe_modop.sub(&want_m, &back_m);
        let mut sample: Vec<i64> = Vec::new();
        sample.push(lwe_q.map_element_to_i64(&noise));
        proof {
            lemma_signed_append(stats.post_lwe_key_switch.samples@, sample@);
            assert(a == random::uniform_fill::<M, Rng>(rng0, q, n, t as nat));
            assert(utils::signed(sample@) =~= seq![model.key_switch_noise(a)]);
            assert(base + model.key_switch_noises::<M, Rng>(rng0, t + 1) =~= base
                + model.key_switch_noises::<M, Rng>(rng0, t as int) + seq![
                model.key_switch_noise(a),
            ]);
        }
        stats.add_noise_post_kwe_key_switch(sample.as_slice());
    }
}

/// `-<a, s>` modulo the modulus of `lwe_modop`.
fn negated_product<
    El: Element,
    M: Modulus<Element = El>,
    ModOp: ArithmeticOps<Element = El>,
>(a: &Vec<El>, s: &Vec<i32>, lwe_q: &M, lwe_modop: &ModOp) -> (r: El)
    requires
        lwe_modop.wf(),
        lwe_q.wf(),
        lwe_q.q() == lwe_modop.q(),
        a.len() == s.len(),
        ring::canonical(backend::vals(a@), lwe_modop.q()),
        backend::within(s@, lwe_modop.q()),
    ensures
        r.val() == (-lwe::dot(backend::vals(a@), lwe::signed(s@), s.len() as int)) % lwe_modop.q(),
{
    let n: usize = s.len();
    let ghost q = lwe_modop.q();
    let ghost av = backend::vals(a@);
    let ghost sv = lwe::signed(s@);
    proof {
        lwe_modop.lemma_q_positive();
        lemma_small_mod(0, q as nat);
    }
    let mut sum: El = El::zero();
    for i in 0..n
        invariant
            lwe_modop.wf(),
            lwe_q.wf(),
            lwe_q.q() == q,
            q == lwe_modop.q(),
            q > 0,
            n == s.len(),
            n == a.len(),
            av == backend::vals(a@),
            sv == lwe::signed(s@),
            ring::canonical(av, q),
            backend::within(s@, q),
            sum.val() == lwe::dot(av, sv, i as int) % q,
    {
        let si: El = lwe_q.map_element_from_i64(s[i] as i64);
        proof {
            let (x, y, d) = (sv[i as int], av[i as int], lwe::dot(av, sv, i as int));
            assert(y == a[i as int].val());
            lemma_mod_bound(x, q);
            lemma_mod_bound(d, q);
            lemma_mul_mod_noop_right(y, x, q);
            lemma_mod_bound(y * (x % q), q);
            lemma_add_mod_noop(d, y * x, q);
        }
        let t: El = lwe_modop.mul(&a[i], &si);
        sum = lwe_modop.add(&sum, &t);
    }
    proof {
        let d = lwe::dot(av, sv, n as int);
        lemma_mod_bound(d, q);
        lemma_sub_mod_noop_right(0, d, q);
    }
    lwe_modop.neg(&sum)
}

/// Measures the noise in the keys of a server with the given operators.
pub fn collect_server_key_stats_with<
    El: Element,
    M: Modulus<Element = El>,
    D: Decomposer<Element = El>,
    NttOp: Ntt<Element = El>,
    ModOp: VectorOps<Element = El> + ArithmeticOps<Element = El> + GetModulus<Element = El>,
    S: CollectRuntimeServerKeyStats<Element = El>,
    Rng: RandomFillUniformInModulus<M>,
>(
    parameters: &BoolParameters<M, D>,
    client_keys: &[ClientKey],
    server_key: &S,
    rlwe_modop: &ModOp,
    rlwe_nttop: &NttOp,
    lwe_modop: &ModOp,
    rng: &mut Rng,
) -> (r: ServerKeyStats<i64>)
    requires
        server_key_fits(*parameters, client_keys@, *server_key),
        rlwe_modop.wf(),
        rlwe_modop.q() == parameters.rlwe_q.q(),
        rlwe_nttop.wf(),
        rlwe_nttop.q() == parameters.rlwe_q.q(),
        rlwe_nttop.n() == parameters.rlwe_n,
        lwe_modop.wf(),
        lwe_modop.q() == parameters.lwe_q.q(),
    ensures
        collected(
            r,
            *parameters,
            client_keys@,
            *server_key,
            *rlwe_nttop,
            *old(rng),
            *final(rng),
        ),
{
    proof {
        assert(rlwe_secrets(client_keys@)[0].len() == parameters.rlwe_n);
        assert(lwe_secrets(client_keys@)[0].len() == parameters.lwe_n);
        assert(rlwe_secrets(client_keys@)[0] == lwe::signed(client_keys[0].sk_rlwe@));
        assert(lwe_secrets(client_keys@)[0] == lwe::signed(client_keys[0].sk_lwe@));
    }
    let ghost model = noise_model(*parameters, client_keys@, *server_key, *rlwe_nttop);
    let sk_rlwe: Vec<i32> = ideal_sk_rlwe(client_keys);
    let sk_lwe: Vec<i32> = ideal_sk_lwe(client_keys);
    let mut server_key_stats: ServerKeyStats<i64> = ServerKeyStats::new();
    collect_rgsw_noise(
        &mut server_key_stats,
        parameters,
        &sk_rlwe,
        &sk_lwe,
        server_key,
        rlwe_nttop,
        rlwe_modop,
        Ghost(model),
    );
    collect_auto_noise(
        &mut server_key_stats,
        parameters,
        &sk_rlwe,
        server_key,
        rlwe_nttop,
        rlwe_modop,
        rng,
        Ghost(model),
    );
    collect_key_switch_noise::<El, M, D, NttOp, ModOp, S, Rng>(
        &mut server_key_stats,
        parameters,
        &sk_rlwe,
        &sk_lwe,
        server_key,
        lwe_modop,
        rng,
        Ghost(model),
    );
    proof {
        let e = utils::signed(Seq::<i64>::empty());
        assert(e =~= Seq::<int>::empty());
        assert(e + model.nsm_noises(parameters.lwe_n as int) =~= model.nsm_noises(
            parameters.lwe_n as int,
        ));
        assert(e + model.m_noises(parameters.lwe_n as int) =~= model.m_noises(
            parameters.lwe_n as int,
        ));
    }
    server_key_stats
}

/// Measures the noise in the keys of a server.
pub fn collect_server_key_stats<
    El: Element,
    M: Modulus<Element = El> + Copy,
    D: Decomposer<Element = El>,
    NttOp: NttInit<M> + Ntt<Element = El>,
    ModOp: VectorOps<Element = El> + ArithmeticOps<Element = El> + ModInit<M = M> + GetModulus<
        M = M,
        Element = El,
    >,
    S: CollectRuntimeServerKeyStats<Element = El>,
    Rng: RandomFillUniformInModulus<M>,
>(
    parameters: BoolParameters<M, D>,
    client_keys: &[ClientKey],
    server_key: &S,
    rng: &mut Rng,
) -> (r: ServerKeyStats<i64>)
    requires
        server_key_fits(parameters, client_keys@, *server_key),
        NttOp::supports(parameters.rlwe_q.q(), parameters.rlwe_n as nat),
    ensures
        exists|ntt: NttOp|
            is_transform_for::<M, NttOp>(ntt, parameters.rlwe_q.q(), parameters.rlwe_n as nat)
                && #[trigger] collected(
                r,
                parameters,
                client_keys@,
                *server_key,
                ntt,
                *old(rng),
                *final(rng),
            ),
{
    let rlwe_modop: ModOp = ModOp::new(parameters.rlwe_q);
    let rlwe_nttop: NttOp = NttOp::new(&parameters.rlwe_q, parameters.rlwe_n);
    let lwe_modop: ModOp = ModOp::new(parameters.lwe_q);
    collect_server_key_stats_with(
        &parameters,
        client_keys,
        server_key,
        &rlwe_modop,
        &rlwe_nttop,
        &lwe_modop,
        rng,
    )
}

/// The noise of what was encrypted plus an error is the error, as numbers closest to zero.
pub proof fn lemma_noise(want: Seq<int>, e: Seq<int>, q: int)
    requires
        q > 0,
        want.len() == e.len(),
        ring::canonical(e, q),
    ensures
        noise(ring::poly_add(want, e, q), want, q) == utils::centered_row(e, q),
{
    let r = ring::poly_sub(ring::poly_add(want, e, q), want, q);
    assert forall|i: int| 0 <= i < e.len() implies #[trigger] r[i] == e[i] by {
        lemma_sub_mod_noop((want[i] + e[i]) % q, want[i], q);
        lemma_sub_mod_noop(want[i] + e[i], want[i], q);
        lemma_mod_twice(want[i] + e[i], q);
        lemma_small_mod(e[i] as nat, q as nat);
    }
    assert(r =~= e);
}

/// The samples of an RGSW ciphertext are the errors with which it encrypts the power of `X` of
/// the secret element.
pub proof fn lemma_rgsw_samples<S: CollectRuntimeServerKeyStats, D: Decomposer, N: Ntt>(
    model: NoiseModel<S, D, N>,
    i: int,
    j: int,
    errors: (Seq<Seq<int>>, Seq<Seq<int>>),
)
    requires
        model.ntt.q() > 0,
        model.sk_rlwe.len() == model.ntt.n(),
        decryption::rgsw_encrypts(
            model.server_key.rgsw_ct(i),
            model.message(i),
            errors,
            model.secret(),
            model.rlwe_rgsw_decomposer,
            model.ntt,
        ),
    ensures
        0 <= j < model.rlwe_rgsw_decomposer.0.count() && ring::canonical(
            errors.0[j],
            model.ntt.q(),
        ) ==> model.nsm_noise(i, j) == utils::centered_row(errors.0[j], model.ntt.q()),
        0 <= j < model.rlwe_rgsw_decomposer.1.count() && ring::canonical(
            errors.1[j],
            model.ntt.q(),
        ) ==> model.m_noise(i, j) == utils::centered_row(errors.1[j], model.ntt.q()),
{
    let q = model.ntt.q();
    let (s, m) = (model.secret(), model.message(i));
    let (d0, d1) = model.rlwe_rgsw_decomposer;
    let rows = model.server_key.rgsw_ct(i);
    let da = d0.count() as int;
    if 0 <= j < da && ring::canonical(errors.0[j], q) {
        let e = errors.0[j];
        ring::lemma_nega_mul_neg(m, s, q);
        ring::lemma_nega_mul_commutative(m, s, q);
        let want = ring::poly_scale(
            d0.gadget()[j],
            ring::nega_mul(m, ring::poly_neg(s, q), q),
            q,
        );
        assert(rows[0 + j] == rows[j] && rows[da + j] == rows[j + da]);
        lemma_noise(want, e, q);
    }
    if 0 <= j < d1.count() && ring::canonical(errors.1[j], q) {
        let e = errors.1[j];
        let want = ring::poly_scale(d1.gadget()[j], m, q);
        assert(rows[2 * da + j] == rows[j + 2 * da]);
        assert(rows[2 * da + d1.count() + j] == rows[j + 2 * da + d1.count()]);
        lemma_noise(want, e, q);
    }
}

/// The samples of an automorphism are the digits of the image of the drawn polynomial times the
/// errors of the key.
pub proof fn lemma_auto_samples<S: CollectRuntimeServerKeyStats, D: Decomposer, N: Ntt>(
    model: NoiseModel<S, D, N>,
    k: int,
    inv: int,
    m: Seq<int>,
    errors: Seq<Seq<int>>,
)
    requires
        model.ntt.q() > 0,
        0 < model.ntt.n() <= usize::MAX,
        model.sk_rlwe.len() == model.ntt.n(),
        m.len() == model.ntt.n(),
        ring::canonical(m, model.ntt.q()),
        model.auto_decomposer.q() == model.ntt.q(),
        decryption::recomposes(model.auto_decomposer),
        automorphism::is_inverse(model.auto_exponent(k), inv, model.ntt.n()),
        decryption::auto_key_encrypts(
            model.server_key.galois_key(k),
            inv,
            errors,
            model.secret(),
            model.auto_decomposer,
            model.ntt,
        ),
    ensures
        model.auto_noise(k, m) == utils::centered_row(
            decryption::digit_errors(
                model.auto_decomposer,
                automorphism::substituted(m, inv, model.ntt.q()),
                errors,
                model.auto_decomposer.count() as int,
            ),
            model.ntt.q(),
        ),
{
    let q = model.ntt.q();
    let n = model.ntt.n();
    let u = model.auto_exponent(k);
    let s = model.secret();
    let z = poly::zeros(n);
    let ct = seq![m, z];
    let neg = ring::poly_neg(s, q);
    ring::lemma_reduced_canonical(model.sk_rlwe, q);
    assert(ring::canonical(z, q));
    assert forall|i: int| 0 <= i < n implies 0 <= #[trigger] neg[i] < q by {
        lemma_mod_bound(-s[i], q);
    }
    decryption::lemma_auto_switched(
        ct,
        model.server_key.galois_key(k),
        u,
        inv,
        errors,
        s,
        model.auto_decomposer,
        model.ntt,
        false,
    );
    automorphism::lemma_auto_image(m, u, inv, q);
    automorphism::lemma_auto_image(neg, u, inv, q);
    automorphism::lemma_auto_product(m, neg, u, inv, q);
    // 0 - s * m = m * (-s)
    let sm = ring::nega_mul(s, m, q);
    ring::lemma_nega_mul_neg(m, s, q);
    ring::lemma_nega_mul_commutative(m, s, q);
    assert(ring::poly_sub(z, sm, q) =~= ring::poly_neg(sm, q));
    let want = automorphism::substituted(ring::poly_neg(sm, q), inv, q);
    let e = decryption::auto_noise(ct, inv, errors, model.auto_decomposer, false);
    lemma_noise(want, e, q);
}

/// The sample of a key switch is minus the noise that the key switch adds.
pub proof fn lemma_key_switch_sample<S: CollectRuntimeServerKeyStats, D: Decomposer, N: Ntt>(
    model: NoiseModel<S, D, N>,
    a: Seq<int>,
    errors: Seq<int>,
)
    requires
        model.lwe_q > 0,
        model.lwe_decomposer.q() == model.lwe_q,
        a.len() == model.sk_rlwe.len(),
        ring::canonical(a, model.lwe_q),
        decryption::recomposes(model.lwe_decomposer),
        decryption::ksk_encrypts(
            model.server_key.lwe_ksk_rows(),
            model.sk_rlwe,
            errors,
            model.sk_lwe,
            model.lwe_decomposer,
        ),
    ensures
        model.key_switch_noise(a) == backend::centered(
            (-decryption::key_switch_error(
                a,
                errors,
                model.lwe_decomposer,
                model.sk_rlwe.len() as int,
            )) % model.lwe_q,
            model.lwe_q,
        ),
{
    let q = model.lwe_q;
    let n = model.sk_rlwe.len() as int;
    let m = model.sk_lwe.len();
    let ct = seq![0int] + a;
    let out = poly::zeros(m + 1);
    assert(lwe::lwe_mask(ct) =~= a);
    assert(lwe::lwe_mask(out) =~= poly::zeros(m));
    lemma_zero_mask(model.sk_lwe, m as int);
    lemma_small_mod(0, q as nat);
    assert forall|i: int| 0 <= i < ct.len() implies 0 <= #[trigger] ct[i] <= q by {
        if i > 0 {
            assert(ct[i] == a[i - 1]);
        }
    }
    decryption::lemma_key_switch(
        out,
        ct,
        model.server_key.lwe_ksk_rows(),
        model.sk_rlwe,
        errors,
        model.sk_lwe,
        model.lwe_decomposer,
    );
    let d = lwe::dot(a, model.sk_rlwe, n);
    let e = decryption::key_switch_error(a, errors, model.lwe_decomposer, n);
    let back = (lwe::lwe_phase(ct, model.sk_rlwe, q) + e) % q;
    // (-d) - ((-d) + e) = -e
    lemma_add_mod_noop_right(e, -d, q);
    lemma_sub_mod_noop(-d, -d + e, q);
}

/// The inner product with zeros is zero.
pub proof fn lemma_zero_mask(s: Seq<int>, j: int)
    requires
        j <= s.len(),
    ensures
        lwe::dot(poly::zeros(s.len()), s, j) == 0,
    decreases j,
{
    if j > 0 {
        lemma_zero_mask(s, j - 1);
        let x = s[j - 1];
        assert(0 * x == 0) by (nonlinear_arith);
    }
}

/// The image of a negated polynomial is the negated image.
proof fn lemma_negated_image(p: Seq<int>, inv: int, q: int)
    requires
        q > 0,
        p.len() > 0,
    ensures
        automorphism::substituted(ring::poly_neg(p, q), inv, q) == ring::poly_neg(
            automorphism::substituted(p, inv, q),
            q,
        ),
{
    let z = poly::zeros(p.len());
    automorphism::lemma_auto_sum(z, p, inv, q);
    assert(ring::poly_sub(z, p, q) =~= ring::poly_neg(p, q));
    let zi = automorphism::substituted(z, inv, q);
    let pi = automorphism::substituted(p, inv, q);
    assert forall|j: int| 0 <= j < zi.len() implies #[trigger] zi[j] == 0 by {
        lemma_small_mod(0, q as nat);
        ring::lemma_coeff_at(z, j * inv);
        lemma_mod_bound(j * inv, 2 * z.len() as int);
    }
    assert(ring::poly_sub(zi, pi, q) =~= ring::poly_neg(pi, q));
}

/// The samples of an automorphism with digits that need not recompose: besides the digits times the
/// errors, they hold the image of the secret times what the digits miss of the image of the drawn
/// polynomial.
pub proof fn lemma_auto_samples_digits<S: CollectRuntimeServerKeyStats, D: Decomposer, N: Ntt>(
    model: NoiseModel<S, D, N>,
    k: int,
    inv: int,
    m: Seq<int>,
    errors: Seq<Seq<int>>,
)
    requires
        model.ntt.q() > 0,
        0 < model.ntt.n() <= usize::MAX,
        model.sk_rlwe.len() == model.ntt.n(),
        m.len() == model.ntt.n(),
        ring::canonical(m, model.ntt.q()),
        model.auto_decomposer.q() == model.ntt.q(),
        automorphism::is_inverse(model.auto_exponent(k), inv, model.ntt.n()),
        decryption::auto_key_encrypts(
            model.server_key.galois_key(k),
            inv,
            errors,
            model.secret(),
            model.auto_decomposer,
            model.ntt,
        ),
    ensures
        ({
            let q = model.ntt.q();
            let d = model.auto_decomposer.count() as int;
            let a = automorphism::substituted(m, inv, q);
            let missed = ring::poly_sub(
                a,
                decryption::recomposed_poly(model.auto_decomposer, a, d),
                q,
            );
            let r = ring::poly_add(
                ring::nega_mul(automorphism::substituted(model.secret(), inv, q), missed, q),
                decryption::digit_errors(model.auto_decomposer, a, errors, d),
                q,
            );
            r.len() == model.ntt.n() && model.auto_noise(k, m) == utils::centered_row(r, q)
        }),
{
    let q = model.ntt.q();
    let n = model.ntt.n();
    let u = model.auto_exponent(k);
    let s = model.secret();
    let z = poly::zeros(n);
    let ct = seq![m, z];
    let neg = ring::poly_neg(s, q);
    let dec = model.auto_decomposer;
    let d = dec.count() as int;
    ring::lemma_reduced_canonical(model.sk_rlwe, q);
    assert(ring::canonical(z, q));
    assert forall|i: int| 0 <= i < n implies 0 <= #[trigger] neg[i] < q by {
        lemma_mod_bound(-s[i], q);
    }
    decryption::lemma_auto_switched_digits(
        ct,
        model.server_key.galois_key(k),
        u,
        inv,
        errors,
        s,
        dec,
        model.ntt,
    );
    automorphism::lemma_auto_image(m, u, inv, q);
    automorphism::lemma_auto_image(neg, u, inv, q);
    lemma_negated_image(s, inv, q);
    let (a, si) = (automorphism::substituted(m, inv, q), automorphism::substituted(s, inv, q));
    let r = decryption::recomposed_poly(dec, a, d);
    let e = decryption::digit_errors(dec, a, errors, d);
    // the product that is wanted is -(si * a)
    ring::lemma_nega_mul_neg(a, si, q);
    ring::lemma_nega_mul_commutative(a, si, q);
    let (x, y) = (ring::nega_mul(si, a, q), ring::nega_mul(si, r, q));
    // si * (a - r) = si * a - si * r
    let nr = ring::poly_neg(r, q);
    ring::lemma_nega_mul_distributive(si, a, nr, q);
    ring::lemma_nega_mul_neg(si, r, q);
    ring::lemma_poly_add_neg(a, r, q);
    ring::lemma_poly_add_neg(x, y, q);
    let missed = ring::nega_mul(si, ring::poly_sub(a, r, q), q);
    assert(missed == ring::poly_sub(x, y, q));
    let zi = automorphism::substituted(z, inv, q);
    let back = ring::poly_add(ring::poly_sub(zi, y, q), e, q);
    let want = ring::poly_neg(x, q);
    let left = ring::poly_sub(back, want, q);
    let right = ring::poly_add(missed, e, q);
    assert forall|i: int| 0 <= i < n implies #[trigger] left[i] == right[i] by {
        lemma_small_mod(0, q as nat);
        ring::lemma_coeff_at(z, i * inv);
        lemma_mod_bound(i * inv, 2 * z.len() as int);
        assert(zi[i] == 0);
        let (xi, yi, ei) = (x[i], y[i], e[i]);
        // ((-y) % q + e) % q - (-x) % q
        lemma_add_mod_noop_right(ei, -yi, q);
        lemma_sub_mod_noop((-yi) % q + ei, (-xi) % q, q);
        lemma_sub_mod_noop(((-yi) % q + ei) % q, (-xi) % q, q);
        lemma_mod_twice((-yi) % q + ei, q);
        lemma_sub_mod_noop(-yi + ei, -xi, q);
        lemma_mod_twice(-xi, q);
        lemma_add_mod_noop_right(ei, xi - yi, q);
    }
    assert(left =~= right);
}

/// The sample of a key switch with digits that need not recompose: what they recompose to, minus
/// the mask, times the secret, minus the noise of the errors.
pub proof fn lemma_key_switch_sample_digits<
    S: CollectRuntimeServerKeyStats,
    D: Decomposer,
    N: Ntt,
>(model: NoiseModel<S, D, N>, a: Seq<int>, errors: Seq<int>)
    requires
        model.lwe_q > 0,
        model.lwe_decomposer.q() == model.lwe_q,
        a.len() == model.sk_rlwe.len(),
        decryption::ksk_encrypts(
            model.server_key.lwe_ksk_rows(),
            model.sk_rlwe,
            errors,
            model.sk_lwe,
            model.lwe_decomposer,
        ),
    ensures
        ({
            let n = model.sk_rlwe.len() as int;
            let (s, dec) = (model.sk_rlwe, model.lwe_decomposer);
            model.key_switch_noise(a) == backend::centered(
                (lwe::dot(decryption::recomposed_mask(dec, a), s, n) - lwe::dot(a, s, n)
                    - decryption::key_switch_error(a, errors, dec, n)) % model.lwe_q,
                model.lwe_q,
            )
        }),
{
    let q = model.lwe_q;
    let n = model.sk_rlwe.len() as int;
    let m = model.sk_lwe.len();
    let ct = seq![0int] + a;
    let out = poly::zeros(m + 1);
    assert(ct.skip(1) =~= a);
    assert(lwe::lwe_mask(out) =~= poly::zeros(m));
    lemma_zero_mask(model.sk_lwe, m as int);
    lemma_small_mod(0, q as nat);
    decryption::lemma_key_switch_digits(
        out,
        ct,
        model.server_key.lwe_ksk_rows(),
        model.sk_rlwe,
        errors,
        model.sk_lwe,
        model.lwe_decomposer,
    );
    let d = lwe::dot(a, model.sk_rlwe, n);
    let r = lwe::dot(decryption::recomposed_mask(model.lwe_decomposer, a), model.sk_rlwe, n);
    let e = decryption::key_switch_error(a, errors, model.lwe_decomposer, n);
    lemma_sub_mod_noop(-d, -r + e, q);
}

/// The noise that is measured: of two rows of a key, what they decrypt to minus what they should,
/// of an automorphism, what its result decrypts to minus the product of the images of the drawn
/// polynomial and of the negated secret, of a key switch, what its result should decrypt to minus
/// what it does; each as numbers closest to zero.
pub proof fn lemma_noise_terms<S: CollectRuntimeServerKeyStats, D: Decomposer, N: Ntt>(
    model: NoiseModel<S, D, N>,
    i: int,
    j: int,
    m: Seq<int>,
)
    ensures
        ({
            let (q, n) = (model.ntt.q(), model.ntt.n());
            let s = ring::reduced(model.sk_rlwe, q);
            let (d0, d1) = model.rlwe_rgsw_decomposer;
            let da = d0.count() as int;
            let rows = model.server_key.rgsw_ct(i);
            let x = ring::monomial_times(
                poly::one(n),
                model.sk_lwe[i] * ((2 * n as int) / model.br_q),
                q,
            );
            let nsm = rgsw::rlwe_phase(
                seq![model.ntt.coeffs(rows[j]), model.ntt.coeffs(rows[j + da])],
                s,
                q,
            );
            let low = rgsw::rlwe_phase(
                seq![
                    model.ntt.coeffs(rows[j + 2 * da]),
                    model.ntt.coeffs(rows[j + 2 * da + d1.count()]),
                ],
                s,
                q,
            );
            &&& model.nsm_noise(i, j) == utils::centered_row(
                ring::poly_sub(
                    nsm,
                    ring::poly_scale(
                        d0.gadget()[j],
                        ring::nega_mul(x, ring::poly_neg(s, q), q),
                        q,
                    ),
                    q,
                ),
                q,
            )
            &&& model.m_noise(i, j) == utils::centered_row(
                ring::poly_sub(low, ring::poly_scale(d1.gadget()[j], x, q), q),
                q,
            )
        }),
        ({
            let (q, n) = (model.ntt.q(), model.ntt.n());
            let s = ring::reduced(model.sk_rlwe, q);
            let u = rgsw::auto_exponent(model.g, model.br_q, i);
            let (index, sign) = (rgsw::auto_indices(n, u), rgsw::auto_signs(n, u));
            let out = rgsw::auto_switched(
                seq![m, poly::zeros(n)],
                model.server_key.galois_key(i),
                index,
                sign,
                model.auto_decomposer,
                model.ntt,
                false,
            );
            model.auto_noise(i, m) == utils::centered_row(
                ring::poly_sub(
                    rgsw::rlwe_phase(out, s, q),
                    ring::nega_mul(
                        rgsw::auto_image(m, index, sign, q),
                        rgsw::auto_image(ring::poly_neg(s, q), index, sign, q),
                        q,
                    ),
                    q,
                ),
                q,
            )
        }),
        ({
            let q = model.lwe_q;
            let out = lwe::key_switched(
                poly::zeros(model.sk_lwe.len() + 1),
                seq![0int] + m,
                model.server_key.lwe_ksk_rows(),
                model.lwe_decomposer,
                q,
            );
            let want = (-lwe::dot(m, model.sk_rlwe, model.sk_rlwe.len() as int)) % q;
            model.key_switch_noise(m) == backend::centered(
                (want - lwe::lwe_phase(out, model.sk_lwe, q)) % q,
                q,
            )
        }),
{
}

/// The transform for a modulus and a size gives the values and the coefficients that belong to
/// them.
pub proof fn lemma_transform_for<M: Modulus, N: NttInit<M>>(
    ntt: N,
    q: int,
    n: nat,
    p: Seq<int>,
)
    requires
        is_transform_for::<M, N>(ntt, q, n),
    ensures
        ntt.wf(),
        ntt.q() == q,
        ntt.n() == n,
        ntt.evals(p) == N::evals_for(q, n, p),
        ntt.coeffs(p) == N::coeffs_for(q, n, p),
{
}

} // verus!
