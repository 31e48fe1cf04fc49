//! Keys and parameters on `u64` residues.
use crate::backend::{
    self, CiphertextModulus, Element, Modulus, ModularOpsU64, Residues, ShoupMatrixFMA,
};
use crate::decomposer::{Decomposer, DefaultDecomposer};
use crate::ntt::{self, Ntt, NttBackendU64, NttInit};
use crate::pbs::{self, PbsInfo, PbsKey, PbsParameters, RotationStep, WithShoupRepr};
use crate::print_noise::{self, BoolParameters, CollectRuntimeServerKeyStats};
use crate::rgsw::{self, auto_element, generate_auto_map};
use crate::ring;
use crate::rotation;
use crate::utils;
use vstd::arithmetic::div_mod::*;
use vstd::arithmetic::mul::*;
use vstd::arithmetic::power::*;
use vstd::prelude::*;

verus! {

/// A matrix of residues with what is precomputed from its entries.
pub struct ShoupMatrix {
    rows: Vec<Vec<u64>>,
    shoup: Vec<Vec<u64>>,
}

impl ShoupMatrix {
    /// Precomputes what the products with the entries of `rows` need.
    pub fn new(rows: Vec<Vec<u64>>, mod_op: &ModularOpsU64) -> (r: Self)
        requires
            mod_op.wf(),
            forall|i: int|
                0 <= i < rows.len() ==> ring::canonical(
                    #[trigger] backend::mat(rows@)[i],
                    mod_op.q(),
                ),
        ensures
            r.rows() == backend::mat(rows@),
            rgsw::is_shoup_of(*mod_op, r.rows(), r.shoup_rows()),
    {
        let mut shoup: Vec<Vec<u64>> = Vec::new();
        let count: usize = rows.len();
        let ghost m = backend::mat(rows@);
        for i in 0..count
            invariant
                mod_op.wf(),
                count == rows.len(),
                m == backend::mat(rows@),
                forall|k: int| 0 <= k < count ==> ring::canonical(#[trigger] m[k], mod_op.q()),
                shoup.len() == i,
                forall|k: int|
                    0 <= k < i ==> (#[trigger] shoup[k]).len() == rows[k].len() && (forall|j: int|
                        0 <= j < rows[k].len() ==> (#[trigger] shoup[k][j]).val() == mod_op.shoup(
                            rows[k][j].val(),
                        )),
        {
            let mut row: Vec<u64> = Vec::new();
            let len: usize = rows[i].len();
            assert(m[i as int] == backend::vals(rows[i as int]@));
            for j in 0..len
                invariant
                    mod_op.wf(),
                    i < rows.len(),
                    len == rows[i as int].len(),
                    m[i as int] == backend::vals(rows[i as int]@),
                    ring::canonical(m[i as int], mod_op.q()),
                    row.len() == j,
                    forall|k: int|
                        0 <= k < j ==> (#[trigger] row[k]).val() == mod_op.shoup(
                            rows[i as int][k].val(),
                        ),
            {
                assert(m[i as int][j as int] == rows[i as int][j as int].val());
                row.push(mod_op.shoup_repr(&rows[i][j]));
            }
            shoup.push(row);
        }
        let r: ShoupMatrix = ShoupMatrix { rows, shoup };
        proof {
            let s = backend::mat(shoup@);
            assert forall|i: int| 0 <= i < m.len() implies (#[trigger] s[i]).len()
                == m[i].len() by {
                assert(s[i] == backend::vals(shoup[i]@));
                assert(m[i] == backend::vals(rows[i]@));
            }
            assert forall|i: int, j: int| 0 <= i < m.len() && 0 <= j < m[i].len() implies
                #[trigger] s[i][j] == mod_op.shoup(m[i][j]) by {
                assert(s[i] == backend::vals(shoup[i]@));
                assert(m[i] == backend::vals(rows[i]@));
                assert(s[i][j] == shoup[i][j].val());
            }
        }
        r
    }
}

impl WithShoupRepr for ShoupMatrix {
    type Element = u64;

    closed spec fn rows(&self) -> Seq<Seq<int>> {
        backend::mat(self.rows@)
    }

    closed spec fn shoup_rows(&self) -> Seq<Seq<int>> {
        backend::mat(self.shoup@)
    }

    fn as_ref(&self) -> &Vec<Vec<u64>> {
        &self.rows
    }

    fn shoup_repr(&self) -> &Vec<Vec<u64>> {
        &self.shoup
    }
}

/// The keys of a server in evaluation domain.
pub struct ServerKeyEvaluationDomain {
    /// RGSW ciphertexts of the LWE secret elements.
    pub rgsw_cts: Vec<ShoupMatrix>,
    /// The keys of the automorphisms: for -g, then for g, g^2, and so on.
    pub galois_keys: Vec<ShoupMatrix>,
    /// The key to switch from the RLWE secret to the LWE secret.
    pub lwe_ksk: Vec<Vec<u64>>,
}

impl PbsKey for ServerKeyEvaluationDomain {
    type Element = u64;

    type RgswCt = ShoupMatrix;

    type AutoKey = ShoupMatrix;

    open spec fn has_rgsw_ct(&self, si: int) -> bool {
        0 <= si < self.rgsw_cts.len()
    }

    open spec fn rgsw_ct(&self, si: int) -> ShoupMatrix {
        self.rgsw_cts[si]
    }

    open spec fn has_galois_key(&self, k: int) -> bool {
        0 <= k < self.galois_keys.len()
    }

    open spec fn galois_key(&self, k: int) -> ShoupMatrix {
        self.galois_keys[k]
    }

    open spec fn lwe_ksk_rows(&self) -> Seq<Seq<int>> {
        backend::mat(self.lwe_ksk@)
    }

    fn rgsw_ct_lwe_si(&self, si: usize) -> &ShoupMatrix {
        &self.rgsw_cts[si]
    }

    fn galois_key_for_auto(&self, k: usize) -> &ShoupMatrix {
        &self.galois_keys[k]
    }

    fn lwe_ksk(&self) -> &Vec<Vec<u64>> {
        &self.lwe_ksk
    }
}

impl CollectRuntimeServerKeyStats for ServerKeyEvaluationDomain {
    type Element = u64;

    open spec fn has_rgsw_ct(&self, s_index: int) -> bool {
        0 <= s_index < self.rgsw_cts.len()
    }

    open spec fn rgsw_ct(&self, s_index: int) -> Seq<Seq<int>> {
        self.rgsw_cts[s_index].rows()
    }

    open spec fn has_galois_key(&self, k: int) -> bool {
        0 <= k < self.galois_keys.len()
    }

    open spec fn galois_key(&self, k: int) -> Seq<Seq<int>> {
        self.galois_keys[k].rows()
    }

    open spec fn lwe_ksk_rows(&self) -> Seq<Seq<int>> {
        backend::mat(self.lwe_ksk@)
    }

    fn rgsw_cts_lwe_si(&self, s_index: usize) -> &Vec<Vec<u64>> {
        self.rgsw_cts[s_index].as_ref()
    }

    fn galois_key_for_auto(&self, k: usize) -> &Vec<Vec<u64>> {
        self.galois_keys[k].as_ref()
    }

    fn lwe_ksk(&self) -> &Vec<Vec<u64>> {
        &self.lwe_ksk
    }
}

/// The residue `a` modulo `q` is plus or minus a power of `g` below the power `q / 4`.
pub open spec fn is_generated(a: int, g: int, q: int) -> bool {
    exists|k: int|
        0 <= k < q / 4 && (a == #[trigger] pow(g, k as nat) % q || a == (-pow(g, k as nat)) % q)
}

/// Every odd residue modulo `q` is plus or minus a power of `g`.
pub open spec fn generates(g: int, q: int) -> bool {
    forall|a: int| 0 <= a < q && a % 2 == 1 ==> #[trigger] is_generated(a, g, q)
}

/// The entries for the residues `g^k` and `-g^k` are right.
spec fn is_covered(map: Seq<usize>, g: int, q: int, k: int) -> bool {
    let (a, b) = (pow(g, k as nat) % q, (-pow(g, k as nat)) % q);
    rotation::dlog_entry(map[a] as int, a, g, q) && rotation::dlog_entry(map[b] as int, b, g, q)
}

/// The table of the discrete logarithms of the odd residues modulo `br_q` with the generator `g`.
pub fn generate_dlog_map(g: usize, br_q: usize) -> (r: Vec<usize>)
    requires
        br_q > 0,
        br_q % 4 == 0,
        g % 2 == 1,
        generates(g as int, br_q as int),
    ensures
        r.len() == br_q,
        rotation::is_dlog_map(r@, g as int, br_q as int),
{
    let ghost (gi, q) = (g as int, br_q as int);
    let mut r: Vec<usize> = Vec::new();
    for i in 0..br_q
        invariant
            r.len() == i,
    {
        r.push(0);
    }
    let count: usize = br_q / 4;
    let mut p: usize = 1 % br_q;
    proof {
        lemma_pow0(gi);
        lemma_mod_bound(1, q);
    }
    for i in 0..count
        invariant
            gi == g,
            q == br_q,
            q > 0,
            q % 4 == 0,
            g % 2 == 1,
            count == br_q / 4,
            r.len() == br_q,
            p < br_q,
            p == pow(gi, i as nat) % q,
            forall|k: int| 0 <= k < i ==> #[trigger] is_covered(r@, gi, q, k),
    {
        let ghost x = pow(gi, i as nat);
        let ghost before = r@;
        proof {
            utils::lemma_pow_odd(gi, i as nat, q);
            lemma_sub_mod_noop(0, x, q);
            lemma_sub_mod_noop(0, p as int, q);
            lemma_small_mod(p as nat, q as nat);
            lemma_mod_add_multiples_vanish(-(p as int), q);
            lemma_small_mod((q - p) as nat, q as nat);
            lemma_mod_twice(-x, q);
            lemma_mod_twice(x, q);
            assert((-x) % q == q - p);
        }
        r[p] = i;
        r[br_q - p] = i + count;
        proof {
            assert(rotation::dlog_entry(r[p as int] as int, p as int, gi, q));
            assert(rotation::dlog_entry(r[q - p] as int, q - p, gi, q));
            assert forall|k: int| 0 <= k < i + 1 implies #[trigger] is_covered(r@, gi, q, k) by {
                let (a, b) = (pow(gi, k as nat) % q, (-pow(gi, k as nat)) % q);
                lemma_mod_bound(pow(gi, k as nat), q);
                lemma_mod_bound(-pow(gi, k as nat), q);
                if k < i {
                    assert(is_covered(before, gi, q, k));
                    if a != p && a != q - p {
                        assert(r[a] == before[a]);
                    }
                    if b != p && b != q - p {
                        assert(r[b] == before[b]);
                    }
                }
            }
            lemma_pow_adds(gi, i as nat, 1);
            lemma_pow1(gi);
            lemma_mul_mod_noop_left(x, gi, q);
            lemma_mod_bound(p * gi, q);
            assert(0 <= p * gi <= 0xffff_ffff_ffff_ffff * 0xffff_ffff_ffff_ffff)
                by (nonlinear_arith)
                requires
                    0 <= p <= 0xffff_ffff_ffff_ffff,
                    0 <= gi <= 0xffff_ffff_ffff_ffff,
            ;
        }
        p = ((p as u128 * g as u128) % br_q as u128) as usize;
    }
    proof {
        assert forall|a: int| 0 <= a < q && a % 2 == 1 implies rotation::dlog_entry(
            #[trigger] r[a] as int,
            a,
            gi,
            q,
        ) by {
            assert(is_generated(a, gi, q));
            let k = choose|k: int|
                0 <= k < q / 4 && (a == #[trigger] pow(gi, k as nat) % q || a == (-pow(
                    gi,
                    k as nat,
                )) % q);
            assert(is_covered(r@, gi, q, k));
        }
    }
    r
}

/// The parameters of a bootstrapping on `u64` residues, with the operators and the tables that
/// follow from them.
pub struct BootstrapInfo {
    rlwe_q: CiphertextModulus,
    lwe_q: CiphertextModulus,
    br_q: usize,
    rlwe_n: usize,
    lwe_n: usize,
    embedding_factor: usize,
    w: usize,
    g: isize,
    lwe_decomposer: DefaultDecomposer,
    rlwe_rgsw_decomposer: (DefaultDecomposer, DefaultDecomposer),
    auto_decomposer: DefaultDecomposer,
    modop_lweq: ModularOpsU64,
    modop_rlweq: ModularOpsU64,
    nttop_rlweq: NttBackendU64,
    g_k_dlog_map: Vec<usize>,
    auto_maps: Vec<(Vec<usize>, Vec<bool>)>,
}

/// The number of automorphisms that a blind rotation with the window `w` may come to.
pub open spec fn auto_count(w: int, br_q: int) -> int {
    if w == 0 {
        br_q / 4
    } else {
        w + 1
    }
}

/// `info` holds the given parameters with the operators and the tables that follow from them.
pub open spec fn is_info_of(
    info: BootstrapInfo,
    parameters: BoolParameters<CiphertextModulus, DefaultDecomposer>,
) -> bool {
    let p = info.parameters();
    let (g, br_q, n) = (parameters.g as int, parameters.br_q as int, parameters.rlwe_n as nat);
    &&& info.wf()
    &&& p.rlwe_q == parameters.rlwe_q.q()
    &&& p.lwe_q == parameters.lwe_q.q()
    &&& p.br_q == br_q
    &&& p.rlwe_n == n
    &&& p.lwe_n == parameters.lwe_n
    &&& p.embedding_factor == (2 * n as int) / br_q
    &&& p.w == parameters.w
    &&& p.g == g
    &&& p.lwe_decomposer == parameters.lwe_decomposer
    &&& p.rlwe_rgsw_decomposer == parameters.rlwe_rgsw_decomposer
    &&& p.auto_decomposer == parameters.auto_decomposer
    &&& p.modop_lweq.wf() && p.modop_lweq.q() == p.lwe_q
    &&& p.modop_rlweq.wf() && p.modop_rlweq.q() == p.rlwe_q
    &&& print_noise::is_transform_for::<CiphertextModulus, NttBackendU64>(
        p.nttop_rlweq,
        p.rlwe_q,
        n,
    )
    &&& p.g_k_dlog_map.len() == br_q
    &&& rotation::is_dlog_map(p.g_k_dlog_map, g, br_q)
    &&& forall|k: int|
        0 <= k < auto_count(parameters.w as int, br_q) ==> #[trigger] p.rlwe_auto_maps.contains_key(
            k,
        ) && p.rlwe_auto_maps[k] == (
            rgsw::auto_indices(n, rgsw::auto_exponent(g, br_q, k)),
            rgsw::auto_signs(n, rgsw::auto_exponent(g, br_q, k)),
        )
}

/// A key of `rows` rows of `n` residues with what was precomputed from them.
pub open spec fn is_key(key: ShoupMatrix, rows: nat, n: nat, mod_op: ModularOpsU64) -> bool {
    &&& key.rows().len() == rows
    &&& backend::rows_canonical(key.rows(), n, mod_op.q())
    &&& rgsw::is_shoup_of(mod_op, key.rows(), key.shoup_rows())
}

/// Keys of the right shapes can be used with the parameters.
#[verifier::spinoff_prover]
#[verifier::rlimit(40)]
pub proof fn lemma_pbs_ready(
    info: BootstrapInfo,
    parameters: BoolParameters<CiphertextModulus, DefaultDecomposer>,
    key: ServerKeyEvaluationDomain,
)
    requires
        is_info_of(info, parameters),
        parameters.rlwe_rgsw_decomposer.0.wf(),
        parameters.rlwe_rgsw_decomposer.1.wf(),
        parameters.auto_decomposer.wf(),
        parameters.lwe_decomposer.wf(),
        parameters.rlwe_rgsw_decomposer.0.q == parameters.rlwe_q.q,
        parameters.rlwe_rgsw_decomposer.1.q == parameters.rlwe_q.q,
        parameters.auto_decomposer.q == parameters.rlwe_q.q,
        parameters.lwe_decomposer.q == parameters.lwe_q.q,
        parameters.br_q > 0,
        parameters.br_q % 4 == 0,
        parameters.br_q <= 2 * parameters.rlwe_n <= isize::MAX,
        // The ring is that of the rotation, or at least one of twice its size.
        2 * parameters.rlwe_n == parameters.br_q || 2 * parameters.rlwe_n >= 2 * parameters.br_q,
        parameters.g % 2 == 1,
        key.rgsw_cts.len() >= parameters.lwe_n,
        forall|i: int|
            0 <= i < parameters.lwe_n ==> is_key(
                #[trigger] key.rgsw_cts[i],
                2 * parameters.rlwe_rgsw_decomposer.0.count() + 2
                    * parameters.rlwe_rgsw_decomposer.1.count(),
                parameters.rlwe_n as nat,
                info.parameters().modop_rlweq,
            ),
        forall|k: int|
            pbs::in_window(k, parameters.w as int) && k < parameters.br_q as int / 4 ==> k
                < key.galois_keys.len() && is_key(
                #[trigger] key.galois_keys[k],
                2 * parameters.auto_decomposer.count(),
                parameters.rlwe_n as nat,
                info.parameters().modop_rlweq,
            ),
        key.lwe_ksk.len() == parameters.rlwe_n * parameters.lwe_decomposer.count(),
        backend::rows_canonical(
            backend::mat(key.lwe_ksk@),
            (parameters.lwe_n + 1) as nat,
            parameters.lwe_q.q(),
        ),
    ensures
        pbs::pbs_ready(info, key),
        pbs::keys_ready(info, key),
{
    let p = info.parameters();
    let rotation = pbs::rotation_of(info, key);
    let (f, q, n) = (p.embedding_factor, p.br_q, p.rlwe_n as int);
    lemma_fundamental_div_mod(2 * n, q);
    lemma_mod_bound(2 * n, q);
    assert(2 * n == q * f + (2 * n) % q);
    assert(f > 0) by (nonlinear_arith)
        requires
            2 * n == q * f + (2 * n) % q,
            (2 * n) % q < q,
            q <= 2 * n,
            q > 0,
    ;
    assert(f * (q / 2 - 1) < n) by (nonlinear_arith)
        requires
            2 * n >= q * f,
            f > 0,
            q == 2 * (q / 2),
    ;
    if f == 1 {
        assert(q * 1 == q);
    }
    assert forall|a: int| 0 <= a < q && a % 2 == 1 implies (#[trigger] p.g_k_dlog_map[a]) < q
        / 2 by {
        assert(rotation::dlog_entry(p.g_k_dlog_map[a] as int, a, p.g, q));
    }
    assert forall|i: int| 0 <= i < p.lwe_n implies #[trigger] rotation.ready(
        p.modop_rlweq,
        RotationStep::Secret(i),
    ) by {
        assert(is_key(
            key.rgsw_cts[i],
            2 * p.rlwe_rgsw_decomposer.0.count() + 2 * p.rlwe_rgsw_decomposer.1.count(),
            p.rlwe_n,
            p.modop_rlweq,
        ));
    }
    assert forall|k: int| pbs::in_window(k, p.w) && k < q / 4 implies #[trigger] rotation.ready(
        p.modop_rlweq,
        RotationStep::Auto(k),
    ) by {
        assert(is_key(
            key.galois_keys[k],
            2 * p.auto_decomposer.count(),
            p.rlwe_n,
            p.modop_rlweq,
        ));
        assert(p.rlwe_auto_maps.contains_key(k));
        let u = rgsw::auto_exponent(p.g, q, k);
        let index = rgsw::auto_indices(p.rlwe_n, u);
        assert forall|i: int| 0 <= i < n implies (#[trigger] index[i]) < n by {
            lemma_mod_bound(i * u, 2 * n);
        }
    }
    assert(backend::mat(key.lwe_ksk@).len() == key.lwe_ksk.len());
}

impl BootstrapInfo {
    /// Builds the operators and the tables for the given parameters.
    pub fn new(parameters: &BoolParameters<CiphertextModulus, DefaultDecomposer>) -> (r: Self)
        requires
            parameters.rlwe_q.wf(),
            parameters.lwe_q.wf(),
            ntt::has_transform(parameters.rlwe_q.q(), parameters.rlwe_n as nat),
            2 * parameters.rlwe_n <= isize::MAX,
            parameters.br_q > 0,
            parameters.br_q % 4 == 0,
            parameters.br_q <= isize::MAX,
            parameters.g % 2 == 1,
            parameters.g <= isize::MAX,
            parameters.w < usize::MAX,
            generates(parameters.g as int, parameters.br_q as int),
        ensures
            is_info_of(r, *parameters),
    {
        let g: usize = parameters.g;
        let br_q: usize = parameters.br_q;
        let rlwe_n: usize = parameters.rlwe_n;
        let ghost (gi, q, n) = (g as int, br_q as int, rlwe_n as nat);
        let nttop_rlweq: NttBackendU64 = NttBackendU64::new(&parameters.rlwe_q, rlwe_n);
        proof {
            nttop_rlweq.lemma_positive();
        }
        let mut auto_maps: Vec<(Vec<usize>, Vec<bool>)> = Vec::new();
        let count: usize = if parameters.w == 0 {
            br_q / 4
        } else {
            parameters.w + 1
        };
        for k in 0..count
            invariant
                gi == g,
                q == br_q,
                n == rlwe_n,
                n > 0,
                2 * n <= isize::MAX,
                0 < q <= isize::MAX,
                q % 4 == 0,
                g % 2 == 1,
                g <= isize::MAX,
                auto_maps.len() == k,
                forall|i: int|
                    0 <= i < k ==> (#[trigger] auto_maps[i]).0@ == rgsw::auto_indices(
                        n,
                        rgsw::auto_exponent(gi, q, i),
                    ) && auto_maps[i].1@ == rgsw::auto_signs(n, rgsw::auto_exponent(gi, q, i)),
        {
            auto_maps.push(generate_auto_map(rlwe_n, auto_element(g, br_q, k)));
        }
        BootstrapInfo {
            rlwe_q: parameters.rlwe_q,
            lwe_q: parameters.lwe_q,
            br_q,
            rlwe_n,
            lwe_n: parameters.lwe_n,
            embedding_factor: (2 * rlwe_n) / br_q,
            w: parameters.w,
            g: g as isize,
            lwe_decomposer: parameters.lwe_decomposer,
            rlwe_rgsw_decomposer: (
                parameters.rlwe_rgsw_decomposer.0,
                parameters.rlwe_rgsw_decomposer.1,
            ),
            auto_decomposer: parameters.auto_decomposer,
            modop_lweq: ModularOpsU64 { modulus: parameters.lwe_q },
            modop_rlweq: ModularOpsU64 { modulus: parameters.rlwe_q },
            nttop_rlweq,
            g_k_dlog_map: generate_dlog_map(g, br_q),
            auto_maps,
        }
    }
}

impl PbsInfo for BootstrapInfo {
    type Element = u64;

    type Modulus = CiphertextModulus;

    type NttOp = NttBackendU64;

    type D = DefaultDecomposer;

    type RlweModOp = ModularOpsU64;

    type LweModOp = ModularOpsU64;

    closed spec fn wf(&self) -> bool {
        self.rlwe_q.wf() && self.lwe_q.wf()
    }

    closed spec fn parameters(&self) -> PbsParameters<
        DefaultDecomposer,
        NttBackendU64,
        ModularOpsU64,
        ModularOpsU64,
    > {
        PbsParameters {
            rlwe_q: self.rlwe_q.q(),
            lwe_q: self.lwe_q.q(),
            br_q: self.br_q as int,
            rlwe_n: self.rlwe_n as nat,
            lwe_n: self.lwe_n as nat,
            embedding_factor: self.embedding_factor as int,
            w: self.w as int,
            g: self.g as int,
            lwe_decomposer: self.lwe_decomposer,
            rlwe_rgsw_decomposer: self.rlwe_rgsw_decomposer,
            auto_decomposer: self.auto_decomposer,
            modop_lweq: self.modop_lweq,
            modop_rlweq: self.modop_rlweq,
            nttop_rlweq: self.nttop_rlweq,
            g_k_dlog_map: self.g_k_dlog_map@,
            rlwe_auto_maps: Map::new(
                |k: int| 0 <= k < self.auto_maps.len(),
                |k: int| (self.auto_maps[k].0@, self.auto_maps[k].1@),
            ),
        }
    }

    fn rlwe_q(&self) -> &CiphertextModulus {
        &self.rlwe_q
    }

    fn lwe_q(&self) -> &CiphertextModulus {
        &self.lwe_q
    }

    fn br_q(&self) -> usize {
        self.br_q
    }

    fn rlwe_n(&self) -> usize {
        self.rlwe_n
    }

    fn lwe_n(&self) -> usize {
        self.lwe_n
    }

    fn embedding_factor(&self) -> usize {
        self.embedding_factor
    }

    fn w(&self) -> usize {
        self.w
    }

    fn g(&self) -> isize {
        self.g
    }

    fn lwe_decomposer(&self) -> &DefaultDecomposer {
        &self.lwe_decomposer
    }

    fn rlwe_rgsw_decomposer(&self) -> &(DefaultDecomposer, DefaultDecomposer) {
        &self.rlwe_rgsw_decomposer
    }

    fn auto_decomposer(&self) -> &DefaultDecomposer {
        &self.auto_decomposer
    }

    fn modop_lweq(&self) -> &ModularOpsU64 {
        &self.modop_lweq
    }

    fn modop_rlweq(&self) -> &ModularOpsU64 {
        &self.modop_rlweq
    }

    fn nttop_rlweq(&self) -> &NttBackendU64 {
        &self.nttop_rlweq
    }

    fn g_k_dlog_map(&self) -> &[usize] {
        self.g_k_dlog_map.as_slice()
    }

    fn rlwe_auto_map(&self, k: usize) -> &(Vec<usize>, Vec<bool>) {
        &self.auto_maps[k]
    }
}

/// What it takes for a generator: each odd residue is a power of `g` below `q / 4`, or minus one.
pub proof fn lemma_generates(g: int, q: int, powers: Seq<nat>, signs: Seq<bool>)
    requires
        forall|a: int|
            0 <= a < q && a % 2 == 1 ==> 0 <= #[trigger] powers[a] < q / 4 && a == (if signs[a] {
                pow(g, powers[a])
            } else {
                -pow(g, powers[a])
            }) % q,
    ensures
        generates(g, q),
{
    assert forall|a: int| 0 <= a < q && a % 2 == 1 implies #[trigger] is_generated(a, g, q) by {
        let k = powers[a] as int;
        assert(pow(g, k as nat) == pow(g, powers[a]));
        assert(a == pow(g, k as nat) % q || a == (-pow(g, k as nat)) % q);
    }
}

/// The parameters that are built hold what was given, the factor between the ring and the
/// rotation, the table of discrete logarithms, and the maps of the automorphisms: for each place
/// `i` where the automorphism sends `X^i`, and with which sign.
pub proof fn lemma_info(
    info: BootstrapInfo,
    parameters: BoolParameters<CiphertextModulus, DefaultDecomposer>,
    a: int,
    k: int,
    i: int,
)
    requires
        is_info_of(info, parameters),
        0 <= a < parameters.br_q,
        a % 2 == 1,
        0 <= k < (if parameters.w == 0 {
            parameters.br_q as int / 4
        } else {
            parameters.w + 1
        }),
        0 <= i < parameters.rlwe_n,
    ensures
        ({
            let p = info.parameters();
            let (g, br_q) = (parameters.g as int, parameters.br_q as int);
            let n = parameters.rlwe_n as int;
            let u = if k == 0 {
                -g
            } else {
                pow(g, k as nat) % br_q
            };
            let t = p.rlwe_auto_maps[k].0[i] as int;
            let l = p.g_k_dlog_map[a] as int;
            &&& p.rlwe_q == parameters.rlwe_q.q
            &&& p.lwe_q == parameters.lwe_q.q
            &&& p.br_q == br_q
            &&& p.rlwe_n == n
            &&& p.lwe_n == parameters.lwe_n
            &&& p.embedding_factor == (2 * n) / br_q
            &&& p.w == parameters.w
            &&& p.g == g
            &&& p.lwe_decomposer == parameters.lwe_decomposer
            &&& p.rlwe_rgsw_decomposer == parameters.rlwe_rgsw_decomposer
            &&& p.auto_decomposer == parameters.auto_decomposer
            &&& p.modop_lweq.q() == p.lwe_q
            &&& p.modop_rlweq.q() == p.rlwe_q
            &&& p.nttop_rlweq.wf()
            &&& p.nttop_rlweq.q() == p.rlwe_q
            &&& p.nttop_rlweq.n() == n
            &&& p.g_k_dlog_map.len() == br_q
            &&& 0 <= l < 2 * (br_q / 4)
            &&& l < br_q / 4 ==> a % br_q == pow(g, l as nat) % br_q
            &&& l >= br_q / 4 ==> a % br_q == (-pow(g, (l - br_q / 4) as nat)) % br_q
            &&& p.rlwe_auto_maps.contains_key(k)
            &&& p.rlwe_auto_maps[k].0.len() == n
            &&& p.rlwe_auto_maps[k].1.len() == n
            &&& t < n
            &&& (i * u - t) % (2 * n) == (if p.rlwe_auto_maps[k].1[i] {
                0
            } else {
                n
            })
        }),
{
    let p = info.parameters();
    let (g, br_q, n) = (parameters.g as int, parameters.br_q as int, parameters.rlwe_n as nat);
    assert(rotation::dlog_entry(p.g_k_dlog_map[a] as int, a, g, br_q));
    assert(p.rlwe_auto_maps.contains_key(k));
    rgsw::lemma_auto_map(n, rgsw::auto_exponent(g, br_q, k), i);
}

/// The keys of a server, one by one: those of the secret elements and of the automorphisms stand at
/// their indices.
pub proof fn lemma_server_key(key: ServerKeyEvaluationDomain, i: int)
    ensures
        PbsKey::has_rgsw_ct(&key, i) <==> 0 <= i < key.rgsw_cts.len(),
        PbsKey::rgsw_ct(&key, i) == key.rgsw_cts[i],
        PbsKey::has_galois_key(&key, i) <==> 0 <= i < key.galois_keys.len(),
        PbsKey::galois_key(&key, i) == key.galois_keys[i],
        PbsKey::lwe_ksk_rows(&key) == backend::mat(key.lwe_ksk@),
        CollectRuntimeServerKeyStats::has_rgsw_ct(&key, i) <==> 0 <= i < key.rgsw_cts.len(),
        CollectRuntimeServerKeyStats::rgsw_ct(&key, i) == key.rgsw_cts[i].rows(),
        CollectRuntimeServerKeyStats::has_galois_key(&key, i) <==> 0 <= i
            < key.galois_keys.len(),
        CollectRuntimeServerKeyStats::galois_key(&key, i) == key.galois_keys[i].rows(),
        CollectRuntimeServerKeyStats::lwe_ksk_rows(&key) == backend::mat(key.lwe_ksk@),
{
}

} // verus!
