//! Sources of random residues.
//!
//! A source is modelled by its state: what it draws next is a function of the state, as it is for
//! a seeded generator.
use crate::backend::{self, CiphertextModulus, Element, Modulus};
use crate::ring;
use vstd::arithmetic::div_mod::*;
use vstd::prelude::*;

verus! {

/// Draws residues uniformly.
pub trait RandomFillUniformInModulus<M: Modulus>: Sized {
    /// The next `n` residues modulo `q`.
    spec fn uniform(&self, q: int, n: nat) -> Seq<int>;

    /// The state after these were drawn.
    spec fn after_uniform(&self, q: int, n: nat) -> Self;

    /// As many residues are drawn as are asked for.
    proof fn lemma_uniform(&self, q: int, n: nat)
        requires
            q > 0,
        ensures
            self.uniform(q, n).len() == n,
            ring::canonical(self.uniform(q, n), q),
    ;

    fn random_fill(&mut self, modulus: &M, out: &mut [M::Element])
        requires
            modulus.wf(),
        ensures
            backend::vals(final(out)@) == old(self).uniform(modulus.q(), old(out).len() as nat),
            final(out).len() == old(out).len(),
            ring::canonical(backend::vals(final(out)@), modulus.q()),
            *final(self) == old(self).after_uniform(modulus.q(), old(out).len() as nat),
    ;
}

/// Draws residues of small normally distributed numbers.
pub trait RandomFillGaussianInModulus<M: Modulus>: Sized {
    /// The next `n` residues modulo `q`.
    spec fn gaussian(&self, q: int, n: nat) -> Seq<int>;

    /// The state after these were drawn.
    spec fn after_gaussian(&self, q: int, n: nat) -> Self;

    /// As many residues are drawn as are asked for.
    proof fn lemma_gaussian(&self, q: int, n: nat)
        requires
            q > 0,
        ensures
            self.gaussian(q, n).len() == n,
            ring::canonical(self.gaussian(q, n), q),
    ;

    fn random_fill(&mut self, modulus: &M, out: &mut [M::Element])
        requires
            modulus.wf(),
        ensures
            backend::vals(final(out)@) == old(self).gaussian(modulus.q(), old(out).len() as nat),
            final(out).len() == old(out).len(),
            ring::canonical(backend::vals(final(out)@), modulus.q()),
            *final(self) == old(self).after_gaussian(modulus.q(), old(out).len() as nat),
    ;
}

/// Draws the residue of one small normally distributed number.
pub trait RandomGaussianElementInModulus<M: Modulus>: Sized {
    /// The next residue modulo `q`.
    spec fn gaussian_element(&self, q: int) -> int;

    /// The state after it was drawn.
    spec fn after_gaussian_element(&self, q: int) -> Self;

    /// What is drawn is a residue.
    proof fn lemma_gaussian_element(&self, q: int)
        requires
            q > 0,
        ensures
            0 <= self.gaussian_element(q) < q,
    ;

    fn random(&mut self, modulus: &M) -> (r: M::Element)
        requires
            modulus.wf(),
        ensures
            r.val() == old(self).gaussian_element(modulus.q()),
            0 <= r.val() < modulus.q(),
            *final(self) == old(self).after_gaussian_element(modulus.q()),
    ;
}

/// The state of a source after `i` uniform fills of `n` residues.
pub open spec fn after_uniforms<M: Modulus, R: RandomFillUniformInModulus<M>>(
    rng: R,
    q: int,
    n: nat,
    i: nat,
) -> R
    decreases i,
{
    if i == 0 {
        rng
    } else {
        after_uniforms::<M, R>(rng, q, n, (i - 1) as nat).after_uniform(q, n)
    }
}

/// The state of a source after `i` Gaussian fills of `n` residues.
pub open spec fn after_gaussians<M: Modulus, R: RandomFillGaussianInModulus<M>>(
    rng: R,
    q: int,
    n: nat,
    i: nat,
) -> R
    decreases i,
{
    if i == 0 {
        rng
    } else {
        after_gaussians::<M, R>(rng, q, n, (i - 1) as nat).after_gaussian(q, n)
    }
}

/// The `i`-th uniform fill of `n` residues.
pub open spec fn uniform_fill<M: Modulus, R: RandomFillUniformInModulus<M>>(
    rng: R,
    q: int,
    n: nat,
    i: nat,
) -> Seq<int> {
    after_uniforms::<M, R>(rng, q, n, i).uniform(q, n)
}

/// The `i`-th Gaussian fill of `n` residues.
pub open spec fn gaussian_fill<M: Modulus, R: RandomFillGaussianInModulus<M>>(
    rng: R,
    q: int,
    n: nat,
    i: nat,
) -> Seq<int> {
    after_gaussians::<M, R>(rng, q, n, i).gaussian(q, n)
}

/// A source that hands out recorded numbers in their order, as residues, and zeros after the
/// last one.
pub struct SampleTape {
    pub samples: Vec<i64>,
    pub position: usize,
}

impl SampleTape {
    pub fn new(samples: Vec<i64>) -> (r: SampleTape)
        ensures
            r.samples == samples,
            r.position == 0,
    {
        SampleTape { samples, position: 0 }
    }

    /// The number that comes `i` numbers after the next one.
    pub open spec fn sample(self, i: int) -> int {
        if self.position + i < self.samples.len() {
            self.samples[self.position + i] as int
        } else {
            0
        }
    }

    /// The next `n` numbers as residues modulo `q`.
    pub open spec fn residues(self, q: int, n: nat) -> Seq<int> {
        Seq::new(n, |i: int| self.sample(i) % q)
    }

    proof fn lemma_residues(self, q: int, n: nat)
        requires
            q > 0,
        ensures
            self.residues(q, n).len() == n,
            ring::canonical(self.residues(q, n), q),
    {
        assert forall|i: int| 0 <= i < n implies 0 <= #[trigger] self.residues(q, n)[i] < q by {
            lemma_mod_bound(self.sample(i), q);
        }
    }

    /// The source after `n` numbers.
    pub open spec fn skipped(self, n: nat) -> SampleTape {
        SampleTape {
            samples: self.samples,
            position: if self.position + n <= self.samples.len() {
                (self.position + n) as usize
            } else if self.position <= self.samples.len() {
                self.samples.len()
            } else {
                self.position
            },
        }
    }

    /// Hands out the next number as a residue.
    fn next_residue(&mut self, modulus: &CiphertextModulus) -> (r: u64)
        requires
            modulus.wf(),
        ensures
            r == old(self).sample(0) % modulus.q(),
            r < modulus.q(),
            *final(self) == old(self).skipped(1),
    {
        let q: u64 = modulus.q;
        if self.position < self.samples.len() {
            let v: i64 = self.samples[self.position];
            self.position = self.position + 1;
            if v < 0 {
                let t: u64 = ((-(v as i128)) as u128 % q as u128) as u64;
                proof {
                    let (x, m) = (v as int, q as int);
                    lemma_mod_bound(-x, m);
                    lemma_sub_mod_noop(0, -x, m);
                    lemma_small_mod(0, q as nat);
                    if t != 0 {
                        lemma_mod_add_multiples_vanish(0 - t, m);
                        lemma_small_mod((m - t) as nat, q as nat);
                    }
                }
                if t == 0 {
                    0
                } else {
                    q - t
                }
            } else {
                (v as u64) % q
            }
        } else {
            proof {
                lemma_small_mod(0, q as nat);
            }
            0
        }
    }

    /// Hands out the next numbers as residues.
    fn fill_residues(&mut self, modulus: &CiphertextModulus, out: &mut [u64])
        requires
            modulus.wf(),
        ensures
            backend::vals(final(out)@) == old(self).residues(
                modulus.q(),
                old(out).len() as nat,
            ),
            final(out).len() == old(out).len(),
            ring::canonical(backend::vals(final(out)@), modulus.q()),
            *final(self) == old(self).skipped(old(out).len() as nat),
    {
        let n: usize = out.len();
        let ghost start = *self;
        for i in 0..n
            invariant
                modulus.wf(),
                n == out.len(),
                *self == start.skipped(i as nat),
                forall|k: int|
                    0 <= k < i ==> (#[trigger] out[k]) == start.sample(k) % modulus.q()
                        && out[k] < modulus.q(),
        {
            out[i] = self.next_residue(modulus);
        }
        assert(backend::vals(out@) =~= start.residues(modulus.q(), n as nat));
    }
}

impl RandomFillUniformInModulus<CiphertextModulus> for SampleTape {
    open spec fn uniform(&self, q: int, n: nat) -> Seq<int> {
        self.residues(q, n)
    }

    open spec fn after_uniform(&self, q: int, n: nat) -> SampleTape {
        self.skipped(n)
    }

    proof fn lemma_uniform(&self, q: int, n: nat) {
        self.lemma_residues(q, n);
    }

    fn random_fill(&mut self, modulus: &CiphertextModulus, out: &mut [u64]) {
        self.fill_residues(modulus, out);
    }
}

impl RandomFillGaussianInModulus<CiphertextModulus> for SampleTape {
    open spec fn gaussian(&self, q: int, n: nat) -> Seq<int> {
        self.residues(q, n)
    }

    open spec fn after_gaussian(&self, q: int, n: nat) -> SampleTape {
        self.skipped(n)
    }

    proof fn lemma_gaussian(&self, q: int, n: nat) {
        self.lemma_residues(q, n);
    }

    fn random_fill(&mut self, modulus: &CiphertextModulus, out: &mut [u64]) {
        self.fill_residues(modulus, out);
    }
}

impl RandomGaussianElementInModulus<CiphertextModulus> for SampleTape {
    open spec fn gaussian_element(&self, q: int) -> int {
        self.sample(0) % q
    }

    open spec fn after_gaussian_element(&self, q: int) -> SampleTape {
        self.skipped(1)
    }

    proof fn lemma_gaussian_element(&self, q: int) {
        lemma_mod_bound(self.sample(0), q);
    }

    fn random(&mut self, modulus: &CiphertextModulus) -> u64 {
        self.next_residue(modulus)
    }
}

/// Fills follow each other: the first one is what the source gives, the next ones are those of the
/// source after it.
pub proof fn lemma_uniform_fills<M: Modulus, R: RandomFillUniformInModulus<M>>(
    rng: R,
    q: int,
    n: nat,
    i: nat,
)
    ensures
        uniform_fill::<M, R>(rng, q, n, 0) == rng.uniform(q, n),
        uniform_fill::<M, R>(rng, q, n, i + 1) == uniform_fill::<M, R>(
            rng.after_uniform(q, n),
            q,
            n,
            i,
        ),
        after_uniforms::<M, R>(rng, q, n, 0) == rng,
        after_uniforms::<M, R>(rng, q, n, i + 1) == after_uniforms::<M, R>(
            rng.after_uniform(q, n),
            q,
            n,
            i,
        ),
    decreases i,
{
    reveal_with_fuel(after_uniforms, 2);
    if i > 0 {
        lemma_uniform_fills::<M, R>(rng, q, n, (i - 1) as nat);
    }
}

/// Gaussian fills follow each other in the same way.
pub proof fn lemma_gaussian_fills<M: Modulus, R: RandomFillGaussianInModulus<M>>(
    rng: R,
    q: int,
    n: nat,
    i: nat,
)
    ensures
        gaussian_fill::<M, R>(rng, q, n, 0) == rng.gaussian(q, n),
        gaussian_fill::<M, R>(rng, q, n, i + 1) == gaussian_fill::<M, R>(
            rng.after_gaussian(q, n),
            q,
            n,
            i,
        ),
        after_gaussians::<M, R>(rng, q, n, 0) == rng,
        after_gaussians::<M, R>(rng, q, n, i + 1) == after_gaussians::<M, R>(
            rng.after_gaussian(q, n),
            q,
            n,
            i,
        ),
    decreases i,
{
    reveal_with_fuel(after_gaussians, 2);
    if i > 0 {
        lemma_gaussian_fills::<M, R>(rng, q, n, (i - 1) as nat);
    }
}

/// Along the states that a source goes through, each fill is what the state gives.
pub proof fn lemma_uniform_states<M: Modulus, R: RandomFillUniformInModulus<M>>(
    states: Seq<R>,
    q: int,
    n: nat,
    i: int,
)
    requires
        0 <= i < states.len(),
        forall|t: int|
            0 <= t < states.len() - 1 ==> #[trigger] states[t + 1] == states[t].after_uniform(q, n),
    ensures
        after_uniforms::<M, R>(states[0], q, n, i as nat) == states[i],
        uniform_fill::<M, R>(states[0], q, n, i as nat) == states[i].uniform(q, n),
    decreases i,
{
    if i > 0 {
        lemma_uniform_states::<M, R>(states, q, n, i - 1);
        assert(states[(i - 1) + 1] == states[i - 1].after_uniform(q, n));
    }
}

/// Along the states that a source goes through, each fill is what the state gives.
pub proof fn lemma_gaussian_states<M: Modulus, R: RandomFillGaussianInModulus<M>>(
    states: Seq<R>,
    q: int,
    n: nat,
    i: int,
)
    requires
        0 <= i < states.len(),
        forall|t: int|
            0 <= t < states.len() - 1 ==> #[trigger] states[t + 1] == states[t].after_gaussian(
                q,
                n,
            ),
    ensures
        after_gaussians::<M, R>(states[0], q, n, i as nat) == states[i],
        gaussian_fill::<M, R>(states[0], q, n, i as nat) == states[i].gaussian(q, n),
    decreases i,
{
    if i > 0 {
        lemma_gaussian_states::<M, R>(states, q, n, i - 1);
        assert(states[(i - 1) + 1] == states[i - 1].after_gaussian(q, n));
    }
}

/// A tape hands out its numbers one after the other, each as its residue, whatever it is asked
/// for; after the last number come zeros.
pub proof fn lemma_tape(tape: SampleTape, q: int, n: nat)
    requires
        q > 0,
        tape.position <= tape.samples.len(),
    ensures
        ({
            let left = tape.samples.len() - tape.position;
            let drawn = if n <= left {
                n as int
            } else {
                left
            };
            let draws = RandomFillUniformInModulus::<CiphertextModulus>::uniform(&tape, q, n);
            let after = RandomFillUniformInModulus::<CiphertextModulus>::after_uniform(&tape, q, n);
            &&& draws.len() == n
            &&& forall|i: int|
                0 <= i < drawn ==> #[trigger] draws[i] == tape.samples[tape.position + i] as int
                    % q
            &&& forall|i: int| drawn <= i < n ==> #[trigger] draws[i] == 0
            &&& after.samples == tape.samples
            &&& after.position == tape.position + drawn
            &&& RandomFillGaussianInModulus::<CiphertextModulus>::gaussian(&tape, q, n) == draws
            &&& RandomFillGaussianInModulus::<CiphertextModulus>::after_gaussian(&tape, q, n)
                == after
            &&& n == 1
                ==> RandomGaussianElementInModulus::<CiphertextModulus>::gaussian_element(&tape, q)
                == draws[0]
            &&& n == 1
                ==> RandomGaussianElementInModulus::<CiphertextModulus>::after_gaussian_element(
                &tape,
                q,
            ) == after
        }),
{
    lemma_small_mod(0, q as nat);
}

} // verus!
