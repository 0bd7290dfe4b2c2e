//! A probability-theory toolbox: a distribution interface, the continuous
//! uniform distribution, and a sampling sequence, all over exact rational
//! numbers.

use vstd::prelude::*;

pub mod distributions;
pub mod ratio;

verus! {

use crate::ratio::{Rat, Ratio};

/// A source of random variates distributed uniformly on [0, 1). The library
/// never constructs or seeds one; the embedding application supplies it and
/// is answerable for the distribution of its output. The contract asks only
/// what every draw must satisfy: a small fraction at least zero and below
/// one.
pub trait RandomSource {
    /// Draw the next variate, advancing the source's internal state.
    fn next_unit(&mut self) -> (u: Ratio)
        ensures
            u@.is_unit_variate(),
    ;
}

/// An interface for a probability distribution over values of type `T`.
pub trait Distribution<T> {
    /// The distribution's parts are within the machine bounds that its
    /// arithmetic needs.
    spec fn wf(&self) -> bool;

    /// The argument of `cdf` is within the machine bounds that the
    /// arithmetic needs.
    spec fn in_domain(&self, x: T) -> bool;

    /// What every drawn sample satisfies.
    spec fn is_sample(&self, x: T) -> bool;

    /// Compute the cumulative distribution function (CDF) at point `x`: the
    /// probability that the random variable is at most `x`.
    fn cdf(&self, x: T) -> (p: Ratio)
        requires
            self.wf(),
            self.in_domain(x),
        ensures
            p@.valid(),
            p@.in_unit(),
    ;

    /// Compute the inverse of the cumulative distribution function at
    /// probability `p`.
    fn inv_cdf(&self, p: Ratio) -> (x: T)
        requires
            self.wf(),
            p@.small(),
    ;

    /// Draw a random sample, consuming entropy from `source`.
    fn sample<R: RandomSource>(&self, source: &mut R) -> (x: T)
        requires
            self.wf(),
        ensures
            self.is_sample(x),
    ;
}

/// A means of drawing a sequence of samples from a probability distribution.
/// Each advancement draws one fresh sample; the sequence never ends on its
/// own, so its length is entirely the caller's choice.
pub struct Sampler<D, R>(pub D, pub R);

impl<D, R: RandomSource> Sampler<D, R> {
    /// Draw the next sample of the sequence. Always yields a value: the
    /// sequence does not terminate on its own.
    pub fn next<T>(&mut self) -> (s: Option<T>) where D: Distribution<T>
        requires
            old(self).0.wf(),
        ensures
            final(self).0 == old(self).0,
            s matches Some(x) && final(self).0.is_sample(x),
    {
        Some(self.0.sample(&mut self.1))
    }

    /// Draw the first `n` samples of the sequence: exactly `n` values, each
    /// an independent draw from the wrapped distribution.
    pub fn take<T>(&mut self, n: usize) -> (samples: Vec<T>) where D: Distribution<T>
        requires
            old(self).0.wf(),
        ensures
            final(self).0 == old(self).0,
            samples.len() == n,
            forall|i: int| 0 <= i < n ==> final(self).0.is_sample(#[trigger] samples[i]),
    {
        let mut samples: Vec<T> = Vec::new();
        let mut i: usize = 0;
        while i < n
            invariant
                i == samples.len() <= n,
                self.0 == old(self).0,
                self.0.wf(),
                forall|j: int| 0 <= j < i ==> self.0.is_sample(#[trigger] samples[j]),
            decreases n - i,
        {
            let s = self.0.sample(&mut self.1);
            samples.push(s);
            i = i + 1;
        }
        samples
    }
}

} // verus!
