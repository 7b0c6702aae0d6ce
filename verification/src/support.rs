//! Support analysis: labels for the primes up to a bound and the fixed
//! Zariski-closedness decision table.

use vstd::prelude::*;
use crate::labels::{format_label, label_of};
use crate::primes::{generate_primes, lists_primes_up_to, prime_count};

verus! {

/// Holds a bound together with the primes not exceeding it; each prime
/// stands for the prime ideal it generates in the integers.
pub struct SupportAnalyzerRust {
    pub max_prime: usize,
    pub primes: Vec<usize>,
}

impl SupportAnalyzerRust {
    /// The primes field lists exactly the primes up to the bound, in
    /// ascending order, and counts them correctly.
    pub open spec fn wf(&self) -> bool {
        &&& lists_primes_up_to(self.primes@, self.max_prime as int)
        &&& self.primes@.len() == prime_count(self.max_prime as nat)
    }

    /// Builds the analyzer for the given bound by running the sieve.
    pub fn new(max_prime: usize) -> (analyzer: Self)
        requires
            max_prime < usize::MAX,
        ensures
            analyzer.wf(),
            analyzer.max_prime == max_prime,
    {
        let primes = generate_primes(max_prime);
        SupportAnalyzerRust { max_prime, primes }
    }

    /// Maps each prime p to its support label "(p)", preserving length
    /// and order.
    pub fn compute_support(&self) -> (support: Vec<String>)
        ensures
            support@.len() == self.primes@.len(),
            forall|k: int|
                0 <= k < support@.len() ==> (#[trigger] support@[k])@ == label_of(
                    self.primes@[k] as nat,
                ),
    {
        let mut support: Vec<String> = Vec::new();
        let mut idx: usize = 0;
        while idx < self.primes.len()
            invariant
                idx <= self.primes@.len(),
                support@.len() == idx,
                forall|k: int|
                    0 <= k < idx ==> (#[trigger] support@[k])@ == label_of(self.primes@[k] as nat),
            decreases self.primes@.len() - idx,
        {
            let label = format_label(self.primes[idx]);
            support.push(label);
            idx = idx + 1;
        }
        support
    }

    /// Classifies the support by the fixed decision table: an empty
    /// support is closed; a support as large as the whole prime set is
    /// not; a strictly smaller (finite) support is closed.
    pub fn is_zariski_closed(&self, support: &[String]) -> (closed: bool)
        ensures
            closed == (support@.len() == 0 || support@.len() < self.primes@.len()),
    {
        if support.len() == 0 {
            return true;
        }
        if support.len() == self.primes.len() {
            return false;
        }
        support.len() < self.primes.len()
    }
}

} // verus!
