//! A verified sieve of Eratosthenes.

use vstd::prelude::*;
use vstd::pervasive::VecAdditionalExecFns;
use vstd::arithmetic::div_mod::{lemma_fundamental_div_mod, lemma_fundamental_div_mod_converse};

verus! {

/// n is prime: at least 2 and without a divisor strictly between 1 and n.
pub open spec fn is_prime(n: int) -> bool {
    &&& 2 <= n
    &&& forall|d: int| 2 <= d < n ==> #[trigger] (n % d) != 0
}

/// The prime-counting function: the number of primes not exceeding n.
pub open spec fn prime_count(n: nat) -> nat
    decreases n,
{
    if n < 2 {
        0
    } else {
        prime_count((n - 1) as nat) + if is_prime(n as int) {
            1nat
        } else {
            0nat
        }
    }
}

/// k has a divisor d other than k itself with 2 <= d < bound.
pub open spec fn has_factor_below(k: int, bound: int) -> bool {
    exists|d: int| 2 <= d < bound && d < k && #[trigger] (k % d) == 0
}

/// s lists exactly the primes not exceeding limit, in strictly ascending order.
pub open spec fn lists_primes_up_to(s: Seq<usize>, limit: int) -> bool {
    &&& forall|a: int, b: int| 0 <= a < b < s.len() ==> s[a] < s[b]
    &&& forall|t: int| 0 <= t < s.len() ==> is_prime((#[trigger] s[t]) as int) && s[t] <= limit
    &&& forall|p: usize| 2 <= p <= limit && is_prime(p as int) ==> s.contains(p)
}

/// If d divides i and i divides k, then d divides k.
proof fn lemma_divisor_transitive(k: int, i: int, d: int)
    requires
        0 < d,
        0 < i,
        k % i == 0,
        i % d == 0,
    ensures
        k % d == 0,
{
    lemma_fundamental_div_mod(k, i);
    lemma_fundamental_div_mod(i, d);
    let m = k / i;
    let e = i / d;
    assert(k == (e * m) * d) by (nonlinear_arith)
        requires
            k == i * m,
            i == d * e,
    ;
    lemma_fundamental_div_mod_converse(k, d, e * m, 0);
}

/// Two distinct multiples of i differ by at least i.
proof fn lemma_multiples_gap(a: int, b: int, i: int)
    requires
        0 < i,
        a % i == 0,
        b % i == 0,
        a < b,
    ensures
        a + i <= b,
{
    lemma_fundamental_div_mod(a, i);
    lemma_fundamental_div_mod(b, i);
    let qa = a / i;
    let qb = b / i;
    assert(a + i <= b) by (nonlinear_arith)
        requires
            a == i * qa,
            b == i * qb,
            a < b,
            0 < i,
    ;
}

/// A multiple k of i beyond i whose factors all lie at or above i is at
/// least i squared: its cofactor k / i cannot be smaller than i.
proof fn lemma_multiple_at_least_square(k: int, i: int)
    requires
        2 <= i,
        i < k,
        k % i == 0,
        !has_factor_below(k, i),
    ensures
        i * i <= k,
{
    lemma_fundamental_div_mod(k, i);
    let m = k / i;
    assert(2 <= m) by (nonlinear_arith)
        requires
            k == i * m,
            i < k,
            2 <= i,
    ;
    if m < i {
        assert(k == i * m + 0);
        lemma_fundamental_div_mod_converse(k, m, i, 0);
        assert(m < k) by (nonlinear_arith)
            requires
                k == i * m,
                2 <= i,
                2 <= m,
        ;
        assert(has_factor_below(k, i));
        assert(false);
    }
    assert(i * i <= k) by (nonlinear_arith)
        requires
            k == i * m,
            i <= m,
            0 < i,
    ;
}

/// Computes the ascending sequence of all primes not exceeding limit with
/// the sieve of Eratosthenes, striking multiples of each prime from its
/// square upward.
pub fn generate_primes(limit: usize) -> (primes: Vec<usize>)
    requires
        limit < usize::MAX,
    ensures
        lists_primes_up_to(primes@, limit as int),
        primes@.len() == prime_count(limit as nat),
{
    let mut sieve: Vec<bool> = Vec::new();
    let mut t: usize = 0;
    while t <= limit
        invariant
            limit < usize::MAX,
            t <= limit + 1,
            sieve@.len() == t,
            forall|k: int| 0 <= k < t ==> sieve@[k],
        decreases limit + 1 - t,
    {
        sieve.push(true);
        t = t + 1;
    }
    if limit < 2 {
        let primes: Vec<usize> = Vec::new();
        return primes;
    }
    sieve.set(0, false);
    sieve.set(1, false);
    let mut primes: Vec<usize> = Vec::new();
    let mut i: usize = 2;
    proof {
        assert forall|k: int| 2 <= k <= limit implies sieve@[k] == !has_factor_below(
            k,
            i as int,
        ) by {
            assert(sieve@[k]);
            assert(!has_factor_below(k, 2));
        }
    }
    while i <= limit
        invariant
            limit < usize::MAX,
            2 <= limit,
            2 <= i <= limit + 1,
            sieve@.len() == limit + 1,
            forall|k: int| 2 <= k <= limit ==> #[trigger] sieve@[k] == !has_factor_below(
                k,
                i as int,
            ),
            forall|a: int, b: int| 0 <= a < b < primes@.len() ==> primes@[a] < primes@[b],
            forall|t: int|
                0 <= t < primes@.len() ==> 2 <= (#[trigger] primes@[t]) < i && is_prime(
                    primes@[t] as int,
                ),
            forall|p: usize| 2 <= p < i && is_prime(p as int) ==> primes@.contains(p),
            primes@.len() == prime_count((i - 1) as nat),
        decreases limit + 1 - i,
    {
        if sieve[i] {
            proof {
                assert(!has_factor_below(i as int, i as int));
                assert forall|d: int| 2 <= d < i implies #[trigger] ((i as int) % d) != 0 by {
                    if (i as int) % d == 0 {
                        assert(has_factor_below(i as int, i as int));
                    }
                }
                assert(is_prime(i as int));
            }
            let ghost old_primes = primes@;
            primes.push(i);
            proof {
                assert forall|p: usize| 2 <= p < i + 1 && is_prime(p as int) implies
                    primes@.contains(p) by {
                    if p < i {
                        assert(old_primes.contains(p));
                        let t = choose|t: int| 0 <= t < old_primes.len() && old_primes[t] == p;
                        assert(primes@[t] == p);
                    } else {
                        assert(primes@[old_primes.len() as int] == p);
                    }
                }
                assert(prime_count(i as nat) == prime_count((i - 1) as nat) + 1);
            }
            if i <= limit / i {
                proof {
                    lemma_fundamental_div_mod(limit as int, i as int);
                    assert((i as int) * (i as int) <= limit as int) by (nonlinear_arith)
                        requires
                            limit as int == (i as int) * ((limit as int) / (i as int)) + (
                            limit as int) % (i as int),
                            0 <= (limit as int) % (i as int),
                            i as int <= (limit as int) / (i as int),
                            0 < i as int,
                    ;
                }
                let mut j: usize = i * i;
                proof {
                    lemma_fundamental_div_mod_converse(j as int, i as int, i as int, 0);
                }
                while j <= limit
                    invariant
                        limit < usize::MAX,
                        2 <= i <= limit,
                        sieve@.len() == limit + 1,
                        (i as int) * (i as int) <= j as int,
                        j <= limit ==> (j as int) % (i as int) == 0,
                        forall|k: int| 2 <= k <= limit ==> #[trigger] sieve@[k] == (
                            !has_factor_below(k, i as int) && !((k % (i as int)) == 0 && (i as int)
                                * (i as int) <= k < j)),
                    decreases limit + 1 - j,
                {
                    let ghost j0 = j as int;
                    sieve.set(j, false);
                    if limit - j < i {
                        j = limit + 1;
                        proof {
                            assert forall|k: int| 2 <= k <= limit implies #[trigger] sieve@[k] == (
                                !has_factor_below(k, i as int) && !((k % (i as int)) == 0 && (
                                i as int) * (i as int) <= k < j)) by {
                                if k != j0 && (k % (i as int)) == 0 && j0 < k {
                                    lemma_multiples_gap(j0, k, i as int);
                                    assert(false);
                                }
                            }
                        }
                    } else {
                        j = j + i;
                        proof {
                            lemma_fundamental_div_mod(j0, i as int);
                            let q = j0 / (i as int);
                            assert(j0 + i as int == (q + 1) * (i as int)) by (nonlinear_arith)
                                requires
                                    j0 == (i as int) * q,
                            ;
                            lemma_fundamental_div_mod_converse(j0 + i as int, i as int, q + 1, 0);
                            assert forall|k: int| 2 <= k <= limit implies #[trigger] sieve@[k] == (
                                !has_factor_below(k, i as int) && !((k % (i as int)) == 0 && (
                                i as int) * (i as int) <= k < j)) by {
                                if k != j0 && (k % (i as int)) == 0 && j0 < k < j0 + i as int {
                                    lemma_multiples_gap(j0, k, i as int);
                                    assert(false);
                                }
                            }
                        }
                    }
                }
                proof {
                    assert forall|k: int| 2 <= k <= limit implies #[trigger] sieve@[k]
                        == !has_factor_below(k, i as int + 1) by {
                        if has_factor_below(k, i as int + 1) {
                            let d = choose|d: int|
                                2 <= d < i as int + 1 && d < k && #[trigger] (k % d) == 0;
                            if d < i as int {
                                assert(has_factor_below(k, i as int));
                            } else {
                                if !has_factor_below(k, i as int) {
                                    lemma_multiple_at_least_square(k, i as int);
                                }
                            }
                            assert(!sieve@[k]);
                        } else {
                            if has_factor_below(k, i as int) {
                                let d = choose|d: int|
                                    2 <= d < i as int && d < k && #[trigger] (k % d) == 0;
                                assert(has_factor_below(k, i as int + 1));
                                assert(false);
                            }
                            if (k % (i as int)) == 0 && (i as int) * (i as int) <= k {
                                assert((i as int) < k) by (nonlinear_arith)
                                    requires
                                        2 <= i as int,
                                        (i as int) * (i as int) <= k,
                                ;
                                assert(has_factor_below(k, i as int + 1));
                                assert(false);
                            }
                            assert(sieve@[k]);
                        }
                    }
                }
            } else {
                proof {
                    lemma_fundamental_div_mod(limit as int, i as int);
                    assert((limit as int) < (i as int) * (i as int)) by (nonlinear_arith)
                        requires
                            limit as int == (i as int) * ((limit as int) / (i as int)) + (
                            limit as int) % (i as int),
                            (limit as int) % (i as int) < i as int,
                            (limit as int) / (i as int) < i as int,
                            0 < i as int,
                    ;
                    assert forall|k: int| 2 <= k <= limit implies #[trigger] sieve@[k]
                        == !has_factor_below(k, i as int + 1) by {
                        if has_factor_below(k, i as int + 1) && !has_factor_below(k, i as int) {
                            let d = choose|d: int|
                                2 <= d < i as int + 1 && d < k && #[trigger] (k % d) == 0;
                            if d < i as int {
                                assert(has_factor_below(k, i as int));
                            } else {
                                lemma_multiple_at_least_square(k, i as int);
                            }
                            assert(false);
                        }
                        if has_factor_below(k, i as int) {
                            let d = choose|d: int|
                                2 <= d < i as int && d < k && #[trigger] (k % d) == 0;
                            assert(has_factor_below(k, i as int + 1));
                        }
                    }
                }
            }
        } else {
            proof {
                assert(has_factor_below(i as int, i as int));
                let d0 = choose|d: int|
                    2 <= d < i as int && d < i as int && #[trigger] ((i as int) % d) == 0;
                assert(!is_prime(i as int)) by {
                    if is_prime(i as int) {
                        assert((i as int) % d0 != 0);
                    }
                }
                assert(prime_count(i as nat) == prime_count((i - 1) as nat));
                assert forall|p: usize| 2 <= p < i + 1 && is_prime(p as int) implies
                    primes@.contains(p) by {
                    assert(p < i);
                }
                assert forall|k: int| 2 <= k <= limit implies #[trigger] sieve@[k]
                    == !has_factor_below(k, i as int + 1) by {
                    if has_factor_below(k, i as int + 1) && !has_factor_below(k, i as int) {
                        let d = choose|d: int|
                            2 <= d < i as int + 1 && d < k && #[trigger] (k % d) == 0;
                        if d < i as int {
                            assert(has_factor_below(k, i as int));
                        } else {
                            lemma_divisor_transitive(k, i as int, d0);
                            assert(has_factor_below(k, i as int));
                        }
                        assert(false);
                    }
                    if has_factor_below(k, i as int) {
                        let d = choose|d: int|
                            2 <= d < i as int && d < k && #[trigger] (k % d) == 0;
                        assert(has_factor_below(k, i as int + 1));
                    }
                }
            }
        }
        i = i + 1;
    }
    primes
}

} // verus!
