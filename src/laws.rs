use vstd::prelude::*;

use crate::cache::reachable_primes;
use crate::primality::{
    lemma_primes_below, lemma_primes_below_at, lemma_primes_below_prefix, lemma_trial_division,
    prime, primes_below,
};
use crate::sequence::count_upto;
use crate::wheel::CANDIDATE_LIMIT;

verus! {

/// The naive sieve: the integers of `[2, n)`, each kept when no integer
/// kept before it divides it.
pub open spec fn trial_sieve(n: nat) -> Seq<u64>
    decreases n,
{
    if n <= 2 {
        Seq::empty()
    } else {
        let s = trial_sieve((n - 1) as nat);
        if forall|i: int| 0 <= i < s.len() ==> #[trigger] ((n - 1) % (s[i] as int)) != 0 {
            s.push((n - 1) as u64)
        } else {
            s
        }
    }
}

proof fn lemma_trial_sieve(n: nat)
    requires
        n <= u64::MAX + 1,
    ensures
        trial_sieve(n) == primes_below(n),
    decreases n,
{
    if n <= 2 {
        reveal_with_fuel(primes_below, 3);
        assert(!prime(0));
        assert(!prime(1));
    } else {
        lemma_trial_sieve((n - 1) as nat);
        lemma_trial_division(n - 1);
    }
}

/// The bounded walk from 2 to `max` yields just what the naive sieve of
/// `[2, max]` keeps.
pub proof fn lemma_primes_upto_is_trial_sieve(max: u64)
    requires
        max < CANDIDATE_LIMIT,
    ensures
        reachable_primes().subrange(0, count_upto(max) as int) == trial_sieve((max + 1) as nat),
{
    lemma_trial_sieve((max + 1) as nat);
    lemma_primes_below_prefix((max + 1) as nat, CANDIDATE_LIMIT as nat);
}

/// A prime with exactly `k` primes below it, which `nth_prime(k)` returns,
/// is the `k`-th prime that a walk yields, and that one is such a prime.
pub proof fn lemma_nth_prime_is_walk_value(k: nat, r: u64)
    requires
        k < reachable_primes().len(),
    ensures
        (prime(r as int) && primes_below(r as nat).len() == k) <==> r == reachable_primes()[k as int],
{
    let s = reachable_primes();
    lemma_primes_below(CANDIDATE_LIMIT as nat);
    lemma_primes_below_at(CANDIDATE_LIMIT as nat, k as int);
    if prime(r as int) && primes_below(r as nat).len() == k {
        if r >= CANDIDATE_LIMIT {
            lemma_primes_below_prefix(CANDIDATE_LIMIT as nat, r as nat);
        } else {
            assert(s.contains(r));
            let j = choose|j: int| 0 <= j < s.len() && s[j] == r;
            lemma_primes_below_at(CANDIDATE_LIMIT as nat, j);
        }
    }
}

/// `n` is prime exactly when the bounded walk from 2 to `n` yields it.
pub proof fn lemma_is_prime_iff_listed(n: u64)
    requires
        n < CANDIDATE_LIMIT,
    ensures
        prime(n as int) <==> reachable_primes().subrange(0, count_upto(n) as int).contains(n),
{
    lemma_primes_below_prefix((n + 1) as nat, CANDIDATE_LIMIT as nat);
    lemma_primes_below((n + 1) as nat);
}

} // verus!
