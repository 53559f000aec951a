use vstd::prelude::*;

use crate::cache::{reachable_primes, GlobalPrimes};
use crate::primality::{
    lemma_divides_trans, lemma_prime_divisor, lemma_primes_below, lemma_primes_below_at,
    lemma_primes_below_floor, lemma_primes_below_len, lemma_primes_below_next,
    lemma_primes_below_prefix, nondecreasing, prime, primes_below, product,
};
use crate::sequence::primes;
use crate::wheel::CANDIDATE_LIMIT;

verus! {

/// The prime at zero-based position `k`: the prime with exactly `k` primes
/// below it. The cache is grown to hold at least `k + 1` primes. That prime
/// must lie below `CANDIDATE_LIMIT`, and `k + 1` must fit a `usize`.
pub fn nth_prime(cache: &mut GlobalPrimes, k: usize) -> (r: u64)
    requires
        old(cache).wf(),
        k < reachable_primes().len(),
        k < usize::MAX,
    ensures
        final(cache).wf(),
        old(cache).cursor() <= final(cache).cursor(),
        prime(r as int),
        primes_below(r as nat).len() == k,
{
    cache.generate_count(k + 1);
    proof {
        cache.lemma_wf();
        lemma_primes_below(cache.cursor() as nat);
        lemma_primes_below_at(cache.cursor() as nat, k as int);
    }
    cache.get(k)
}

/// Whether `n` is prime. The cache is grown until its largest prime is at
/// least `n`, then searched. `n` must lie below `CANDIDATE_LIMIT`.
pub fn is_prime(cache: &mut GlobalPrimes, n: u64) -> (r: bool)
    requires
        old(cache).wf(),
        n < CANDIDATE_LIMIT,
    ensures
        final(cache).wf(),
        old(cache).cursor() <= final(cache).cursor(),
        r == prime(n as int),
{
    cache.generate_upto(n);
    proof {
        cache.lemma_wf();
        lemma_primes_below(cache.cursor() as nat);
    }
    cache.contains(n)
}

/// Returns the cache to its seed state: the primes 2, 3 and 5, the cursor
/// on 7. Every query answers afterwards as it did before.
pub fn clear_prime_cache(cache: &mut GlobalPrimes)
    ensures
        final(cache).wf(),
        final(cache).cached() == seq![2u64, 3, 5],
        final(cache).cursor() == 7,
{
    cache.reset();
}

/// Writes the prime factors of `n` into `factors`, in nondecreasing order,
/// replacing what it held. The primes are walked from 2 on, and each is
/// divided out as often as it divides what is left. For `n` below 2 the
/// buffer holds just `n`. `n` must fit a walk position, as every `u64` does
/// where `usize` has 64 bits.
pub fn factorize(cache: &mut GlobalPrimes, n: u64, factors: &mut Vec<u64>)
    requires
        old(cache).wf(),
        n <= usize::MAX,
    ensures
        final(cache).wf(),
        old(cache).cursor() <= final(cache).cursor(),
        n < 2 ==> final(factors)@ == seq![n],
        n >= 2 ==> {
            &&& nondecreasing(final(factors)@)
            &&& forall|i: int|
                0 <= i < final(factors)@.len() ==> prime(#[trigger] final(factors)@[i] as int)
            &&& product(final(factors)@) == n
        },
{
    factors.clear();
    if n < 2 {
        factors.push(n);
        return;
    }
    let mut k = n;
    let mut walk = primes();
    let ghost mut lo: int = 2;
    proof {
        reveal_with_fuel(primes_below, 3);
        assert(!prime(0));
        assert(!prime(1));
        assert(factors@ =~= Seq::<u64>::empty());
    }
    loop
        invariant_except_break
            2 <= n <= usize::MAX,
            2 <= lo <= k <= n,
            walk.position() == primes_below(lo as nat).len(),
            product(factors@) * k == n,
            nondecreasing(factors@),
            forall|i: int| 0 <= i < factors@.len() ==> prime(#[trigger] factors@[i] as int),
            forall|i: int| 0 <= i < factors@.len() ==> #[trigger] factors@[i] < lo,
            forall|q: int| 2 <= q < lo && prime(q) ==> #[trigger] (k as int % q) != 0,
        invariant
            cache.wf(),
            old(cache).cursor() <= cache.cursor(),
        ensures
            nondecreasing(factors@),
            forall|i: int| 0 <= i < factors@.len() ==> prime(#[trigger] factors@[i] as int),
            product(factors@) == n,
            cache.wf(),
            old(cache).cursor() <= cache.cursor(),
        decreases k - lo,
    {
        proof {
            lemma_primes_below_len(lo as nat);
            lemma_prime_divisor(k as int);
        }
        let ghost q = choose|q: int| prime(q) && q <= k && #[trigger] (k as int % q) == 0;
        match walk.next(cache) {
            Some(p) => {
                proof {
                    lemma_primes_below(CANDIDATE_LIMIT as nat);
                    if lo > CANDIDATE_LIMIT {
                        lemma_primes_below_prefix(
                            CANDIDATE_LIMIT as nat,
                            lo as nat,
                        );
                    }
                    lemma_primes_below_floor(
                        lo as nat,
                        CANDIDATE_LIMIT as nat,
                    );
                    if q < CANDIDATE_LIMIT {
                        lemma_primes_below_next(lo as nat, CANDIDATE_LIMIT as nat, q);
                    }
                    lemma_primes_below_at(CANDIDATE_LIMIT as nat, primes_below(lo as nat).len() as int);
                }
                assert(lo <= p <= k);
                assert(prime(p as int));
                assert(primes_below(p as nat).len() == walk.position() - 1);
                let ghost k_start = k;
                while k % p == 0
                    invariant
                        k <= k_start,
                        prime(p as int),
                        lo <= p,
                        1 <= k <= n,
                        product(factors@) * k == n,
                        nondecreasing(factors@),
                        forall|i: int| 0 <= i < factors@.len() ==> prime(#[trigger] factors@[i] as int),
                        forall|i: int| 0 <= i < factors@.len() ==> #[trigger] factors@[i] <= p,
                        forall|r: int| 2 <= r < lo && prime(r) ==> #[trigger] (k as int % r) != 0,
                    decreases k,
                {
                    let ghost f = factors@;
                    let ghost k0 = k;
                    factors.push(p);
                    k = k / p;
                    proof {
                        assert(factors@.drop_last() =~= f);
                        vstd::arithmetic::div_mod::lemma_fundamental_div_mod(k0 as int, p as int);
                        assert(k0 == p * k);
                        assert(product(factors@) * k == n) by (nonlinear_arith)
                            requires
                                product(factors@) == product(f) * p,
                                product(f) * k0 == n,
                                k0 == p * k,
                        ;
                        assert(k >= 1 && k < k0) by (nonlinear_arith)
                            requires
                                k0 == p * k,
                                k0 >= 1,
                                p >= 2,
                        ;
                        assert forall|r: int| 2 <= r < lo && prime(r) implies #[trigger] (k as int
                            % r) != 0 by {
                            if k as int % r == 0 {
                                vstd::arithmetic::div_mod::lemma_mod_multiples_basic(p as int, k as int);
                                assert((p * k) % (k as int) == 0) by (nonlinear_arith)
                                    requires
                                        (p * k) % (k as int) == (p as int * k as int) % (k as int),
                                        (p as int * k as int) % (k as int) == 0,
                                ;
                                lemma_divides_trans(r, k as int, k0 as int);
                            }
                        }
                    }
                }
                if k == 1 {
                    assert(product(factors@) * k == product(factors@) * 1);
                    break;
                }
                proof {
                    assert forall|r: int| 2 <= r < p + 1 && prime(r) implies #[trigger] (k as int
                        % r) != 0 by {
                        if lo <= r < p {
                            lemma_primes_below_next(lo as nat, CANDIDATE_LIMIT as nat, r);
                        }
                    }
                    lemma_prime_divisor(k as int);
                    let q2 = choose|q2: int| prime(q2) && q2 <= k && #[trigger] (k as int % q2) == 0;
                    assert(q2 >= p + 1);
                    lo = p + 1;
                    assert(primes_below(lo as nat) == primes_below(p as nat).push(p));
                }
            },
            None => {
                proof {
                    assert(k as int >= CANDIDATE_LIMIT) by {
                        if (q as int) < CANDIDATE_LIMIT {
                            lemma_primes_below_next(lo as nat, CANDIDATE_LIMIT as nat, q);
                        }
                    }
                    assert(prime(k as int)) by {
                        if !prime(k as int) {
                            let d = choose|d: int| 2 <= d < k && #[trigger] (k as int % d) == 0;
                            lemma_prime_divisor(d);
                            let r = choose|r: int| prime(r) && r <= d && #[trigger] (d % r) == 0;
                            lemma_divides_trans(r, d, k as int);
                            if r < CANDIDATE_LIMIT {
                                if r >= lo {
                                    lemma_primes_below_next(lo as nat, CANDIDATE_LIMIT as nat, r);
                                }
                            } else {
                                vstd::arithmetic::div_mod::lemma_fundamental_div_mod(k as int, d);
                                let m = k as int / d;
                                assert(m >= 1) by (nonlinear_arith)
                                    requires
                                        k as int == d * m + 0,
                                        d >= 2,
                                        k >= 2,
                                ;
                                assert(k as int >= 2 * d) by (nonlinear_arith)
                                    requires
                                        k as int == d * m + 0,
                                        m >= 1,
                                        d < k,
                                        d >= 2,
                                ;
                            }
                        }
                    }
                }
                let ghost f = factors@;
                factors.push(k);
                proof {
                    assert(factors@.drop_last() =~= f);
                }
                break;
            },
        }
    }
}

} // verus!
