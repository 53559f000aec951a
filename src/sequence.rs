use vstd::prelude::*;

use crate::cache::{reachable_primes, GlobalPrimes};
use crate::primality::{
    lemma_primes_below_bounded, lemma_primes_below_len, lemma_primes_below_prefix, primes_below,
};
use crate::wheel::CANDIDATE_LIMIT;

verus! {

/// An ascending walk over the primes, by position: the `i`-th advance yields
/// the `i`-th prime. Walks are independent of each other; all of them read,
/// and extend, the cache they are handed.
pub struct Primes {
    prime_index: usize,
}

impl Primes {
    /// The position of the prime that the next advance yields.
    pub closed spec fn position(&self) -> nat {
        self.prime_index as nat
    }

    /// A walk that starts at the first prime, 2.
    pub fn new() -> (r: Primes)
        ensures
            r.position() == 0,
    {
        Primes { prime_index: 0 }
    }

    /// Yields the prime at this walk's position and moves one on. Where the
    /// cache does not yet reach that position, it is first grown to about
    /// one and a half times its largest prime, then as far as the position
    /// needs. The walk ends only past the last reachable prime, or where its
    /// position can no longer grow.
    pub fn next(&mut self, cache: &mut GlobalPrimes) -> (r: Option<u64>)
        requires
            old(cache).wf(),
        ensures
            final(cache).wf(),
            old(cache).cursor() <= final(cache).cursor(),
            r == if old(self).position() < reachable_primes().len() && old(self).position()
                < usize::MAX {
                Some(reachable_primes()[old(self).position() as int])
            } else {
                None::<u64>
            },
            final(self).position() == if r is Some {
                old(self).position() + 1
            } else {
                old(self).position()
            },
    {
        if self.prime_index >= cache.len() {
            let last_prime = cache.last_prime();
            cache.generate_upto(last_prime.saturating_add(last_prime / 2));
            if self.prime_index < usize::MAX {
                cache.generate_count(self.prime_index + 1);
            }
        }
        proof {
            cache.lemma_wf();
        }
        if self.prime_index < cache.len() {
            let prime = cache.get(self.prime_index);
            self.prime_index = self.prime_index + 1;
            Some(prime)
        } else {
            None
        }
    }
}

/// A walk over all primes, from 2 on.
pub fn primes() -> (r: Primes)
    ensures
        r.position() == 0,
{
    Primes::new()
}

/// The number of reachable primes no larger than `max`.
pub open spec fn count_upto(max: u64) -> nat {
    primes_below(
        if max + 1 < CANDIDATE_LIMIT {
            (max + 1) as nat
        } else {
            CANDIDATE_LIMIT as nat
        },
    ).len()
}

/// A walk over the primes no larger than a bound, in ascending order. Once
/// it has ended it stays ended.
pub struct PrimesUpto {
    walk: Primes,
    max: u64,
    done: bool,
}

impl PrimesUpto {
    /// The position of the prime that the next advance considers.
    pub closed spec fn position(&self) -> nat {
        self.walk.position()
    }

    /// The inclusive bound.
    pub closed spec fn bound(&self) -> u64 {
        self.max
    }

    /// The walk has ended.
    pub closed spec fn finished(&self) -> bool {
        self.done
    }

    /// Yields the next prime if it is no larger than the bound; otherwise
    /// ends the walk, and from then on yields nothing.
    pub fn next(&mut self, cache: &mut GlobalPrimes) -> (r: Option<u64>)
        requires
            old(cache).wf(),
        ensures
            final(cache).wf(),
            old(cache).cursor() <= final(cache).cursor(),
            final(self).bound() == old(self).bound(),
            old(self).finished() ==> r is None && *final(self) == *old(self),
            !old(self).finished() ==> if old(self).position() < reachable_primes().len()
                && old(self).position() < usize::MAX && reachable_primes()[old(
                self,
            ).position() as int] <= old(self).bound() {
                &&& r == Some(reachable_primes()[old(self).position() as int])
                &&& final(self).position() == old(self).position() + 1
                &&& !final(self).finished()
            } else {
                r is None && final(self).finished()
            },
    {
        if self.done {
            return None;
        }
        match self.walk.next(cache) {
            Some(p) => {
                if p <= self.max {
                    Some(p)
                } else {
                    self.done = true;
                    None
                }
            },
            None => {
                self.done = true;
                None
            },
        }
    }

    /// Drains the walk: the primes it has yet to yield, in order. From a
    /// fresh walk these are all reachable primes up to the bound. The bound
    /// must fit a position, as it always does where `usize` has 64 bits.
    pub fn collect(self, cache: &mut GlobalPrimes) -> (r: Vec<u64>)
        requires
            old(cache).wf(),
            self.bound() <= usize::MAX,
        ensures
            final(cache).wf(),
            old(cache).cursor() <= final(cache).cursor(),
            r@ == if self.finished() || self.position() >= count_upto(self.bound()) {
                Seq::empty()
            } else {
                reachable_primes().subrange(
                    self.position() as int,
                    count_upto(self.bound()) as int,
                )
            },
    {
        let ghost start = self;
        let ghost end = count_upto(self.bound());
        let mut walk = self;
        let mut out: Vec<u64> = Vec::new();
        proof {
            let m: nat = if self.bound() + 1 < CANDIDATE_LIMIT {
                (self.bound() + 1) as nat
            } else {
                CANDIDATE_LIMIT as nat
            };
            lemma_primes_below_len(m);
            lemma_primes_below_prefix(m, CANDIDATE_LIMIT as nat);
        }
        loop
            invariant
                cache.wf(),
                old(cache).cursor() <= cache.cursor(),
                start == self,
                walk.bound() == start.bound(),
                end == count_upto(start.bound()),
                end <= reachable_primes().len(),
                end <= start.bound(),
                start.bound() <= usize::MAX,
                walk.finished() ==> out@ == (if start.finished() || start.position() >= end {
                    Seq::empty()
                } else {
                    reachable_primes().subrange(start.position() as int, end as int)
                }),
                !walk.finished() ==> {
                    &&& !start.finished()
                    &&& start.position() <= walk.position()
                    &&& if walk.position() == start.position() {
                        out@ == Seq::<u64>::empty()
                    } else {
                        walk.position() <= end && out@ == reachable_primes().subrange(
                            start.position() as int,
                            walk.position() as int,
                        )
                    }
                },
            decreases usize::MAX - walk.position(),
        {
            let ghost pos = walk.position();
            let ghost was_finished = walk.finished();
            proof {
                if !was_finished && pos < reachable_primes().len() {
                    lemma_primes_below_bounded(
                        CANDIDATE_LIMIT as nat,
                        start.bound() as int,
                        pos as int,
                    );
                }
            }
            match walk.next(cache) {
                Some(p) => {
                    out.push(p);
                },
                None => {
                    proof {
                        if !was_finished {
                            assert(pos >= end);
                        }
                    }
                    return out;
                },
            }
        }
    }
}

/// A walk over the primes no larger than `max`, from 2 on.
pub fn primes_upto(max: u64) -> (r: PrimesUpto)
    ensures
        r.position() == 0,
        r.bound() == max,
        !r.finished(),
{
    PrimesUpto { walk: Primes::new(), max, done: false }
}

} // verus!
