use vstd::prelude::*;

use crate::primality::{
    lemma_primes_below, lemma_primes_below_gap, lemma_primes_below_prefix, lemma_trial_division,
    prime, primes_below,
};
use crate::wheel::{
    candidate_at, lemma_seed, lemma_wheel_step, next_base, next_index, wheel_offset,
    CANDIDATE_LIMIT, WHEEL_MODULUS, WHEEL_PRIMES,
};

verus! {

/// Every prime that a cache can ever hold: those below `CANDIDATE_LIMIT`.
pub open spec fn reachable_primes() -> Seq<u64> {
    primes_below(CANDIDATE_LIMIT as nat)
}

/// The prime cache of one scope: the ascending list of all primes below the
/// wheel cursor, and the cursor, which names the next candidate to test.
///
/// The caller owns the cache and lends it to each query; queries extend it
/// as far as they need and never shrink it, but `reset` returns it to its
/// seed state.
pub struct GlobalPrimes {
    primes: Vec<u64>,
    wheel_index: usize,
    wheel_base: u64,
}

impl GlobalPrimes {
    /// The cached primes, ascending.
    pub closed spec fn cached(&self) -> Seq<u64> {
        self.primes@
    }

    /// The next candidate that the cache will test.
    pub closed spec fn cursor(&self) -> int {
        candidate_at(self.wheel_base as int, self.wheel_index as int)
    }

    /// The largest cached prime.
    pub open spec fn last(&self) -> u64 {
        self.cached().last()
    }

    /// The cursor has reached `CANDIDATE_LIMIT`: the cache holds every
    /// reachable prime and grows no further.
    pub open spec fn exhausted(&self) -> bool {
        self.cursor() == CANDIDATE_LIMIT
    }

    /// The cache holds exactly the primes below its cursor, which is a wheel
    /// position past the seed primes and not beyond `CANDIDATE_LIMIT`.
    pub closed spec fn wf(&self) -> bool {
        &&& self.wheel_index < 8
        &&& self.wheel_base % 30 == 0
        &&& 7 <= self.cursor() <= CANDIDATE_LIMIT
        &&& self.primes@.len() >= 3
        &&& self.primes@ == primes_below(self.cursor() as nat)
    }

    /// What a well-formed cache tells of its contents.
    pub proof fn lemma_wf(&self)
        requires
            self.wf(),
        ensures
            self.cached() == primes_below(self.cursor() as nat),
            7 <= self.cursor() <= CANDIDATE_LIMIT,
            self.cached().len() >= 3,
            self.cached().len() <= reachable_primes().len(),
            reachable_primes().subrange(0, self.cached().len() as int) == self.cached(),
            self.exhausted() ==> self.cached() == reachable_primes(),
            self.cached().take(3) == seq![2u64, 3, 5],
    {
        lemma_primes_below_prefix(self.cursor() as nat, CANDIDATE_LIMIT as nat);
        lemma_primes_below_prefix(7, self.cursor() as nat);
        lemma_seed();
        assert(self.cached().take(3) =~= self.cached().subrange(0, 3));
    }

    /// A cache holding the seed primes 2, 3 and 5, its cursor on 7.
    pub fn new() -> (r: GlobalPrimes)
        ensures
            r.wf(),
            r.cached() == seq![2u64, 3, 5],
            r.cursor() == 7,
    {
        let mut global_primes = GlobalPrimes {
            primes: Vec::with_capacity(1024),
            wheel_index: 0,
            wheel_base: 0,
        };
        global_primes.reset();
        global_primes
    }

    /// Returns the cache to its seed state.
    pub fn reset(&mut self)
        ensures
            final(self).wf(),
            final(self).cached() == seq![2u64, 3, 5],
            final(self).cursor() == 7,
    {
        self.primes.clear();
        let mut i: usize = 0;
        while i < 3
            invariant
                i <= 3,
                self.primes@ == WHEEL_PRIMES@.take(i as int),
            decreases 3 - i,
        {
            self.primes.push(WHEEL_PRIMES[i]);
            i = i + 1;
            assert(self.primes@ =~= WHEEL_PRIMES@.take(i as int));
        }
        self.wheel_index = 1;
        self.wheel_base = 0;
        proof {
            lemma_seed();
            assert(self.primes@ =~= seq![2u64, 3, 5]);
        }
    }

    /// The largest cached prime.
    pub fn last_prime(&self) -> (r: u64)
        requires
            self.wf(),
        ensures
            r == self.last(),
    {
        self.primes[self.primes.len() - 1]
    }

    /// The number of cached primes.
    pub fn len(&self) -> (r: usize)
        requires
            self.wf(),
        ensures
            r == self.cached().len(),
    {
        self.primes.len()
    }

    /// The cached prime at position `i`.
    pub fn get(&self, i: usize) -> (r: u64)
        requires
            self.wf(),
            i < self.cached().len(),
        ensures
            r == self.cached()[i as int],
    {
        self.primes[i]
    }

    /// The candidate under the cursor.
    fn candidate(&self) -> (r: u64)
        requires
            self.wf(),
        ensures
            r == self.cursor(),
    {
        self.wheel_base + wheel_offset(self.wheel_index)
    }

    /// Tests the candidate under the cursor by trial division against every
    /// cached prime, appends it if no cached prime divides it, and moves the
    /// cursor on. Returns whether the candidate was prime.
    fn test_candidate(&mut self) -> (r: bool)
        requires
            old(self).wf(),
            old(self).cursor() < CANDIDATE_LIMIT,
        ensures
            final(self).wf(),
            final(self).cursor() > old(self).cursor(),
            r == prime(old(self).cursor()),
            final(self).cached() == if r {
                old(self).cached().push(old(self).cursor() as u64)
            } else {
                old(self).cached()
            },
    {
        let ghost c0 = self.cursor();
        let candidate = self.candidate();
        let mut coprime = true;
        let mut i: usize = 0;
        while i < self.primes.len()
            invariant
                0 <= i <= self.primes@.len(),
                coprime <==> forall|j: int|
                    0 <= j < i ==> #[trigger] (candidate as int % (self.primes@[j] as int)) != 0,
                self.wf(),
                self.cursor() == c0,
                candidate == c0,
            decreases self.primes@.len() - i,
        {
            proof {
                lemma_primes_below(c0 as nat);
            }
            if candidate % self.primes[i] == 0 {
                coprime = false;
            }
            i = i + 1;
        }
        proof {
            lemma_trial_division(c0);
            lemma_wheel_step(self.wheel_base as int, self.wheel_index as int);
        }
        let ghost base = self.wheel_base as int;
        let ghost index = self.wheel_index as int;
        self.wheel_index = self.wheel_index + 1;
        if self.wheel_index == 8 {
            self.wheel_index = 0;
            self.wheel_base = self.wheel_base + WHEEL_MODULUS;
        }
        assert(self.cursor() == candidate_at(next_base(base, index), next_index(index)));
        if coprime {
            self.primes.push(candidate);
        }
        proof {
            lemma_primes_below_gap((c0 + 1) as nat, self.cursor() as nat);
        }
        coprime
    }

    /// Extends the cache until its largest prime is at least `max`: nothing
    /// happens if it already is; otherwise candidates are tested until the
    /// first prime at least `max` is appended, or the cursor runs out.
    pub fn generate_upto(&mut self, max: u64)
        requires
            old(self).wf(),
        ensures
            final(self).wf(),
            old(self).cursor() <= final(self).cursor(),
            old(self).last() >= max ==> final(self).cached() == old(self).cached()
                && final(self).cursor() == old(self).cursor(),
            final(self).last() >= max || final(self).exhausted(),
            forall|i: int|
                old(self).cached().len() <= i < final(self).cached().len() - 1
                    ==> #[trigger] final(self).cached()[i] < max,
    {
        if max <= self.last_prime() {
            return;
        }
        let ghost start = *self;
        proof {
            self.lemma_wf();
        }
        while self.candidate() < CANDIDATE_LIMIT
            invariant
                self.wf(),
                start == *old(self),
                start.wf(),
                start.last() < max,
                start.cursor() <= self.cursor(),
                start.cached().len() <= self.cached().len(),
                self.last() < max,
                forall|i: int|
                    start.cached().len() <= i < self.cached().len() ==> #[trigger] self.cached()[i]
                        < max,
            decreases CANDIDATE_LIMIT - self.cursor(),
        {
            let candidate = self.candidate();
            if self.test_candidate() {
                if candidate >= max {
                    return;
                }
            }
        }
    }

    /// Extends the cache until it holds at least `count` primes, or the
    /// cursor runs out.
    pub fn generate_count(&mut self, count: usize)
        requires
            old(self).wf(),
        ensures
            final(self).wf(),
            old(self).cursor() <= final(self).cursor(),
            old(self).cached().len() >= count ==> final(self).cached() == old(self).cached()
                && final(self).cursor() == old(self).cursor(),
            old(self).cached().len() < count ==> final(self).cached().len() == count || (
            final(self).exhausted() && final(self).cached().len() < count),
    {
        let ghost start = *self;
        while self.primes.len() < count
            invariant
                self.wf(),
                start == *old(self),
                start.cursor() <= self.cursor(),
                start.cached().len() <= self.cached().len(),
                start.cached().len() >= count ==> *self == start,
                self.cached().len() <= count || *self == start,
            decreases CANDIDATE_LIMIT - self.cursor(),
        {
            if self.candidate() >= CANDIDATE_LIMIT {
                return;
            }
            self.test_candidate();
        }
    }

    /// Whether `n` is among the cached primes, by binary search.
    pub fn contains(&self, n: u64) -> (r: bool)
        requires
            self.wf(),
        ensures
            r == self.cached().contains(n),
    {
        proof {
            lemma_primes_below(self.cursor() as nat);
        }
        let mut lo: usize = 0;
        let mut hi: usize = self.primes.len();
        while lo < hi
            invariant
                self.wf(),
                lo <= hi <= self.primes@.len(),
                forall|i: int| 0 <= i < lo ==> #[trigger] self.primes@[i] < n,
                forall|i: int| hi <= i < self.primes@.len() ==> #[trigger] self.primes@[i] > n,
                forall|i: int, j: int|
                    0 <= i < j < self.primes@.len() ==> #[trigger] self.primes@[i]
                        < #[trigger] self.primes@[j],
            decreases hi - lo,
        {
            let mid = lo + (hi - lo) / 2;
            let v = self.primes[mid];
            if v == n {
                return true;
            } else if v < n {
                lo = mid + 1;
            } else {
                hi = mid;
            }
        }
        proof {
            if self.cached().contains(n) {
                let i = choose|i: int| 0 <= i < self.primes@.len() && self.primes@[i] == n;
            }
        }
        false
    }
}

} // verus!
