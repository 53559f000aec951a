use vstd::prelude::*;

use crate::primality::{prime, primes_below};

verus! {

/// The primes that the wheel skips; they seed every cache.
pub const WHEEL_PRIMES: [u64; 3] = [2, 3, 5];

/// The wheel's modulus, `2 * 3 * 5`.
pub const WHEEL_MODULUS: u64 = 30;

/// The first candidate that the cursor never tests. It is a wheel position
/// (`1` modulo 30), so a cursor that runs out stops exactly on it, and every
/// cursor step below it stays clear of `u64` overflow.
pub const CANDIDATE_LIMIT: u64 = 18446744073709551541;

/// The `i`-th residue modulo 30 that is coprime to 30.
pub open spec fn wheel_spec(i: int) -> int {
    if i == 0 {
        1
    } else if i == 1 {
        7
    } else if i == 2 {
        11
    } else if i == 3 {
        13
    } else if i == 4 {
        17
    } else if i == 5 {
        19
    } else if i == 6 {
        23
    } else {
        29
    }
}

/// The candidate at cursor `(base, index)`.
pub open spec fn candidate_at(base: int, index: int) -> int {
    base + wheel_spec(index)
}

/// Index and base of the cursor that follows `(base, index)`.
pub open spec fn next_index(index: int) -> int {
    if index + 1 == 8 {
        0
    } else {
        index + 1
    }
}

pub open spec fn next_base(base: int, index: int) -> int {
    if index + 1 == 8 {
        base + 30
    } else {
        base
    }
}

/// The residue of the wheel at position `i`.
pub fn wheel_offset(i: usize) -> (r: u64)
    requires
        i < 8,
    ensures
        r == wheel_spec(i as int),
{
    if i == 0 {
        1
    } else if i == 1 {
        7
    } else if i == 2 {
        11
    } else if i == 3 {
        13
    } else if i == 4 {
        17
    } else if i == 5 {
        19
    } else if i == 6 {
        23
    } else {
        29
    }
}

/// No integer strictly between a wheel candidate (at least 7) and the next
/// one is prime: each is divisible by 2, 3 or 5.
pub proof fn lemma_wheel_step(base: int, index: int)
    requires
        base >= 0,
        base % 30 == 0,
        0 <= index < 8,
        candidate_at(base, index) >= 7,
    ensures
        candidate_at(next_base(base, index), next_index(index)) > candidate_at(base, index),
        forall|n: int|
            candidate_at(base, index) < n < candidate_at(next_base(base, index), next_index(index))
                ==> !#[trigger] prime(n),
{
    let c = candidate_at(base, index);
    let c2 = candidate_at(next_base(base, index), next_index(index));
    assert forall|n: int| c < n < c2 implies !#[trigger] prime(n) by {
        let q = base / 30;
        assert(base == 30 * q);
        let r = n - base;
        assert(n % 2 == 0 || n % 3 == 0 || n % 5 == 0) by {
            assert(n == 30 * q + r);
            if r % 2 == 0 {
                assert(n % 2 == 0);
            } else if r % 3 == 0 {
                assert(n % 3 == 0);
            } else {
                assert(r % 5 == 0);
                assert(n % 5 == 0);
            }
        }
    }
}

/// The primes below 7 are the wheel's own.
pub proof fn lemma_seed()
    ensures
        primes_below(7) == seq![2u64, 3, 5],
{
    assert(prime(2));
    assert(prime(3));
    assert forall|d: int| 2 <= d < 5 implies #[trigger] (5int % d) != 0 by {
        if d == 2 {
        } else if d == 3 {
        } else {
        }
    }
    assert(prime(5));
    assert(4int % 2 == 0);
    assert(6int % 2 == 0);
    assert(!prime(4));
    assert(!prime(6));
    reveal_with_fuel(primes_below, 8);
    assert(primes_below(7) =~= seq![2u64, 3, 5]);
}

} // verus!
