use vstd::prelude::*;

verus! {

/// `n` is a prime: at least 2 and divisible by no integer in `[2, n)`.
pub open spec fn prime(n: int) -> bool {
    n >= 2 && forall|d: int| 2 <= d < n ==> #[trigger] (n % d) != 0
}

/// All primes strictly below `n`, in ascending order.
pub open spec fn primes_below(n: nat) -> Seq<u64>
    decreases n,
{
    if n == 0 {
        Seq::empty()
    } else if prime(n - 1) {
        primes_below((n - 1) as nat).push((n - 1) as u64)
    } else {
        primes_below((n - 1) as nat)
    }
}

/// Every element of `primes_below(n)` is a prime below `n`; the sequence is
/// strictly ascending; and it holds every prime below `n`.
pub proof fn lemma_primes_below(n: nat)
    requires
        n <= u64::MAX + 1,
    ensures
        forall|i: int|
            0 <= i < primes_below(n).len() ==> prime(#[trigger] primes_below(n)[i] as int)
                && primes_below(n)[i] < n,
        forall|i: int, j: int|
            0 <= i < j < primes_below(n).len() ==> #[trigger] primes_below(n)[i]
                < #[trigger] primes_below(n)[j],
        forall|p: int| #![trigger prime(p)] prime(p) && p < n ==> primes_below(n).contains(p as u64),
    decreases n,
{
    if n > 0 {
        lemma_primes_below((n - 1) as nat);
        let s = primes_below(n);
        let t = primes_below((n - 1) as nat);
        assert forall|p: int| #![trigger prime(p)] prime(p) && p < n implies s.contains(p as u64) by {
            if p < n - 1 {
                let k = choose|k: int| 0 <= k < t.len() && t[k] == p as u64;
                assert(s[k] == p as u64);
            } else {
                assert(s[s.len() - 1] == p as u64);
            }
        }
    }
}

/// A shorter bound gives a prefix of the primes below a longer one.
pub proof fn lemma_primes_below_prefix(a: nat, b: nat)
    requires
        a <= b,
    ensures
        primes_below(a).len() <= primes_below(b).len(),
        primes_below(b).subrange(0, primes_below(a).len() as int) == primes_below(a),
    decreases b - a,
{
    if a < b {
        lemma_primes_below_prefix(a, (b - 1) as nat);
        let t = primes_below((b - 1) as nat);
        assert(primes_below(b).subrange(0, t.len() as int) == t);
        assert(primes_below(b).subrange(0, primes_below(a).len() as int) =~= t.subrange(
            0,
            primes_below(a).len() as int,
        ));
    } else {
        assert(primes_below(b).subrange(0, primes_below(b).len() as int) =~= primes_below(b));
    }
}

/// Where no prime lies in `[a, b)`, the primes below `a` and below `b` agree.
pub proof fn lemma_primes_below_gap(a: nat, b: nat)
    requires
        a <= b,
        forall|n: int| a <= n < b ==> !#[trigger] prime(n),
    ensures
        primes_below(a) == primes_below(b),
    decreases b - a,
{
    if a < b {
        lemma_primes_below_gap(a, (b - 1) as nat);
        assert(!prime(b - 1));
    }
}

/// The primes below the `k`-th prime below `n` are the first `k` of them.
pub proof fn lemma_primes_below_at(n: nat, k: int)
    requires
        n <= u64::MAX + 1,
        0 <= k < primes_below(n).len(),
    ensures
        primes_below(primes_below(n)[k] as nat) == primes_below(n).take(k),
    decreases n,
{
    let s = primes_below(n);
    let t = primes_below((n - 1) as nat);
    if prime(n - 1) && k == t.len() {
        assert(s.take(k) =~= t);
    } else {
        lemma_primes_below_at((n - 1) as nat, k);
        assert(s.take(k) =~= t.take(k));
    }
}

/// Every integer of at least 2 has a prime divisor no larger than itself.
pub proof fn lemma_prime_divisor(n: int)
    requires
        n >= 2,
    ensures
        exists|p: int| prime(p) && p <= n && #[trigger] (n % p) == 0,
    decreases n,
{
    if !prime(n) {
        let d = choose|d: int| 2 <= d < n && #[trigger] (n % d) == 0;
        lemma_prime_divisor(d);
        let p = choose|p: int| prime(p) && p <= d && #[trigger] (d % p) == 0;
        lemma_divides_trans(p, d, n);
        assert(n % p == 0);
    } else {
        assert(n % n == 0);
    }
}

/// `p` divides `d` and `d` divides `n`, so `p` divides `n`.
pub proof fn lemma_divides_trans(p: int, d: int, n: int)
    requires
        p >= 1,
        d >= 1,
        d % p == 0,
        n % d == 0,
    ensures
        n % p == 0,
{
    vstd::arithmetic::div_mod::lemma_fundamental_div_mod(d, p);
    vstd::arithmetic::div_mod::lemma_fundamental_div_mod(n, d);
    let a = d / p;
    let b = n / d;
    assert(n == p * (a * b)) by (nonlinear_arith)
        requires
            d == p * a,
            n == d * b,
    ;
    vstd::arithmetic::div_mod::lemma_mod_multiples_basic(a * b, p);
    assert((a * b) * p == p * (a * b)) by (nonlinear_arith);
}

/// Trial division by every smaller prime decides primality: `c` is prime
/// exactly when no prime below it divides it.
pub proof fn lemma_trial_division(c: int)
    requires
        2 <= c <= u64::MAX,
    ensures
        prime(c) <==> forall|i: int|
            0 <= i < primes_below(c as nat).len() ==> #[trigger] (c % (primes_below(
                c as nat,
            )[i] as int)) != 0,
{
    let s = primes_below(c as nat);
    lemma_primes_below(c as nat);
    if prime(c) {
        assert forall|i: int| 0 <= i < s.len() implies #[trigger] (c % (s[i] as int)) != 0 by {
            assert(prime(s[i] as int));
        }
    } else {
        lemma_prime_divisor(c);
        let p = choose|p: int| prime(p) && p <= c && #[trigger] (c % p) == 0;
        assert(s.contains(p as u64));
        let i = choose|i: int| 0 <= i < s.len() && s[i] == p as u64;
        assert(c % (s[i] as int) == 0);
    }
}

/// There are fewer primes below a positive `n` than `n` itself.
pub proof fn lemma_primes_below_len(n: nat)
    requires
        n >= 1,
    ensures
        primes_below(n).len() < n,
    decreases n,
{
    if n > 1 {
        lemma_primes_below_len((n - 1) as nat);
    } else {
        assert(!prime(0));
        reveal_with_fuel(primes_below, 2);
    }
}

/// A position in the primes below `n` holds a prime no larger than `max`
/// exactly when it is a position in the primes below `max + 1`.
pub proof fn lemma_primes_below_bounded(n: nat, max: int, i: int)
    requires
        n <= u64::MAX + 1,
        0 <= max,
        0 <= i < primes_below(n).len(),
    ensures
        primes_below(n)[i] <= max <==> i < primes_below(
            if max + 1 < n {
                (max + 1) as nat
            } else {
                n
            },
        ).len(),
{
    let m: nat = if max + 1 < n {
        (max + 1) as nat
    } else {
        n
    };
    let s = primes_below(n);
    let t = primes_below(m);
    lemma_primes_below(n);
    lemma_primes_below(m);
    lemma_primes_below_prefix(m, n);
    if i < t.len() {
        assert(s[i] == t[i]);
    } else if s[i] <= max {
        assert(prime(s[i] as int));
        assert(t.contains(s[i]));
        let j = choose|j: int| 0 <= j < t.len() && t[j] == s[i];
        assert(s[j] == t[j]);
    }
}

/// The first prime below `n` that is not below `m` is the smallest prime in
/// `[m, n)`: it is at least `m` and at most any prime `q` in that range.
pub proof fn lemma_primes_below_next(m: nat, n: nat, q: int)
    requires
        m <= n <= u64::MAX + 1,
        prime(q),
        m <= q < n,
    ensures
        primes_below(m).len() < primes_below(n).len(),
        m <= primes_below(n)[primes_below(m).len() as int] <= q,
{
    let s = primes_below(n);
    let t = primes_below(m);
    lemma_primes_below(n);
    lemma_primes_below(m);
    lemma_primes_below_prefix(m, n);
    assert(s.contains(q as u64));
    let j = choose|j: int| 0 <= j < s.len() && s[j] == q as u64;
    if j < t.len() {
        assert(s[j] == t[j]);
    }
    lemma_primes_below_floor(m, n);
}

/// The first prime below `n` that is not below `m` is at least `m`.
pub proof fn lemma_primes_below_floor(m: nat, n: nat)
    requires
        m <= n <= u64::MAX + 1,
        primes_below(m).len() < primes_below(n).len(),
    ensures
        m <= primes_below(n)[primes_below(m).len() as int],
{
    let s = primes_below(n);
    let t = primes_below(m);
    lemma_primes_below(n);
    lemma_primes_below(m);
    lemma_primes_below_prefix(m, n);
    let k = t.len() as int;
    if s[k] < m {
        assert(t.contains(s[k]));
        let i = choose|i: int| 0 <= i < t.len() && t[i] == s[k];
        assert(s[i] == t[i]);
    }
}

/// The product of a sequence of factors.
pub open spec fn product(s: Seq<u64>) -> int
    decreases s.len(),
{
    if s.len() == 0 {
        1
    } else {
        product(s.drop_last()) * s.last()
    }
}

/// Each element is at most the next.
pub open spec fn nondecreasing(s: Seq<u64>) -> bool {
    forall|i: int, j: int| 0 <= i < j < s.len() ==> #[trigger] s[i] <= #[trigger] s[j]
}

} // verus!
