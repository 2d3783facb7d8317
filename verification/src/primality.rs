//! Primality as a mathematical definition, and the divisibility facts the
//! sieve proof rests on.

use vstd::arithmetic::div_mod::{
    lemma_fundamental_div_mod, lemma_fundamental_div_mod_converse_mod,
    lemma_mod_division_less_than_divisor, lemma_mod_multiples_basic, lemma_mod_multiples_vanish,
    lemma_mod_self_0, lemma_small_mod,
};
use vstd::prelude::*;

verus! {

/// `d` divides `n` evenly.
pub open spec fn divides(d: int, n: int) -> bool {
    n % d == 0
}

/// `n` is prime: at least 2, and divided evenly by nothing between 2 and itself.
pub open spec fn is_prime(n: int) -> bool {
    n >= 2 && forall|d: int| 2 <= d < n ==> !(#[trigger] divides(d, n))
}

/// The odd number tracked at position `k` of the mark structure.
pub open spec fn candidate(k: int) -> int {
    2 * k + 3
}

/// All primes up to `n` inclusive, in increasing order.
pub open spec fn primes_up_to(n: int) -> Seq<int>
    decreases n,
{
    if n < 2 {
        Seq::empty()
    } else if is_prime(n) {
        primes_up_to(n - 1).push(n)
    } else {
        primes_up_to(n - 1)
    }
}

/// `primes_up_to(n)` holds a value exactly when it is a prime no greater
/// than `n`.
pub proof fn lemma_primes_up_to_membership(n: int)
    ensures
        forall|v: int| #[trigger] primes_up_to(n).contains(v) <==> (is_prime(v) && v <= n),
    decreases n,
{
    if n < 2 {
        assert forall|v: int|
            #[trigger] primes_up_to(n).contains(v) <==> (is_prime(v) && v <= n) by {
            assert(primes_up_to(n).len() == 0);
        }
    } else {
        lemma_primes_up_to_membership(n - 1);
        let prev = primes_up_to(n - 1);
        assert forall|v: int|
            #[trigger] primes_up_to(n).contains(v) <==> (is_prime(v) && v <= n) by {
            let cur = primes_up_to(n);
            if cur.contains(v) {
                let idx: int = choose|idx: int| 0 <= idx < cur.len() && cur[idx] == v;
                if is_prime(n) && idx == prev.len() {
                    assert(v == n);
                } else {
                    assert(prev[idx] == v);
                    assert(prev.contains(v));
                }
            }
            if is_prime(v) && v <= n {
                if v == n {
                    assert(cur[prev.len() as int] == v);
                    assert(cur.contains(v));
                } else {
                    assert(prev.contains(v));
                    let idx: int = choose|idx: int| 0 <= idx < prev.len() && prev[idx] == v;
                    assert(cur[idx] == v);
                    assert(cur.contains(v));
                }
            }
        }
    }
}

/// The values of `primes_up_to(n)` are strictly increasing and at most `n`.
pub proof fn lemma_primes_up_to_sorted(n: int)
    ensures
        forall|a: int, b: int|
            0 <= a < b < primes_up_to(n).len() ==> #[trigger] primes_up_to(n)[a]
                < #[trigger] primes_up_to(n)[b],
        forall|t: int| 0 <= t < primes_up_to(n).len() ==> #[trigger] primes_up_to(n)[t] <= n,
    decreases n,
{
    if n >= 2 {
        lemma_primes_up_to_sorted(n - 1);
        let prev = primes_up_to(n - 1);
        assert forall|a: int, b: int|
            0 <= a < b < primes_up_to(n).len() implies #[trigger] primes_up_to(n)[a]
            < #[trigger] primes_up_to(n)[b] by {
            if is_prime(n) && b == prev.len() {
                assert(primes_up_to(n)[a] == prev[a]);
                assert(prev[a] <= n - 1);
            } else {
                assert(primes_up_to(n)[a] == prev[a]);
                assert(primes_up_to(n)[b] == prev[b]);
            }
        }
        assert forall|t: int|
            0 <= t < primes_up_to(n).len() implies #[trigger] primes_up_to(n)[t] <= n by {
            if !(is_prime(n) && t == prev.len()) {
                assert(primes_up_to(n)[t] == prev[t]);
            }
        }
    }
}

/// Divisibility carries through a middle factor.
proof fn lemma_divides_transitive(a: int, b: int, c: int)
    requires
        1 <= a,
        1 <= b,
        divides(a, b),
        divides(b, c),
    ensures
        divides(a, c),
{
    lemma_fundamental_div_mod(b, a);
    lemma_fundamental_div_mod(c, b);
    let k: int = b / a;
    let m: int = c / b;
    assert(c == (k * m) * a) by (nonlinear_arith)
        requires
            b == a * k + b % a,
            c == b * m + c % b,
            b % a == 0,
            c % b == 0,
    ;
    lemma_mod_multiples_basic(k * m, a);
}

/// Every number of size at least 2 has a prime factor no larger than itself.
proof fn lemma_has_prime_factor(n: int)
    requires
        n >= 2,
    ensures
        exists|q: int| is_prime(q) && #[trigger] divides(q, n) && 2 <= q <= n,
    decreases n,
{
    if is_prime(n) {
        lemma_mod_self_0(n);
        assert(is_prime(n) && divides(n, n) && 2 <= n <= n);
    } else {
        assert(exists|d: int| 2 <= d < n && #[trigger] divides(d, n));
        let d: int = choose|d: int| 2 <= d < n && #[trigger] divides(d, n);
        lemma_has_prime_factor(d);
        let q: int = choose|q: int| is_prime(q) && #[trigger] divides(q, d) && 2 <= q <= d;
        lemma_divides_transitive(q, d, n);
        assert(is_prime(q) && divides(q, n) && 2 <= q <= n);
    }
}

/// A composite number has a prime factor whose square does not exceed it.
pub proof fn lemma_composite_has_small_factor(n: int)
    requires
        n >= 2,
        !is_prime(n),
    ensures
        exists|q: int| is_prime(q) && #[trigger] divides(q, n) && q * q <= n && 2 <= q < n,
{
    assert(exists|d: int| 2 <= d < n && #[trigger] divides(d, n));
    let d: int = choose|d: int| 2 <= d < n && #[trigger] divides(d, n);
    lemma_fundamental_div_mod(n, d);
    let e: int = n / d;
    assert(2 <= e && e < n) by (nonlinear_arith)
        requires
            n == d * e,
            2 <= d,
            d < n,
    ;
    let m: int = if d <= e {
        d
    } else {
        e
    };
    if e < d {
        lemma_mod_multiples_basic(d, e);
        assert((d * e) % e == 0);
    }
    assert(divides(m, n));
    assert(m * m <= n && m < n) by (nonlinear_arith)
        requires
            n == d * e,
            2 <= d,
            2 <= e,
            (m == d && d <= e) || (m == e && e < d),
    ;
    lemma_has_prime_factor(m);
    let q: int = choose|q: int| is_prime(q) && #[trigger] divides(q, m) && 2 <= q <= m;
    lemma_divides_transitive(q, m, n);
    assert(q * q <= m * m) by (nonlinear_arith)
        requires
            2 <= q,
            q <= m,
    ;
    assert(is_prime(q) && divides(q, n) && q * q <= n && 2 <= q < n);
}

/// An even number above 2 is not prime.
pub(crate) proof fn lemma_even_not_prime(n: int)
    requires
        n > 2,
        n % 2 == 0,
    ensures
        !is_prime(n),
{
    assert(divides(2, n));
}

/// For an odd `p` whose square sits at position `base` of the mark structure,
/// stepping by whole multiples of `p` in positions is the same as stepping
/// through the candidates that `p` divides.
pub(crate) proof fn lemma_mark_step_divides(p: int, base: int, k: int)
    requires
        3 <= p,
        p % 2 == 1,
        2 * base + 3 == p * p,
        base <= k,
    ensures
        divides(p, candidate(k)) <==> (k - base) % p == 0,
{
    let diff: int = k - base;
    assert(candidate(k) == p * p + 2 * diff);
    if diff % p == 0 {
        lemma_fundamental_div_mod(diff, p);
        let t: int = diff / p;
        assert(candidate(k) == (p + 2 * t) * p) by (nonlinear_arith)
            requires
                candidate(k) == p * p + 2 * diff,
                diff == p * t,
        ;
        lemma_mod_multiples_basic(p + 2 * t, p);
        assert(divides(p, candidate(k)));
    }
    if divides(p, candidate(k)) {
        lemma_fundamental_div_mod(diff, p);
        lemma_mod_division_less_than_divisor(diff, p);
        let t: int = diff / p;
        let r: int = diff % p;
        assert(candidate(k) == p * (p + 2 * t) + 2 * r) by (nonlinear_arith)
            requires
                candidate(k) == p * p + 2 * diff,
                diff == p * t + r,
        ;
        lemma_mod_multiples_vanish(p + 2 * t, 2 * r, p);
        assert((2 * r) % p == 0);
        if r != 0 {
            if 2 * r < p {
                lemma_small_mod((2 * r) as nat, p as nat);
                assert(false);
            } else {
                lemma_fundamental_div_mod_converse_mod(2 * r, p, 1, 2 * r - p);
                assert(p == 2 * r);
                assert(false);
            }
        }
        assert(diff % p == 0);
    }
}

} // verus!
