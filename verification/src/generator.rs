//! The prime generator: eager sieve construction, then a one-shot cursor
//! that hands the primes out in increasing order.

use crate::primality::{
    candidate, divides, is_prime, lemma_composite_has_small_factor, lemma_even_not_prime,
    lemma_mark_step_divides, lemma_primes_up_to_membership, lemma_primes_up_to_sorted,
    primes_up_to,
};
use vstd::arithmetic::div_mod::{
    lemma_fundamental_div_mod, lemma_mod_multiples_basic, lemma_mod_multiples_vanish,
    lemma_small_mod,
};
use vstd::prelude::*;

verus! {

/// Cleared marks are sound: a cleared candidate really is composite.
spec fn sound_marks(s: Seq<bool>) -> bool {
    forall|k: int| 0 <= k < s.len() && !(#[trigger] s[k]) ==> !is_prime(candidate(k))
}

/// Every candidate divisible by a prime `q` below the bound candidate, from
/// `q`'s square on, already carries a cleared mark.
spec fn marked_below(s: Seq<bool>, i: int) -> bool {
    forall|k: int, q: int|
        0 <= k < s.len() && is_prime(q) && 3 <= q && q < candidate(i) && #[trigger] divides(
            q,
            candidate(k),
        ) && q * q <= candidate(k) ==> !s[k]
}

/// The closed-form square index computed for the next candidate stays in bounds.
proof fn lemma_next_square_index_bound(i: int, ss: int, max: int)
    by (nonlinear_arith)
    requires
        0 <= i,
        2 * i * (i + 3) + 3 < ss,
        2 * ss <= max - 1,
        100 <= max,
    ensures
        2 * (i + 1) * (i + 1 + 3) + 3 <= max,
{
}

/// Number of odd candidates the mark structure tracks for a given limit.
pub open spec fn spec_sieve_size(limit: int) -> int {
    if limit >= 3 {
        (limit - 1) / 2
    } else {
        0
    }
}

/// Every mark agrees with true primality of its candidate.
pub open spec fn sieve_correct(s: Seq<bool>) -> bool {
    forall|k: int| 0 <= k < s.len() ==> #[trigger] s[k] == is_prime(candidate(k))
}

/// A sequence of machine integers read as mathematical integers.
pub open spec fn as_ints(v: Seq<usize>) -> Seq<int> {
    v.map_values(|p: usize| p as int)
}

/// The candidates still marked prime from position `k` on, in increasing order.
pub open spec fn primes_from(s: Seq<bool>, k: int) -> Seq<int>
    decreases s.len() - k,
{
    if k < 0 || k >= s.len() {
        Seq::empty()
    } else if s[k] {
        seq![candidate(k)] + primes_from(s, k + 1)
    } else {
        primes_from(s, k + 1)
    }
}

/// Prime number generator using the Sieve of Eratosthenes algorithm.
/// Construction computes the whole mark structure eagerly; `next` then
/// produces the primes one at a time until exhaustion.
pub struct PrimeGenerator {
    /// One mark per odd candidate: `sieve[k]` says whether `2*k + 3` is prime.
    pub sieve: Vec<bool>,
    /// Position of the mark structure the producer looks at next.
    pub current_index: usize,
    /// Inclusive upper bound on the primes produced.
    pub limit: usize,
    /// Whether 2, the lone even prime, has already been produced.
    pub yielded_two: bool,
}

impl PrimeGenerator {
    /// The generator's invariant: the mark structure is fully sieved and the
    /// cursor state is consistent with the limit.
    pub open spec fn wf(self) -> bool {
        &&& self.sieve@.len() == spec_sieve_size(self.limit as int)
        &&& sieve_correct(self.sieve@)
        &&& self.current_index <= self.sieve@.len()
        &&& (self.limit < 2 ==> self.yielded_two)
        &&& (!self.yielded_two ==> self.current_index == 0)
    }

    /// A generator that has produced nothing yet.
    pub open spec fn fresh(self) -> bool {
        self.current_index == 0 && self.yielded_two == (self.limit < 2)
    }

    /// The primes this generator has still to produce, in order.
    pub open spec fn remaining(self) -> Seq<int> {
        if !self.yielded_two && self.limit >= 2 {
            seq![2int] + primes_from(self.sieve@, self.current_index as int)
        } else {
            primes_from(self.sieve@, self.current_index as int)
        }
    }

    /// Creates a new prime generator that will yield primes up to the given limit.
    #[verifier::loop_isolation(false)]
    pub fn new(limit: usize) -> (r: PrimeGenerator)
        ensures
            r.wf(),
            r.fresh(),
            r.limit == limit,
            r.remaining() == primes_up_to(limit as int),
    {
        if limit < 2 {
            let empty = PrimeGenerator {
                sieve: Vec::new(),
                current_index: 0,
                limit,
                yielded_two: true,
            };
            proof {
                lemma_fresh_remaining_is_primes_up_to(empty);
            }
            return empty;
        }
        // One mark per odd candidate 3, 5, 7, ... up to the limit.
        let sieve_size: usize = if limit >= 3 {
            (limit - 1) / 2
        } else {
            0
        };
        assert(2 * (sieve_size as int) <= usize::MAX - 1);
        let mut sieve: Vec<bool> = Vec::new();
        while sieve.len() < sieve_size
            invariant
                sieve@.len() <= sieve_size,
                forall|k: int| 0 <= k < sieve@.len() ==> #[trigger] sieve@[k],
            decreases sieve_size - sieve@.len(),
        {
            sieve.push(true);
        }
        let mut i: usize = 0;
        let mut index_square: usize = 3;
        while index_square < sieve_size
            invariant
                sieve@.len() == sieve_size,
                index_square as int == 2 * (i as int) * (i as int + 3) + 3,
                sound_marks(sieve@),
                marked_below(sieve@, i as int),
            decreases sieve_size - i,
        {
            proof {
                assert(2 * (i as int) + 3 <= 2 * (i as int) * (i as int + 3) + 3
                    && (i as int) < 2 * (i as int) * (i as int + 3) + 3) by (nonlinear_arith);
            }
            if sieve[i] {
                let prime: usize = 2 * i + 3;
                let ghost p: int = prime as int;
                let ghost base: int = index_square as int;
                let ghost prev: Seq<bool> = sieve@;
                proof {
                    assert(2 * base + 3 == p * p) by (nonlinear_arith)
                        requires
                            base == 2 * (i as int) * (i as int + 3) + 3,
                            p == 2 * (i as int) + 3,
                    ;
                }
                // Clear the marks of all odd multiples of this prime, from its
                // square on.
                let mut j: usize = index_square;
                proof {
                    lemma_small_mod(0nat, p as nat);
                }
                while j < sieve_size
                    invariant
                        sieve@.len() == sieve_size,
                        base <= j as int,
                        (j as int - base) % p == 0,
                        forall|k: int|
                            0 <= k < sieve@.len() ==> #[trigger] sieve@[k] == (if base <= k
                                < j as int && divides(p, candidate(k)) {
                                false
                            } else {
                                prev[k]
                            }),
                    decreases
                            (if j < sieve_size {
                                sieve_size - j
                            } else {
                                0
                            }),
                {
                    let ghost jo: int = j as int;
                    sieve[j] = false;
                    proof {
                        lemma_fundamental_div_mod(jo - base, p);
                        let t: int = (jo - base) / p;
                        assert forall|k: int| 0 <= k < sieve@.len() implies #[trigger] sieve@[k]
                            == (if base <= k < jo + p && divides(p, candidate(k)) {
                            false
                        } else {
                            prev[k]
                        }) by {
                            if k == jo {
                                lemma_mark_step_divides(p, base, jo);
                            } else if jo < k && k < jo + p && divides(p, candidate(k)) {
                                lemma_mark_step_divides(p, base, k);
                                lemma_mod_multiples_vanish(t, k - jo, p);
                                lemma_small_mod((k - jo) as nat, p as nat);
                                assert(false);
                            }
                        }
                        lemma_mod_multiples_basic(t + 1, p);
                        assert((t + 1) * p == p * t + p) by (nonlinear_arith);
                        assert((jo + p - base) % p == 0);
                    }
                    j = j + prime;
                }
                proof {
                    // Marks cleared just now are sound: their candidates are
                    // proper multiples of the prime.
                    assert forall|k: int|
                        0 <= k < sieve@.len() && !(#[trigger] sieve@[k]) implies !is_prime(
                        candidate(k),
                    ) by {
                        if prev[k] {
                            assert(candidate(k) >= p * p);
                            assert(2 <= p && p < candidate(k)) by (nonlinear_arith)
                                requires
                                    candidate(k) >= p * p,
                                    p >= 3,
                            ;
                        }
                    }
                    // The bound prime advances: multiples of this prime are now
                    // covered, and the even value between is no prime at all.
                    assert forall|k: int, q: int|
                        0 <= k < sieve@.len() && is_prime(q) && 3 <= q && q < candidate(
                            i as int + 1,
                        ) && #[trigger] divides(q, candidate(k)) && q * q <= candidate(k)
                        implies !sieve@[k] by {
                        if q < candidate(i as int) {
                            assert(!prev[k]);
                        } else if q != candidate(i as int) {
                            lemma_even_not_prime(q);
                        }
                    }
                }
                proof {
                    lemma_next_square_index_bound(i as int, sieve_size as int, usize::MAX as int);
                }
                i = i + 1;
                index_square = 2 * i * (i + 3) + 3;
            } else {
                proof {
                    // An unmarked candidate is composite, so no new prime bound
                    // appears when the cursor passes it.
                    assert forall|k: int, q: int|
                        0 <= k < sieve@.len() && is_prime(q) && 3 <= q && q < candidate(
                            i as int + 1,
                        ) && #[trigger] divides(q, candidate(k)) && q * q <= candidate(k)
                        implies !sieve@[k] by {
                        if q == candidate(i as int) {
                            assert(!is_prime(candidate(i as int)));
                        } else if q > candidate(i as int) {
                            lemma_even_not_prime(q);
                        }
                    }
                    lemma_next_square_index_bound(i as int, sieve_size as int, usize::MAX as int);
                }
                i = i + 1;
                index_square = 2 * i * (i + 3) + 3;
            }
        }
        proof {
            // Past the loop the square of the next candidate lies beyond the
            // mark structure, so every composite candidate is already cleared.
            assert(2 * (index_square as int) + 3 == candidate(i as int) * candidate(i as int))
                by (nonlinear_arith)
                requires
                    index_square as int == 2 * (i as int) * (i as int + 3) + 3,
            ;
            assert forall|k: int| 0 <= k < sieve@.len() implies #[trigger] sieve@[k] == is_prime(
                candidate(k),
            ) by {
                if sieve@[k] && !is_prime(candidate(k)) {
                    let c: int = candidate(k);
                    lemma_composite_has_small_factor(c);
                    let q: int = choose|q: int|
                        is_prime(q) && #[trigger] divides(q, c) && q * q <= c && 2 <= q < c;
                    assert(c % 2 == 1);
                    assert(q != 2);
                    assert(q < candidate(i as int)) by (nonlinear_arith)
                        requires
                            q * q <= c,
                            c < candidate(i as int) * candidate(i as int),
                            q >= 0,
                            candidate(i as int) >= 3,
                    ;
                    assert(false);
                }
            }
        }
        let generator = PrimeGenerator { sieve, current_index: 0, limit, yielded_two: false };
        proof {
            lemma_fresh_remaining_is_primes_up_to(generator);
        }
        generator
    }

    /// Produces the next prime in increasing order, or the empty result once
    /// the bound is exhausted. One-shot and forward-only: whenever the empty
    /// result comes back, every later call returns the empty result as well,
    /// since what remains to produce stays empty.
    #[verifier::loop_isolation(false)]
    pub fn next(&mut self) -> (r: Option<usize>)
        requires
            old(self).wf(),
        ensures
            final(self).wf(),
            final(self).limit == old(self).limit,
            old(self).current_index <= final(self).current_index,
            old(self).remaining().len() == 0 ==> (r is None && final(self).remaining().len()
                == 0),
            old(self).remaining().len() > 0 ==> (r matches Some(p) && p as int == old(
                self,
            ).remaining()[0] && final(self).remaining() == old(self).remaining().drop_first()),
    {
        // First yield 2 (the only even prime)
        if !self.yielded_two && self.limit >= 2 {
            self.yielded_two = true;
            proof {
                assert(old(self).remaining().drop_first() =~= self.remaining());
            }
            return Some(2);
        }
        // Then yield odd primes from the sieve
        while self.current_index < self.sieve.len()
            invariant
                self.yielded_two,
                self.sieve == old(self).sieve,
                self.limit == old(self).limit,
                old(self).current_index <= self.current_index <= self.sieve@.len(),
                primes_from(self.sieve@, self.current_index as int) == old(self).remaining(),
            decreases self.sieve@.len() - self.current_index,
        {
            let i: usize = self.current_index;
            self.current_index = i + 1;
            if self.sieve[i] {
                proof {
                    assert(2 * (i as int) + 3 <= self.limit as int);
                }
                let prime: usize = 2 * i + 3;
                if prime <= self.limit {
                    proof {
                        assert(old(self).remaining().drop_first() =~= primes_from(
                            self.sieve@,
                            i as int + 1,
                        ));
                    }
                    return Some(prime);
                } else {
                    // Candidates are increasing, so nothing within the bound
                    // is missed; in fact no candidate ever exceeds the limit.
                    proof {
                        assert(false);
                    }
                    return None;
                }
            }
        }
        None
    }

    /// Returns all primes up to the limit as a vector, in increasing order,
    /// draining the generator completely.
    pub fn collect_all(&mut self) -> (r: Vec<usize>)
        requires
            old(self).wf(),
        ensures
            final(self).wf(),
            final(self).limit == old(self).limit,
            as_ints(r@) == old(self).remaining(),
            final(self).remaining().len() == 0,
    {
        let mut primes: Vec<usize> = Vec::new();
        loop
            invariant
                self.wf(),
                self.limit == old(self).limit,
                as_ints(primes@) + self.remaining() == old(self).remaining(),
            ensures
                self.wf(),
                self.limit == old(self).limit,
                as_ints(primes@) + self.remaining() == old(self).remaining(),
                self.remaining().len() == 0,
            decreases self.remaining().len(),
        {
            let ghost before: Seq<int> = as_ints(primes@);
            let ghost rem_pre: Seq<int> = self.remaining();
            let opt: Option<usize> = self.next();
            match opt {
                Some(value) => {
                    primes.push(value);
                    proof {
                        assert(as_ints(primes@) =~= before.push(value as int));
                        assert(before.push(value as int) + self.remaining() =~= before + rem_pre);
                    }
                },
                None => {
                    break;
                },
            }
        }
        proof {
            assert(as_ints(primes@) + self.remaining() =~= as_ints(primes@));
        }
        primes
    }
}

/// Every value read off the mark structure from position `k` on is at least
/// the candidate at `k`.
proof fn lemma_primes_from_lower_bound(s: Seq<bool>, k: int)
    ensures
        forall|t: int|
            0 <= t < primes_from(s, k).len() ==> candidate(k) <= #[trigger] primes_from(s, k)[t],
    decreases s.len() - k,
{
    if 0 <= k && k < s.len() {
        lemma_primes_from_lower_bound(s, k + 1);
        assert forall|t: int|
            0 <= t < primes_from(s, k).len() implies candidate(k) <= #[trigger] primes_from(
            s,
            k,
        )[t] by {
            if s[k] {
                if t > 0 {
                    assert(primes_from(s, k)[t] == primes_from(s, k + 1)[t - 1]);
                }
            } else {
                assert(primes_from(s, k)[t] == primes_from(s, k + 1)[t]);
            }
        }
    }
}

/// The values read off the mark structure come out strictly increasing.
proof fn lemma_primes_from_sorted(s: Seq<bool>, k: int)
    ensures
        forall|a: int, b: int|
            0 <= a < b < primes_from(s, k).len() ==> #[trigger] primes_from(s, k)[a]
                < #[trigger] primes_from(s, k)[b],
    decreases s.len() - k,
{
    if 0 <= k && k < s.len() {
        lemma_primes_from_sorted(s, k + 1);
        lemma_primes_from_lower_bound(s, k + 1);
        assert forall|a: int, b: int|
            0 <= a < b < primes_from(s, k).len() implies #[trigger] primes_from(s, k)[a]
            < #[trigger] primes_from(s, k)[b] by {
            if s[k] {
                assert(primes_from(s, k)[b] == primes_from(s, k + 1)[b - 1]);
                if a > 0 {
                    assert(primes_from(s, k)[a] == primes_from(s, k + 1)[a - 1]);
                }
            } else {
                assert(primes_from(s, k)[a] == primes_from(s, k + 1)[a]);
                assert(primes_from(s, k)[b] == primes_from(s, k + 1)[b]);
            }
        }
    }
}

/// What the tail of a fully sieved mark structure holds: exactly the odd
/// primes from the candidate at its start through the last candidate.
proof fn lemma_primes_from_membership(s: Seq<bool>, k: int)
    requires
        sieve_correct(s),
        0 <= k,
    ensures
        forall|v: int|
            #[trigger] primes_from(s, k).contains(v) <==> (is_prime(v) && v % 2 == 1 && candidate(
                k,
            ) <= v <= candidate(s.len() - 1)),
    decreases s.len() - k,
{
    if k >= s.len() {
        assert forall|v: int|
            #[trigger] primes_from(s, k).contains(v) <==> (is_prime(v) && v % 2 == 1 && candidate(
                k,
            ) <= v <= candidate(s.len() - 1)) by {
            assert(primes_from(s, k).len() == 0);
            assert(candidate(s.len() - 1) < candidate(k));
        }
    } else {
        lemma_primes_from_membership(s, k + 1);
        let rest = primes_from(s, k + 1);
        assert forall|v: int|
            #[trigger] primes_from(s, k).contains(v) <==> (is_prime(v) && v % 2 == 1 && candidate(
                k,
            ) <= v <= candidate(s.len() - 1)) by {
            let cs = primes_from(s, k);
            if cs.contains(v) {
                let idx: int = choose|idx: int| 0 <= idx < cs.len() && cs[idx] == v;
                if s[k] {
                    if idx == 0 {
                        assert(v == candidate(k));
                        assert(is_prime(v));
                    } else {
                        assert(rest[idx - 1] == v);
                        assert(rest.contains(v));
                    }
                } else {
                    assert(rest[idx] == v);
                    assert(rest.contains(v));
                }
            }
            if is_prime(v) && v % 2 == 1 && candidate(k) <= v <= candidate(s.len() - 1) {
                if s[k] && v == candidate(k) {
                    assert(cs[0] == v);
                    assert(cs.contains(v));
                } else {
                    // an odd value above an odd candidate clears its successor
                    assert(v != candidate(k));
                    assert(candidate(k + 1) <= v);
                    assert(rest.contains(v));
                    let idx: int = choose|idx: int| 0 <= idx < rest.len() && rest[idx] == v;
                    if s[k] {
                        assert(cs[idx + 1] == v);
                    } else {
                        assert(cs[idx] == v);
                    }
                    assert(cs.contains(v));
                }
            }
        }
    }
}

/// Monotonicity of production: the values a generator has still to produce
/// are strictly increasing, so each value `next` hands out is strictly
/// greater than the one before it.
pub proof fn lemma_remaining_strictly_increasing(g: PrimeGenerator)
    requires
        g.wf(),
    ensures
        forall|a: int, b: int|
            0 <= a < b < g.remaining().len() ==> #[trigger] g.remaining()[a]
                < #[trigger] g.remaining()[b],
{
    let s = g.sieve@;
    let c = g.current_index as int;
    lemma_primes_from_sorted(s, c);
    lemma_primes_from_lower_bound(s, c);
    assert forall|a: int, b: int|
        0 <= a < b < g.remaining().len() implies #[trigger] g.remaining()[a]
        < #[trigger] g.remaining()[b] by {
        if !g.yielded_two && g.limit >= 2 {
            assert(g.remaining()[b] == primes_from(s, c)[b - 1]);
            if a > 0 {
                assert(g.remaining()[a] == primes_from(s, c)[a - 1]);
            }
        }
    }
}

/// Completeness and soundness of a fresh generator: it will produce a value
/// if and only if that value is a prime no greater than the limit. Together
/// with `lemma_remaining_strictly_increasing` this says every such prime
/// appears exactly once.
pub proof fn lemma_produces_exactly_primes(g: PrimeGenerator)
    requires
        g.wf(),
        g.fresh(),
    ensures
        forall|v: int|
            #[trigger] g.remaining().contains(v) <==> (is_prime(v) && v <= g.limit),
{
    let s = g.sieve@;
    let limit = g.limit as int;
    if g.limit < 2 {
        assert forall|v: int|
            #[trigger] g.remaining().contains(v) <==> (is_prime(v) && v <= limit) by {
            assert(g.remaining().len() == 0);
        }
    } else {
        lemma_primes_from_membership(s, 0);
        let odds = primes_from(s, 0);
        assert forall|v: int|
            #[trigger] g.remaining().contains(v) <==> (is_prime(v) && v <= limit) by {
            let rem = g.remaining();
            if rem.contains(v) {
                let idx: int = choose|idx: int| 0 <= idx < rem.len() && rem[idx] == v;
                if idx == 0 {
                    assert(v == 2);
                } else {
                    assert(odds[idx - 1] == v);
                    assert(odds.contains(v));
                    assert(v <= candidate(s.len() - 1));
                    assert(v <= limit);
                }
            }
            if is_prime(v) && v <= limit {
                if v == 2 {
                    assert(rem[0] == v);
                    assert(rem.contains(v));
                } else {
                    assert(v >= 3);
                    if v % 2 == 0 {
                        assert(divides(2, v));
                        assert(false);
                    }
                    assert(v <= candidate(s.len() - 1));
                    assert(odds.contains(v));
                    let idx: int = choose|idx: int| 0 <= idx < odds.len() && odds[idx] == v;
                    assert(rem[idx + 1] == v);
                    assert(rem.contains(v));
                }
            }
        }
    }
}

/// Two strictly increasing sequences that hold the same values are equal.
proof fn lemma_strictly_increasing_same_values_equal(a: Seq<int>, b: Seq<int>)
    requires
        forall|x: int, y: int| 0 <= x < y < a.len() ==> #[trigger] a[x] < #[trigger] a[y],
        forall|x: int, y: int| 0 <= x < y < b.len() ==> #[trigger] b[x] < #[trigger] b[y],
        forall|v: int| #[trigger] a.contains(v) <==> #[trigger] b.contains(v),
    ensures
        a == b,
    decreases a.len(),
{
    if a.len() == 0 {
        if b.len() > 0 {
            assert(b.contains(b[0]));
            assert(a.contains(b[0]));
            let idx: int = choose|idx: int| 0 <= idx < a.len() && a[idx] == b[0];
            assert(false);
        }
        assert(a =~= b);
    } else if b.len() == 0 {
        assert(a.contains(a[0]));
        assert(b.contains(a[0]));
        let idx: int = choose|idx: int| 0 <= idx < b.len() && b[idx] == a[0];
        assert(false);
    } else {
        // the heads are each sequence's least value, and both sequences hold
        // both heads, so the heads are equal
        assert(a.contains(a[0]) && b.contains(b[0]));
        assert(b.contains(a[0]) && a.contains(b[0]));
        let ia: int = choose|t: int| 0 <= t < a.len() && a[t] == b[0];
        let ib: int = choose|t: int| 0 <= t < b.len() && b[t] == a[0];
        if ia > 0 {
            assert(a[0] < a[ia]);
        }
        if ib > 0 {
            assert(b[0] < b[ib]);
        }
        assert(a[0] == b[0]);
        let at = a.drop_first();
        let bt = b.drop_first();
        assert forall|x: int, y: int| 0 <= x < y < at.len() implies #[trigger] at[x]
            < #[trigger] at[y] by {
            assert(at[x] == a[x + 1] && at[y] == a[y + 1]);
        }
        assert forall|x: int, y: int| 0 <= x < y < bt.len() implies #[trigger] bt[x]
            < #[trigger] bt[y] by {
            assert(bt[x] == b[x + 1] && bt[y] == b[y + 1]);
        }
        assert forall|v: int| #[trigger] at.contains(v) <==> #[trigger] bt.contains(v) by {
            if at.contains(v) {
                let t: int = choose|t: int| 0 <= t < at.len() && at[t] == v;
                assert(a[t + 1] == v);
                assert(a.contains(v));
                assert(a[0] < v);
                assert(b.contains(v));
                let u: int = choose|u: int| 0 <= u < b.len() && b[u] == v;
                assert(u > 0);
                assert(bt[u - 1] == v);
                assert(bt.contains(v));
            }
            if bt.contains(v) {
                let t: int = choose|t: int| 0 <= t < bt.len() && bt[t] == v;
                assert(b[t + 1] == v);
                assert(b.contains(v));
                assert(b[0] < v);
                assert(a.contains(v));
                let u: int = choose|u: int| 0 <= u < a.len() && a[u] == v;
                assert(u > 0);
                assert(at[u - 1] == v);
                assert(at.contains(v));
            }
        }
        lemma_strictly_increasing_same_values_equal(at, bt);
        assert forall|t: int| 0 <= t < a.len() implies a[t] == b[t] by {
            if t > 0 {
                assert(a[t] == at[t - 1]);
                assert(b[t] == bt[t - 1]);
            }
        }
        assert(a =~= b);
    }
}

/// What a fresh generator has to produce is precisely the increasing sequence
/// of all primes up to its limit.
pub proof fn lemma_fresh_remaining_is_primes_up_to(g: PrimeGenerator)
    requires
        g.wf(),
        g.fresh(),
    ensures
        g.remaining() == primes_up_to(g.limit as int),
{
    lemma_produces_exactly_primes(g);
    lemma_remaining_strictly_increasing(g);
    lemma_primes_up_to_membership(g.limit as int);
    lemma_primes_up_to_sorted(g.limit as int);
    lemma_strictly_increasing_same_values_equal(g.remaining(), primes_up_to(g.limit as int));
}

/// Idempotence of construction: two generators built fresh with the same
/// limit hold identical mark structures and will produce identical sequences.
pub proof fn lemma_same_limit_same_sequence(a: PrimeGenerator, b: PrimeGenerator)
    requires
        a.wf(),
        b.wf(),
        a.fresh(),
        b.fresh(),
        a.limit == b.limit,
    ensures
        a.remaining() == b.remaining(),
{
    assert(a.sieve@ =~= b.sieve@);
}

/// Below 2 there are no primes: a generator with such a limit has nothing to
/// produce at all.
pub proof fn lemma_empty_below_two(g: PrimeGenerator)
    requires
        g.wf(),
        g.limit < 2,
    ensures
        g.remaining() == Seq::<int>::empty(),
{
    assert(g.remaining() =~= Seq::<int>::empty());
}

} // verus!

