//! The odd-only sieve store, its primality query, the prime iterator and the
//! factoriser.
use crate::arith::{
    is_factorization, is_prime, lemma_divides_trans, lemma_index_progression,
    lemma_no_odd_factor_iff_prime, lemma_primes_in_first, lemma_primes_in_last,
    lemma_primes_in_nonempty, lemma_primes_in_split, lemma_small_prime_factor, lemma_square_le_iff,
    no_odd_factor_below, power, prime_count, primes_in, product,
};
use vstd::prelude::*;

verus! {

/// A factorisation: (prime, exponent) pairs, primes increasing.
pub type Factors = Vec<(usize, usize)>;

/// The number that the flag at `index` stands for.
pub open spec fn number_of(index: int) -> int {
    2 * index + 1
}

/// The flag at index `j` after every odd candidate below `bound` has been
/// sieved: `2j+1` is not 1 and has no small odd divisor below `bound`.
pub open spec fn survives(j: int, bound: int) -> bool {
    j >= 1 && no_odd_factor_below(number_of(j), bound)
}

/// Stores information about primes up to some limit.
///
/// Only odd numbers are stored: the flag at index `i` says whether `2i+1`
/// is prime.
pub struct Primes {
    flags: Vec<bool>,
}

impl View for Primes {
    type V = Seq<bool>;

    closed spec fn view(&self) -> Seq<bool> {
        self.flags@
    }
}

impl Primes {
    /// The largest number that the store answers for.
    pub open spec fn spec_upper_bound(&self) -> int {
        2 * self@.len() - 1
    }

    /// Every flag is right, and the store covers at least `1..=9`.
    pub open spec fn wf(&self) -> bool {
        &&& 5 <= self@.len() <= usize::MAX / 2 + 1
        &&& forall|i: int| 0 <= i < self@.len() ==> #[trigger] self@[i] == is_prime(
            number_of(i) as nat,
        )
    }

    /// Construct a `Primes` via a sieve up to at least `limit`.
    ///
    /// Limits below 10 are raised to 10. The store then covers every odd
    /// number up to `limit` (or `limit - 1` when `limit` is even).
    pub fn sieve(limit: usize) -> (r: Primes)
        ensures
            r.wf(),
            r@.len() == (if limit < 10 { 10 } else { limit as int } + 1) / 2,
            r.spec_upper_bound() % 2 == 1,
            r.spec_upper_bound() + 1 >= limit,
            limit >= 11 && limit % 2 == 1 ==> r.spec_upper_bound() == limit,
            limit <= 10 ==> r.spec_upper_bound() == 9,
    {
        let limit = if limit < 10 {
            10
        } else {
            limit
        };
        let len: usize = limit / 2 + limit % 2;
        let upper: usize = 2 * (len - 1) + 1;
        let mut flags: Vec<bool> = Vec::new();
        while flags.len() < len
            invariant
                flags.len() <= len,
                forall|j: int| 0 <= j < flags.len() ==> #[trigger] flags[j],
            decreases len - flags.len(),
        {
            flags.push(true);
        }
        // 1 isn't prime
        flags.set(0, false);
        assert forall|j: int| 0 <= j < len implies #[trigger] flags[j] == survives(j, 3) by {}

        // multiples of 3 go first, so that the wheel below may skip them
        clear_multiples(&mut flags, 1, 3);
        assert forall|j: int| 0 <= j < len implies #[trigger] flags[j] == survives(j, 5) by {
            lemma_index_progression(j, 3);
        }

        let mut candidate_index: usize = 2;
        let mut tick: usize = 1;
        let mut candidate_value: usize = 5;
        proof {
            lemma_square_le_iff(5, upper as int);
        }
        // every composite up to `upper` has a prime factor whose square is at
        // most `upper`, so the candidates stop there; the wheel steps by 1
        // and 2 in index space, passing over the odd multiples of 3
        while candidate_value <= upper / candidate_value
            invariant
                flags.len() == len,
                len == limit / 2 + limit % 2,
                limit >= 10,
                upper == 2 * len - 1,
                2 <= candidate_index <= upper,
                candidate_value == 2 * candidate_index + 1,
                candidate_index % 3 != 1,
                tick == if candidate_index % 3 == 0 {
                    2usize
                } else {
                    1usize
                },
                forall|j: int| 0 <= j < len ==> #[trigger] flags[j] == survives(j, candidate_value as int),
            decreases upper - candidate_index,
        {
            proof {
                lemma_square_le_iff(candidate_value as int, upper as int);
                assert(candidate_value + 4 <= upper) by (nonlinear_arith)
                    requires
                        candidate_value * candidate_value <= upper,
                        candidate_value >= 5,
                ;
            }
            let p = candidate_value;
            let ghost before = flags@;
            if flags[candidate_index] {
                clear_multiples(&mut flags, candidate_index, p);
                assert forall|j: int| 0 <= j < len implies #[trigger] flags[j] == survives(j, p + 2) by {
                    lemma_index_progression(j, p as int);
                }
            } else {
                proof {
                    lemma_composite_candidate(before, candidate_index as int);
                }
            }
            if tick == 2 {
                // the next odd number is a multiple of 3
                proof {
                    lemma_multiple_of_three(flags@, candidate_index as int + 1);
                }
            }
            candidate_index = candidate_index + tick;
            candidate_value = 2 * candidate_index + 1;
            tick = 3 - tick;
        }
        proof {
            lemma_square_le_iff(candidate_value as int, upper as int);
            assert forall|j: int| 0 <= j < len implies #[trigger] flags[j] == is_prime(number_of(j) as nat) by {
                if j >= 1 {
                    lemma_no_odd_factor_iff_prime(number_of(j), candidate_value as int);
                }
            }
        }
        Primes { flags }
    }

    /// The largest number stored.
    pub fn upper_bound(&self) -> (r: usize)
        requires
            self.wf(),
        ensures
            r == self.spec_upper_bound(),
    {
        (self.flags.len() - 1) * 2 + 1
    }

    /// Check if `n` is prime. Odd `n` must not exceed the upper bound.
    pub fn is_prime(&self, n: usize) -> (r: bool)
        requires
            self.wf(),
            n % 2 == 0 || n <= self.spec_upper_bound(),
        ensures
            r == is_prime(n as nat),
    {
        if n % 2 == 0 {
            proof {
                if n > 2 {
                    assert((n as nat) % 2 == 0);
                }
            }
            // 2 is the evenest prime.
            n == 2
        } else {
            self.flags[n / 2]
        }
    }

    /// What `factor(n)` returns. With `U` the upper bound: a full
    /// factorisation of `n` in which only the last prime may exceed `U`,
    /// and then appears once and is at most `U * U`; or `(0, [])` for zero;
    /// or the leftover `m > U * U` that no prime up to `U` divides, with the
    /// factorisation of `n / m` over primes up to `U`. Every `n` from 1 to
    /// `U * U` is fully factored.
    pub open spec fn factor_outcome(
        &self,
        n: usize,
        r: Result<Factors, (usize, Factors)>,
    ) -> bool {
        &&& match r {
            Ok(f) => {
                &&& n >= 1
                &&& is_factorization(f@, n as nat)
                &&& forall|k: int|
                    0 <= k < f@.len() ==> #[trigger] f@[k].0 <= self.spec_upper_bound() || (k
                        == f@.len() - 1 && f@[k].1 == 1 && f@[k].0 <= self.spec_upper_bound()
                        * self.spec_upper_bound())
            },
            Err((m, f)) => (n == 0 && m == 0 && f@.len() == 0) || (n >= 1 && m
                > self.spec_upper_bound() * self.spec_upper_bound() && m * product(f@) == n
                && is_factorization(f@, product(f@)) && (forall|k: int|
                0 <= k < f@.len() ==> #[trigger] f@[k].0 <= self.spec_upper_bound()) && (
            forall|q: nat| #[trigger] is_prime(q) && q <= self.spec_upper_bound() ==> (m as nat) % q
                != 0)),
        }
        &&& 1 <= n <= self.spec_upper_bound() * self.spec_upper_bound() ==> r is Ok
    }

    /// Factorise `n` into (prime, exponent) pairs by trial division with
    /// the stored primes.
    ///
    /// With `U` the upper bound, what is left of `n` after dividing out
    /// every prime up to `U` is 1, or a prime when it is at most `U * U`:
    /// then `n` is fully factored. Otherwise that leftover comes back with
    /// the partial factorisation, `Err((leftover, partial))`. Zero gives
    /// `Err((0, []))`.
    pub fn factor(&self, n: usize) -> (r: Result<Factors, (usize, Factors)>)
        requires
            self.wf(),
        ensures
            self.factor_outcome(n, r),
    {
        if n == 0 {
            return Err((0, Vec::new()));
        }
        let ghost u = self.spec_upper_bound();
        let mut ret: Vec<(usize, usize)> = Vec::new();
        let mut m = n;
        let mut iter = self.primes();
        let ghost mut next_lo: int = 2;
        let mut more = true;
        while more && m != 1
            invariant
                self.wf(),
                iter.wf(),
                iter.store() == *self,
                2 <= next_lo <= u + 1,
                iter@ == primes_in(next_lo, u + 1),
                !more ==> iter@.len() == 0,
                1 <= m <= n,
                m * product(ret@) == n,
                is_factorization(ret@, product(ret@)),
                forall|k: int| 0 <= k < ret@.len() ==> #[trigger] ret@[k].0 < next_lo,
                forall|q: nat| #[trigger] is_prime(q) && q < next_lo ==> (m as nat) % q != 0,
            decreases iter@.len() + if more {
                1int
            } else {
                0int
            },
        {
            match iter.next() {
                None => {
                    more = false;
                },
                Some(p) => {
                    proof {
                        lemma_primes_in_first(next_lo, u + 1);
                        lemma_primes_in_split(next_lo, p as int, u + 1);
                        lemma_primes_in_split(0, next_lo, p as int);
                        assert(primes_in(next_lo, p as int).len() == 0);
                        lemma_primes_in_split(p as int, p as int + 1, u + 1);
                        assert(primes_in(p as int, p as int) =~= Seq::<nat>::empty());
                        assert(primes_in(p as int, p as int + 1) =~= seq![p as nat]);
                        assert(iter@ =~= primes_in(p as int + 1, u + 1));
                    }
                    let ghost entry = m;
                    let mut count: usize = 0;
                    assert(power(p as nat, 0) == 1);
                    assert(entry == m * power(p as nat, 0)) by (nonlinear_arith)
                        requires
                            power(p as nat, 0) == 1,
                            entry == m,
                    ;
                    while m % p == 0
                        invariant
                            p >= 2,
                            1 <= m <= entry,
                            entry == m * power(p as nat, count as nat),
                            count <= entry - m,
                        decreases m,
                    {
                        proof {
                            vstd::arithmetic::div_mod::lemma_fundamental_div_mod(m as int, p as int);
                            vstd::arithmetic::div_mod::lemma_div_decreases(m as int, p as int);
                            let q = m / p;
                            assert(q >= 1) by (nonlinear_arith)
                                requires
                                    m == p * q,
                                    m >= 1,
                                    p >= 2,
                            ;
                        }
                        m = m / p;
                        assert(entry == m * power(p as nat, (count + 1) as nat)) by {
                            assert(power(p as nat, (count + 1) as nat) == p * power(p as nat, count as nat));
                            vstd::arithmetic::mul::lemma_mul_is_associative(m as int, p as int, power(p as nat, count as nat) as int);
                        }
                        count = count + 1;
                    }
                    proof {
                        let pw = power(p as nat, count as nat);
                        assert((entry as int) % (m as int) == 0) by {
                            vstd::arithmetic::div_mod::lemma_mod_multiples_basic(pw as int, m as int);
                            vstd::arithmetic::mul::lemma_mul_is_commutative(pw as int, m as int);
                        }
                        assert forall|q: nat| #[trigger] is_prime(q) && q < p + 1 implies (m as nat) % q != 0 by {
                            if q < next_lo {
                                if (m as nat) % q == 0 {
                                    lemma_divides_trans(q as int, m as int, entry as int);
                                }
                            } else if q < p {
                                lemma_primes_in_nonempty(next_lo, q as int, p as int);
                            }
                        }
                        let prod = product(ret@);
                        assert(m * (prod * pw) == n) by (nonlinear_arith)
                            requires
                                entry * prod == n,
                                entry == m * pw,
                        ;
                    }
                    if count > 0 {
                        let ghost old_ret = ret@;
                        ret.push((p, count));
                        proof {
                            assert(ret@.drop_last() =~= old_ret);
                            assert forall|i: int, j: int| 0 <= i < j < ret@.len() implies #[trigger] ret@[i].0
                                < #[trigger] ret@[j].0 by {
                                assert(ret@[i] == old_ret[i] || i == old_ret.len());
                                if j < old_ret.len() {
                                    assert(old_ret[i].0 < old_ret[j].0);
                                } else {
                                    assert(old_ret[i].0 < next_lo);
                                }
                            }
                            assert(ret@.last() == (p, count));
                            assert(product(ret@) == product(old_ret) * power(p as nat, count as nat));
                            assert(m * product(ret@) == n);
                        }
                    } else {
                        proof {
                            let pw = power(p as nat, count as nat);
                            assert(pw == 1);
                            let prod = product(ret@);
                            assert(m * prod == n) by (nonlinear_arith)
                                requires
                                    m * (prod * pw) == n,
                                    pw == 1,
                            ;
                        }
                    }
                    proof {
                        next_lo = p + 1;
                    }
                },
            }
        }
        if m != 1 {
            let b = self.upper_bound();
            proof {
                lemma_square_le_iff(b as int, m - 1);
                assert forall|q: nat| #[trigger] is_prime(q) && q <= u implies (m as nat) % q != 0 by {
                    if next_lo <= q {
                        lemma_primes_in_nonempty(next_lo, q as int, u + 1);
                    }
                }
            }
            if b > (m - 1) / b {
                // n is not divisible by anything up to sqrt(n), so it
                // must be prime itself
                proof {
                    if !is_prime(m as nat) {
                        let q = lemma_small_prime_factor(m as int);
                        assert(q <= u) by (nonlinear_arith)
                            requires
                                q * q <= m,
                                m <= u * u,
                                q >= 0,
                                u >= 0,
                        ;
                    }
                    if m <= u {
                        assert((m as nat) % (m as nat) == 0) by {
                            vstd::arithmetic::div_mod::lemma_mod_self_0(m as int);
                        }
                    }
                    assert(m > u);
                }
                let ghost old_ret = ret@;
                ret.push((m, 1));
                proof {
                    assert(ret@.drop_last() =~= old_ret);
                    assert forall|i: int, j: int| 0 <= i < j < ret@.len() implies #[trigger] ret@[i].0
                        < #[trigger] ret@[j].0 by {
                        assert(ret@[i] == old_ret[i]);
                        if j < old_ret.len() {
                            assert(old_ret[i].0 < old_ret[j].0);
                        } else {
                            assert(old_ret[i].0 < next_lo);
                        }
                    }
                    assert(power(m as nat, 1) == (m as nat) * power(m as nat, 0));
                    assert(power(m as nat, 0) == 1);
                    assert(power(m as nat, 1) == m) by (nonlinear_arith)
                        requires
                            power(m as nat, 1) == (m as nat) * power(m as nat, 0),
                            power(m as nat, 0) == 1,
                    ;
                    assert(ret@.last() == (m, 1usize));
                    assert(product(ret@) == product(old_ret) * power(m as nat, 1));
                    let prod = product(old_ret);
                    assert(product(ret@) == n) by (nonlinear_arith)
                        requires
                            product(ret@) == prod * m,
                            m * prod == n,
                    ;
                }
                Ok(ret)
            } else {
                // large factors
                Err((m, ret))
            }
        } else {
            proof {
                let prod = product(ret@);
                assert(prod == n) by (nonlinear_arith)
                    requires
                        m * prod == n,
                        m == 1,
                ;
            }
            Ok(ret)
        }
    }

    /// Iterator over the primes stored in this sieve, 2 included.
    pub fn primes(&self) -> (r: PrimeIterator<'_>)
        requires
            self.wf(),
        ensures
            r.wf(),
            r.store() == *self,
            r@ == primes_in(2, self.spec_upper_bound() + 1),
    {
        let r = PrimeIterator { primes: self, two: true, front: 0, back: self.flags.len() };
        proof {
            let b: int = 2 * self@.len() as int;
            lemma_primes_in_split(2, 3, b);
            assert(primes_in(2, 2) =~= Seq::<nat>::empty());
            assert(primes_in(2, 3) =~= seq![2nat]);
            assert(r@ =~= primes_in(2, b));
        }
        r
    }
}

/// The size bounds that `size_hint` reports from the estimates `low` at
/// the smallest and `high` at the largest prime left.
pub open spec fn estimate_range(low: (usize, usize), high: (usize, usize)) -> (usize, Option<usize>) {
    let (below_lo, above_lo) = low;
    let (below_hi, above_hi) = high;
    let lower = (below_hi - if above_lo < below_hi {
        above_lo
    } else {
        below_hi
    }) as usize;
    let upper = if above_hi - below_lo < usize::MAX {
        Some((above_hi - below_lo + 1) as usize)
    } else {
        None
    };
    (lower, upper)
}

/// What calling `next` on an iterator with `s` left yields until it
/// returns `None`, in order.
pub open spec fn drain_front(s: Seq<nat>) -> Seq<nat>
    decreases s.len(),
{
    if s.len() == 0 {
        seq![]
    } else {
        seq![s[0]] + drain_front(s.drop_first())
    }
}

/// What calling `next_back` on an iterator with `s` left yields until it
/// returns `None`, in order.
pub open spec fn drain_back(s: Seq<nat>) -> Seq<nat>
    decreases s.len(),
{
    if s.len() == 0 {
        seq![]
    } else {
        seq![s.last()] + drain_back(s.drop_last())
    }
}

proof fn lemma_drain_front(s: Seq<nat>)
    ensures
        drain_front(s) == s,
    decreases s.len(),
{
    if s.len() > 0 {
        lemma_drain_front(s.drop_first());
        assert(seq![s[0]] + s.drop_first() =~= s);
    }
}

proof fn lemma_drain_back(s: Seq<nat>)
    ensures
        drain_back(s).len() == s.len(),
        forall|i: int| 0 <= i < s.len() ==> #[trigger] drain_back(s)[i] == s[s.len() - 1 - i],
    decreases s.len(),
{
    if s.len() > 0 {
        lemma_drain_back(s.drop_last());
        assert forall|i: int| 0 <= i < s.len() implies #[trigger] drain_back(s)[i] == s[s.len() - 1
            - i] by {
            if i > 0 {
                assert(drain_back(s)[i] == drain_back(s.drop_last())[i - 1]);
            }
        }
    }
}

/// Walking the primes of a sieve from the front gives the same list as
/// walking them from the back and reversing: both are every prime up to
/// the upper bound, in opposite orders.
pub proof fn lemma_primes_both_ways(primes: Primes)
    requires
        primes.wf(),
    ensures
        ({
            let s = primes_in(2, primes.spec_upper_bound() + 1);
            &&& drain_front(s) == s
            &&& drain_back(s).len() == drain_front(s).len()
            &&& forall|i: int|
                0 <= i < s.len() ==> #[trigger] drain_front(s)[i] == drain_back(s)[s.len() - 1 - i]
        }),
{
    let s = primes_in(2, primes.spec_upper_bound() + 1);
    lemma_drain_front(s);
    lemma_drain_back(s);
    assert forall|i: int| 0 <= i < s.len() implies #[trigger] drain_front(s)[i] == drain_back(s)[s.len()
        - 1 - i] by {
        assert(drain_back(s)[s.len() - 1 - i] == s[s.len() - 1 - (s.len() - 1 - i)]);
    }
}

/// The pairs of a factorisation outcome, as sequences.
pub open spec fn outcome_view(r: Result<Factors, (usize, Factors)>) -> Result<
    Seq<(usize, usize)>,
    (usize, Seq<(usize, usize)>),
> {
    match r {
        Ok(f) => Ok(f@),
        Err((m, f)) => Err((m, f@)),
    }
}

/// Below the square of the upper bound of a smaller sieve, a larger sieve
/// factors every number exactly as the smaller one does: both fully, and
/// alike, since a factorisation into increasing prime powers is unique.
pub proof fn lemma_factor_agrees_below_boundary(
    small: Primes,
    large: Primes,
    n: usize,
    r_small: Result<Factors, (usize, Factors)>,
    r_large: Result<Factors, (usize, Factors)>,
)
    requires
        small.wf(),
        large.wf(),
        small.spec_upper_bound() <= large.spec_upper_bound(),
        n < small.spec_upper_bound() * small.spec_upper_bound(),
        small.factor_outcome(n, r_small),
        large.factor_outcome(n, r_large),
    ensures
        outcome_view(r_small) == outcome_view(r_large),
        n >= 1 ==> r_small is Ok && r_large is Ok,
{
    let us = small.spec_upper_bound();
    let ul = large.spec_upper_bound();
    assert(us * us <= ul * ul) by (nonlinear_arith)
        requires
            0 <= us <= ul,
    ;
    if n >= 1 {
        let f = r_small->Ok_0;
        let g = r_large->Ok_0;
        crate::arith::lemma_factorization_unique(f@, g@, n as nat);
    } else {
        assert(r_small->Err_0.1@ =~= r_large->Err_0.1@);
    }
}

/// The prime counting function never decreases.
pub proof fn lemma_prime_count_monotone(m: nat, n: nat)
    requires
        m <= n,
    ensures
        prime_count(m) <= prime_count(n),
{
    lemma_primes_in_split(0, m as int + 1, n as int + 1);
}

/// The least odd number from index `front` on that may be prime: the
/// number 1 at index 0 never is.
pub open spec fn odd_from(front: int) -> int {
    if front == 0 {
        3
    } else {
        2 * front + 1
    }
}

/// Iterator over the primes stored in a sieve, from both ends.
#[derive(Clone, Copy)]
pub struct PrimeIterator<'a> {
    primes: &'a Primes,
    two: bool,
    front: usize,
    back: usize,
}

impl<'a> View for PrimeIterator<'a> {
    type V = Seq<nat>;

    /// The primes that are left, in increasing order.
    closed spec fn view(&self) -> Seq<nat> {
        (if self.two {
            seq![2nat]
        } else {
            seq![]
        }) + primes_in(odd_from(self.front as int), 2 * self.back)
    }
}

impl<'a> PrimeIterator<'a> {
    /// The store that the iterator walks.
    pub closed spec fn store(&self) -> Primes {
        *self.primes
    }

    /// The store is sound and the two cursors have not crossed.
    pub closed spec fn wf(&self) -> bool {
        &&& self.primes.wf()
        &&& self.front <= self.back <= self.primes@.len()
        &&& self.two ==> self.front == 0
    }

    /// The next prime from the low end.
    pub fn next(&mut self) -> (r: Option<usize>)
        requires
            old(self).wf(),
        ensures
            final(self).wf(),
            final(self).store() == old(self).store(),
            match r {
                Some(x) => old(self)@.len() > 0 && x == old(self)@[0] && final(self)@
                    == old(self)@.drop_first(),
                None => old(self)@.len() == 0 && final(self)@.len() == 0,
            },
    {
        if self.two {
            self.two = false;
            assert(old(self)@.drop_first() =~= self@);
            return Some(2);
        }
        while self.front < self.back
            invariant
                self.wf(),
                self.store() == old(self).store(),
                !self.two,
                self@ == old(self)@,
            decreases self.back - self.front,
        {
            let i = self.front;
            proof {
                lemma_step_front(*self.primes, i as int, self.back as int);
            }
            self.front = i + 1;
            if self.primes.flags[i] {
                assert(old(self)@.drop_first() =~= self@);
                return Some(2 * i + 1);
            }
            assert(old(self)@ =~= self@);
        }
        None
    }

    /// The primes that are left always form a whole range of primes.
    proof fn lemma_view_is_range(&self) -> (bounds: (int, int))
        requires
            self.wf(),
        ensures
            0 <= bounds.0,
            self@ == primes_in(bounds.0, bounds.1),
    {
        let a = odd_from(self.front as int);
        let b = 2 * self.back;
        if self.two {
            if b >= 3 {
                lemma_primes_in_split(2, 3, b);
                assert(primes_in(2, 2) =~= Seq::<nat>::empty());
                assert(self@ =~= primes_in(2, b));
                (2, b)
            } else {
                assert(primes_in(3, b) =~= Seq::<nat>::empty());
                assert(primes_in(2, 2) =~= Seq::<nat>::empty());
                assert(self@ =~= primes_in(2, 3));
                (2, 3)
            }
        } else {
            assert(self@ =~= primes_in(a, b));
            (a, b)
        }
    }

    /// Bounds on how many primes are left, from estimates of the prime
    /// counting function at the smallest and the largest prime left.
    ///
    /// `estimate_pi(n)` must return `(lower, upper)` with
    /// `lower <= prime_count(n) <= upper`. With primes `lo` and `hi` left at
    /// either end, the result is `below_hi - min(above_lo, below_hi)` and
    /// `above_hi - below_lo + 1`, the latter `None` when it does not fit.
    pub fn size_hint<F: Fn(usize) -> (usize, usize)>(&self, estimate_pi: F) -> (r: (
        usize,
        Option<usize>,
    ))
        requires
            self.wf(),
            forall|n: usize| estimate_pi.requires((n,)),
            forall|n: usize, e: (usize, usize)|
                estimate_pi.ensures((n,), e) ==> e.0 <= prime_count(n as nat) <= e.1,
        ensures
            r.0 <= self@.len(),
            match r.1 {
                Some(h) => self@.len() <= h,
                None => true,
            },
            self@.len() == 0 ==> r == (0usize, Some(0usize)),
            self@.len() == 1 ==> r == (1usize, Some(1usize)),
            self@.len() >= 2 ==> exists|low: (usize, usize), high: (usize, usize)|
                #[trigger] estimate_pi.ensures((self@[0] as usize,), low)
                    && #[trigger] estimate_pi.ensures((self@.last() as usize,), high)
                    && r == estimate_range(low, high),
    {
        let mut iter = self.clone();
        match iter.next() {
            None => (0, Some(0)),
            Some(lo) => match iter.next_back() {
                None => (1, Some(1)),
                Some(hi) => {
                    let (below_hi, above_hi) = estimate_pi(hi);
                    let (below_lo, above_lo) = estimate_pi(lo);
                    proof {
                        self.lemma_count_between_ends();
                        lemma_prime_count_monotone(lo as nat, hi as nat);
                    }
                    let lower = below_hi - if above_lo < below_hi {
                        above_lo
                    } else {
                        below_hi
                    };
                    let upper = if above_hi - below_lo < usize::MAX {
                        Some(above_hi - below_lo + 1)
                    } else {
                        None
                    };
                    assert(lo == self@[0] && hi == self@.last());
                    assert(estimate_pi.ensures((self@[0] as usize,), (below_lo, above_lo)));
                    assert(estimate_pi.ensures((self@.last() as usize,), (below_hi, above_hi)));
                    assert((lower, upper) == estimate_range(
                        (below_lo, above_lo),
                        (below_hi, above_hi),
                    ));
                    (lower, upper)
                },
            },
        }
    }

    /// With at least two primes left, their number is the count of primes
    /// from the smallest to the largest of them.
    proof fn lemma_count_between_ends(&self)
        requires
            self.wf(),
            self@.len() >= 2,
        ensures
            self@[0] <= self@.last(),
            self@.len() == prime_count(self@.last()) - prime_count(self@[0]) + 1,
    {
        let (a, b) = self.lemma_view_is_range();
        lemma_primes_in_first(a, b);
        lemma_primes_in_last(a, b);
        let lo = self@[0] as int;
        let hi = self@.last() as int;
        assert(a <= b);
        lemma_primes_in_split(0, a, b);
        assert(primes_in(0, lo + 1) == primes_in(0, lo) + seq![lo as nat]);
        if hi < lo {
            lemma_prime_count_monotone(hi as nat, lo as nat);
        }
    }

    /// The next prime from the high end.
    pub fn next_back(&mut self) -> (r: Option<usize>)
        requires
            old(self).wf(),
        ensures
            final(self).wf(),
            final(self).store() == old(self).store(),
            match r {
                Some(x) => old(self)@.len() > 0 && x == old(self)@.last() && final(self)@
                    == old(self)@.drop_last(),
                None => old(self)@.len() == 0 && final(self)@.len() == 0,
            },
    {
        while self.front < self.back
            invariant
                self.wf(),
                self.store() == old(self).store(),
                self@ == old(self)@,
            decreases self.back - self.front,
        {
            let i = self.back - 1;
            proof {
                lemma_step_back(*self.primes, self.front as int, self.back as int);
            }
            self.back = i;
            if self.primes.flags[i] {
                assert(old(self)@.drop_last() =~= self@);
                return Some(2 * i + 1);
            }
            assert(old(self)@ =~= self@);
        }
        assert(primes_in(odd_from(self.front as int), 2 * self.back) =~= Seq::<nat>::empty());
        if self.two {
            self.two = false;
            assert(old(self)@.drop_last() =~= self@);
            Some(2)
        } else {
            None
        }
    }
}

/// Advancing the low cursor past index `i` takes off the number at `i` when
/// it is prime.
proof fn lemma_step_front(p: Primes, i: int, back: int)
    requires
        p.wf(),
        0 <= i < back <= p@.len(),
    ensures
        primes_in(odd_from(i), 2 * back) == (if p@[i] {
            seq![number_of(i) as nat]
        } else {
            seq![]
        }) + primes_in(odd_from(i + 1), 2 * back),
{
    if i == 0 {
        assert(!is_prime(1));
        assert(primes_in(3, 2 * back) =~= seq![] + primes_in(3, 2 * back));
    } else {
        let n = 2 * i + 1;
        lemma_primes_in_split(n, n + 1, 2 * back);
        assert(primes_in(n, n) =~= Seq::<nat>::empty());
        assert(primes_in(n, n + 1) =~= if p@[i] {
            seq![n as nat]
        } else {
            seq![]
        });
        if n + 1 < 2 * back {
            lemma_primes_in_split(n + 1, n + 2, 2 * back);
            assert(((n + 1) as nat) % 2 == 0);
            assert(!is_prime((n + 1) as nat));
            assert(primes_in(n + 1, n + 1) =~= Seq::<nat>::empty());
            assert(primes_in(n + 1, n + 2) =~= Seq::<nat>::empty());
            assert(primes_in(n + 1, 2 * back) =~= primes_in(n + 2, 2 * back));
        } else {
            assert(primes_in(n + 1, 2 * back) =~= Seq::<nat>::empty());
            assert(primes_in(n + 2, 2 * back) =~= Seq::<nat>::empty());
        }
    }
}

/// Moving the high cursor below index `back - 1` takes off the number there
/// when it is prime.
proof fn lemma_step_back(p: Primes, front: int, back: int)
    requires
        p.wf(),
        0 <= front < back <= p@.len(),
    ensures
        primes_in(odd_from(front), 2 * back) == primes_in(odd_from(front), 2 * (back - 1)) + (
        if p@[back - 1] {
            seq![number_of(back - 1) as nat]
        } else {
            seq![]
        }),
{
    let k = back - 1;
    let a = odd_from(front);
    if k == 0 {
        assert(!is_prime(1));
        assert(primes_in(3, 2) =~= Seq::<nat>::empty());
        assert(primes_in(3, 0) =~= Seq::<nat>::empty());
    } else {
        if a <= 2 * k {
            assert(((2 * k) as nat) % 2 == 0);
            assert(!is_prime((2 * k) as nat));
            assert(primes_in(a, 2 * k + 1) =~= primes_in(a, 2 * k));
        } else {
            assert(primes_in(a, 2 * k + 1) =~= Seq::<nat>::empty());
            assert(primes_in(a, 2 * k) =~= Seq::<nat>::empty());
        }
    }
}

/// Sieving out a candidate `2c+1` whose flag is false changes nothing.
proof fn lemma_composite_candidate(flags: Seq<bool>, c: int)
    requires
        c >= 2,
        c < flags.len(),
        !flags[c],
        forall|j: int| 0 <= j < flags.len() ==> #[trigger] flags[j] == survives(j, 2 * c + 1),
    ensures
        forall|j: int| 0 <= j < flags.len() ==> #[trigger] flags[j] == survives(j, 2 * c + 3),
{
    let p = 2 * c + 1;
    assert(!no_odd_factor_below(p, p));
    let d = choose|d: int| 3 <= d < p && d % 2 == 1 && d * d <= p && #[trigger] (p % d) == 0;
    assert(p % d == 0);
    assert forall|j: int| 0 <= j < flags.len() implies #[trigger] flags[j] == survives(j, p + 2) by {
        let n = number_of(j);
        if survives(j, p) && n % p == 0 && p * p <= n {
            lemma_divides_trans(d, p, n);
            assert(d * d <= n) by (nonlinear_arith)
                requires
                    d * d <= p,
                    p * p <= n,
                    p >= 1,
            ;
        }
    }
}

/// Sieving out a candidate `2c+1` that is a multiple of 3 changes nothing.
proof fn lemma_multiple_of_three(flags: Seq<bool>, c: int)
    requires
        c >= 4,
        (2 * c + 1) % 3 == 0,
        forall|j: int| 0 <= j < flags.len() ==> #[trigger] flags[j] == survives(j, 2 * c + 1),
    ensures
        forall|j: int| 0 <= j < flags.len() ==> #[trigger] flags[j] == survives(j, 2 * c + 3),
{
    let p = 2 * c + 1;
    assert forall|j: int| 0 <= j < flags.len() implies #[trigger] flags[j] == survives(j, p + 2) by {
        let n = number_of(j);
        if survives(j, p) && n % p == 0 && p * p <= n {
            lemma_divides_trans(3, p, n);
            assert(9 <= n) by (nonlinear_arith)
                requires
                    p >= 9,
                    p * p <= n,
            ;
        }
    }
}

/// Clears the flags of the odd multiples of `p = 2c+1` from `p * p` on.
fn clear_multiples(flags: &mut Vec<bool>, candidate_index: usize, p: usize)
    requires
        candidate_index >= 1,
        p == 2 * candidate_index + 1,
        p * p <= 2 * old(flags).len() - 1,
        old(flags).len() <= usize::MAX / 2 + 1,
    ensures
        final(flags).len() == old(flags).len(),
        forall|j: int| 0 <= j < old(flags).len() ==> #[trigger] final(flags)[j] == (old(flags)[j] && !(j
            >= (p * p - 1) / 2 && (j - (p * p - 1) / 2) % (p as int) == 0)),
{
    let len = flags.len();
    let ghost start: int = (p * p - 1) / 2;
    assert(2 * candidate_index * (candidate_index + 1) == start) by (nonlinear_arith)
        requires
            p == 2 * candidate_index + 1,
            start == (p * p - 1) / 2,
    ;
    let mut zero: usize = 2 * candidate_index * (candidate_index + 1);
    assert(p <= len) by (nonlinear_arith)
        requires
            p * p <= 2 * len - 1,
            p >= 3,
    ;
    proof {
        vstd::arithmetic::div_mod::lemma_small_mod(0, p as nat);
    }
    while zero < len
        invariant
            flags.len() == len,
            zero < len + p,
            len <= usize::MAX / 2 + 1,
            p <= len,
            p >= 3,
            zero >= start,
            (zero - start) % (p as int) == 0,
            forall|j: int| 0 <= j < len ==> #[trigger] flags[j] == (old(flags)[j] && !(start <= j < zero
                && (j - start) % (p as int) == 0)),
        decreases len + p - zero,
    {
        flags.set(zero, false);
        let ghost z = zero as int;
        zero = zero + p;
        assert forall|j: int| 0 <= j < len implies #[trigger] flags[j] == (old(flags)[j] && !(start
            <= j < zero && (j - start) % (p as int) == 0)) by {
            if z <= j < zero {
                vstd::arithmetic::div_mod::lemma_add_mod_noop(z - start, j - z, p as int);
                vstd::arithmetic::div_mod::lemma_small_mod((j - z) as nat, p as nat);
            }
        }
        proof {
            vstd::arithmetic::div_mod::lemma_add_mod_noop(z - start, p as int, p as int);
            vstd::arithmetic::div_mod::lemma_mod_self_0(p as int);
            vstd::arithmetic::div_mod::lemma_small_mod(0, p as nat);
        }
    }
}

} // verus!
