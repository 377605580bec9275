//! Mathematical definitions of primality and the number-theoretic lemmas
//! that the sieve and the factoriser rest on.
use vstd::arithmetic::div_mod::*;
use vstd::arithmetic::mul::*;
use vstd::prelude::*;

verus! {

/// `n` is prime: at least 2, and no number in `2..n` divides it.
pub open spec fn is_prime(n: nat) -> bool {
    n >= 2 && forall|d: nat| 2 <= d < n ==> #[trigger] (n % d) != 0
}

/// No odd `d` with `3 <= d < bound` and `d * d <= n` divides `n`.
pub open spec fn no_odd_factor_below(n: int, bound: int) -> bool {
    forall|d: int| 3 <= d < bound && d % 2 == 1 && d * d <= n ==> #[trigger] (n % d) != 0
}

/// Divisibility is transitive.
pub proof fn lemma_divides_trans(d: int, p: int, n: int)
    requires
        d > 0,
        p > 0,
        p % d == 0,
        n % p == 0,
    ensures
        n % d == 0,
{
    lemma_fundamental_div_mod(p, d);
    lemma_fundamental_div_mod(n, p);
    let a = p / d;
    let b = n / p;
    assert(n == (a * b) * d) by {
        lemma_mul_is_associative(d, a, b);
        lemma_mul_is_commutative(a * b, d);
    }
    lemma_mod_multiples_basic(a * b, d);
}

/// An odd composite number has an odd divisor of at least 3 whose square
/// does not exceed it.
pub proof fn lemma_odd_composite_small_factor(n: int) -> (d: int)
    requires
        n >= 3,
        n % 2 == 1,
        !is_prime(n as nat),
    ensures
        3 <= d,
        d % 2 == 1,
        d * d <= n,
        n % d == 0,
{
    let d0 = choose|d0: nat| 2 <= d0 < n && #[trigger] ((n as nat) % d0) != 0 == false;
    let d = d0 as int;
    let k = n / d;
    lemma_fundamental_div_mod(n, d);
    assert(n == d * k);
    assert(k >= 2) by {
        if k <= 1 {
            assert(d * k <= d) by (nonlinear_arith)
                requires
                    k <= 1,
                    d >= 2,
            ;
        }
    }
    assert(n % k == 0) by {
        lemma_mod_multiples_basic(d, k);
    }
    let e = if d <= k { d } else { k };
    assert(e * e <= n) by (nonlinear_arith)
        requires
            n == d * k,
            e == d || e == k,
            e <= d,
            e <= k,
            e >= 2,
    ;
    assert(n % e == 0);
    assert(e % 2 == 1) by {
        if e % 2 == 0 {
            lemma_divides_trans(2, e, n);
        }
    }
    e
}

/// For an odd `n >= 3` below `bound * bound`, having no small odd divisor
/// below `bound` is the same as being prime.
pub proof fn lemma_no_odd_factor_iff_prime(n: int, bound: int)
    requires
        n >= 3,
        n % 2 == 1,
        n < bound * bound,
        bound >= 3,
    ensures
        no_odd_factor_below(n, bound) == is_prime(n as nat),
{
    if is_prime(n as nat) {
        assert forall|d: int| 3 <= d < bound && d % 2 == 1 && d * d <= n implies #[trigger] (n
            % d) != 0 by {
            assert(d < n) by (nonlinear_arith)
                requires
                    d >= 3,
                    d * d <= n,
            ;
            assert((n as nat) % (d as nat) != 0);
        }
    } else {
        let d = lemma_odd_composite_small_factor(n);
        assert(d < bound) by (nonlinear_arith)
            requires
                d * d <= n,
                n < bound * bound,
                d >= 0,
                bound >= 0,
        ;
    }
}

/// For odd `n = 2j+1` and odd `p`, `p` divides `n` with `p * p <= n`
/// exactly when `j` lies on the index progression that starts at the
/// index of `p * p` and steps by `p`.
pub proof fn lemma_index_progression(j: int, p: int)
    requires
        j >= 0,
        p >= 3,
        p % 2 == 1,
    ensures
        ((2 * j + 1 >= p * p && (2 * j + 1) % p == 0) == (j >= (p * p - 1) / 2 && (j - (p * p
            - 1) / 2) % p == 0)),
{
    assert((p * p) % 2 == 1) by {
        lemma_mul_mod_noop(p, p, 2);
    }
    let start = (p * p - 1) / 2;
    assert(2 * start + 1 == p * p);
    if j >= start {
        let m = j - start;
        assert(2 * j + 1 == p * p + 2 * m);
        assert((p * p + 2 * m) % p == (2 * m) % p) by {
            lemma_mod_multiples_vanish(p, 2 * m, p);
        }
        lemma_mul_mod_noop_right(2, m, p);
        let r = m % p;
        lemma_small_mod(0, p as nat);
        assert(0 <= r < p) by {
            lemma_mod_bound(m, p);
        }
        if r != 0 {
            if 2 * r < p {
                lemma_small_mod((2 * r) as nat, p as nat);
            } else {
                lemma_fundamental_div_mod_converse_mod(2 * r, p, 1, 2 * r - p);
            }
        }
    }
}

/// For positive `p`, comparing `p` with `u / p` is comparing `p * p` with `u`.
pub proof fn lemma_square_le_iff(p: int, u: int)
    requires
        p > 0,
        u >= 0,
    ensures
        (p <= u / p) == (p * p <= u),
{
    lemma_fundamental_div_mod(u, p);
    lemma_mod_bound(u, p);
    let q = u / p;
    let r = u % p;
    if p <= q {
        assert(p * p <= u) by (nonlinear_arith)
            requires
                p <= q,
                p > 0,
                u == p * q + r,
                r >= 0,
        ;
    } else {
        assert(u < p * p) by (nonlinear_arith)
            requires
                q + 1 <= p,
                p > 0,
                u == p * q + r,
                r < p,
        ;
    }
}

/// The primes `q` with `lo <= q < hi`, in increasing order.
pub open spec fn primes_in(lo: int, hi: int) -> Seq<nat>
    decreases hi - lo,
{
    if hi <= lo {
        seq![]
    } else {
        primes_in(lo, hi - 1) + if is_prime((hi - 1) as nat) {
            seq![(hi - 1) as nat]
        } else {
            seq![]
        }
    }
}

/// The number of primes that do not exceed `n`.
pub open spec fn prime_count(n: nat) -> nat {
    primes_in(0, n as int + 1).len()
}

/// A range holds no more primes than numbers.
pub proof fn lemma_primes_in_len(lo: int, hi: int)
    requires
        lo <= hi,
    ensures
        primes_in(lo, hi).len() <= hi - lo,
    decreases hi - lo,
{
    if lo < hi {
        lemma_primes_in_len(lo, hi - 1);
    }
}

/// There are at most `n` primes up to `n`.
pub proof fn lemma_prime_count_le(n: nat)
    ensures
        prime_count(n) <= n,
{
    assert(!is_prime(0));
    assert(primes_in(0, 0) =~= Seq::<nat>::empty());
    assert(primes_in(0, 1) =~= Seq::<nat>::empty());
    if n >= 1 {
        lemma_primes_in_split(0, 1, n as int + 1);
        lemma_primes_in_len(1, n as int + 1);
    }
}

/// A range of primes splits at any point between its ends.
pub proof fn lemma_primes_in_split(lo: int, mid: int, hi: int)
    requires
        lo <= mid <= hi,
    ensures
        primes_in(lo, hi) == primes_in(lo, mid) + primes_in(mid, hi),
    decreases hi - mid,
{
    if hi == mid {
        assert(primes_in(lo, mid) + primes_in(mid, hi) =~= primes_in(lo, mid));
    } else {
        lemma_primes_in_split(lo, mid, hi - 1);
        let t = if is_prime((hi - 1) as nat) {
            seq![(hi - 1) as nat]
        } else {
            seq![]
        };
        assert(primes_in(lo, mid) + primes_in(mid, hi) =~= primes_in(lo, mid) + primes_in(mid, hi
            - 1) + t);
    }
}

/// The last element of a non-empty range of primes is its largest prime:
/// no prime lies between it and the end of the range.
pub proof fn lemma_primes_in_last(lo: int, hi: int)
    requires
        0 <= lo,
        primes_in(lo, hi).len() > 0,
    ensures
        is_prime(primes_in(lo, hi).last()),
        lo <= primes_in(lo, hi).last() < hi,
        primes_in(0, primes_in(lo, hi).last() as int + 1).len() == primes_in(0, hi).len(),
    decreases hi - lo,
{
    if is_prime((hi - 1) as nat) {
        assert(primes_in(lo, hi).last() == hi - 1);
        assert(primes_in(0, hi) == primes_in(0, hi - 1) + seq![(hi - 1) as nat]);
    } else {
        assert(primes_in(lo, hi) =~= primes_in(lo, hi - 1));
        lemma_primes_in_last(lo, hi - 1);
        assert(primes_in(0, hi) =~= primes_in(0, hi - 1));
    }
}

/// The first element of a non-empty range of primes is its smallest prime:
/// no prime lies between the start of the range and it.
pub proof fn lemma_primes_in_first(lo: int, hi: int)
    requires
        0 <= lo,
        primes_in(lo, hi).len() > 0,
    ensures
        is_prime(primes_in(lo, hi)[0]),
        lo <= primes_in(lo, hi)[0] < hi,
        primes_in(0, primes_in(lo, hi)[0] as int).len() == primes_in(0, lo).len(),
    decreases hi - lo,
{
    lemma_primes_in_split(lo, lo + 1, hi);
    assert(primes_in(lo, lo + 1) =~= primes_in(lo, lo) + if is_prime(lo as nat) {
        seq![lo as nat]
    } else {
        seq![]
    });
    if is_prime(lo as nat) {
        assert(primes_in(lo, hi)[0] == lo);
    } else {
        assert(primes_in(lo, hi) =~= primes_in(lo + 1, hi));
        lemma_primes_in_first(lo + 1, hi);
        lemma_primes_in_split(0, lo, lo + 1);
        assert(primes_in(0, lo + 1) =~= primes_in(0, lo));
    }
}

/// `b` raised to the power `e`.
pub open spec fn power(b: nat, e: nat) -> nat
    decreases e,
{
    if e == 0 {
        1
    } else {
        b * power(b, (e - 1) as nat)
    }
}

/// The product of `p^e` over the `(p, e)` pairs of `f`.
pub open spec fn product(f: Seq<(usize, usize)>) -> nat
    decreases f.len(),
{
    if f.len() == 0 {
        1
    } else {
        product(f.drop_last()) * power(f.last().0 as nat, f.last().1 as nat)
    }
}

/// `f` lists primes in strictly increasing order, each with a positive
/// exponent, and the product of their powers is `n`.
pub open spec fn is_factorization(f: Seq<(usize, usize)>, n: nat) -> bool {
    &&& forall|k: int| #![trigger f[k]] 0 <= k < f.len() ==> is_prime(f[k].0 as nat) && f[k].1 >= 1
    &&& forall|i: int, j: int| #![trigger f[i], f[j]] 0 <= i < j < f.len() ==> f[i].0 < f[j].0
    &&& product(f) == n
}

/// A composite number has a prime divisor whose square does not exceed it.
pub proof fn lemma_small_prime_factor(m: int) -> (q: int)
    requires
        m >= 2,
        !is_prime(m as nat),
    ensures
        is_prime(q as nat),
        q >= 2,
        q * q <= m,
        m % q == 0,
    decreases m,
{
    let d0 = choose|d0: nat| 2 <= d0 < m && #[trigger] ((m as nat) % d0) != 0 == false;
    let d = d0 as int;
    let k = m / d;
    lemma_fundamental_div_mod(m, d);
    assert(m == d * k);
    assert(k >= 2) by {
        if k <= 1 {
            assert(d * k <= d) by (nonlinear_arith)
                requires
                    k <= 1,
                    d >= 2,
            ;
        }
    }
    assert(m % k == 0) by {
        lemma_mod_multiples_basic(d, k);
    }
    let e = if d <= k { d } else { k };
    assert(e * e <= m && e < m) by (nonlinear_arith)
        requires
            m == d * k,
            e == d || e == k,
            e <= d,
            e <= k,
            e >= 2,
    ;
    if is_prime(e as nat) {
        e
    } else {
        let q = lemma_small_prime_factor(e);
        lemma_divides_trans(q, e, m);
        q
    }
}

/// A range of numbers that holds a prime holds a prime in its range of primes.
pub proof fn lemma_primes_in_nonempty(lo: int, q: int, hi: int)
    requires
        0 <= lo <= q < hi,
        is_prime(q as nat),
    ensures
        primes_in(lo, hi).len() > 0,
{
    lemma_primes_in_split(lo, q, q + 1);
    lemma_primes_in_split(lo, q + 1, hi);
}

/// A positive multiple of `p` is at least `p`.
pub proof fn lemma_divisor_le(x: int, p: int)
    requires
        x > 0,
        p > 0,
        x % p == 0,
    ensures
        p <= x,
{
    lemma_fundamental_div_mod(x, p);
    let k = x / p;
    assert(p <= x) by (nonlinear_arith)
        requires
            x == p * k,
            x > 0,
            p > 0,
    ;
}

proof fn lemma_euclid_step(p: int, a: int, b: int)
    requires
        p >= 2,
        is_prime(p as nat),
        1 <= a < p,
        b >= 0,
        (a * b) % p == 0,
    ensures
        b % p == 0,
    decreases a,
{
    if a == 1 {
        assert(a * b == b) by (nonlinear_arith)
            requires
                a == 1,
        ;
    } else {
        let t = p / a;
        let r = p % a;
        lemma_fundamental_div_mod(p, a);
        lemma_mod_bound(p, a);
        assert((p as nat) % (a as nat) != 0);
        let k = (a * b) / p;
        lemma_fundamental_div_mod(a * b, p);
        assert(r * b == (b - t * k) * p) by (nonlinear_arith)
            requires
                p == a * t + r,
                a * b == p * k,
        ;
        lemma_mod_multiples_basic(b - t * k, p);
        lemma_euclid_step(p, r, b);
    }
}

/// A prime that divides a product divides one of its factors.
pub proof fn lemma_euclid(p: int, a: int, b: int)
    requires
        p >= 2,
        is_prime(p as nat),
        a >= 0,
        b >= 0,
        (a * b) % p == 0,
    ensures
        a % p == 0 || b % p == 0,
{
    if a % p != 0 {
        let q = a / p;
        let r = a % p;
        lemma_fundamental_div_mod(a, p);
        lemma_mod_bound(a, p);
        assert(a * b == p * (q * b) + r * b) by (nonlinear_arith)
            requires
                a == p * q + r,
        ;
        lemma_mod_multiples_vanish(q * b, r * b, p);
        lemma_euclid_step(p, r, b);
    }
}

/// A power of a positive number is positive.
pub proof fn lemma_power_pos(b: nat, e: nat)
    requires
        b >= 1,
    ensures
        power(b, e) >= 1,
    decreases e,
{
    if e > 0 {
        lemma_power_pos(b, (e - 1) as nat);
        let x = power(b, (e - 1) as nat);
        assert(b * x >= 1) by (nonlinear_arith)
            requires
                b >= 1,
                x >= 1,
        ;
    }
}

/// Powers of one base multiply by adding exponents.
pub proof fn lemma_power_add(b: nat, e1: nat, e2: nat)
    ensures
        power(b, e1 + e2) == power(b, e1) * power(b, e2),
    decreases e1,
{
    if e1 == 0 {
        assert(power(b, e1) == 1);
        let y = power(b, e2);
        assert(1 * y == y);
    } else {
        lemma_power_add(b, (e1 - 1) as nat, e2);
        assert(power(b, e1 + e2) == b * power(b, (e1 - 1 + e2) as nat));
        lemma_mul_is_associative(
            b as int,
            power(b, (e1 - 1) as nat) as int,
            power(b, e2) as int,
        );
    }
}

/// A positive power of `p` is a multiple of `p`.
pub proof fn lemma_power_multiple(p: nat, e: nat)
    requires
        p >= 1,
        e >= 1,
    ensures
        power(p, e) % p == 0,
{
    let x = power(p, (e - 1) as nat);
    assert(power(p, e) == p * x);
    lemma_mod_multiples_basic(x as int, p as int);
    lemma_mul_is_commutative(x as int, p as int);
}

/// A prime that divides a power of a prime is that prime.
pub proof fn lemma_prime_divides_power(p: nat, q: nat, g: nat)
    requires
        is_prime(p),
        is_prime(q),
        power(q, g) % p == 0,
    ensures
        p == q,
    decreases g,
{
    if g == 0 {
        lemma_small_mod(1, p);
    } else {
        let x = power(q, (g - 1) as nat);
        assert(power(q, g) == q * x);
        lemma_euclid(p as int, q as int, x as int);
        if (q as int) % (p as int) == 0 {
            lemma_divisor_le(q as int, p as int);
            if p < q {
                assert(q % p != 0);
            }
        } else {
            lemma_prime_divides_power(p, q, (g - 1) as nat);
        }
    }
}

/// A product of prime powers is positive.
pub proof fn lemma_product_pos(f: Seq<(usize, usize)>)
    requires
        forall|k: int| 0 <= k < f.len() ==> is_prime(#[trigger] f[k].0 as nat),
    ensures
        product(f) >= 1,
    decreases f.len(),
{
    if f.len() > 0 {
        let g = f.drop_last();
        assert forall|k: int| 0 <= k < g.len() implies is_prime(#[trigger] g[k].0 as nat) by {
            assert(g[k] == f[k]);
        }
        lemma_product_pos(g);
        lemma_power_pos(f.last().0 as nat, f.last().1 as nat);
        let a = product(g);
        let b = power(f.last().0 as nat, f.last().1 as nat);
        assert(a * b >= 1) by (nonlinear_arith)
            requires
                a >= 1,
                b >= 1,
        ;
    }
}

/// A prime that divides a product of prime powers is one of their bases.
pub proof fn lemma_prime_divides_product(p: nat, f: Seq<(usize, usize)>) -> (i: int)
    requires
        is_prime(p),
        forall|k: int| 0 <= k < f.len() ==> is_prime(#[trigger] f[k].0 as nat),
        product(f) % p == 0,
    ensures
        0 <= i < f.len(),
        f[i].0 == p,
    decreases f.len(),
{
    if f.len() == 0 {
        lemma_small_mod(1, p);
        0
    } else {
        let g = f.drop_last();
        assert forall|k: int| 0 <= k < g.len() implies is_prime(#[trigger] g[k].0 as nat) by {
            assert(g[k] == f[k]);
        }
        let q = f.last().0 as nat;
        let x = power(q, f.last().1 as nat);
        lemma_euclid(p as int, product(g) as int, x as int);
        if (product(g) as int) % (p as int) == 0 {
            let i = lemma_prime_divides_product(p, g);
            assert(g[i] == f[i]);
            i
        } else {
            lemma_prime_divides_power(p, q, f.last().1 as nat);
            f.len() - 1
        }
    }
}

/// The largest prime of one factorisation of `n` is at most the largest
/// prime of another.
proof fn lemma_last_prime_le(f: Seq<(usize, usize)>, g: Seq<(usize, usize)>, n: nat)
    requires
        is_factorization(f, n),
        is_factorization(g, n),
        f.len() > 0,
        g.len() > 0,
    ensures
        f.last().0 <= g.last().0,
{
    let f1 = f.drop_last();
    let p = f.last().0 as nat;
    let e = f.last().1 as nat;
    assert(is_prime(f[f.len() - 1].0 as nat));
    lemma_power_multiple(p, e);
    lemma_power_pos(p, e);
    lemma_mod_multiples_basic(product(f1) as int, power(p, e) as int);
    lemma_divides_trans(p as int, power(p, e) as int, n as int);
    let i = lemma_prime_divides_product(p, g);
    if i < g.len() - 1 {
        assert(g[i].0 < g[g.len() - 1].0);
    }
}

/// The exponent of the largest prime of one factorisation of `n` is at
/// least that of another with the same largest prime.
proof fn lemma_last_exponent_ge(f: Seq<(usize, usize)>, g: Seq<(usize, usize)>, n: nat)
    requires
        is_factorization(f, n),
        is_factorization(g, n),
        f.len() > 0,
        g.len() > 0,
        f.last().0 == g.last().0,
    ensures
        f.last().1 >= g.last().1,
{
    let p = f.last().0 as nat;
    let e = f.last().1 as nat;
    let h = g.last().1 as nat;
    if e < h {
        let f1 = f.drop_last();
        let g1 = g.drop_last();
        assert(is_prime(f[f.len() - 1].0 as nat));
        assert forall|k: int| 0 <= k < f1.len() implies is_prime(#[trigger] f1[k].0 as nat) by {
            assert(f1[k] == f[k]);
        }
        lemma_power_add(p, e, (h - e) as nat);
        lemma_power_pos(p, e);
        let pe = power(p, e);
        let pd = power(p, (h - e) as nat);
        let a = product(f1);
        let b = product(g1);
        assert(pe * a == pe * (b * pd)) by (nonlinear_arith)
            requires
                a * pe == b * (pe * pd),
        ;
        lemma_mul_equality_converse(pe as int, a as int, (b * pd) as int);
        lemma_power_multiple(p, (h - e) as nat);
        lemma_power_pos(p, (h - e) as nat);
        lemma_mod_multiples_basic(b as int, pd as int);
        lemma_divides_trans(p as int, pd as int, a as int);
        let j = lemma_prime_divides_product(p, f1);
        assert(f[j].0 < f[f.len() - 1].0);
    }
}

/// A number has only one factorisation into increasing prime powers.
pub proof fn lemma_factorization_unique(f: Seq<(usize, usize)>, g: Seq<(usize, usize)>, n: nat)
    requires
        is_factorization(f, n),
        is_factorization(g, n),
    ensures
        f == g,
    decreases f.len() + g.len(),
{
    if f.len() == 0 || g.len() == 0 {
        if f.len() > 0 {
            lemma_nonempty_product(f);
        }
        if g.len() > 0 {
            lemma_nonempty_product(g);
        }
        assert(f =~= g);
    } else {
        lemma_last_prime_le(f, g, n);
        lemma_last_prime_le(g, f, n);
        lemma_last_exponent_ge(f, g, n);
        lemma_last_exponent_ge(g, f, n);
        let f1 = f.drop_last();
        let g1 = g.drop_last();
        let p = f.last().0 as nat;
        let e = f.last().1 as nat;
        assert(is_prime(f[f.len() - 1].0 as nat));
        lemma_power_pos(p, e);
        let pe = power(p, e);
        let a = product(f1);
        let b = product(g1);
        assert(pe * a == pe * b) by (nonlinear_arith)
            requires
                a * pe == b * pe,
        ;
        lemma_mul_equality_converse(pe as int, a as int, b as int);
        lemma_drop_last_factorization(f, n);
        lemma_drop_last_factorization(g, n);
        lemma_factorization_unique(f1, g1, a);
        assert(f.last() == g.last());
        assert(f.len() == g.len());
        assert forall|i: int| 0 <= i < f.len() implies f[i] == g[i] by {
            if i < f.len() - 1 {
                assert(f[i] == f1[i] && g[i] == g1[i]);
            }
        }
        assert(f =~= g);
    }
}

/// Without its last pair, a factorisation is one of what is left.
proof fn lemma_drop_last_factorization(f: Seq<(usize, usize)>, n: nat)
    requires
        is_factorization(f, n),
        f.len() > 0,
    ensures
        is_factorization(f.drop_last(), product(f.drop_last())),
{
    let f1 = f.drop_last();
    assert forall|k: int| 0 <= k < f1.len() implies is_prime(#[trigger] f1[k].0 as nat) && f1[k].1
        >= 1 by {
        assert(f1[k] == f[k]);
    }
    assert forall|i: int, j: int| 0 <= i < j < f1.len() implies #[trigger] f1[i].0
        < #[trigger] f1[j].0 by {
        assert(f1[i] == f[i] && f1[j] == f[j]);
    }
}

/// A non-empty product of prime powers is at least 2.
proof fn lemma_nonempty_product(f: Seq<(usize, usize)>)
    requires
        f.len() > 0,
        forall|k: int| 0 <= k < f.len() ==> is_prime(#[trigger] f[k].0 as nat) && f[k].1 >= 1,
    ensures
        product(f) >= 2,
{
    let g = f.drop_last();
    assert forall|k: int| 0 <= k < g.len() implies is_prime(#[trigger] g[k].0 as nat) by {
        assert(g[k] == f[k]);
    }
    lemma_product_pos(g);
    let p = f.last().0 as nat;
    let e = f.last().1 as nat;
    assert(is_prime(f[f.len() - 1].0 as nat));
    lemma_power_multiple(p, e);
    lemma_power_pos(p, e);
    lemma_divisor_le(power(p, e) as int, p as int);
    let a = product(g);
    let b = power(p, e);
    assert(a * b >= 2) by (nonlinear_arith)
        requires
            a >= 1,
            b >= 2,
    ;
}

} // verus!
