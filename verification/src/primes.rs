//! Enumerating the primes in `[2, bound]`, by two algorithms that are both
//! proved to return the canonical ascending sequence `prime_seq(bound)`.

use vstd::prelude::*;
use vstd::arithmetic::div_mod::lemma_fundamental_div_mod;
use vstd::arithmetic::div_mod::lemma_mod_multiples_basic;

verus! {

/// A number is prime when it is at least 2 and no number strictly between
/// 1 and it divides it.
pub open spec fn is_prime_spec(n: int) -> bool {
    n >= 2 && forall|d: int| 2 <= d < n ==> #[trigger] (n % d) != 0
}

/// The ascending sequence of all primes in `[2, bound]`: the one sequence
/// every enumeration below returns.
pub open spec fn prime_seq(bound: int) -> Seq<usize>
    decreases bound,
{
    if bound < 2 {
        Seq::empty()
    } else if is_prime_spec(bound) {
        prime_seq(bound - 1).push(bound as usize)
    } else {
        prime_seq(bound - 1)
    }
}

/// Whether `j` has a divisor that is at least 2, below `p`, and proper
/// (strictly below `j`). The sieve's marking table tracks exactly the
/// absence of such divisors.
spec fn has_divisor_below(j: int, p: int) -> bool {
    exists|d: int| 2 <= d < p && d < j && #[trigger] (j % d) == 0
}

/// Divisibility carries through a middle term: if `e` divides `p` and `p`
/// divides `j`, then `e` divides `j`.
proof fn lemma_divides_transitive(e: int, p: int, j: int)
    requires
        1 <= e,
        1 <= p,
        p % e == 0,
        j % p == 0,
    ensures
        j % e == 0,
{
    lemma_fundamental_div_mod(j, p);
    lemma_fundamental_div_mod(p, e);
    let k = j / p;
    let m = p / e;
    assert(j == (m * k) * e) by (nonlinear_arith)
        requires
            j == p * k,
            p == e * m,
    ;
    lemma_mod_multiples_basic(m * k, e);
}

/// A number with a proper divisor also has one whose square does not
/// exceed the number itself.
proof fn lemma_small_divisor_exists(j: int, d: int)
    requires
        2 <= d < j,
        j % d == 0,
    ensures
        exists|e: int| 2 <= e < j && e * e <= j && #[trigger] (j % e) == 0,
{
    lemma_fundamental_div_mod(j, d);
    let k = j / d;
    assert(2 <= k && k < j) by (nonlinear_arith)
        requires
            j == d * k,
            2 <= d < j,
    ;
    assert(j == d * k && j == k * d) by (nonlinear_arith)
        requires
            j == d * k,
    ;
    lemma_mod_multiples_basic(d, k);
    if d <= k {
        assert(d * d <= j) by (nonlinear_arith)
            requires
                j == d * k,
                2 <= d <= k,
        ;
        assert(2 <= d < j && d * d <= j && j % d == 0);
    } else {
        assert(k * k <= j) by (nonlinear_arith)
            requires
                j == d * k,
                2 <= k <= d,
        ;
        assert(2 <= k < j && k * k <= j && j % k == 0);
    }
}

/// A multiple of `p` inside the window `[k*p, (k+1)*p)` can only be `k*p`
/// itself.
proof fn lemma_multiple_in_window(j: int, k: int, p: int)
    requires
        1 <= p,
        j % p == 0,
        k * p <= j < (k + 1) * p,
    ensures
        j == k * p,
{
    lemma_fundamental_div_mod(j, p);
    let a = j / p;
    assert(a == k) by (nonlinear_arith)
        requires
            j == p * a,
            k * p <= j,
            j < (k + 1) * p,
            p >= 1,
    ;
    assert(j == k * p) by (nonlinear_arith)
        requires
            j == p * a,
            a == k,
    ;
}

/// One round of the sieve for a prime `p`: striking the multiples of `p`
/// from `p*p` on turns a table that tracks divisors below `p` into one that
/// tracks divisors below `p + 1`.
proof fn lemma_step_prime(t0: Seq<bool>, t1: Seq<bool>, n: int, p: int)
    requires
        2 <= p,
        p * p <= n,
        forall|j: int| 2 <= j <= n ==> ((#[trigger] t0[j]) <==> !has_divisor_below(j, p)),
        forall|j: int| 0 <= j <= n ==> ((#[trigger] t1[j]) == (t0[j] && !(p * p <= j && j % p
            == 0))),
    ensures
        forall|j: int| 2 <= j <= n ==> ((#[trigger] t1[j]) <==> !has_divisor_below(j, p + 1)),
{
    assert forall|j: int| 2 <= j <= n implies ((#[trigger] t1[j]) <==> !has_divisor_below(
        j,
        p + 1,
    )) by {
        if t1[j] {
            if has_divisor_below(j, p + 1) {
                let d = choose|d: int| 2 <= d < p + 1 && d < j && #[trigger] (j % d) == 0;
                if d < p {
                    assert(has_divisor_below(j, p));
                    assert(false);
                } else {
                    assert(d == p);
                    lemma_fundamental_div_mod(j, p);
                    let k = j / p;
                    assert(k >= 2) by (nonlinear_arith)
                        requires
                            j == p * k,
                            p >= 2,
                            j > p,
                    ;
                    if k < p {
                        lemma_mod_multiples_basic(p, k);
                        assert(j % k == 0);
                        assert(k < j) by (nonlinear_arith)
                            requires
                                j == p * k,
                                p >= 2,
                                k >= 2,
                        ;
                        assert(has_divisor_below(j, p));
                        assert(false);
                    } else {
                        assert(j >= p * p) by (nonlinear_arith)
                            requires
                                j == p * k,
                                k >= p,
                                p >= 0,
                        ;
                        assert(false);
                    }
                }
            }
        } else {
            if t0[j] {
                assert(p * p <= j && j % p == 0);
                assert(p < j) by (nonlinear_arith)
                    requires
                        p >= 2,
                        p * p <= j,
                ;
                assert(has_divisor_below(j, p + 1));
            } else {
                let d = choose|d: int| 2 <= d < p && d < j && #[trigger] (j % d) == 0;
                assert(has_divisor_below(j, p + 1));
            }
        }
    }
}

/// One round of the sieve for a composite `p`: the table already reflects
/// every multiple of `p`, because a divisor of `p` below it divides them
/// all, so nothing changes.
proof fn lemma_step_composite(t: Seq<bool>, n: int, p: int)
    requires
        2 <= p,
        has_divisor_below(p, p),
        forall|j: int| 2 <= j <= n ==> ((#[trigger] t[j]) <==> !has_divisor_below(j, p)),
    ensures
        forall|j: int| 2 <= j <= n ==> ((#[trigger] t[j]) <==> !has_divisor_below(j, p + 1)),
{
    let e = choose|e: int| 2 <= e < p && e < p && #[trigger] (p % e) == 0;
    assert forall|j: int| 2 <= j <= n implies ((#[trigger] t[j]) <==> !has_divisor_below(
        j,
        p + 1,
    )) by {
        if has_divisor_below(j, p + 1) && !has_divisor_below(j, p) {
            let d = choose|d: int| 2 <= d < p + 1 && d < j && #[trigger] (j % d) == 0;
            assert(d == p);
            lemma_divides_transitive(e, p, j);
            assert(has_divisor_below(j, p));
            assert(false);
        }
        if has_divisor_below(j, p) {
            let d = choose|d: int| 2 <= d < p && d < j && #[trigger] (j % d) == 0;
            assert(has_divisor_below(j, p + 1));
        }
    }
}

/// Once `p*p` exceeds `n`, having no divisor below `p` is the same as being
/// prime, for every number up to `n`.
proof fn lemma_sieve_complete(t: Seq<bool>, n: int, p: int)
    requires
        2 <= p,
        n < p * p,
        forall|j: int| 2 <= j <= n ==> ((#[trigger] t[j]) <==> !has_divisor_below(j, p)),
    ensures
        forall|j: int| 2 <= j <= n ==> ((#[trigger] t[j]) <==> is_prime_spec(j)),
{
    assert forall|j: int| 2 <= j <= n implies ((#[trigger] t[j]) <==> is_prime_spec(j)) by {
        if has_divisor_below(j, p) {
            let d = choose|d: int| 2 <= d < p && d < j && #[trigger] (j % d) == 0;
            assert(!is_prime_spec(j));
        } else {
            if !is_prime_spec(j) {
                let d = choose|d: int| 2 <= d < j && #[trigger] (j % d) == 0;
                lemma_small_divisor_exists(j, d);
                let e = choose|e: int| 2 <= e < j && e * e <= j && #[trigger] (j % e) == 0;
                assert(e < p) by (nonlinear_arith)
                    requires
                        e * e <= j,
                        j <= n,
                        n < p * p,
                        e >= 0,
                        p >= 0,
                ;
                assert(has_divisor_below(j, p));
                assert(false);
            }
        }
    }
}

/// Whether `a * b <= n`, decided in 128-bit arithmetic so that the product
/// cannot overflow.
fn product_at_most(a: usize, b: usize, n: usize) -> (r: bool)
    ensures
        r == ((a as int) * (b as int) <= (n as int)),
{
    let x = a as u128;
    let y = b as u128;
    proof {
        assert(x <= 0xffff_ffff_ffff_ffffu128);
        assert(y <= 0xffff_ffff_ffff_ffffu128);
        assert(x * y <= u128::MAX) by (nonlinear_arith)
            requires
                x <= 0xffff_ffff_ffff_ffffu128,
                y <= 0xffff_ffff_ffff_ffffu128,
        ;
    }
    x * y <= (n as u128)
}

/// Trial division: `n` is prime exactly when it is 2, or odd, at least 3,
/// and no odd divisor up to its square root divides it.
pub fn is_prime(n: usize) -> (r: bool)
    ensures
        r == is_prime_spec(n as int),
{
    if n < 2 {
        return false;
    }
    if n == 2 {
        return true;
    }
    if n % 2 == 0 {
        proof {
            assert((n as int) % 2 == 0);
        }
        return false;
    }
    let mut i: usize = 3;
    while product_at_most(i, i, n)
        invariant
            3 <= i,
            i % 2 == 1,
            n % 2 == 1,
            3 <= n,
            i <= n + 2,
            forall|j: int| 3 <= j < i && j % 2 == 1 ==> #[trigger] ((n as int) % j) != 0,
        decreases n + 2 - i,
    {
        if n % i == 0 {
            proof {
                assert(i < n) by (nonlinear_arith)
                    requires
                        3 <= i,
                        i * i <= n,
                ;
                assert((n as int) % (i as int) == 0);
            }
            return false;
        }
        proof {
            assert(i + 2 < i * i) by (nonlinear_arith)
                requires
                    3 <= i,
            ;
        }
        i += 2;
    }
    proof {
        assert((n as int) < (i as int) * (i as int));
        if !is_prime_spec(n as int) {
            let d = choose|d: int| 2 <= d < n && #[trigger] ((n as int) % d) == 0;
            lemma_small_divisor_exists(n as int, d);
            let e = choose|e: int|
                2 <= e < n && e * e <= n && #[trigger] ((n as int) % e) == 0;
            if e % 2 == 0 {
                lemma_divides_transitive(2, e, n as int);
                assert(false);
            } else {
                assert(e < i) by (nonlinear_arith)
                    requires
                        0 <= e,
                        0 <= i,
                        e * e <= n,
                        (n as int) < (i as int) * (i as int),
                ;
                assert(e % 2 == 1);
                assert(false);
            }
        }
    }
    true
}

/// The Sieve of Eratosthenes: strikes the multiples of every prime whose
/// square is within the bound, then collects the indices that survive, in
/// ascending order.
pub fn sieve_of_eratosthenes(n: usize) -> (r: Vec<usize>)
    requires
        n < usize::MAX,
    ensures
        r@ == prime_seq(n as int),
{
    if n < 2 {
        let r: Vec<usize> = Vec::new();
        proof {
            assert(r@ =~= prime_seq(n as int));
        }
        return r;
    }
    let mut table: Vec<bool> = Vec::new();
    let mut i: usize = 0;
    while i < n + 1
        invariant
            i <= n + 1,
            n < usize::MAX,
            table@.len() == i,
            forall|j: int| 0 <= j < i ==> #[trigger] table@[j] == true,
        decreases n + 1 - i,
    {
        table.push(true);
        i += 1;
    }
    table[0] = false;
    table[1] = false;
    let mut p: usize = 2;
    while product_at_most(p, p, n)
        invariant
            2 <= p <= n + 1,
            n < usize::MAX,
            table@.len() == n + 1,
            forall|j: int| 2 <= j <= n ==> ((#[trigger] table@[j]) <==> !has_divisor_below(
                j,
                p as int,
            )),
        decreases n + 1 - p,
    {
        proof {
            assert(p <= n) by (nonlinear_arith)
                requires
                    2 <= p,
                    (p as int) * (p as int) <= n,
            ;
        }
        if table[p] {
            let ghost t0 = table@;
            let mut k: usize = p;
            while product_at_most(k, p, n)
                invariant
                    2 <= p <= n,
                    p <= k <= n + 1,
                    n < usize::MAX,
                    table@.len() == n + 1,
                    forall|j: int|
                        0 <= j <= n ==> ((#[trigger] table@[j]) == (t0[j] && !((p as int) * (
                        p as int) <= j && j < (k as int) * (p as int) && j % (p as int) == 0))),
                decreases n + 1 - k,
            {
                let idx = k * p;
                table[idx] = false;
                proof {
                    lemma_mod_multiples_basic(k as int, p as int);
                    assert((p as int) * (p as int) <= (k as int) * (p as int) && (k as int) * (
                    p as int) < ((k as int) + 1) * (p as int)) by (nonlinear_arith)
                        requires
                            2 <= p,
                            p <= k,
                    ;
                    assert forall|j: int| 0 <= j <= n implies ((#[trigger] table@[j]) == (t0[j]
                        && !((p as int) * (p as int) <= j && j < ((k as int) + 1) * (p as int)
                        && j % (p as int) == 0))) by {
                        if j != (k as int) * (p as int) {
                            if (p as int) * (p as int) <= j && j % (p as int) == 0 && (k as int)
                                * (p as int) <= j && j < ((k as int) + 1) * (p as int) {
                                lemma_multiple_in_window(j, k as int, p as int);
                                assert(false);
                            }
                        }
                    }
                    assert(k + 1 <= n + 1) by (nonlinear_arith)
                        requires
                            2 <= p,
                            1 <= k,
                            (k as int) * (p as int) <= n,
                    ;
                }
                k += 1;
            }
            proof {
                assert forall|j: int| 0 <= j <= n implies ((#[trigger] table@[j]) == (t0[j]
                    && !((p as int) * (p as int) <= j && j % (p as int) == 0))) by {
                    if (p as int) * (p as int) <= j && j % (p as int) == 0 {
                        assert(j < (k as int) * (p as int));
                    }
                }
                lemma_step_prime(t0, table@, n as int, p as int);
            }
        } else {
            proof {
                lemma_step_composite(table@, n as int, p as int);
            }
        }
        p += 1;
    }
    proof {
        lemma_sieve_complete(table@, n as int, p as int);
    }
    let mut r: Vec<usize> = Vec::new();
    proof {
        assert(r@ =~= prime_seq(1));
    }
    let mut m: usize = 2;
    while m <= n
        invariant
            2 <= m <= n + 1,
            n < usize::MAX,
            table@.len() == n + 1,
            forall|j: int| 2 <= j <= n ==> ((#[trigger] table@[j]) <==> is_prime_spec(j)),
            r@ == prime_seq(m - 1),
        decreases n + 1 - m,
    {
        if table[m] {
            r.push(m);
        }
        proof {
            assert(r@ == prime_seq(m as int));
        }
        m += 1;
    }
    r
}

/// Enumerates the primes up to `limit` by testing every number with trial
/// division; the correctness oracle for the sieve.
pub fn find_primes_trial_division(limit: usize) -> (r: Vec<usize>)
    ensures
        r@ == prime_seq(limit as int),
{
    let mut r: Vec<usize> = Vec::new();
    proof {
        assert(r@ =~= prime_seq(0));
    }
    let mut m: usize = 0;
    while m < limit
        invariant
            m <= limit,
            r@ == prime_seq(m as int),
        decreases limit - m,
    {
        m += 1;
        if is_prime(m) {
            r.push(m);
        }
        proof {
            assert(r@ == prime_seq(m as int));
        }
    }
    r
}

/// For a bound below 2 the enumeration is empty: there are no primes
/// under 2.
pub proof fn lemma_prime_seq_empty_below_two(bound: int)
    requires
        bound < 2,
    ensures
        prime_seq(bound) == Seq::<usize>::empty(),
{
}

/// The invariant of every enumeration: `prime_seq(bound)` is strictly
/// increasing (so free of duplicates) and holds exactly the primes in
/// `[2, bound]`.
pub proof fn lemma_prime_seq_characterization(bound: int)
    requires
        bound <= usize::MAX,
    ensures
        forall|k: int|
            0 <= k < prime_seq(bound).len() ==> 2 <= #[trigger] prime_seq(bound)[k]
                && prime_seq(bound)[k] <= bound && is_prime_spec(prime_seq(bound)[k] as int),
        forall|k1: int, k2: int|
            #![trigger prime_seq(bound)[k1], prime_seq(bound)[k2]]
            0 <= k1 < k2 < prime_seq(bound).len() ==> prime_seq(bound)[k1] < prime_seq(
                bound,
            )[k2],
        forall|q: usize|
            2 <= q <= bound && is_prime_spec(q as int) ==> #[trigger] prime_seq(
                bound,
            ).contains(q),
    decreases bound,
{
    if bound >= 2 {
        lemma_prime_seq_characterization(bound - 1);
        if is_prime_spec(bound) {
            assert(prime_seq(bound) == prime_seq(bound - 1).push((bound as usize)));
            assert forall|k: int|
                0 <= k < prime_seq(bound).len() implies 2 <= #[trigger] prime_seq(bound)[k]
                && prime_seq(bound)[k] <= bound && is_prime_spec(
                prime_seq(bound)[k] as int,
            ) by {
                if k < prime_seq(bound - 1).len() {
                    assert(prime_seq(bound)[k] == prime_seq(bound - 1)[k]);
                } else {
                    assert(prime_seq(bound)[k] == bound as usize);
                }
            }
            assert forall|k1: int, k2: int|
                #![trigger prime_seq(bound)[k1], prime_seq(bound)[k2]]
                0 <= k1 < k2 < prime_seq(bound).len() implies prime_seq(bound)[k1] < prime_seq(
                bound,
            )[k2] by {
                assert(prime_seq(bound)[k1] == prime_seq(bound - 1)[k1]);
                if k2 < prime_seq(bound - 1).len() {
                    assert(prime_seq(bound)[k2] == prime_seq(bound - 1)[k2]);
                } else {
                    assert(prime_seq(bound)[k2] == bound as usize);
                    assert(prime_seq(bound - 1)[k1] <= bound - 1);
                }
            }
            assert forall|q: usize|
                2 <= q <= bound && is_prime_spec(q as int) implies #[trigger] prime_seq(
                bound,
            ).contains(q) by {
                if q < bound {
                    assert(prime_seq(bound - 1).contains(q));
                    let idx = choose|idx: int|
                        0 <= idx < prime_seq(bound - 1).len() && #[trigger] prime_seq(
                            bound - 1,
                        )[idx] == q;
                    assert(prime_seq(bound)[idx] == q);
                } else {
                    assert(prime_seq(bound)[prime_seq(bound).len() - 1] == q);
                }
            }
        } else {
            assert(prime_seq(bound) == prime_seq(bound - 1));
            assert forall|q: usize|
                2 <= q <= bound && is_prime_spec(q as int) implies #[trigger] prime_seq(
                bound,
            ).contains(q) by {
                assert(q != bound);
                assert(prime_seq(bound - 1).contains(q));
            }
        }
    }
}

} // verus!
