//! Fermat's little theorem, through Euclid's lemma and the binomial theorem, for the
//! inverses that the transform tables are built from.
use vstd::prelude::*;
use vstd::arithmetic::div_mod::*;
use vstd::arithmetic::mul::*;
use vstd::arithmetic::power::*;

verus! {

/// `p` is a prime number.
pub open spec fn is_prime(p: nat) -> bool {
    p > 1 && forall|d: nat| 1 < d < p ==> #[trigger] (p % d) != 0
}

/// Euclid's lemma for a factor reduced below the prime: if `p` divides `a * b` with
/// `0 < a < p`, then `p` divides `b`.
proof fn lemma_euclid_reduced(a: nat, b: nat, p: nat)
    requires
        is_prime(p),
        0 < a < p,
        (a * b) % p == 0,
    ensures
        b % p == 0,
    decreases a,
{
    if a == 1 {
        assert(a * b == b) by (nonlinear_arith)
            requires
                a == 1,
        ;
    } else {
        let k = p / a;
        let r = p % a;
        lemma_fundamental_div_mod(p as int, a as int);
        lemma_mod_bound(p as int, a as int);
        assert(r != 0) by {
            assert(1 < a < p);
            assert(p % a != 0);
        }
        // r * b == p * b - k * (a * b), and both terms are multiples of p
        assert((r * b) as int == p * b - k * (a * b)) by (nonlinear_arith)
            requires
                p == a * k + r,
        ;
        let m = (a * b) / p;
        lemma_fundamental_div_mod((a * b) as int, p as int);
        assert((r * b) as int == p * (b - k * m)) by (nonlinear_arith)
            requires
                (r * b) as int == p * b - k * (a * b),
                (a * b) as int == p * m,
        ;
        lemma_mod_multiples_basic(b - k * m, p as int);
        lemma_mul_is_commutative(b - k * m, p as int);
        lemma_euclid_reduced(r, b, p);
    }
}

/// Euclid's lemma: a prime that divides a product divides one of its factors.
pub proof fn lemma_euclid(a: nat, b: nat, p: nat)
    requires
        is_prime(p),
        (a * b) % p == 0,
    ensures
        a % p == 0 || b % p == 0,
{
    if a % p != 0 {
        lemma_mul_mod_noop_left(a as int, b as int, p as int);
        lemma_mod_bound(a as int, p as int);
        lemma_euclid_reduced(a % p, b, p);
    }
}

/// The binomial coefficient `n choose k`, by Pascal's rule.
pub open spec fn binom(n: nat, k: nat) -> nat
    decreases n,
{
    if k == 0 {
        1
    } else if n == 0 {
        0
    } else {
        binom((n - 1) as nat, (k - 1) as nat) + binom((n - 1) as nat, k)
    }
}

/// `n choose k` vanishes for `k > n`.
proof fn lemma_binom_above(n: nat, k: nat)
    requires
        k > n,
    ensures
        binom(n, k) == 0,
    decreases n,
{
    if n > 0 {
        lemma_binom_above((n - 1) as nat, (k - 1) as nat);
        lemma_binom_above((n - 1) as nat, k);
    }
}

/// `n choose n` is one.
proof fn lemma_binom_diagonal(n: nat)
    ensures
        binom(n, n) == 1,
    decreases n,
{
    if n > 0 {
        lemma_binom_diagonal((n - 1) as nat);
        lemma_binom_above((n - 1) as nat, n);
    }
}

/// The absorption identity `k * (n choose k) == n * (n-1 choose k-1)`.
proof fn lemma_binom_absorb(n: nat, k: nat)
    requires
        n >= 1,
        k >= 1,
    ensures
        k * binom(n, k) == n * binom((n - 1) as nat, (k - 1) as nat),
    decreases n,
{
    let c1 = binom((n - 1) as nat, (k - 1) as nat);
    let c2 = binom((n - 1) as nat, k);
    assert(binom(n, k) == c1 + c2);
    if n == 1 {
        lemma_binom_above(0, k);
        if k == 1 {
            assert(c1 == 1);
            assert(c2 == 0);
            assert(k * binom(n, k) == n * c1) by (nonlinear_arith)
                requires
                    k == 1,
                    n == 1,
                    binom(n, k) == c1 + c2,
                    c1 == 1,
                    c2 == 0,
            ;
        } else {
            lemma_binom_above(0, (k - 1) as nat);
            assert(c1 == 0);
            assert(c2 == 0);
            assert(k * binom(n, k) == n * c1) by (nonlinear_arith)
                requires
                    binom(n, k) == c1 + c2,
                    c1 == 0,
                    c2 == 0,
            ;
        }
    } else {
        // k * c2 == (n - 1) * binom(n - 2, k - 1)
        lemma_binom_absorb((n - 1) as nat, k);
        let d1 = binom((n - 2) as nat, (k - 1) as nat);
        if k == 1 {
            assert(c1 == 1);
            assert(binom((n - 1) as nat, 0) == 1);
            assert(k * binom(n, k) == c1 + c2) by (nonlinear_arith)
                requires
                    k == 1,
                    binom(n, k) == c1 + c2,
            ;
            assert(c2 == (n - 1) * d1) by (nonlinear_arith)
                requires
                    k == 1,
                    k * c2 == (n - 1) * d1,
            ;
            assert(d1 == 1);
            assert(k * binom(n, k) == n * c1) by (nonlinear_arith)
                requires
                    k * binom(n, k) == c1 + c2,
                    c2 == (n - 1) * d1,
                    d1 == 1,
                    c1 == 1,
                    n >= 2,
            ;
        } else {
            // (k - 1) * c1 == (n - 1) * binom(n - 2, k - 2)
            lemma_binom_absorb((n - 1) as nat, (k - 1) as nat);
            let d0 = binom((n - 2) as nat, (k - 2) as nat);
            assert(c1 == d0 + d1);
            assert(k * binom(n, k) == n * c1) by (nonlinear_arith)
                requires
                    binom(n, k) == c1 + c2,
                    k * c2 == (n - 1) * d1,
                    (k - 1) * c1 == (n - 1) * d0,
                    c1 == d0 + d1,
            ;
        }
    }
}

/// A prime `p` divides `p choose k` for `0 < k < p`.
proof fn lemma_prime_divides_binom(p: nat, k: nat)
    requires
        is_prime(p),
        0 < k < p,
    ensures
        binom(p, k) % p == 0,
{
    lemma_binom_absorb(p, k);
    let c = binom((p - 1) as nat, (k - 1) as nat);
    lemma_mod_multiples_basic(c as int, p as int);
    lemma_mul_is_commutative(c as int, p as int);
    assert((k * binom(p, k)) % p == 0);
    lemma_small_mod(k, p);
    lemma_euclid(k, binom(p, k), p);
}

/// The first `k` terms of the binomial expansion of `(x + 1)^n`: the sum of
/// `(n choose j) * x^j` over `j < k`.
pub open spec fn binom_sum(x: int, n: nat, k: nat) -> int
    decreases k,
{
    if k == 0 {
        0
    } else {
        binom_sum(x, n, (k - 1) as nat) + binom(n, (k - 1) as nat) * pow(x, (k - 1) as nat)
    }
}

/// Pascal's rule on the partial expansions: the terms of `(x + 1)^(n+1)` are `x` times those
/// of `(x + 1)^n`, shifted by one, plus those of `(x + 1)^n`.
proof fn lemma_binom_sum_pascal(x: int, n: nat, k: nat)
    requires
        k >= 1,
    ensures
        binom_sum(x, n + 1, k) == x * binom_sum(x, n, (k - 1) as nat) + binom_sum(x, n, k),
    decreases k,
{
    lemma_pow0(x);
    if k == 1 {
        assert(binom_sum(x, n + 1, 0) == 0);
        assert(binom_sum(x, n + 1, 1) == binom(n + 1, 0) * pow(x, 0));
        assert(binom_sum(x, n, 0) == 0);
        assert(binom_sum(x, n, 1) == binom(n, 0) * pow(x, 0));
        assert(x * binom_sum(x, n, 0) == 0) by (nonlinear_arith)
            requires
                binom_sum(x, n, 0) == 0,
        ;
    } else {
        lemma_binom_sum_pascal(x, n, (k - 1) as nat);
        let j = (k - 2) as nat;
        let a = binom(n, j);
        let b = binom(n, (k - 1) as nat);
        assert(binom(n + 1, (k - 1) as nat) == a + b);
        lemma_pow_adds(x, 1, j);
        lemma_pow1(x);
        assert(1 + j == (k - 1) as nat);
        let pj = pow(x, j);
        let pk = pow(x, (k - 1) as nat);
        assert(pk == x * pj);
        let s2 = binom_sum(x, n, j);
        let s1 = binom_sum(x, n, (k - 1) as nat);
        assert(s1 == s2 + a * pj);
        assert(binom_sum(x, n, k) == s1 + b * pk);
        assert(binom_sum(x, n + 1, k) == binom_sum(x, n + 1, (k - 1) as nat) + (a + b) * pk);
        assert(binom_sum(x, n + 1, (k - 1) as nat) == x * s2 + s1);
        assert(x * s2 + s1 + (a + b) * pk == x * s1 + (s1 + b * pk)) by (nonlinear_arith)
            requires
                s1 == s2 + a * pj,
                pk == x * pj,
        ;
    }
}

/// The binomial theorem for `(x + 1)^n`.
pub proof fn lemma_binomial_theorem(x: int, n: nat)
    ensures
        pow(x + 1, n) == binom_sum(x, n, n + 1),
    decreases n,
{
    lemma_pow0(x);
    lemma_pow0(x + 1);
    if n == 0 {
        assert(binom_sum(x, 0, 0) == 0);
        assert(binom_sum(x, 0, 1) == binom(0, 0) * pow(x, 0));
    } else {
        let m = (n - 1) as nat;
        lemma_binomial_theorem(x, m);
        lemma_pow_adds(x + 1, 1, m);
        lemma_pow1(x + 1);
        assert(1 + m == n);
        lemma_binom_sum_pascal(x, m, n + 1);
        lemma_binom_above(m, n);
        assert(binom_sum(x, m, n + 1) == binom_sum(x, m, n) + binom(m, n) * pow(x, n));
        assert(binom(m, n) * pow(x, n) == 0) by (nonlinear_arith)
            requires
                binom(m, n) == 0,
        ;
        let t = binom_sum(x, m, n);
        assert((x + 1) * t == x * t + t) by (nonlinear_arith);
    }
}

/// Modulo a prime `p`, the partial expansion of `(x + 1)^p` up to `k <= p` terms is `1`.
proof fn lemma_binom_sum_mod_prime(x: int, p: nat, k: nat)
    requires
        is_prime(p),
        1 <= k <= p,
    ensures
        binom_sum(x, p, k) % (p as int) == 1,
    decreases k,
{
    lemma_pow0(x);
    lemma_small_mod(1, p);
    if k == 1 {
        assert(binom_sum(x, p, 0) == 0);
        assert(binom_sum(x, p, 1) == binom(p, 0) * pow(x, 0));
    } else {
        let j = (k - 1) as nat;
        lemma_binom_sum_mod_prime(x, p, j);
        lemma_prime_divides_binom(p, j);
        lemma_mul_mod_noop_left(binom(p, j) as int, pow(x, j), p as int);
        assert((0 * pow(x, j)) % (p as int) == 0) by (nonlinear_arith)
            requires
                p > 1,
        ;
        lemma_add_mod_noop(binom_sum(x, p, j), binom(p, j) * pow(x, j), p as int);
    }
}

/// Modulo a prime `p`, `(x + 1)^p == x^p + 1`.
proof fn lemma_frobenius_step(x: int, p: nat)
    requires
        is_prime(p),
    ensures
        pow(x + 1, p) % (p as int) == (pow(x, p) + 1) % (p as int),
{
    lemma_binomial_theorem(x, p);
    lemma_binom_sum_mod_prime(x, p, p);
    lemma_binom_diagonal(p);
    assert(binom_sum(x, p, p + 1) == binom_sum(x, p, p) + binom(p, p) * pow(x, p));
    lemma_add_mod_noop(binom_sum(x, p, p), pow(x, p), p as int);
    lemma_add_mod_noop(1, pow(x, p), p as int);
    lemma_small_mod(1, p);
}

/// Fermat's little theorem in the form `a^p == a (mod p)` for a prime `p`.
pub proof fn lemma_fermat_pow(a: nat, p: nat)
    requires
        is_prime(p),
    ensures
        pow(a as int, p) % (p as int) == (a as int) % (p as int),
    decreases a,
{
    if a == 0 {
        lemma0_pow(p);
    } else {
        let b = (a - 1) as nat;
        lemma_fermat_pow(b, p);
        lemma_frobenius_step(b as int, p);
        lemma_add_mod_noop(pow(b as int, p), 1, p as int);
        lemma_add_mod_noop(b as int, 1, p as int);
    }
}

/// Fermat's little theorem: `a^(p-1) == 1 (mod p)` for a prime `p` that does not divide `a`.
pub proof fn lemma_fermat(a: nat, p: nat)
    requires
        is_prime(p),
        a % p != 0,
    ensures
        pow(a as int, (p - 1) as nat) % (p as int) == 1,
{
    let e = (p - 1) as nat;
    lemma_fermat_pow(a, p);
    lemma_pow_adds(a as int, 1, e);
    lemma_pow1(a as int);
    assert(1 + e == p);
    let c = pow(a as int, e);
    assert(a > 0) by {
        if a == 0 {
            lemma_small_mod(0, p);
        }
    }
    lemma_pow_positive(a as int, e);
    assert(pow(a as int, p) == a * c);
    // a * (c - 1) == a * c - a is a multiple of p
    assert((a * c - a) % (p as int) == 0) by {
        lemma_sub_mod_noop(a * c, a as int, p as int);
        lemma_mod_self_0(p as int);
        assert(((a * c) % (p as int) - (a as int) % (p as int)) == 0);
        assert(0int % (p as int) == 0);
    }
    assert(a * c - a == a * (c - 1)) by (nonlinear_arith);
    lemma_euclid(a, (c - 1) as nat, p);
    lemma_add_mod_noop(c - 1, 1, p as int);
    lemma_small_mod(1, p);
}

} // verus!
