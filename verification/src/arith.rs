//! Word-sized modular arithmetic: products and powers modulo `q`, and Shoup's
//! multiplication by a constant with a precomputed quotient.
use vstd::prelude::*;
use vstd::arithmetic::div_mod::*;
use vstd::arithmetic::mul::*;
use vstd::arithmetic::power::*;

verus! {

/// The machine word base, 2^64.
pub open spec fn word() -> int {
    0x1_0000_0000_0000_0000
}

/// Shoup's precomputed quotient of the constant `w` modulo `q`: `floor(w * 2^64 / q)`.
pub open spec fn shoup_repr_spec(w: int, q: int) -> int {
    (w * word()) / q
}

/// The value that Shoup multiplication returns for `a * b mod q`: the product minus
/// `q` times the approximate quotient `floor(a * b_shoup / 2^64)`.
pub open spec fn shoup_mul_spec(a: int, b: int, b_shoup: int, q: int) -> int {
    a * b - q * ((a * b_shoup) / word())
}

/// The core inequality behind Shoup multiplication: with `b * M == s * q + e`
/// (`0 <= e < q`) and `Q == floor(s * a / M)`, the value `a * b - Q * q` lies in `[0, 2q)`.
proof fn lemma_shoup_bounds(a: int, b: int, q: int, s: int, e: int, big_q: int, m: int)
    requires
        m > 0,
        q > 0,
        0 <= a < m,
        b * m == s * q + e,
        0 <= e < q,
        big_q * m <= s * a,
        s * a < (big_q + 1) * m,
    ensures
        0 <= a * b - big_q * q < 2 * q,
{
    assert(s * a * q == a * b * m - e * a) by (nonlinear_arith)
        requires
            b * m == s * q + e,
    ;
    assert(big_q * q * m <= s * a * q) by (nonlinear_arith)
        requires
            big_q * m <= s * a,
            q > 0,
    ;
    assert(0 <= e * a <= e * m) by (nonlinear_arith)
        requires
            0 <= e,
            0 <= a < m,
    ;
    assert(e * m < q * m) by (nonlinear_arith)
        requires
            e < q,
            m > 0,
    ;
    assert(big_q * q <= a * b) by (nonlinear_arith)
        requires
            big_q * q * m <= a * b * m,
            m > 0,
    ;
    assert((big_q + 1) * m * q > s * a * q) by (nonlinear_arith)
        requires
            s * a < (big_q + 1) * m,
            q > 0,
    ;
    assert((big_q + 1) * m * q > a * b * m - q * m);
    assert((big_q + 1) * q > a * b - q) by (nonlinear_arith)
        requires
            (big_q + 1) * m * q > a * b * m - q * m,
            m > 0,
    ;
    assert(a * b - big_q * q < 2 * q) by (nonlinear_arith)
        requires
            (big_q + 1) * q > a * b - q,
    ;
}

/// Subtracting two words that hold `x` and `y` reduced modulo `m`, and adding `m` back on a
/// borrow, recovers `x - y` whenever that difference is in `[0, m)`.
proof fn lemma_wrapping_difference(x: int, y: int, m: int)
    requires
        m > 0,
        0 <= y <= x,
        x - y < m,
    ensures
        x % m - y % m >= 0 ==> x % m - y % m == x - y,
        x % m - y % m < 0 ==> x % m - y % m + m == x - y,
{
    lemma_fundamental_div_mod(x, m);
    lemma_fundamental_div_mod(y, m);
    lemma_mod_bound(x, m);
    lemma_mod_bound(y, m);
    let k = x / m - y / m;
    assert(x % m - y % m == (x - y) - m * k) by (nonlinear_arith)
        requires
            x == m * (x / m) + x % m,
            y == m * (y / m) + y % m,
            k == x / m - y / m,
    ;
    if k >= 2 {
        assert(m * k >= 2 * m) by (nonlinear_arith)
            requires
                k >= 2,
                m > 0,
        ;
    } else if k <= -1 {
        assert(m * k <= -m) by (nonlinear_arith)
            requires
                k <= -1,
                m > 0,
        ;
    } else if k == 1 {
        assert(m * k == m) by (nonlinear_arith)
            requires
                k == 1,
        ;
    } else {
        assert(k == 0);
        assert(m * k == 0);
    }
}

/// Shoup's precomputed quotient `floor(w * 2^64 / q)` of a constant `w < q`.
pub fn shoup_representation(w: u64, q: u64) -> (r: u64)
    requires
        w < q,
    ensures
        r == shoup_repr_spec(w as int, q as int),
{
    let num: u128 = (w as u128) * 0x1_0000_0000_0000_0000u128;
    assert((w as int) * word() < (q as int) * word()) by (nonlinear_arith)
        requires
            w < q,
    ;
    proof {
        lemma_div_is_ordered((w as int) * word(), (q as int) * word(), q as int);
        lemma_div_by_multiple(word(), q as int);
        lemma_mul_is_commutative(q as int, word());
        assert((q as int) * word() / (q as int) == word());
        lemma_div_pos_is_pos((w as int) * word(), q as int);
        if (w as int) * word() / (q as int) == word() {
            assert(false) by {
                lemma_fundamental_div_mod((w as int) * word(), q as int);
                lemma_mod_bound((w as int) * word(), q as int);
                assert((q as int) * word() <= (w as int) * word());
            }
        }
    }
    (num / (q as u128)) as u64
}

/// Shoup multiplication: `a * b mod q` for a constant `b < q` with its precomputed quotient
/// `b_shoup`, returned lazily reduced in `[0, 2q)`.
pub fn shoup_mul(a: u64, b: u64, b_shoup: u64, q: u64) -> (r: u64)
    requires
        b < q,
        b_shoup == shoup_repr_spec(b as int, q as int),
        q < 0x8000_0000_0000_0000,
    ensures
        r == shoup_mul_spec(a as int, b as int, b_shoup as int, q as int),
        r < 2 * q,
        r as int % q as int == (a as int * b as int) % q as int,
{
    assert((b_shoup as int) * (a as int) < word() * word()) by (nonlinear_arith)
        requires
            b_shoup < word(),
            a < word(),
    ;
    let prod: u128 = (b_shoup as u128) * (a as u128);
    let q_hat_wide: u128 = prod >> 64u128;
    proof {
        vstd::bits::lemma_u128_shr_is_div(prod, 64u128);
        vstd::arithmetic::power2::lemma2_to64();
        vstd::arithmetic::power2::lemma2_to64_rest();
    }
    assert(q_hat_wide == (prod as int) / word());
    let ghost s = b_shoup as int;
    let ghost e = (b as int) * word() % (q as int);
    let ghost big_q = q_hat_wide as int;
    proof {
        lemma_fundamental_div_mod((b as int) * word(), q as int);
        lemma_mod_bound((b as int) * word(), q as int);
        lemma_mul_is_commutative(q as int, s);
        lemma_fundamental_div_mod(prod as int, word());
        lemma_mod_bound(prod as int, word());
        lemma_mul_is_commutative(word(), big_q);
        lemma_mul_is_commutative(s, a as int);
        lemma_mul_is_commutative(a as int, s);
        lemma_shoup_bounds(a as int, b as int, q as int, s, e, big_q, word());
        assert(big_q < word()) by {
            lemma_div_is_ordered(prod as int, word() * word() - 1, word());
            lemma_div_multiples_vanish_fancy(word() - 1, word() - 1, word());
            lemma_fundamental_div_mod_converse(word() * word() - 1, word(), word() - 1, word() - 1);
        }
    }
    let q_hat = q_hat_wide as u64;
    let x = b.wrapping_mul(a);
    let y = q.wrapping_mul(q_hat);
    proof {
        assert(0 <= (q as int) * big_q) by (nonlinear_arith)
            requires
                q >= 0,
                big_q >= 0,
        ;
        lemma_mul_is_commutative(a as int, b as int);
        lemma_wrapping_difference((b as int) * (a as int), (q as int) * big_q, word());
    }
    let r = x.wrapping_sub(y);
    proof {
        lemma_mul_is_commutative(q as int, big_q);
        assert(r as int == (a as int) * (b as int) - big_q * (q as int));
        lemma_mod_multiples_vanish(-big_q, (a as int) * (b as int), q as int);
        lemma_mul_is_commutative(-big_q, q as int);
        assert(r as int == (q as int) * (-big_q) + (a as int) * (b as int)) by (nonlinear_arith)
            requires
                r as int == (a as int) * (b as int) - big_q * (q as int),
        ;
    }
    r
}

/// `a * b mod q`, computed through a double-width product.
pub fn mul_mod(a: u64, b: u64, q: u64) -> (r: u64)
    requires
        q > 0,
    ensures
        r as int == (a as int * b as int) % q as int,
{
    assert((a as int) * (b as int) < word() * word()) by (nonlinear_arith)
        requires
            a < word(),
            b < word(),
    ;
    let prod: u128 = (a as u128) * (b as u128);
    proof {
        lemma_mod_bound(prod as int, q as int);
    }
    (prod % (q as u128)) as u64
}

/// One step of binary exponentiation keeps `acc * base^e` unchanged modulo `q`: squaring
/// the base and halving the exponent, after folding an odd exponent's extra factor into
/// the accumulator.
proof fn lemma_square_multiply_step(acc: int, base: int, e: nat, q: int)
    requires
        q > 0,
    ensures
        ((if e % 2 == 1 { (acc * base) % q } else { acc }) * pow((base * base) % q, e / 2)) % q
            == (acc * pow(base, e)) % q,
{
    let h = e / 2;
    let low: nat = e % 2;
    assert(e == low + 2 * h);
    lemma_pow_adds(base, low, 2 * h);
    lemma_pow_multiplies(base, 2, h);
    lemma_square_is_pow2(base);
    let sq = pow(base * base, h);
    assert(pow(base, e) == pow(base, low) * sq);
    lemma_pow_mod_noop(base * base, h, q);
    let sqr = pow((base * base) % q, h);
    assert(sqr % q == sq % q);
    if low == 1 {
        lemma_pow1(base);
        // ((acc * base) % q * sqr) % q == (acc * base * sq) % q
        lemma_mul_mod_noop_general(acc * base, sqr, q);
        lemma_mul_mod_noop_general(acc * base, sq, q);
        lemma_mul_is_associative(acc, base, sq);
    } else {
        lemma_pow0(base);
        lemma_mul_mod_noop_general(acc, sqr, q);
        lemma_mul_mod_noop_general(acc, sq, q);
        assert(pow(base, e) == sq);
    }
}

/// `a^b mod q`, by binary exponentiation.
pub fn mod_exponent(a: u64, b: u64, q: u64) -> (r: u64)
    requires
        q > 0,
    ensures
        r as int == pow(a as int, b as nat) % q as int,
        r < q,
{
    let mut acc: u64 = 1 % q;
    let mut base: u64 = a % q;
    let mut e: u64 = b;
    proof {
        lemma_pow_mod_noop(a as int, b as nat, q as int);
        lemma_mul_basics(pow((a as int) % (q as int), b as nat));
        lemma_mul_mod_noop_general(1, pow((a as int) % (q as int), b as nat), q as int);
    }
    while e > 0
        invariant
            q > 0,
            acc < q,
            base < q,
            ((acc as int) * pow(base as int, e as nat)) % (q as int) == pow(a as int, b as nat) % (q as int),
        decreases e,
    {
        proof {
            lemma_square_multiply_step(acc as int, base as int, e as nat, q as int);
        }
        if e % 2 == 1 {
            acc = mul_mod(acc, base, q);
        }
        base = mul_mod(base, base, q);
        e = e / 2;
    }
    proof {
        lemma_pow0(base as int);
        lemma_small_mod(acc as nat, q as nat);
    }
    acc
}

/// The inverse of `a` modulo a prime `q` by Fermat's little theorem: `a^(q-2) mod q`.
pub fn mod_inverse(a: u64, q: u64) -> (r: u64)
    requires
        q >= 2,
    ensures
        r as int == pow(a as int, (q - 2) as nat) % q as int,
        r < q,
{
    mod_exponent(a, q - 2, q)
}

/// Congruence modulo `q` is preserved by sums.
pub proof fn lemma_congruent_add(a: int, b: int, c: int, d: int, q: int)
    requires
        q > 0,
        a % q == c % q,
        b % q == d % q,
    ensures
        (a + b) % q == (c + d) % q,
{
    lemma_add_mod_noop(a, b, q);
    lemma_add_mod_noop(c, d, q);
}

/// Congruence modulo `q` is preserved by differences.
pub proof fn lemma_congruent_sub(a: int, b: int, c: int, d: int, q: int)
    requires
        q > 0,
        a % q == c % q,
        b % q == d % q,
    ensures
        (a - b) % q == (c - d) % q,
{
    lemma_sub_mod_noop(a, b, q);
    lemma_sub_mod_noop(c, d, q);
}

/// Congruence modulo `q` is preserved by products.
pub proof fn lemma_congruent_mul(a: int, b: int, c: int, d: int, q: int)
    requires
        q > 0,
        a % q == c % q,
        b % q == d % q,
    ensures
        (a * b) % q == (c * d) % q,
{
    lemma_mul_mod_noop_general(a, b, q);
    lemma_mul_mod_noop_general(c, d, q);
}

/// Adding a multiple of `q` does not change a value modulo `q`.
pub proof fn lemma_add_multiple(a: int, k: int, q: int)
    requires
        q > 0,
    ensures
        (a + k * q) % q == a % q,
{
    lemma_mod_multiples_vanish(k, a, q);
    lemma_mul_is_commutative(k, q);
}

} // verus!
