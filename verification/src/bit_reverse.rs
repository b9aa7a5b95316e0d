//! Bit reversal of indices, the order in which the twiddle tables are stored.
use vstd::prelude::*;
use vstd::arithmetic::div_mod::*;
use vstd::arithmetic::power2::*;

verus! {

/// The lowest `b` bits of `i` in reverse order.
pub open spec fn bit_reverse(i: nat, b: nat) -> nat
    decreases b,
{
    if b == 0 {
        0
    } else {
        bit_reverse(i / 2, (b - 1) as nat) + (i % 2) * pow2((b - 1) as nat)
    }
}

/// A bit reversal of `b` bits is below `2^b`.
pub proof fn lemma_bit_reverse_bound(i: nat, b: nat)
    ensures
        bit_reverse(i, b) < pow2(b),
    decreases b,
{
    if b == 0 {
        lemma2_to64();
    } else {
        lemma_bit_reverse_bound(i / 2, (b - 1) as nat);
        lemma_pow2_unfold(b);
        lemma_mod_bound(i as int, 2);
        let p = pow2((b - 1) as nat);
        if i % 2 == 0 {
            assert((i % 2) * p == 0);
        } else {
            assert((i % 2) * p == p);
        }
    }
}

/// The bit reversal of `i < 2^b` read from its highest bit: the reversal of the lower
/// `b - 1` bits, shifted up, with the highest bit of `i` as its lowest.
pub proof fn lemma_bit_reverse_high(i: nat, b: nat)
    requires
        b >= 1,
        i < pow2(b),
    ensures
        bit_reverse(i, b) == 2 * bit_reverse(i % pow2((b - 1) as nat), (b - 1) as nat) + i / pow2(
            (b - 1) as nat,
        ),
    decreases b,
{
    lemma2_to64();
    if b == 1 {
        assert(i < 2);
        assert(i % 2 == i);
        assert(i / 2 == 0);
        assert(i % 1 == 0);
        assert(i / 1 == i);
        assert(bit_reverse(i, 1) == bit_reverse(i / 2, 0) + (i % 2) * pow2(0));
        assert((i % 2) * 1 == i % 2);
    } else {
        let p = pow2((b - 2) as nat);
        let p1 = pow2((b - 1) as nat);
        lemma_pow2_unfold((b - 1) as nat);
        lemma_pow2_unfold(b);
        lemma_pow2_pos((b - 2) as nat);
        let h = i / 2;
        let c = i % 2;
        lemma_fundamental_div_mod(i as int, 2);
        lemma_mod_bound(i as int, 2);
        assert(h < p1);
        lemma_bit_reverse_high(h, (b - 1) as nat);
        assert(((b - 1) as nat - 1) as nat == (b - 2) as nat);
        let d = h / p;
        let r = h % p;
        lemma_fundamental_div_mod(h as int, p as int);
        lemma_mod_bound(h as int, p as int);
        assert(i == p1 * d + (2 * r + c)) by (nonlinear_arith)
            requires
                i == 2 * h + c,
                h == p * d + r,
                p1 == 2 * p,
        ;
        lemma_fundamental_div_mod_converse(i as int, p1 as int, d as int, (2 * r + c) as int);
        let low = 2 * r + c;
        lemma_fundamental_div_mod_converse(low as int, 2, r as int, c as int);
        assert(bit_reverse(low, (b - 1) as nat) == bit_reverse(r, (b - 2) as nat) + c * p);
        assert(bit_reverse(i, b) == bit_reverse(h, (b - 1) as nat) + c * p1);
        assert(c * p1 == 2 * (c * p)) by (nonlinear_arith)
            requires
                p1 == 2 * p,
        ;
    }
}

/// Reversing `b` bits twice gives back every `i < 2^b`.
pub proof fn lemma_bit_reverse_involution(i: nat, b: nat)
    requires
        i < pow2(b),
    ensures
        bit_reverse(bit_reverse(i, b), b) == i,
    decreases b,
{
    lemma2_to64();
    if b > 0 {
        let h = i / 2;
        let c = i % 2;
        let p1 = pow2((b - 1) as nat);
        lemma_pow2_unfold(b);
        lemma_fundamental_div_mod(i as int, 2);
        lemma_mod_bound(i as int, 2);
        lemma_bit_reverse_involution(h, (b - 1) as nat);
        lemma_bit_reverse_bound(h, (b - 1) as nat);
        let x = bit_reverse(i, b);
        assert(x == bit_reverse(h, (b - 1) as nat) + c * p1);
        lemma_bit_reverse_bound(i, b);
        lemma_bit_reverse_high(x, b);
        lemma_fundamental_div_mod_converse(
            x as int,
            p1 as int,
            c as int,
            bit_reverse(h, (b - 1) as nat) as int,
        );
    }
}

/// The lowest `bits` bits of `i` in reverse order.
pub fn reverse_bits(i: usize, bits: usize) -> (r: usize)
    requires
        pow2(bits as nat) <= usize::MAX,
    ensures
        r == bit_reverse(i as nat, bits as nat),
{
    let mut r: usize = 0;
    let mut x: usize = i;
    let mut k: usize = 0;
    proof {
        lemma2_to64();
    }
    while k < bits
        invariant
            k <= bits,
            pow2(bits as nat) <= usize::MAX,
            r < pow2(k as nat),
            r * pow2((bits - k) as nat) + bit_reverse(x as nat, (bits - k) as nat) == bit_reverse(
                i as nat,
                bits as nat,
            ),
        decreases bits - k,
    {
        let ghost rem = (bits - k) as nat;
        proof {
            lemma_pow2_unfold(rem);
            lemma_pow2_unfold((k + 1) as nat);
            if k + 1 < bits {
                lemma_pow2_strictly_increases((k + 1) as nat, bits as nat);
            }
            assert(r * pow2(rem) == 2 * r * pow2((rem - 1) as nat)) by (nonlinear_arith)
                requires
                    pow2(rem) == 2 * pow2((rem - 1) as nat),
            ;
            assert(2 * r * pow2((rem - 1) as nat) + (x as nat % 2) * pow2((rem - 1) as nat) == (2 * r
                + x as nat % 2) * pow2((rem - 1) as nat)) by (nonlinear_arith);
        }
        r = 2 * r + x % 2;
        x = x / 2;
        k = k + 1;
    }
    proof {
        lemma2_to64();
        assert(bits - k == 0);
        assert(r * pow2(0) == r);
    }
    r
}

} // verus!
