//! What the forward transform computes when its table holds the powers of a primitive
//! `2n`-th root of unity `psi` in bit-reversed order: the evaluations of the input
//! polynomial at the odd powers of `psi`. Evaluation turns the product in
//! `Z_q[X] / (X^n + 1)` into the product of values, so the transforms multiply polynomials.
use vstd::prelude::*;
use vstd::arithmetic::div_mod::*;
use vstd::arithmetic::mul::*;
use vstd::arithmetic::power::*;
use vstd::arithmetic::power2::*;
use crate::arith::{lemma_congruent_add, lemma_congruent_mul, lemma_congruent_sub};
use crate::bit_reverse::{bit_reverse, lemma_bit_reverse_bound};
use crate::ntt_spec::{
    ct_stage, ct_stages, is_power_of_two, lemma_ct_stages_len, lemma_stage_shape, log2_floor,
    ntt_spec,
};

verus! {

/// `sum over u < count of a[r + u * stride] * c^u`: coefficient `r` of the polynomial with
/// coefficients `a` reduced modulo `X^stride - c` (for `count * stride` coefficients).
pub open spec fn strided_sum(a: Seq<int>, r: int, stride: int, count: nat, c: int) -> int
    decreases count,
{
    if count == 0 {
        0
    } else {
        strided_sum(a, r, stride, (count - 1) as nat, c) + a[r + (count - 1) * stride] * pow(
            c,
            (count - 1) as nat,
        )
    }
}

/// Splitting a strided sum into its even and odd terms: with `d^2` in place of `d` over the
/// doubled stride.
proof fn lemma_strided_split(a: Seq<int>, r: int, t: int, k: nat, d: int)
    ensures
        strided_sum(a, r, t, 2 * k, d) == strided_sum(a, r, 2 * t, k, d * d) + d * strided_sum(
            a,
            r + t,
            2 * t,
            k,
            d * d,
        ),
    decreases k,
{
    if k == 0 {
        assert(strided_sum(a, r, t, 0, d) == 0);
        assert(strided_sum(a, r, 2 * t, 0, d * d) == 0);
        assert(strided_sum(a, r + t, 2 * t, 0, d * d) == 0);
        assert(d * 0 == 0);
    } else {
        let j = (k - 1) as nat;
        lemma_strided_split(a, r, t, j, d);
        let e = (2 * j) as nat;
        assert((2 * k - 1) as nat == e + 1);
        assert((2 * k - 2) as nat == e);
        let s2 = strided_sum(a, r, t, e, d);
        let s1 = strided_sum(a, r, t, e + 1, d);
        assert(s1 == s2 + a[r + e * t] * pow(d, e));
        assert(strided_sum(a, r, t, 2 * k, d) == s1 + a[r + (e + 1) * t] * pow(d, e + 1));
        let x0 = strided_sum(a, r, 2 * t, j, d * d);
        let y0 = strided_sum(a, r + t, 2 * t, j, d * d);
        assert(strided_sum(a, r, 2 * t, k, d * d) == x0 + a[r + j * (2 * t)] * pow(d * d, j));
        assert(strided_sum(a, r + t, 2 * t, k, d * d) == y0 + a[r + t + j * (2 * t)] * pow(d * d, j));
        assert(e * t == j * (2 * t)) by (nonlinear_arith)
            requires
                e == 2 * j,
        ;
        assert((e + 1) * t == t + j * (2 * t)) by (nonlinear_arith)
            requires
                e == 2 * j,
        ;
        lemma_pow_multiplies(d, 2, j);
        lemma_square_is_pow2(d);
        assert(pow(d, e) == pow(d * d, j));
        lemma_pow_adds(d, 1, e);
        lemma_pow1(d);
        assert(1 + e == e + 1);
        let p = pow(d * d, j);
        let ae = a[r + e * t];
        let ao = a[r + (e + 1) * t];
        assert(s2 + ae * p + ao * (d * p) == x0 + ae * p + d * (y0 + ao * p)) by (nonlinear_arith)
            requires
                s2 == x0 + d * y0,
        ;
    }
}

/// A strided sum depends on its base only modulo `q`.
proof fn lemma_strided_congruent_base(a: Seq<int>, r: int, stride: int, count: nat, c: int, c2: int, q: int)
    requires
        q > 0,
        c % q == c2 % q,
    ensures
        strided_sum(a, r, stride, count, c) % q == strided_sum(a, r, stride, count, c2) % q,
    decreases count,
{
    if count > 0 {
        let j = (count - 1) as nat;
        lemma_strided_congruent_base(a, r, stride, j, c, c2, q);
        lemma_pow_mod_noop(c, j, q);
        lemma_pow_mod_noop(c2, j, q);
        let x = a[r + j * stride];
        lemma_congruent_mul(x, pow(c, j), x, pow(c2, j), q);
        lemma_congruent_add(
            strided_sum(a, r, stride, j, c),
            x * pow(c, j),
            strided_sum(a, r, stride, j, c2),
            x * pow(c2, j),
            q,
        );
    }
}

/// Bit reversal of `b + 1` bits of an even index `2i` and an odd index `2i + 1`.
proof fn lemma_bit_reverse_parity(i: nat, b: nat)
    ensures
        bit_reverse(2 * i, b + 1) == bit_reverse(i, b),
        bit_reverse(2 * i + 1, b + 1) == bit_reverse(i, b) + pow2(b),
{
    assert((2 * i) / 2 == i);
    assert((2 * i) % 2 == 0);
    assert((2 * i + 1) / 2 == i);
    assert((2 * i + 1) % 2 == 1);
    assert(((b + 1) - 1) as nat == b);
}

/// The bit reversal of `0` is `0`.
proof fn lemma_bit_reverse_zero(b: nat)
    ensures
        bit_reverse(0, b) == 0,
    decreases b,
{
    if b > 0 {
        lemma_bit_reverse_zero((b - 1) as nat);
        assert(0nat / 2 == 0);
        assert((0nat % 2) * pow2((b - 1) as nat) == 0);
    }
}

/// Reversing an index below `2^b` over `b + e` bits puts its `b`-bit reversal `e` places
/// higher.
proof fn lemma_bit_reverse_pad(x: nat, b: nat, e: nat)
    requires
        x < pow2(b),
    ensures
        bit_reverse(x, b + e) == bit_reverse(x, b) * pow2(e),
    decreases b,
{
    if b == 0 {
        lemma2_to64();
        assert(x == 0);
        lemma_bit_reverse_zero(e);
        assert(b + e == e);
        assert(0 * pow2(e) == 0);
    } else {
        lemma_pow2_unfold(b);
        lemma_bit_reverse_pad(x / 2, (b - 1) as nat, e);
        assert((b + e - 1) as nat == (b - 1) as nat + e);
        lemma_pow2_adds((b - 1) as nat, e);
        let h = bit_reverse(x / 2, (b - 1) as nat);
        let c = x % 2;
        assert(bit_reverse(x, b + e) == h * pow2(e) + c * pow2((b - 1) as nat + e));
        assert(bit_reverse(x, b) == h + c * pow2((b - 1) as nat));
        assert(h * pow2(e) + c * (pow2((b - 1) as nat) * pow2(e)) == (h + c * pow2((b - 1) as nat))
            * pow2(e)) by (nonlinear_arith);
    }
}

/// The table position `2^s + i` of stage `s` (with `i < 2^s`) holds the exponent
/// `2^(l-s-1) * (2 * bit_reverse(i, s) + 1)` after reversal over `l` bits.
proof fn lemma_bit_reverse_twiddle(s: nat, i: nat, l: nat)
    requires
        s < l,
        i < pow2(s),
    ensures
        bit_reverse(pow2(s) + i, l) == pow2((l - s - 1) as nat) * (2 * bit_reverse(i, s) + 1),
{
    let x = pow2(s) + i;
    lemma_pow2_unfold(s + 1);
    assert(((s + 1) - 1) as nat == s);
    lemma_bit_reverse_pad(x, s + 1, (l - s - 1) as nat);
    assert(s + 1 + (l - s - 1) as nat == l);
    lemma_fundamental_div_mod_converse(x as int, pow2(s) as int, 1, i as int);
    crate::bit_reverse::lemma_bit_reverse_high(x, s + 1);
    assert(bit_reverse(x, s + 1) == 2 * bit_reverse(i, s) + 1);
    lemma_mul_is_commutative(bit_reverse(x, s + 1) as int, pow2((l - s - 1) as nat) as int);
}

/// The table `tbl` holds, at each position `p` that a transform on `2^l` elements reads, the
/// power `psi^(bit_reverse(p, l))` modulo `q`.
pub open spec fn root_table(tbl: Seq<int>, psi: int, l: nat, q: int) -> bool {
    &&& tbl.len() >= pow2(l)
    &&& forall|p: int| 1 <= p < pow2(l) ==> #[trigger] tbl[p] % q == pow(psi, bit_reverse(p as nat, l)) % q
}

/// The root at which block `i` of stage `s` reduces the polynomial:
/// `psi^(2^(l-s) * (2 * bit_reverse(i, s) + 1))`.
pub open spec fn stage_root(psi: int, l: nat, s: nat, i: nat) -> int {
    pow(psi, (pow2((l - s) as nat) * (2 * bit_reverse(i, s) + 1)) as nat)
}

/// Coefficient `r` of the input polynomial reduced modulo `X^(2^(l-s)) - stage_root(i)`:
/// what block `i` of the forward transform holds at offset `r` after `s` stages.
pub open spec fn stage_value(a: Seq<int>, psi: int, l: nat, s: nat, i: nat, r: nat) -> int {
    strided_sum(a, r as int, pow2((l - s) as nat) as int, pow2(s), stage_root(psi, l, s, i))
}

/// After `s` Cooley-Tukey stages with a table of bit-reversed powers of `psi`, where
/// `psi^(2^l) == -1 (mod q)`, block `i` at offset `r` holds coefficient `r` of the input
/// reduced modulo `X^(2^(l-s)) - stage_root(i)`.
pub proof fn lemma_ct_stages_eval(a: Seq<int>, tbl: Seq<int>, psi: int, l: nat, s: nat, q: int)
    requires
        q > 0,
        a.len() == pow2(l),
        s <= l,
        root_table(tbl, psi, l, q),
        (pow(psi, pow2(l)) + 1) % q == 0,
    ensures
        forall|i: nat, r: nat|
            i < pow2(s) && r < pow2((l - s) as nat) ==> ct_stages(a, tbl, l, s)[(i * pow2(
                (l - s) as nat,
            ) + r) as int] % q == #[trigger] stage_value(a, psi, l, s, i, r) % q,
    decreases s,
{
    lemma2_to64();
    if s == 0 {
        assert forall|i: nat, r: nat| i < pow2(s) && r < pow2((l - s) as nat) implies ct_stages(
            a,
            tbl,
            l,
            s,
        )[(i * pow2((l - s) as nat) + r) as int] % q == #[trigger] stage_value(a, psi, l, s, i, r)
            % q by {
            assert(i == 0);
            assert(i * pow2((l - s) as nat) + r == r);
            let c = stage_root(psi, l, s, i);
            assert(strided_sum(a, r as int, pow2(l) as int, 0, c) == 0);
            lemma_pow0(c);
            assert(strided_sum(a, r as int, pow2(l) as int, 1, c) == a[r as int + 0 * (pow2(l) as int)] * pow(c, 0));
            assert(a[r as int + 0 * (pow2(l) as int)] * 1 == a[r as int]);
        }
    } else {
        let s0 = (s - 1) as nat;
        lemma_ct_stages_eval(a, tbl, psi, l, s0, q);
        lemma_stage_shape(l, s0);
        lemma_pow2_unfold(s);
        lemma_pow2_unfold((l - s0) as nat);
        let t = pow2((l - s) as nat);
        let m = pow2(s0);
        let n = pow2(l);
        assert((l - s0 - 1) as nat == (l - s) as nat);
        assert(((l - s0) as nat - 1) as nat == (l - s) as nat);
        assert(pow2((l - s0) as nat) == 2 * t);
        let y = ct_stages(a, tbl, l, s0);
        lemma_ct_stages_len(a, tbl, l, s0);
        assert(ct_stages(a, tbl, l, s) == ct_stage(y, tbl, m as int, t as int));
        assert forall|i2: nat, r: nat| i2 < pow2(s) && r < pow2((l - s) as nat) implies ct_stages(
            a,
            tbl,
            l,
            s,
        )[(i2 * pow2((l - s) as nat) + r) as int] % q == #[trigger] stage_value(a, psi, l, s, i2, r)
            % q by {
            lemma_ct_step_eval(a, tbl, psi, l, s0, i2, r, q);
        }
    }
}

/// One step of [`lemma_ct_stages_eval`]: from stage `s0` to stage `s0 + 1` at block `i2`,
/// offset `r`.
proof fn lemma_ct_step_eval(
    a: Seq<int>,
    tbl: Seq<int>,
    psi: int,
    l: nat,
    s0: nat,
    i2: nat,
    r: nat,
    q: int,
)
    requires
        q > 0,
        a.len() == pow2(l),
        s0 < l,
        root_table(tbl, psi, l, q),
        (pow(psi, pow2(l)) + 1) % q == 0,
        i2 < pow2(s0 + 1),
        r < pow2((l - s0 - 1) as nat),
        forall|i: nat, r: nat|
            i < pow2(s0) && r < pow2((l - s0) as nat) ==> ct_stages(a, tbl, l, s0)[(i * pow2(
                (l - s0) as nat,
            ) + r) as int] % q == #[trigger] stage_value(a, psi, l, s0, i, r) % q,
    ensures
        ct_stages(a, tbl, l, s0 + 1)[(i2 * pow2((l - s0 - 1) as nat) + r) as int] % q
            == stage_value(a, psi, l, s0 + 1, i2, r) % q,
{
    let s = s0 + 1;
    lemma2_to64();
    lemma_stage_shape(l, s0);
    lemma_pow2_unfold(s);
    lemma_pow2_unfold((l - s0) as nat);
    assert(((l - s0) as nat - 1) as nat == (l - s0 - 1) as nat);
    assert((s - 1) as nat == s0);
    assert((l - s) as nat == (l - s0 - 1) as nat);
    let t = pow2((l - s0 - 1) as nat);
    let tt = pow2((l - s0) as nat);
    let m = pow2(s0);
    let n = pow2(l);
    assert(tt == 2 * t);
    assert(2 * t * m == n);
    let y = ct_stages(a, tbl, l, s0);
    lemma_ct_stages_len(a, tbl, l, s0);
    let z = ct_stages(a, tbl, l, s);
    assert(z == ct_stage(y, tbl, m as int, t as int));
    let i = i2 / 2;
    let c = i2 % 2;
    assert(i2 == 2 * i + c);
    assert(i < m);
    let p = i2 * t + r;
    assert(p == i * (2 * t) + (c * t + r)) by (nonlinear_arith)
        requires
            i2 == 2 * i + c,
            p == i2 * t + r,
    ;
    assert(c * t + r < 2 * t) by (nonlinear_arith)
        requires
            c < 2,
            r < t,
    ;
    assert(i * (2 * t) + 2 * t <= n) by (nonlinear_arith)
        requires
            i < m,
            2 * t * m == n,
    ;
    lemma_fundamental_div_mod_converse(p as int, (2 * t) as int, i as int, (c * t + r) as int);
    // the twiddle of block i
    let e = t * (2 * bit_reverse(i, s0) + 1);
    let omega = pow(psi, e);
    lemma_bit_reverse_bound(i, s0);
    lemma_bit_reverse_twiddle(s0, i, l);
    assert(1 <= m + i < n);
    let w = tbl[(m + i) as int];
    assert(w % q == omega % q);
    // the root of block i at stage s0 is omega squared
    lemma_pow_multiplies(psi, e, 2);
    lemma_square_is_pow2(omega);
    assert(tt * (2 * bit_reverse(i, s0) + 1) == e * 2) by (nonlinear_arith)
        requires
            tt == 2 * t,
            e == t * (2 * bit_reverse(i, s0) + 1),
    ;
    assert(stage_root(psi, l, s0, i) == omega * omega);
    // the values of block i at offsets r and r + t
    assert(i * tt + r == i * (2 * t) + r);
    assert(i * tt + (r + t) == i * (2 * t) + r + t);
    let x = y[(i * (2 * t) + r) as int];
    let xv = stage_value(a, psi, l, s0, i, r);
    let yv = stage_value(a, psi, l, s0, i, (r + t) as nat);
    assert(x % q == xv % q);
    let yy = y[(i * (2 * t) + r + t) as int];
    assert(yy % q == yv % q);
    assert(xv == strided_sum(a, r as int, (2 * t) as int, m, omega * omega));
    assert(yv == strided_sum(a, (r + t) as int, (2 * t) as int, m, omega * omega));
    assert(pow2(s) == 2 * m);
    lemma_bit_reverse_parity(i, s0);
    if c == 0 {
        assert(p == i * (2 * t) + r);
        assert(z[p as int] == x + w * yy);
        assert(bit_reverse(i2, s) == bit_reverse(i, s0));
        assert(stage_root(psi, l, s, i2) == omega);
        lemma_strided_split(a, r as int, t as int, m, omega);
        lemma_congruent_mul(w, yy, omega, yv, q);
        lemma_congruent_add(x, w * yy, xv, omega * yv, q);
    } else {
        assert(c * t == t) by (nonlinear_arith)
            requires
                c == 1,
        ;
        assert(p == i * (2 * t) + r + t);
        assert(z[p as int] == x - w * yy);
        assert(bit_reverse(i2, s) == bit_reverse(i, s0) + m);
        // the root of block 2i + 1 is omega * psi^n, which is -omega
        assert(t * (2 * (bit_reverse(i, s0) + m) + 1) == e + n) by (nonlinear_arith)
            requires
                e == t * (2 * bit_reverse(i, s0) + 1),
                2 * t * m == n,
        ;
        let root = stage_root(psi, l, s, i2);
        lemma_pow_adds(psi, e, n);
        assert(root == omega * pow(psi, n));
        assert(root % q == (-omega) % q) by {
            let pn = pow(psi, n);
            assert((pn + 1) % q == 0);
            assert(root + omega == omega * (pn + 1)) by (nonlinear_arith)
                requires
                    root == omega * pn,
            ;
            lemma_mul_mod_noop_right(omega, pn + 1, q);
            assert((omega * ((pn + 1) % q)) % q == (omega * (pn + 1)) % q);
            assert(omega * ((pn + 1) % q) == 0);
            assert(0int % q == 0);
            assert((root + omega) % q == 0);
            lemma_add_multiple_neg(root, omega, q);
        }
        lemma_strided_congruent_base(a, r as int, t as int, 2 * m, root, -omega, q);
        lemma_strided_split(a, r as int, t as int, m, -omega);
        assert((-omega) * (-omega) == omega * omega) by (nonlinear_arith);
        lemma_congruent_mul(w, yy, omega, yv, q);
        lemma_congruent_sub(x, w * yy, xv, omega * yv, q);
        assert(xv + (-omega) * yv == xv - omega * yv) by (nonlinear_arith);
    }
}

/// If `x + y` is a multiple of `q`, then `x == -y (mod q)`.
proof fn lemma_add_multiple_neg(x: int, y: int, q: int)
    requires
        q > 0,
        (x + y) % q == 0,
    ensures
        x % q == (-y) % q,
{
    lemma_fundamental_div_mod(x + y, q);
    let k = (x + y) / q;
    assert(x == q * k + (-y));
    lemma_mod_multiples_vanish(k, -y, q);
}

/// Coefficient `d` of the negacyclic rotation of `b`: `b[d]` for `d >= 0`, and `-b[d + n]`
/// for `d < 0` (as `X^n == -1`).
pub open spec fn wrapped(b: Seq<int>, d: int) -> int {
    if d >= 0 {
        b[d]
    } else {
        -b[d + b.len()]
    }
}

/// `sum over i < m of a[i] * wrapped(b, k - i)`: coefficient `k` of the product of the first
/// `m` terms of `a` with `b` in `Z[X] / (X^n + 1)`.
pub open spec fn negacyclic_coeff(a: Seq<int>, b: Seq<int>, k: int, m: nat) -> int
    decreases m,
{
    if m == 0 {
        0
    } else {
        negacyclic_coeff(a, b, k, (m - 1) as nat) + a[m - 1] * wrapped(b, k - (m - 1))
    }
}

/// The product of the polynomials with coefficients `a` and `b` in `Z[X] / (X^n + 1)`.
pub open spec fn negacyclic_mul(a: Seq<int>, b: Seq<int>) -> Seq<int> {
    Seq::new(b.len(), |k: int| negacyclic_coeff(a, b, k, a.len()))
}

/// The polynomial with coefficients `v` evaluated at `c`.
pub open spec fn evaluate(v: Seq<int>, c: int) -> int {
    strided_sum(v, 0, 1, v.len(), c)
}

/// Evaluation is linear: if `w == u + lambda * v` element-wise, the partial sums agree.
proof fn lemma_strided_linear(u: Seq<int>, v: Seq<int>, w: Seq<int>, lambda: int, cnt: nat, c: int)
    requires
        cnt <= u.len(),
        u.len() == v.len(),
        w.len() == u.len(),
        forall|k: int| 0 <= k < u.len() ==> #[trigger] w[k] == u[k] + lambda * v[k],
    ensures
        strided_sum(w, 0, 1, cnt, c) == strided_sum(u, 0, 1, cnt, c) + lambda * strided_sum(v, 0, 1, cnt, c),
    decreases cnt,
{
    if cnt == 0 {
        assert(lambda * 0 == 0);
    } else {
        let j = (cnt - 1) as nat;
        lemma_strided_linear(u, v, w, lambda, j, c);
        assert(0 + j * 1 == j);
        let pj = pow(c, j);
        let su = strided_sum(u, 0, 1, j, c);
        let sv = strided_sum(v, 0, 1, j, c);
        assert((u[j as int] + lambda * v[j as int]) * pj + (su + lambda * sv) == (su + u[j as int] * pj)
            + lambda * (sv + v[j as int] * pj)) by (nonlinear_arith);
    }
}

/// The partial sums of the negacyclic rotation `xs` of `v` (`xs[0] == -v[n-1]`,
/// `xs[k] == v[k-1]`): `-v[n-1]` plus `c` times the partial sums of `v` one term shorter.
proof fn lemma_rotation_partial(v: Seq<int>, xs: Seq<int>, cnt: nat, c: int)
    requires
        v.len() >= 1,
        xs.len() == v.len(),
        1 <= cnt <= v.len(),
        xs[0] == -v[v.len() - 1],
        forall|k: int| 1 <= k < v.len() ==> #[trigger] xs[k] == v[k - 1],
    ensures
        strided_sum(xs, 0, 1, cnt, c) == -v[v.len() - 1] + c * strided_sum(v, 0, 1, (cnt - 1) as nat, c),
    decreases cnt,
{
    lemma_pow0(c);
    if cnt == 1 {
        assert(strided_sum(xs, 0, 1, 0, c) == 0);
        assert(strided_sum(v, 0, 1, 0, c) == 0);
        assert(xs[0int + 0int * 1int] * pow(c, 0) == xs[0]);
        assert(c * 0 == 0);
    } else {
        let j = (cnt - 1) as nat;
        lemma_rotation_partial(v, xs, j, c);
        let i = (j - 1) as nat;
        assert(0 + j * 1 == j);
        assert(0 + i * 1 == i);
        assert(xs[j as int] == v[i as int]);
        lemma_pow_adds(c, 1, i);
        lemma_pow1(c);
        assert(1 + i == j);
        let sv = strided_sum(v, 0, 1, i, c);
        assert(strided_sum(v, 0, 1, j, c) == sv + v[i as int] * pow(c, i));
        assert(-v[v.len() - 1] + c * sv + v[i as int] * (c * pow(c, i)) == -v[v.len() - 1] + c * (sv
            + v[i as int] * pow(c, i))) by (nonlinear_arith);
    }
}

/// The negacyclic rotation of a vector of length `n` multiplies its evaluation at a root of
/// `X^n + 1` by that root.
proof fn lemma_rotation_eval(v: Seq<int>, xs: Seq<int>, c: int, q: int)
    requires
        q > 0,
        v.len() >= 1,
        xs.len() == v.len(),
        xs[0] == -v[v.len() - 1],
        forall|k: int| 1 <= k < v.len() ==> #[trigger] xs[k] == v[k - 1],
        (pow(c, v.len()) + 1) % q == 0,
    ensures
        evaluate(xs, c) % q == (c * evaluate(v, c)) % q,
{
    let n = v.len();
    let j = (n - 1) as nat;
    lemma_rotation_partial(v, xs, n, c);
    let sv = strided_sum(v, 0, 1, j, c);
    assert(0 + j * 1 == j);
    assert(evaluate(v, c) == sv + v[j as int] * pow(c, j));
    lemma_pow_adds(c, 1, j);
    lemma_pow1(c);
    assert(1 + j == n);
    let last = v[j as int];
    let pn = pow(c, n);
    assert(evaluate(xs, c) == c * evaluate(v, c) - last * (pn + 1)) by (nonlinear_arith)
        requires
            evaluate(xs, c) == -last + c * sv,
            evaluate(v, c) == sv + last * pow(c, j),
            pn == c * pow(c, j),
    ;
    lemma_mul_mod_noop_right(last, pn + 1, q);
    assert(last * ((pn + 1) % q) == 0);
    assert(0int % q == 0);
    lemma_fundamental_div_mod(last * (pn + 1), q);
    let k = (last * (pn + 1)) / q;
    assert((last * (pn + 1)) % q == 0);
    assert(last * (pn + 1) == q * k);
    assert(q * (-k) == -(q * k)) by (nonlinear_arith);
    assert(evaluate(xs, c) == q * (-k) + c * evaluate(v, c));
    lemma_mod_multiples_vanish(-k, c * evaluate(v, c), q);
}

/// The `i`-fold negacyclic rotation of `b`.
pub open spec fn rotation(b: Seq<int>, i: int) -> Seq<int> {
    Seq::new(b.len(), |k: int| wrapped(b, k - i))
}

/// Evaluating the `i`-fold rotation of `b` at a root `c` of `X^n + 1` gives `c^i` times the
/// evaluation of `b`.
proof fn lemma_rotations_eval(b: Seq<int>, i: nat, c: int, q: int)
    requires
        q > 0,
        i < b.len(),
        (pow(c, b.len()) + 1) % q == 0,
    ensures
        evaluate(rotation(b, i as int), c) % q == (pow(c, i) * evaluate(b, c)) % q,
    decreases i,
{
    let n = b.len();
    if i == 0 {
        lemma_pow0(c);
        assert(rotation(b, 0) =~= b);
        assert(1 * evaluate(b, c) == evaluate(b, c));
    } else {
        let j = (i - 1) as nat;
        lemma_rotations_eval(b, j, c, q);
        let v = rotation(b, j as int);
        let xs = rotation(b, i as int);
        assert(xs[0] == -v[n - 1]);
        assert forall|k: int| 1 <= k < n implies #[trigger] xs[k] == v[k - 1] by {
            assert(k - i == (k - 1) - j);
        }
        lemma_rotation_eval(v, xs, c, q);
        lemma_congruent_mul(c, evaluate(v, c), c, pow(c, j) * evaluate(b, c), q);
        lemma_pow_adds(c, 1, j);
        lemma_pow1(c);
        assert(1 + j == i);
        lemma_mul_is_associative(c, pow(c, j), evaluate(b, c));
    }
}

/// Evaluation at a root of `X^n + 1` turns the negacyclic product of the first `m` terms of
/// `a` with `b` into the product of the evaluations.
proof fn lemma_negacyclic_partial_eval(a: Seq<int>, b: Seq<int>, m: nat, c: int, q: int)
    requires
        q > 0,
        a.len() == b.len(),
        b.len() >= 1,
        m <= a.len(),
        (pow(c, b.len()) + 1) % q == 0,
    ensures
        evaluate(Seq::new(b.len(), |k: int| negacyclic_coeff(a, b, k, m)), c) % q == (strided_sum(
            a,
            0,
            1,
            m,
            c,
        ) * evaluate(b, c)) % q,
    decreases m,
{
    let n = b.len();
    let w = Seq::new(n, |k: int| negacyclic_coeff(a, b, k, m));
    if m == 0 {
        let z = Seq::new(n, |k: int| 0int);
        lemma_strided_linear(z, z, w, 0, n, c);
        lemma_strided_zero(z, n, c);
        assert(0 * evaluate(b, c) == 0);
        assert(0 + 0 * 0 == 0);
    } else {
        let j = (m - 1) as nat;
        lemma_negacyclic_partial_eval(a, b, j, c, q);
        let u = Seq::new(n, |k: int| negacyclic_coeff(a, b, k, j));
        let v = rotation(b, j as int);
        lemma_strided_linear(u, v, w, a[j as int], n, c);
        lemma_rotations_eval(b, j, c, q);
        let eb = evaluate(b, c);
        let sa = strided_sum(a, 0, 1, j, c);
        lemma_congruent_mul(a[j as int], evaluate(v, c), a[j as int], pow(c, j) * eb, q);
        lemma_congruent_add(evaluate(u, c), a[j as int] * evaluate(v, c), sa * eb, a[j as int] * (
        pow(c, j) * eb), q);
        assert(0 + j * 1 == j);
        assert(sa * eb + a[j as int] * (pow(c, j) * eb) == (sa + a[j as int] * pow(c, j)) * eb)
            by (nonlinear_arith);
    }
}

/// The partial sums of the zero vector are zero.
proof fn lemma_strided_zero(z: Seq<int>, cnt: nat, c: int)
    requires
        cnt <= z.len(),
        forall|k: int| 0 <= k < z.len() ==> #[trigger] z[k] == 0,
    ensures
        strided_sum(z, 0, 1, cnt, c) == 0,
    decreases cnt,
{
    if cnt > 0 {
        lemma_strided_zero(z, (cnt - 1) as nat, c);
        assert(0 + (cnt - 1) * 1 == cnt - 1);
        assert(0 * pow(c, (cnt - 1) as nat) == 0);
    }
}

/// Evaluation at a root of `X^n + 1` is multiplicative on `Z[X] / (X^n + 1)`.
pub proof fn lemma_negacyclic_eval(a: Seq<int>, b: Seq<int>, c: int, q: int)
    requires
        q > 0,
        a.len() == b.len(),
        b.len() >= 1,
        (pow(c, b.len()) + 1) % q == 0,
    ensures
        evaluate(negacyclic_mul(a, b), c) % q == (evaluate(a, c) * evaluate(b, c)) % q,
{
    lemma_negacyclic_partial_eval(a, b, a.len(), c, q);
    assert(negacyclic_mul(a, b) == Seq::new(b.len(), |k: int| negacyclic_coeff(a, b, k, a.len())));
}

/// An odd power of a value that is `-1` modulo `q` is `-1` modulo `q`.
proof fn lemma_odd_power_of_minus_one(x: int, j: nat, q: int)
    requires
        q > 0,
        (x + 1) % q == 0,
    ensures
        (pow(x, 2 * j + 1) + 1) % q == 0,
    decreases j,
{
    lemma_add_multiple_neg(x, 1, q);
    lemma_pow1(x);
    if j > 0 {
        let i = (j - 1) as nat;
        lemma_odd_power_of_minus_one(x, i, q);
        lemma_pow_adds(x, 2, 2 * i + 1);
        assert(2 + (2 * i + 1) == 2 * j + 1);
        lemma_square_is_pow2(x);
        let p = pow(x, 2 * i + 1);
        lemma_add_multiple_neg(p, 1, q);
        lemma_congruent_mul(x, x, -1, -1, q);
        lemma_congruent_mul(x * x, p, (-1) * (-1), -1, q);
        assert((-1) * (-1) * (-1) == -1int);
        lemma_congruent_add(x * x * p, 1, -1, 1, q);
        assert(0int % q == 0);
    }
}

/// The forward transform with a table of bit-reversed powers of `psi`, where
/// `psi^n == -1 (mod q)`, turns the negacyclic product of `a` and `b` into the element-wise
/// product of their transforms, modulo `q`.
pub proof fn lemma_ntt_convolution(a: Seq<int>, b: Seq<int>, tbl: Seq<int>, psi: int, q: int)
    requires
        q > 0,
        a.len() == b.len(),
        is_power_of_two(a.len()),
        root_table(tbl, psi, log2_floor(a.len()), q),
        (pow(psi, a.len()) + 1) % q == 0,
    ensures
        forall|k: int|
            0 <= k < a.len() ==> (ntt_spec(a, tbl)[k] * ntt_spec(b, tbl)[k]) % q == #[trigger] ntt_spec(
                negacyclic_mul(a, b),
                tbl,
            )[k] % q,
{
    let n = a.len();
    let l = log2_floor(n);
    let c = negacyclic_mul(a, b);
    assert(c.len() == n);
    lemma_ct_stages_eval(a, tbl, psi, l, l, q);
    lemma_ct_stages_eval(b, tbl, psi, l, l, q);
    lemma_ct_stages_eval(c, tbl, psi, l, l, q);
    lemma2_to64();
    assert((l - l) as nat == 0);
    assert forall|k: int| 0 <= k < n implies (ntt_spec(a, tbl)[k] * ntt_spec(b, tbl)[k]) % q
        == #[trigger] ntt_spec(c, tbl)[k] % q by {
        let kn = k as nat;
        let br = bit_reverse(kn, l);
        let root = stage_root(psi, l, l, kn);
        assert(pow2(0) * (2 * br + 1) == 2 * br + 1);
        assert(root == pow(psi, 2 * br + 1));
        assert(kn * pow2(0) + 0 == kn);
        assert(stage_value(a, psi, l, l, kn, 0) == evaluate(a, root));
        assert(stage_value(b, psi, l, l, kn, 0) == evaluate(b, root));
        assert(stage_value(c, psi, l, l, kn, 0) == evaluate(c, root));
        // root^n == (psi^n)^(2 br + 1) == -1
        lemma_pow_multiplies(psi, 2 * br + 1, n);
        lemma_pow_multiplies(psi, n, 2 * br + 1);
        assert((2 * br + 1) * n == n * (2 * br + 1)) by (nonlinear_arith);
        assert(pow(root, n) == pow(pow(psi, n as nat), 2 * br + 1));
        lemma_odd_power_of_minus_one(pow(psi, n as nat), br, q);
        lemma_negacyclic_eval(a, b, root, q);
        let ea = stage_value(a, psi, l, l, kn, 0);
        let eb = stage_value(b, psi, l, l, kn, 0);
        lemma_congruent_mul(ntt_spec(a, tbl)[k], ntt_spec(b, tbl)[k], ea, eb, q);
    }
}

} // verus!
