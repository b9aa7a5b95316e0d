//! The mathematical meaning of the transforms: the Cooley-Tukey and Gentleman-Sande
//! butterfly networks over a table of twiddle factors, computed exactly over the integers,
//! and the law that the second network undoes the first modulo `q`.
use vstd::prelude::*;
use vstd::arithmetic::div_mod::*;
use vstd::arithmetic::mul::*;
use vstd::arithmetic::power2::*;
use crate::arith::{lemma_congruent_add, lemma_congruent_mul, lemma_congruent_sub};

verus! {

/// `floor(log2(n))`, with `0` for `n <= 1`.
pub open spec fn log2_floor(n: nat) -> nat
    decreases n,
{
    if n <= 1 {
        0
    } else {
        1 + log2_floor(n / 2)
    }
}

/// `n` is a power of two (`1, 2, 4, ...`).
pub open spec fn is_power_of_two(n: nat) -> bool {
    n >= 1 && pow2(log2_floor(n)) == n
}

/// The words of a sequence, as integers.
pub open spec fn as_ints(s: Seq<u64>) -> Seq<int> {
    s.map_values(|x: u64| x as int)
}

/// Element-wise congruence of two sequences of the same length modulo `q`.
pub open spec fn congruent(a: Seq<int>, b: Seq<int>, q: int) -> bool {
    &&& a.len() == b.len()
    &&& forall|k: int| 0 <= k < a.len() ==> #[trigger] a[k] % q == b[k] % q
}

/// Every element of `a` multiplied by `c`.
pub open spec fn scale(a: Seq<int>, c: int) -> Seq<int> {
    Seq::new(a.len(), |k: int| c * a[k])
}

/// One Cooley-Tukey stage with `m` blocks of `2t` elements: in block `i`, with twiddle
/// `w = psi[m + i]`, each pair `(x, y)` at offsets `j` and `j + t` becomes
/// `(x + w y, x - w y)`.
pub open spec fn ct_stage(a: Seq<int>, psi: Seq<int>, m: int, t: int) -> Seq<int> {
    Seq::new(
        a.len(),
        |k: int|
            {
                let w = psi[m + k / (2 * t)];
                if k % (2 * t) < t {
                    a[k] + w * a[k + t]
                } else {
                    a[k - t] - w * a[k]
                }
            },
    )
}

/// One Gentleman-Sande stage with `m` blocks of `2t` elements: in block `i`, with twiddle
/// `w = psi_inv[m + i]`, each pair `(x, y)` at offsets `j` and `j + t` becomes
/// `(x + y, w (x - y))`.
pub open spec fn gs_stage(a: Seq<int>, psi_inv: Seq<int>, m: int, t: int) -> Seq<int> {
    Seq::new(
        a.len(),
        |k: int|
            {
                let w = psi_inv[m + k / (2 * t)];
                if k % (2 * t) < t {
                    a[k] + a[k + t]
                } else {
                    w * (a[k - t] - a[k])
                }
            },
    )
}

/// The first `s` Cooley-Tukey stages on `2^l` elements; stage `j` has `2^j` blocks of
/// `2^(l - j)` elements.
pub open spec fn ct_stages(a: Seq<int>, psi: Seq<int>, l: nat, s: nat) -> Seq<int>
    decreases s,
{
    if s == 0 {
        a
    } else {
        ct_stage(
            ct_stages(a, psi, l, (s - 1) as nat),
            psi,
            pow2((s - 1) as nat) as int,
            pow2((l - s) as nat) as int,
        )
    }
}

/// The Gentleman-Sande stages `l - 1` down to `s` on `2^l` elements; stage `j` has `2^j`
/// blocks of `2^(l - j)` elements.
pub open spec fn gs_stages(a: Seq<int>, psi_inv: Seq<int>, l: nat, s: nat) -> Seq<int>
    decreases l - s,
{
    if s >= l {
        a
    } else {
        gs_stage(
            gs_stages(a, psi_inv, l, s + 1),
            psi_inv,
            pow2(s) as int,
            pow2((l - s - 1) as nat) as int,
        )
    }
}

/// The forward transform of `a` (of power-of-two length) with the twiddle table `psi`:
/// all Cooley-Tukey stages, exactly over the integers.
pub open spec fn ntt_spec(a: Seq<int>, psi: Seq<int>) -> Seq<int> {
    ct_stages(a, psi, log2_floor(a.len()), log2_floor(a.len()))
}

/// The inverse transform of `a` (of power-of-two length) with the twiddle table `psi_inv`
/// and the scaling factor `n_inv`: all Gentleman-Sande stages, then every element times
/// `n_inv`; a single element is left as it is.
pub open spec fn intt_spec(a: Seq<int>, psi_inv: Seq<int>, n_inv: int) -> Seq<int> {
    let l = log2_floor(a.len());
    if l == 0 {
        a
    } else {
        scale(gs_stages(a, psi_inv, l, 0), n_inv)
    }
}

/// The twiddle tables undo each other modulo `q` on the entries that the stages of a
/// transform of length `n` read (`1 <= k < n`), and `n * n_inv == 1 (mod q)` where a
/// scaling takes place (`n >= 2`).
pub open spec fn inverse_tables(psi: Seq<int>, psi_inv: Seq<int>, n_inv: int, n: nat, q: int) -> bool {
    &&& psi.len() >= n
    &&& psi_inv.len() >= n
    &&& forall|k: int| 1 <= k < n ==> (#[trigger] psi[k] * psi_inv[k]) % q == 1
    &&& n >= 2 ==> (n * n_inv) % q == 1
}

/// Position `k` of a stage with blocks of `2t` elements lies in block `k / 2t` at offset
/// `k % 2t`; its partner is `t` further (lower half) or `t` back (upper half) in the same
/// block.
pub proof fn lemma_stage_index(k: int, t: int, mm: int)
    requires
        t >= 1,
        mm >= 1,
        0 <= k < 2 * t * mm,
    ensures
        0 <= k / (2 * t) < mm,
        0 <= k % (2 * t) < 2 * t,
        k == 2 * t * (k / (2 * t)) + k % (2 * t),
        k % (2 * t) < t ==> {
            &&& k + t < 2 * t * mm
            &&& (k + t) / (2 * t) == k / (2 * t)
            &&& (k + t) % (2 * t) == k % (2 * t) + t
        },
        k % (2 * t) >= t ==> {
            &&& 0 <= k - t
            &&& (k - t) / (2 * t) == k / (2 * t)
            &&& (k - t) % (2 * t) == k % (2 * t) - t
        },
{
    let d = 2 * t;
    lemma_fundamental_div_mod(k, d);
    lemma_mod_bound(k, d);
    let i = k / d;
    let r = k % d;
    lemma_div_pos_is_pos(k, d);
    assert(d * mm == 2 * t * mm) by (nonlinear_arith)
        requires
            d == 2 * t,
    ;
    if i >= mm {
        assert(d * i >= d * mm) by (nonlinear_arith)
            requires
                i >= mm,
                d > 0,
        ;
    }
    if r < t {
        lemma_fundamental_div_mod_converse(k + t, d, i, r + t);
        assert(d * i + d <= d * mm) by (nonlinear_arith)
            requires
                i < mm,
                d > 0,
        ;
    } else {
        lemma_fundamental_div_mod_converse(k - t, d, i, r - t);
    }
}

/// The Cooley-Tukey stages keep the length of their input.
pub proof fn lemma_ct_stages_len(a: Seq<int>, psi: Seq<int>, l: nat, s: nat)
    ensures
        ct_stages(a, psi, l, s).len() == a.len(),
    decreases s,
{
    if s > 0 {
        lemma_ct_stages_len(a, psi, l, (s - 1) as nat);
    }
}

/// The Gentleman-Sande stages keep the length of their input.
pub proof fn lemma_gs_stages_len(a: Seq<int>, psi_inv: Seq<int>, l: nat, s: nat)
    ensures
        gs_stages(a, psi_inv, l, s).len() == a.len(),
    decreases l - s,
{
    if s < l {
        lemma_gs_stages_len(a, psi_inv, l, s + 1);
    }
}

/// A Cooley-Tukey stage maps congruent inputs to congruent outputs.
pub proof fn lemma_ct_stage_congruent(a: Seq<int>, b: Seq<int>, psi: Seq<int>, m: int, t: int, q: int)
    requires
        q > 0,
        t >= 1,
        m >= 1,
        a.len() == 2 * t * m,
        congruent(a, b, q),
    ensures
        congruent(ct_stage(a, psi, m, t), ct_stage(b, psi, m, t), q),
{
    let ca = ct_stage(a, psi, m, t);
    let cb = ct_stage(b, psi, m, t);
    assert forall|k: int| 0 <= k < ca.len() implies #[trigger] ca[k] % q == cb[k] % q by {
        lemma_stage_index(k, t, m);
        let w = psi[m + k / (2 * t)];
        if k % (2 * t) < t {
            lemma_congruent_mul(w, a[k + t], w, b[k + t], q);
            lemma_congruent_add(a[k], w * a[k + t], b[k], w * b[k + t], q);
        } else {
            lemma_congruent_mul(w, a[k], w, b[k], q);
            lemma_congruent_sub(a[k - t], w * a[k], b[k - t], w * b[k], q);
        }
    }
}

/// A Gentleman-Sande stage is linear: if `u` is congruent to `c * v` element-wise, then its
/// image is congruent to `c` times the image of `v`.
pub proof fn lemma_gs_stage_scaled(
    u: Seq<int>,
    v: Seq<int>,
    c: int,
    psi_inv: Seq<int>,
    m: int,
    t: int,
    q: int,
)
    requires
        q > 0,
        t >= 1,
        m >= 1,
        u.len() == 2 * t * m,
        v.len() == u.len(),
        forall|k: int| 0 <= k < u.len() ==> #[trigger] u[k] % q == (c * v[k]) % q,
    ensures
        forall|k: int|
            0 <= k < u.len() ==> #[trigger] gs_stage(u, psi_inv, m, t)[k] % q == (c * gs_stage(
                v,
                psi_inv,
                m,
                t,
            )[k]) % q,
{
    let gu = gs_stage(u, psi_inv, m, t);
    let gv = gs_stage(v, psi_inv, m, t);
    assert forall|k: int| 0 <= k < u.len() implies #[trigger] gu[k] % q == (c * gv[k]) % q by {
        lemma_stage_index(k, t, m);
        let w = psi_inv[m + k / (2 * t)];
        if k % (2 * t) < t {
            assert(u[k] % q == (c * v[k]) % q);
            assert(u[k + t] % q == (c * v[k + t]) % q);
            lemma_congruent_add(u[k], u[k + t], c * v[k], c * v[k + t], q);
            lemma_mul_is_distributive_add(c, v[k], v[k + t]);
        } else {
            assert(u[k] % q == (c * v[k]) % q);
            assert(u[k - t] % q == (c * v[k - t]) % q);
            lemma_congruent_sub(u[k - t], u[k], c * v[k - t], c * v[k], q);
            lemma_congruent_mul(w, u[k - t] - u[k], w, c * v[k - t] - c * v[k], q);
            assert(w * (c * v[k - t] - c * v[k]) == c * (w * (v[k - t] - v[k]))) by (nonlinear_arith);
        }
    }
}

/// A Gentleman-Sande stage undoes the Cooley-Tukey stage of the same shape up to a factor
/// of two, when each twiddle it reads is the inverse of the forward one modulo `q`.
pub proof fn lemma_gs_ct_stage(
    y: Seq<int>,
    psi: Seq<int>,
    psi_inv: Seq<int>,
    m: int,
    t: int,
    q: int,
)
    requires
        q > 0,
        t >= 1,
        m >= 1,
        y.len() == 2 * t * m,
        forall|i: int| 0 <= i < m ==> (#[trigger] psi[m + i] * psi_inv[m + i]) % q == 1,
    ensures
        forall|k: int|
            0 <= k < y.len() ==> #[trigger] gs_stage(ct_stage(y, psi, m, t), psi_inv, m, t)[k] % q
                == (2 * y[k]) % q,
{
    let z = ct_stage(y, psi, m, t);
    let g = gs_stage(z, psi_inv, m, t);
    assert forall|k: int| 0 <= k < y.len() implies #[trigger] g[k] % q == (2 * y[k]) % q by {
        lemma_stage_index(k, t, m);
        let i = k / (2 * t);
        let w = psi[m + i];
        if k % (2 * t) < t {
            lemma_stage_index(k + t, t, m);
            assert(z[k] == y[k] + w * y[k + t]);
            assert(z[k + t] == y[k] - w * y[k + t]);
        } else {
            lemma_stage_index(k - t, t, m);
            let wi = psi_inv[m + i];
            assert(z[k - t] == y[k - t] + w * y[k]);
            assert(z[k] == y[k - t] - w * y[k]);
            assert(g[k] == wi * (z[k - t] - z[k]));
            assert(wi * (z[k - t] - z[k]) == (2 * y[k]) * (w * wi)) by (nonlinear_arith)
                requires
                    z[k - t] == y[k - t] + w * y[k],
                    z[k] == y[k - t] - w * y[k],
            ;
            assert((w * wi) % q == 1int % q) by {
                assert(0 <= i < m);
                assert((psi[m + i] * psi_inv[m + i]) % q == 1);
                lemma_mod_bound(w * wi, q);
                lemma_small_mod(1, q as nat);
            }
            lemma_congruent_mul(2 * y[k], w * wi, 2 * y[k], 1, q);
        }
    }
}

/// Stage `s` of a transform on `2^l` elements has `2^s` blocks of `2 * 2^(l - s - 1)`
/// elements.
pub proof fn lemma_stage_shape(l: nat, s: nat)
    requires
        s < l,
    ensures
        2 * pow2((l - s - 1) as nat) * pow2(s) == pow2(l),
        pow2(s) >= 1,
        pow2((l - s - 1) as nat) >= 1,
        2 * pow2(s) <= pow2(l),
{
    lemma_pow2_adds(s, (l - s - 1) as nat);
    assert(s + (l - s - 1) as nat == (l - 1) as nat);
    lemma_pow2_unfold(l);
    lemma_pow2_pos(s);
    lemma_pow2_pos((l - s - 1) as nat);
    let a = pow2(s);
    let b = pow2((l - s - 1) as nat);
    assert(pow2((l - 1) as nat) == a * b);
    assert(2 * b * a == 2 * (a * b)) by (nonlinear_arith);
    assert(2 * pow2(s) <= 2 * pow2((l - s - 1) as nat) * pow2(s)) by (nonlinear_arith)
        requires
            pow2((l - s - 1) as nat) >= 1,
            pow2(s) >= 1,
    ;
}

/// Running the Gentleman-Sande stages `l - 1` down to `s` on the full Cooley-Tukey
/// transform gives, modulo `q`, `2^(l - s)` times the first `s` Cooley-Tukey stages.
proof fn lemma_round_trip_stages(
    a: Seq<int>,
    psi: Seq<int>,
    psi_inv: Seq<int>,
    l: nat,
    s: nat,
    q: int,
)
    requires
        q > 0,
        a.len() == pow2(l),
        s <= l,
        forall|k: int| 1 <= k < pow2(l) ==> (#[trigger] psi[k] * psi_inv[k]) % q == 1,
    ensures
        forall|k: int|
            0 <= k < a.len() ==> #[trigger] gs_stages(ct_stages(a, psi, l, l), psi_inv, l, s)[k] % q
                == (pow2((l - s) as nat) * ct_stages(a, psi, l, s)[k]) % q,
    decreases l - s,
{
    let x = ct_stages(a, psi, l, l);
    lemma_ct_stages_len(a, psi, l, l);
    lemma_ct_stages_len(a, psi, l, s);
    if s == l {
        lemma_pow2_pos(0);
        assert(pow2(0) == 1) by {
            lemma2_to64();
        }
        assert forall|k: int| 0 <= k < a.len() implies #[trigger] gs_stages(x, psi_inv, l, s)[k] % q
            == (pow2((l - s) as nat) * ct_stages(a, psi, l, s)[k]) % q by {
            assert(gs_stages(x, psi_inv, l, s) == x);
        }
    } else {
        lemma_round_trip_stages(a, psi, psi_inv, l, s + 1, q);
        lemma_stage_shape(l, s);
        let m = pow2(s) as int;
        let t = pow2((l - s - 1) as nat) as int;
        let c = pow2((l - s - 1) as nat) as int;
        let y = ct_stages(a, psi, l, s);
        let z = ct_stages(a, psi, l, s + 1);
        let g = gs_stages(x, psi_inv, l, s + 1);
        lemma_gs_stages_len(x, psi_inv, l, s + 1);
        assert(z == ct_stage(y, psi, m, t));
        assert(gs_stages(x, psi_inv, l, s) == gs_stage(g, psi_inv, m, t));
        assert forall|i: int| 0 <= i < m implies (#[trigger] psi[m + i] * psi_inv[m + i]) % q == 1 by {
            assert(1 <= m + i < pow2(l));
        }
        lemma_gs_stage_scaled(g, z, c, psi_inv, m, t, q);
        lemma_gs_ct_stage(y, psi, psi_inv, m, t, q);
        lemma_pow2_unfold((l - s) as nat);
        assert(((l - s) as nat - 1) as nat == (l - s - 1) as nat);
        assert forall|k: int| 0 <= k < a.len() implies #[trigger] gs_stages(x, psi_inv, l, s)[k] % q
            == (pow2((l - s) as nat) * y[k]) % q by {
            let gz = gs_stage(z, psi_inv, m, t);
            assert(gz[k] % q == (2 * y[k]) % q);
            lemma_congruent_mul(c, gz[k], c, 2 * y[k], q);
            lemma_mul_is_associative(c, 2, y[k]);
            assert(c * 2 == pow2((l - s) as nat));
        }
    }
}

/// The inverse transform undoes the forward transform modulo `q`, whenever the twiddle
/// tables are inverse to each other and `n_inv` is the inverse of the length.
pub proof fn lemma_intt_ntt(a: Seq<int>, psi: Seq<int>, psi_inv: Seq<int>, n_inv: int, q: int)
    requires
        q > 0,
        is_power_of_two(a.len()),
        inverse_tables(psi, psi_inv, n_inv, a.len(), q),
    ensures
        congruent(intt_spec(ntt_spec(a, psi), psi_inv, n_inv), a, q),
{
    let n = a.len();
    let l = log2_floor(n);
    let x = ntt_spec(a, psi);
    lemma_ct_stages_len(a, psi, l, l);
    lemma_round_trip_stages(a, psi, psi_inv, l, 0, q);
    if l == 0 {
        assert(x == a);
    } else {
        let g = gs_stages(x, psi_inv, l, 0);
        lemma_gs_stages_len(x, psi_inv, l, 0);
        let r = intt_spec(x, psi_inv, n_inv);
        assert(r == scale(g, n_inv));
        lemma_pow2_unfold(l);
        lemma_pow2_pos((l - 1) as nat);
        assert(n >= 2);
        assert forall|k: int| 0 <= k < n implies #[trigger] r[k] % q == a[k] % q by {
            assert(g[k] % q == (n * a[k]) % q);
            lemma_congruent_mul(n_inv, g[k], n_inv, n * a[k], q);
            lemma_mul_is_associative(n_inv, n as int, a[k]);
            lemma_mul_is_commutative(n_inv, n as int);
            assert((n * n_inv) % q == 1);
            lemma_mod_bound(n * n_inv, q);
            lemma_small_mod(1, q as nat);
            lemma_congruent_mul(n * n_inv, a[k], 1, a[k], q);
        }
    }
}

/// A Gentleman-Sande stage maps congruent inputs to congruent outputs.
pub proof fn lemma_gs_stage_congruent(a: Seq<int>, b: Seq<int>, psi_inv: Seq<int>, m: int, t: int, q: int)
    requires
        q > 0,
        t >= 1,
        m >= 1,
        a.len() == 2 * t * m,
        congruent(a, b, q),
    ensures
        congruent(gs_stage(a, psi_inv, m, t), gs_stage(b, psi_inv, m, t), q),
{
    assert forall|k: int| 0 <= k < a.len() implies #[trigger] a[k] % q == (1 * b[k]) % q by {
        assert(1 * b[k] == b[k]);
    }
    lemma_gs_stage_scaled(a, b, 1, psi_inv, m, t, q);
    let ga = gs_stage(a, psi_inv, m, t);
    let gb = gs_stage(b, psi_inv, m, t);
    assert forall|k: int| 0 <= k < ga.len() implies #[trigger] ga[k] % q == gb[k] % q by {
        assert(1 * gb[k] == gb[k]);
    }
}

/// Congruence modulo `q` is transitive.
pub proof fn lemma_congruent_trans(a: Seq<int>, b: Seq<int>, c: Seq<int>, q: int)
    requires
        congruent(a, b, q),
        congruent(b, c, q),
    ensures
        congruent(a, c, q),
{
    assert forall|k: int| 0 <= k < a.len() implies #[trigger] a[k] % q == c[k] % q by {
        assert(a[k] % q == b[k] % q);
        assert(b[k] % q == c[k] % q);
    }
}

/// The Gentleman-Sande stages map congruent inputs to congruent outputs.
pub proof fn lemma_gs_stages_congruent(a: Seq<int>, b: Seq<int>, psi_inv: Seq<int>, l: nat, s: nat, q: int)
    requires
        q > 0,
        a.len() == pow2(l),
        congruent(a, b, q),
    ensures
        congruent(gs_stages(a, psi_inv, l, s), gs_stages(b, psi_inv, l, s), q),
    decreases l - s,
{
    if s < l {
        lemma_gs_stages_congruent(a, b, psi_inv, l, s + 1, q);
        lemma_gs_stages_len(a, psi_inv, l, s + 1);
        lemma_stage_shape(l, s);
        lemma_gs_stage_congruent(
            gs_stages(a, psi_inv, l, s + 1),
            gs_stages(b, psi_inv, l, s + 1),
            psi_inv,
            pow2(s) as int,
            pow2((l - s - 1) as nat) as int,
            q,
        );
    }
}

/// The inverse transform maps congruent inputs to congruent outputs.
pub proof fn lemma_intt_congruent(a: Seq<int>, b: Seq<int>, psi_inv: Seq<int>, n_inv: int, q: int)
    requires
        q > 0,
        is_power_of_two(a.len()),
        congruent(a, b, q),
    ensures
        congruent(intt_spec(a, psi_inv, n_inv), intt_spec(b, psi_inv, n_inv), q),
{
    let l = log2_floor(a.len());
    if l > 0 {
        lemma_gs_stages_congruent(a, b, psi_inv, l, 0, q);
        lemma_gs_stages_len(a, psi_inv, l, 0);
        lemma_gs_stages_len(b, psi_inv, l, 0);
        let ga = gs_stages(a, psi_inv, l, 0);
        let gb = gs_stages(b, psi_inv, l, 0);
        assert forall|k: int| 0 <= k < a.len() implies #[trigger] scale(ga, n_inv)[k] % q == scale(
            gb,
            n_inv,
        )[k] % q by {
            lemma_congruent_mul(n_inv, ga[k], n_inv, gb[k], q);
        }
    }
}

} // verus!
