//! The forward and inverse number theoretic transforms in place on a slice, over a table of
//! twiddle factors in bit-reversed order with their Shoup quotients.
use vstd::prelude::*;
use vstd::arithmetic::div_mod::*;
use vstd::arithmetic::mul::lemma_mul_is_commutative;
use vstd::arithmetic::power2::{lemma_pow2_pos, lemma_pow2_strictly_increases, lemma_pow2_unfold, pow2};
use crate::arith::{lemma_add_multiple, lemma_congruent_mul, shoup_mul, shoup_repr_spec};
use crate::butterfly::{
    butterfly_params, forward_butterly_0_to_2q, forward_butterly_0_to_4q,
    inverse_butterfly_0_to_2q,
};
use crate::ntt_spec::{
    as_ints, congruent, ct_stage, ct_stages, gs_stage, gs_stages, intt_spec, inverse_tables,
    is_power_of_two, lemma_congruent_trans, lemma_ct_stage_congruent, lemma_ct_stages_len,
    lemma_gs_stage_congruent, lemma_gs_stages_len, lemma_intt_congruent, lemma_intt_ntt,
    lemma_stage_shape, log2_floor, ntt_spec, scale,
};

verus! {

/// The modulus that the transforms work with: `0 < q < 2^62` and `q_twice == 2q`.
pub open spec fn ntt_modulus(q: u64, q_twice: u64) -> bool {
    0 < q < 0x4000_0000_0000_0000 && q_twice == 2 * q
}

/// A twiddle table for transforms of length `n`: the entries that the stages read
/// (`1 <= k < n`) are reduced modulo `q`, and `shoup` holds their Shoup quotients.
pub open spec fn twiddle_table(psi: Seq<u64>, shoup: Seq<u64>, n: nat, q: u64) -> bool {
    &&& psi.len() == n
    &&& shoup.len() >= n
    &&& forall|k: int|
        1 <= k < n ==> #[trigger] psi[k] < q && shoup[k] == shoup_repr_spec(psi[k] as int, q as int)
}

/// Every element of `s` is below `bound`.
pub open spec fn all_below(s: Seq<u64>, bound: int) -> bool {
    forall|k: int| 0 <= k < s.len() ==> #[trigger] s[k] < bound
}

/// One Cooley-Tukey stage in place: `m` blocks of `2t` elements, block `i` with twiddle
/// `psi[m + i]`. Blocks of more than two elements use lazy butterflies into `[0, 4q)`; the
/// stage on pairs (`t == 1`) reduces into `[0, 2q)`, and further into `[0, q)` if `full`.
fn forward_stage(
    a: &mut [u64],
    psi: &[u64],
    psi_shoup: &[u64],
    m: usize,
    t: usize,
    q: u64,
    q_twice: u64,
    full: bool,
)
    requires
        ntt_modulus(q, q_twice),
        t >= 1,
        m >= 1,
        old(a)@.len() == 2 * t * m,
        psi@.len() >= 2 * m,
        psi_shoup@.len() >= 2 * m,
        forall|k: int|
            m <= k < 2 * m ==> #[trigger] psi@[k] < q && psi_shoup@[k] == shoup_repr_spec(
                psi@[k] as int,
                q as int,
            ),
        all_below(old(a)@, 4 * q),
    ensures
        final(a)@.len() == old(a)@.len(),
        congruent(
            as_ints(final(a)@),
            ct_stage(as_ints(old(a)@), as_ints(psi@), m as int, t as int),
            q as int,
        ),
        t > 1 ==> all_below(final(a)@, 4 * q),
        t == 1 && !full ==> all_below(final(a)@, 2 * q),
        t == 1 && full ==> all_below(final(a)@, q as int),
{
    let ghost a0 = a@;
    let ghost n = a0.len();
    let ghost st = ct_stage(as_ints(a0), as_ints(psi@), m as int, t as int);
    let ghost bound: int = if t > 1 {
        4 * q
    } else if full {
        q as int
    } else {
        2 * q
    };
    let ghost qi = q as int;
    let n_exec = a.len();
    let psi_len = psi.len();
    assert(2 * t <= 2 * t * m) by (nonlinear_arith)
        requires
            m >= 1,
    ;
    let two_t = 2 * t;
    let mut base: usize = 0;
    let mut i: usize = 0;
    while i < m
        invariant
            ntt_modulus(q, q_twice),
            qi == q as int,
            t >= 1,
            m >= 1,
            n == 2 * t * m,
            n == n_exec,
            a0.len() == n,
            psi_len == psi@.len(),
            two_t == 2 * t,
            a@.len() == n,
            0 <= i <= m,
            base == 2 * t * i,
            psi@.len() >= 2 * m,
            psi_shoup@.len() >= 2 * m,
            forall|k: int|
                m <= k < 2 * m ==> #[trigger] psi@[k] < q && psi_shoup@[k] == shoup_repr_spec(
                    psi@[k] as int,
                    q as int,
                ),
            all_below(a0, 4 * q),
            st == ct_stage(as_ints(a0), as_ints(psi@), m as int, t as int),
            bound == (if t > 1 {
                4 * q
            } else if full {
                q as int
            } else {
                2 * q
            }),
            forall|k: int| 0 <= k < base ==> #[trigger] a@[k] < bound && a@[k] as int % qi == st[k] % qi,
            forall|k: int| base <= k < n ==> #[trigger] a@[k] == a0[k],
        decreases m - i,
    {
        assert(base + 2 * t <= n) by (nonlinear_arith)
            requires
                base == 2 * t * i,
                i < m,
                n == 2 * t * m,
        ;
        let w = psi[m + i];
        let w_shoup = psi_shoup[m + i];
        let mut j: usize = 0;
        while j < t
            invariant
                ntt_modulus(q, q_twice),
                qi == q as int,
                t >= 1,
                m >= 1,
                n == 2 * t * m,
                n == n_exec,
                a0.len() == n,
                a@.len() == n,
                0 <= i < m,
                0 <= j <= t,
                base == 2 * t * i,
                base + 2 * t <= n,
                butterfly_params(w, w_shoup, q, q_twice),
                psi@.len() >= 2 * m,
                w == psi@[m + i],
                all_below(a0, 4 * q),
                st == ct_stage(as_ints(a0), as_ints(psi@), m as int, t as int),
                bound == (if t > 1 {
                    4 * q
                } else if full {
                    q as int
                } else {
                    2 * q
                }),
                forall|k: int|
                    0 <= k < base + j ==> #[trigger] a@[k] < bound && a@[k] as int % qi == st[k] % qi,
                forall|k: int|
                    base + t <= k < base + t + j ==> #[trigger] a@[k] < bound && a@[k] as int % qi
                        == st[k] % qi,
                forall|k: int| base + j <= k < base + t ==> #[trigger] a@[k] == a0[k],
                forall|k: int| base + t + j <= k < n ==> #[trigger] a@[k] == a0[k],
            decreases t - j,
        {
            let lo = base + j;
            let hi = lo + t;
            proof {
                assert(lo == (i as int) * (2 * t) + j) by (nonlinear_arith)
                    requires
                        base == 2 * t * i,
                        lo == base + j,
                ;
                lemma_fundamental_div_mod_converse(lo as int, 2 * t, i as int, j as int);
                lemma_fundamental_div_mod_converse(hi as int, 2 * t, i as int, j + t);
                assert(as_ints(a0)[lo as int] == a0[lo as int] as int);
                assert(as_ints(a0)[hi as int] == a0[hi as int] as int);
                assert(as_ints(psi@)[m + i] == w as int);
                assert((lo as int) / (2 * t) == i);
                assert((hi as int) / (2 * t) == i);
                assert((lo as int) % (2 * t) == j);
                assert(st[lo as int] == a0[lo as int] + w * a0[hi as int]);
                assert(st[hi as int] == a0[lo as int] - w * a0[hi as int]);
            }
            let x = a[lo];
            let y = a[hi];
            if t == 1 {
                let (ox, oy) = forward_butterly_0_to_2q(x, y, w, w_shoup, q, q_twice);
                if full {
                    let rx = ox.min(ox.wrapping_sub(q));
                    let ry = oy.min(oy.wrapping_sub(q));
                    proof {
                        lemma_add_multiple(rx as int, 1, qi);
                        lemma_add_multiple(ry as int, 1, qi);
                    }
                    a[lo] = rx;
                    a[hi] = ry;
                } else {
                    a[lo] = ox;
                    a[hi] = oy;
                }
            } else {
                let (ox, oy) = forward_butterly_0_to_4q(x, y, w, w_shoup, q, q_twice);
                a[lo] = ox;
                a[hi] = oy;
            }
            j = j + 1;
        }
        assert(base + 2 * t == 2 * t * (i + 1)) by (nonlinear_arith)
            requires
                base == 2 * t * i,
        ;
        base = base + two_t;
        i = i + 1;
    }
}

/// One Gentleman-Sande stage in place, on inputs in `[0, 2q)`: `m` blocks of `2t` elements,
/// block `i` with twiddle `psi_inv[m + i]`; the outputs stay in `[0, 2q)`.
fn inverse_stage(
    a: &mut [u64],
    psi: &[u64],
    psi_shoup: &[u64],
    m: usize,
    t: usize,
    q: u64,
    q_twice: u64,
)
    requires
        ntt_modulus(q, q_twice),
        t >= 1,
        m >= 1,
        old(a)@.len() == 2 * t * m,
        psi@.len() >= 2 * m,
        psi_shoup@.len() >= 2 * m,
        forall|k: int|
            m <= k < 2 * m ==> #[trigger] psi@[k] < q && psi_shoup@[k] == shoup_repr_spec(
                psi@[k] as int,
                q as int,
            ),
        all_below(old(a)@, 2 * q),
    ensures
        final(a)@.len() == old(a)@.len(),
        congruent(
            as_ints(final(a)@),
            gs_stage(as_ints(old(a)@), as_ints(psi@), m as int, t as int),
            q as int,
        ),
        all_below(final(a)@, 2 * q),
{
    let ghost a0 = a@;
    let ghost n = a0.len();
    let ghost st = gs_stage(as_ints(a0), as_ints(psi@), m as int, t as int);
    let ghost bound: int = 2 * q;
    let ghost qi = q as int;
    let n_exec = a.len();
    let psi_len = psi.len();
    assert(2 * t <= 2 * t * m) by (nonlinear_arith)
        requires
            m >= 1,
    ;
    let two_t = 2 * t;
    let mut base: usize = 0;
    let mut i: usize = 0;
    while i < m
        invariant
            ntt_modulus(q, q_twice),
            qi == q as int,
            t >= 1,
            m >= 1,
            n == 2 * t * m,
            n == n_exec,
            a0.len() == n,
            psi_len == psi@.len(),
            two_t == 2 * t,
            a@.len() == n,
            0 <= i <= m,
            base == 2 * t * i,
            psi@.len() >= 2 * m,
            psi_shoup@.len() >= 2 * m,
            forall|k: int|
                m <= k < 2 * m ==> #[trigger] psi@[k] < q && psi_shoup@[k] == shoup_repr_spec(
                    psi@[k] as int,
                    q as int,
                ),
            all_below(a0, 2 * q),
            st == gs_stage(as_ints(a0), as_ints(psi@), m as int, t as int),
            bound == 2 * q,
            forall|k: int| 0 <= k < base ==> #[trigger] a@[k] < bound && a@[k] as int % qi == st[k] % qi,
            forall|k: int| base <= k < n ==> #[trigger] a@[k] == a0[k],
        decreases m - i,
    {
        assert(base + 2 * t <= n) by (nonlinear_arith)
            requires
                base == 2 * t * i,
                i < m,
                n == 2 * t * m,
        ;
        let w = psi[m + i];
        let w_shoup = psi_shoup[m + i];
        let mut j: usize = 0;
        while j < t
            invariant
                ntt_modulus(q, q_twice),
                qi == q as int,
                t >= 1,
                m >= 1,
                n == 2 * t * m,
                n == n_exec,
                a0.len() == n,
                a@.len() == n,
                0 <= i < m,
                0 <= j <= t,
                base == 2 * t * i,
                base + 2 * t <= n,
                butterfly_params(w, w_shoup, q, q_twice),
                psi@.len() >= 2 * m,
                w == psi@[m + i],
                all_below(a0, 2 * q),
                st == gs_stage(as_ints(a0), as_ints(psi@), m as int, t as int),
                bound == 2 * q,
                forall|k: int|
                    0 <= k < base + j ==> #[trigger] a@[k] < bound && a@[k] as int % qi == st[k] % qi,
                forall|k: int|
                    base + t <= k < base + t + j ==> #[trigger] a@[k] < bound && a@[k] as int % qi
                        == st[k] % qi,
                forall|k: int| base + j <= k < base + t ==> #[trigger] a@[k] == a0[k],
                forall|k: int| base + t + j <= k < n ==> #[trigger] a@[k] == a0[k],
            decreases t - j,
        {
            let lo = base + j;
            let hi = lo + t;
            proof {
                assert(lo == (i as int) * (2 * t) + j) by (nonlinear_arith)
                    requires
                        base == 2 * t * i,
                        lo == base + j,
                ;
                lemma_fundamental_div_mod_converse(lo as int, 2 * t, i as int, j as int);
                lemma_fundamental_div_mod_converse(hi as int, 2 * t, i as int, j + t);
                assert(as_ints(a0)[lo as int] == a0[lo as int] as int);
                assert(as_ints(a0)[hi as int] == a0[hi as int] as int);
                assert(as_ints(psi@)[m + i] == w as int);
                assert((lo as int) / (2 * t) == i);
                assert((hi as int) / (2 * t) == i);
                assert((lo as int) % (2 * t) == j);
                assert(st[lo as int] == a0[lo as int] + a0[hi as int]);
                assert(st[hi as int] == w * (a0[lo as int] - a0[hi as int]));
            }
            let x = a[lo];
            let y = a[hi];
            let (ox, oy) = inverse_butterfly_0_to_2q(x, y, w, w_shoup, q, q_twice);
            a[lo] = ox;
            a[hi] = oy;
            j = j + 1;
        }
        assert(base + 2 * t == 2 * t * (i + 1)) by (nonlinear_arith)
            requires
                base == 2 * t * i,
        ;
        base = base + two_t;
        i = i + 1;
    }
}

/// The last Gentleman-Sande stage in place, on inputs in `[0, 2q)`: a single block of `2t`
/// elements with twiddle `psi_inv[1]`, each output multiplied by `n_inv`; the outputs are
/// in `[0, 2q)`, or in `[0, q)` if `full`.
fn inverse_last_stage(
    a: &mut [u64],
    psi_inv: &[u64],
    psi_inv_shoup: &[u64],
    n_inv: u64,
    n_inv_shoup: u64,
    t: usize,
    q: u64,
    q_twice: u64,
    full: bool,
)
    requires
        ntt_modulus(q, q_twice),
        t >= 1,
        old(a)@.len() == 2 * t,
        psi_inv@.len() >= 2,
        psi_inv_shoup@.len() >= 2,
        butterfly_params(psi_inv@[1], psi_inv_shoup@[1], q, q_twice),
        butterfly_params(n_inv, n_inv_shoup, q, q_twice),
        all_below(old(a)@, 2 * q),
    ensures
        final(a)@.len() == old(a)@.len(),
        congruent(
            as_ints(final(a)@),
            scale(gs_stage(as_ints(old(a)@), as_ints(psi_inv@), 1, t as int), n_inv as int),
            q as int,
        ),
        !full ==> all_below(final(a)@, 2 * q),
        full ==> all_below(final(a)@, q as int),
{
    let ghost a0 = a@;
    let ghost n = a0.len();
    let ghost st = gs_stage(as_ints(a0), as_ints(psi_inv@), 1, t as int);
    let ghost goal = scale(st, n_inv as int);
    let ghost bound: int = if full {
        q as int
    } else {
        2 * q
    };
    let ghost qi = q as int;
    let n_exec = a.len();
    let w = psi_inv[1];
    let w_shoup = psi_inv_shoup[1];
    let mut j: usize = 0;
    while j < t
        invariant
            ntt_modulus(q, q_twice),
            qi == q as int,
            t >= 1,
            n == 2 * t,
            n == n_exec,
            a0.len() == n,
            a@.len() == n,
            0 <= j <= t,
            butterfly_params(w, w_shoup, q, q_twice),
            butterfly_params(n_inv, n_inv_shoup, q, q_twice),
            psi_inv@.len() >= 2,
            w == psi_inv@[1],
            all_below(a0, 2 * q),
            st == gs_stage(as_ints(a0), as_ints(psi_inv@), 1, t as int),
            goal == scale(st, n_inv as int),
            bound == (if full {
                q as int
            } else {
                2 * q
            }),
            forall|k: int|
                0 <= k < j ==> #[trigger] a@[k] < bound && a@[k] as int % qi == goal[k] % qi,
            forall|k: int|
                t <= k < t + j ==> #[trigger] a@[k] < bound && a@[k] as int % qi == goal[k] % qi,
            forall|k: int| j <= k < t ==> #[trigger] a@[k] == a0[k],
            forall|k: int| t + j <= k < n ==> #[trigger] a@[k] == a0[k],
        decreases t - j,
    {
        let lo = j;
        let hi = j + t;
        proof {
            lemma_fundamental_div_mod_converse(lo as int, 2 * t, 0, j as int);
            lemma_fundamental_div_mod_converse(hi as int, 2 * t, 0, j + t);
            assert(as_ints(a0)[lo as int] == a0[lo as int] as int);
            assert(as_ints(a0)[hi as int] == a0[hi as int] as int);
            assert(as_ints(psi_inv@)[1] == w as int);
            assert(st[lo as int] == a0[lo as int] + a0[hi as int]);
            assert(st[hi as int] == w * (a0[lo as int] - a0[hi as int]));
        }
        let x = a[lo];
        let y = a[hi];
        let (ox, oy) = inverse_butterfly_0_to_2q(x, y, w, w_shoup, q, q_twice);
        let sx = shoup_mul(ox, n_inv, n_inv_shoup, q);
        let sy = shoup_mul(oy, n_inv, n_inv_shoup, q);
        proof {
            lemma_congruent_mul(ox as int, n_inv as int, st[lo as int], n_inv as int, qi);
            lemma_congruent_mul(oy as int, n_inv as int, st[hi as int], n_inv as int, qi);
            lemma_mul_is_commutative(st[lo as int], n_inv as int);
            lemma_mul_is_commutative(st[hi as int], n_inv as int);
        }
        if full {
            let rx = sx.min(sx.wrapping_sub(q));
            let ry = sy.min(sy.wrapping_sub(q));
            proof {
                lemma_add_multiple(rx as int, 1, qi);
                lemma_add_multiple(ry as int, 1, qi);
            }
            a[lo] = rx;
            a[hi] = ry;
        } else {
            a[lo] = sx;
            a[hi] = sy;
        }
        j = j + 1;
    }
}

/// A transform length that the transforms accept: zero or a power of two.
pub open spec fn transform_length(n: nat) -> bool {
    n == 0 || is_power_of_two(n)
}

/// The forward transform in place: all Cooley-Tukey stages, the last one on pairs reducing
/// into `[0, 2q)`, or into `[0, q)` if `full`.
fn forward_transform(a: &mut [u64], psi: &[u64], psi_shoup: &[u64], q: u64, q_twice: u64, full: bool)
    requires
        transform_length(old(a)@.len()),
        ntt_modulus(q, q_twice),
        twiddle_table(psi@, psi_shoup@, old(a)@.len(), q),
        all_below(old(a)@, 4 * q),
    ensures
        final(a)@.len() == old(a)@.len(),
        congruent(as_ints(final(a)@), ntt_spec(as_ints(old(a)@), as_ints(psi@)), q as int),
        final(a)@.len() >= 2 && !full ==> all_below(final(a)@, 2 * q),
        final(a)@.len() >= 2 && full ==> all_below(final(a)@, q as int),
        final(a)@.len() < 2 ==> final(a)@ == old(a)@,
{
    let ghost a0 = a@;
    let ghost psi_i = as_ints(psi@);
    let ghost qi = q as int;
    let n = a.len();
    if n == 0 {
        return;
    }
    let ghost l = log2_floor(n as nat);
    let mut t = n;
    let mut m: usize = 1;
    let ghost mut s: nat = 0;
    proof {
        vstd::arithmetic::power2::lemma2_to64();
        assert(ct_stages(as_ints(a0), psi_i, l, 0) == as_ints(a0));
        assert(congruent(as_ints(a@), as_ints(a0), qi));
    }
    while m < n
        invariant
            ntt_modulus(q, q_twice),
            qi == q as int,
            n == a@.len(),
            n == a0.len(),
            pow2(l) == n,
            s <= l,
            m == pow2(s),
            t == pow2((l - s) as nat),
            psi_i == as_ints(psi@),
            twiddle_table(psi@, psi_shoup@, n as nat, q),
            congruent(as_ints(a@), ct_stages(as_ints(a0), psi_i, l, s), qi),
            all_below(a@, 4 * q),
            s == l && l >= 1 && !full ==> all_below(a@, 2 * q),
            s == l && l >= 1 && full ==> all_below(a@, q as int),
            s == 0 ==> a@ == a0,
        decreases n - m,
    {
        proof {
            assert(s < l) by {
                if s >= l {
                    assert(m == n);
                }
            }
            lemma_stage_shape(l, s);
            lemma_pow2_unfold((l - s) as nat);
            assert(((l - s) as nat - 1) as nat == (l - s - 1) as nat);
        }
        t = t / 2;
        let ghost before = a@;
        forward_stage(a, psi, psi_shoup, m, t, q, q_twice, full);
        proof {
            lemma_ct_stages_len(as_ints(a0), psi_i, l, s);
            lemma_ct_stage_congruent(
                as_ints(before),
                ct_stages(as_ints(a0), psi_i, l, s),
                psi_i,
                m as int,
                t as int,
                qi,
            );
            lemma_congruent_trans(
                as_ints(a@),
                ct_stage(as_ints(before), psi_i, m as int, t as int),
                ct_stages(as_ints(a0), psi_i, l, s + 1),
                qi,
            );
            vstd::arithmetic::power2::lemma2_to64();
            if t > 1 {
                assert(l - s - 1 > 0);
                lemma_pow2_unfold((l - s - 1) as nat);
                lemma_pow2_pos((l - s - 2) as nat);
            } else {
                if s + 1 < l {
                    lemma_pow2_strictly_increases(0, (l - s - 1) as nat);
                }
            }
            lemma_pow2_unfold(s + 1);
        }
        m = 2 * m;
        proof {
            s = s + 1;
        }
    }
    proof {
        if s < l {
            lemma_pow2_strictly_increases(s, l);
        }
        assert(s == l);
        if l == 0 {
            assert(a@ == a0);
        }
    }
}

/// Number theoretic transform of the vector `a`, each element in `[0, 4q)`, in place:
/// afterwards `a` holds the transform with the twiddle table `psi`, each element in
/// `[0, 2q)`.
pub fn ntt_lazy(a: &mut [u64], psi: &[u64], psi_shoup: &[u64], q: u64, q_twice: u64)
    requires
        transform_length(old(a)@.len()),
        ntt_modulus(q, q_twice),
        twiddle_table(psi@, psi_shoup@, old(a)@.len(), q),
        all_below(old(a)@, 4 * q),
    ensures
        final(a)@.len() == old(a)@.len(),
        congruent(as_ints(final(a)@), ntt_spec(as_ints(old(a)@), as_ints(psi@)), q as int),
        final(a)@.len() >= 2 ==> all_below(final(a)@, 2 * q),
        final(a)@.len() < 2 ==> final(a)@ == old(a)@,
{
    forward_transform(a, psi, psi_shoup, q, q_twice, false)
}

/// Same as [`ntt_lazy`] with the output reduced: each element is the transform modulo `q`
/// (for a single element, the element reduced modulo `q`).
pub fn ntt(a: &mut [u64], psi: &[u64], psi_shoup: &[u64], q: u64, q_twice: u64)
    requires
        transform_length(old(a)@.len()),
        ntt_modulus(q, q_twice),
        twiddle_table(psi@, psi_shoup@, old(a)@.len(), q),
        all_below(old(a)@, 4 * q),
    ensures
        final(a)@.len() == old(a)@.len(),
        forall|k: int|
            0 <= k < final(a)@.len() ==> #[trigger] final(a)@[k] as int == ntt_spec(
                as_ints(old(a)@),
                as_ints(psi@),
            )[k] % (q as int),
{
    forward_transform(a, psi, psi_shoup, q, q_twice, true);
    if a.len() == 1 {
        a[0] = a[0] % q;
    }
    proof {
        let r = a@;
        assert forall|k: int| 0 <= k < r.len() implies #[trigger] r[k] as int == ntt_spec(
            as_ints(old(a)@),
            as_ints(psi@),
        )[k] % (q as int) by {
            if r.len() >= 2 {
                assert(as_ints(r)[k] == r[k] as int);
                lemma_small_mod(r[k] as nat, q as nat);
            } else {
                assert(log2_floor(1) == 0);
                assert(ntt_spec(as_ints(old(a)@), as_ints(psi@)) == as_ints(old(a)@));
            }
        }
    }
}

/// The inverse transform in place, on inputs in `[0, 2q)`: all Gentleman-Sande stages, the
/// last one multiplying by `n_inv`, with outputs in `[0, 2q)`, or in `[0, q)` if `full`.
fn inverse_transform(
    a: &mut [u64],
    psi_inv: &[u64],
    psi_inv_shoup: &[u64],
    n_inv: u64,
    n_inv_shoup: u64,
    q: u64,
    q_twice: u64,
    full: bool,
)
    requires
        transform_length(old(a)@.len()),
        ntt_modulus(q, q_twice),
        twiddle_table(psi_inv@, psi_inv_shoup@, old(a)@.len(), q),
        old(a)@.len() >= 2 ==> butterfly_params(n_inv, n_inv_shoup, q, q_twice),
        all_below(old(a)@, 2 * q),
    ensures
        final(a)@.len() == old(a)@.len(),
        congruent(
            as_ints(final(a)@),
            intt_spec(as_ints(old(a)@), as_ints(psi_inv@), n_inv as int),
            q as int,
        ),
        final(a)@.len() >= 2 && !full ==> all_below(final(a)@, 2 * q),
        final(a)@.len() >= 2 && full ==> all_below(final(a)@, q as int),
        final(a)@.len() < 2 ==> final(a)@ == old(a)@,
{
    let ghost a0 = a@;
    let ghost pi = as_ints(psi_inv@);
    let ghost qi = q as int;
    let n = a.len();
    if n < 2 {
        proof {
            if n == 1 {
                assert(log2_floor(1) == 0);
            }
            assert(congruent(as_ints(a@), as_ints(a0), qi));
        }
        return;
    }
    let ghost l = log2_floor(n as nat);
    proof {
        vstd::arithmetic::power2::lemma2_to64();
        if l == 0 {
            assert(false);
        }
        lemma_pow2_unfold(l);
        assert(gs_stages(as_ints(a0), pi, l, l) == as_ints(a0));
        assert(congruent(as_ints(a@), as_ints(a0), qi));
    }
    let mut m = n / 2;
    let mut t: usize = 1;
    let ghost mut s: int = l - 1;
    let ghost goal = scale(gs_stages(as_ints(a0), pi, l, 0), n_inv as int);
    while m > 0
        invariant
            ntt_modulus(q, q_twice),
            qi == q as int,
            n == a@.len(),
            n == a0.len(),
            n >= 2,
            l >= 1,
            pow2(l) == n,
            -1 <= s < l,
            pi == as_ints(psi_inv@),
            twiddle_table(psi_inv@, psi_inv_shoup@, n as nat, q),
            butterfly_params(n_inv, n_inv_shoup, q, q_twice),
            goal == scale(gs_stages(as_ints(a0), pi, l, 0), n_inv as int),
            s >= 0 ==> {
                &&& m == pow2(s as nat)
                &&& t == pow2((l - s - 1) as nat)
                &&& congruent(as_ints(a@), gs_stages(as_ints(a0), pi, l, (s + 1) as nat), qi)
                &&& all_below(a@, 2 * q)
            },
            s == -1 ==> {
                &&& m == 0
                &&& congruent(as_ints(a@), goal, qi)
                &&& !full ==> all_below(a@, 2 * q)
                &&& full ==> all_below(a@, q as int)
            },
        decreases m,
    {
        let ghost before = a@;
        let ghost sn = s as nat;
        proof {
            vstd::arithmetic::power2::lemma2_to64();
            if s < 0 {
                assert(m == 0);
            }
            lemma_stage_shape(l, sn);
            assert(2 * t <= n) by (nonlinear_arith)
                requires
                    2 * t * m == n,
                    m >= 1,
            ;
            lemma_gs_stages_len(as_ints(a0), pi, l, sn + 1);
            lemma_gs_stages_len(as_ints(a0), pi, l, sn);
            assert(gs_stages(as_ints(a0), pi, l, sn) == gs_stage(
                gs_stages(as_ints(a0), pi, l, sn + 1),
                pi,
                m as int,
                t as int,
            ));
            lemma_gs_stage_congruent(
                as_ints(before),
                gs_stages(as_ints(a0), pi, l, sn + 1),
                pi,
                m as int,
                t as int,
                qi,
            );
        }
        if m == 1 {
            proof {
                assert(s == 0) by {
                    if s > 0 {
                        lemma_pow2_strictly_increases(0, sn);
                    }
                }
            }
            assert(a@.len() == 2 * t) by {
                assert(2 * t * m == n);
                assert(2 * t * 1 == 2 * t);
            }
            inverse_last_stage(a, psi_inv, psi_inv_shoup, n_inv, n_inv_shoup, t, q, q_twice, full);
            proof {
                let g0 = gs_stage(as_ints(before), pi, 1, t as int);
                let g1 = gs_stages(as_ints(a0), pi, l, 0);
                assert forall|k: int| 0 <= k < n implies #[trigger] scale(g0, n_inv as int)[k] % qi
                    == goal[k] % qi by {
                    lemma_congruent_mul(n_inv as int, g0[k], n_inv as int, g1[k], qi);
                }
                lemma_congruent_trans(as_ints(a@), scale(g0, n_inv as int), goal, qi);
            }
        } else {
            proof {
                assert(s > 0) by {
                    if s == 0 {
                        assert(m == 1);
                    }
                }
            }
            inverse_stage(a, psi_inv, psi_inv_shoup, m, t, q, q_twice);
            proof {
                lemma_congruent_trans(
                    as_ints(a@),
                    gs_stage(as_ints(before), pi, m as int, t as int),
                    gs_stages(as_ints(a0), pi, l, sn),
                    qi,
                );
                lemma_pow2_unfold(sn);
                lemma_pow2_unfold((l - s) as nat);
                assert(((l - s) as nat - 1) as nat == (l - s - 1) as nat);
            }
        }
        t = 2 * t;
        m = m / 2;
        proof {
            s = s - 1;
        }
    }
    proof {
        if s >= 0 {
            lemma_pow2_pos(s as nat);
        }
        assert(as_ints(a0).len() == n);
        assert(intt_spec(as_ints(a0), pi, n_inv as int) == goal);
    }
}

/// Inverse number theoretic transform of the vector `a`, each element in `[0, 2q)`, in
/// place: afterwards `a` holds the inverse transform with the twiddle table `psi_inv` and
/// the scaling factor `n_inv`, each element in `[0, 2q)`.
pub fn ntt_inv_lazy(
    a: &mut [u64],
    psi_inv: &[u64],
    psi_inv_shoup: &[u64],
    n_inv: u64,
    n_inv_shoup: u64,
    q: u64,
    q_twice: u64,
)
    requires
        transform_length(old(a)@.len()),
        ntt_modulus(q, q_twice),
        twiddle_table(psi_inv@, psi_inv_shoup@, old(a)@.len(), q),
        old(a)@.len() >= 2 ==> butterfly_params(n_inv, n_inv_shoup, q, q_twice),
        all_below(old(a)@, 2 * q),
    ensures
        final(a)@.len() == old(a)@.len(),
        congruent(
            as_ints(final(a)@),
            intt_spec(as_ints(old(a)@), as_ints(psi_inv@), n_inv as int),
            q as int,
        ),
        all_below(final(a)@, 2 * q),
        final(a)@.len() < 2 ==> final(a)@ == old(a)@,
{
    inverse_transform(a, psi_inv, psi_inv_shoup, n_inv, n_inv_shoup, q, q_twice, false)
}

/// Same as [`ntt_inv_lazy`] with the output reduced: each element is the inverse transform
/// modulo `q` (for a single element, the element reduced modulo `q`).
pub fn ntt_inv(
    a: &mut [u64],
    psi_inv: &[u64],
    psi_inv_shoup: &[u64],
    n_inv: u64,
    n_inv_shoup: u64,
    q: u64,
    q_twice: u64,
)
    requires
        transform_length(old(a)@.len()),
        ntt_modulus(q, q_twice),
        twiddle_table(psi_inv@, psi_inv_shoup@, old(a)@.len(), q),
        old(a)@.len() >= 2 ==> butterfly_params(n_inv, n_inv_shoup, q, q_twice),
        all_below(old(a)@, 2 * q),
    ensures
        final(a)@.len() == old(a)@.len(),
        forall|k: int|
            0 <= k < final(a)@.len() ==> #[trigger] final(a)@[k] as int == intt_spec(
                as_ints(old(a)@),
                as_ints(psi_inv@),
                n_inv as int,
            )[k] % (q as int),
{
    inverse_transform(a, psi_inv, psi_inv_shoup, n_inv, n_inv_shoup, q, q_twice, true);
    if a.len() == 1 {
        a[0] = a[0] % q;
    }
    proof {
        let r = a@;
        assert forall|k: int| 0 <= k < r.len() implies #[trigger] r[k] as int == intt_spec(
            as_ints(old(a)@),
            as_ints(psi_inv@),
            n_inv as int,
        )[k] % (q as int) by {
            if r.len() >= 2 {
                assert(as_ints(r)[k] == r[k] as int);
                lemma_small_mod(r[k] as nat, q as nat);
            } else {
                assert(log2_floor(1) == 0);
                assert(intt_spec(as_ints(old(a)@), as_ints(psi_inv@), n_inv as int) == as_ints(
                    old(a)@,
                ));
            }
        }
    }
}

/// The inverse transform gives back what went into the forward transform: if `fwd` is
/// congruent to the forward transform of `a` with the twiddle table `psi`, and `back` to the
/// inverse transform of `fwd` with the table `psi_inv` and the factor `n_inv`, and these
/// tables are inverse to each other modulo `q` and `n_inv` inverts the length, then `back`
/// is congruent to `a`, and equal to it where both are reduced.
pub proof fn lemma_ntt_round_trip(
    a: Seq<u64>,
    fwd: Seq<u64>,
    back: Seq<u64>,
    psi: Seq<u64>,
    psi_inv: Seq<u64>,
    n_inv: u64,
    q: u64,
)
    requires
        q > 0,
        is_power_of_two(a.len()),
        inverse_tables(as_ints(psi), as_ints(psi_inv), n_inv as int, a.len(), q as int),
        congruent(as_ints(fwd), ntt_spec(as_ints(a), as_ints(psi)), q as int),
        congruent(as_ints(back), intt_spec(as_ints(fwd), as_ints(psi_inv), n_inv as int), q as int),
    ensures
        congruent(as_ints(back), as_ints(a), q as int),
        all_below(a, q as int) && all_below(back, q as int) ==> back == a,
{
    let qi = q as int;
    let ai = as_ints(a);
    lemma_ct_stages_len(ai, as_ints(psi), log2_floor(a.len()), log2_floor(a.len()));
    lemma_intt_congruent(as_ints(fwd), ntt_spec(ai, as_ints(psi)), as_ints(psi_inv), n_inv as int, qi);
    lemma_intt_ntt(ai, as_ints(psi), as_ints(psi_inv), n_inv as int, qi);
    lemma_congruent_trans(
        as_ints(back),
        intt_spec(as_ints(fwd), as_ints(psi_inv), n_inv as int),
        intt_spec(ntt_spec(ai, as_ints(psi)), as_ints(psi_inv), n_inv as int),
        qi,
    );
    lemma_congruent_trans(
        as_ints(back),
        intt_spec(ntt_spec(ai, as_ints(psi)), as_ints(psi_inv), n_inv as int),
        ai,
        qi,
    );
    if all_below(a, qi) && all_below(back, qi) {
        assert forall|k: int| 0 <= k < a.len() implies back[k] == a[k] by {
            assert(as_ints(back)[k] % qi == ai[k] % qi);
            lemma_small_mod(back[k] as nat, q as nat);
            lemma_small_mod(a[k] as nat, q as nat);
        }
        assert(back =~= a);
    }
}

/// The reduced transforms are the lazy ones brought into `[0, q)`: if `lazy` is congruent to
/// `target` (as the outputs of [`ntt_lazy`] and [`ntt_inv_lazy`] are to the transforms) and
/// `full` holds `target` reduced modulo `q` (as the outputs of [`ntt`] and [`ntt_inv`] do),
/// then each element of `full` is the element of `lazy` reduced modulo `q`.
pub proof fn lemma_lazy_then_reduce(lazy: Seq<u64>, full: Seq<u64>, target: Seq<int>, q: u64)
    requires
        q > 0,
        congruent(as_ints(lazy), target, q as int),
        full.len() == target.len(),
        forall|k: int| 0 <= k < full.len() ==> #[trigger] full[k] as int == target[k] % (q as int),
    ensures
        forall|k: int| 0 <= k < full.len() ==> #[trigger] full[k] as int == (lazy[k] as int) % (q as int),
{
    assert forall|k: int| 0 <= k < full.len() implies #[trigger] full[k] as int == (lazy[k] as int) % (
    q as int) by {
        assert(as_ints(lazy)[k] % (q as int) == target[k] % (q as int));
    }
}

} // verus!
