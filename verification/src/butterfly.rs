//! The butterflies of the forward (Cooley-Tukey) and inverse (Gentleman-Sande) number
//! theoretic transforms, with lazy reduction.
use vstd::prelude::*;
use crate::arith::{
    lemma_add_multiple, lemma_congruent_add, lemma_congruent_mul, lemma_congruent_sub, shoup_mul, shoup_mul_spec,
    shoup_repr_spec,
};

verus! {

/// `x` brought from `[0, 2 * bound)` into `[0, bound)` by one conditional subtraction.
pub open spec fn reduce_once(x: int, bound: int) -> int {
    if x >= bound {
        x - bound
    } else {
        x
    }
}

/// What the butterflies need of their modulus and constant: `q < 2^62`, `q_twice == 2q`,
/// the constant `w` reduced and `w_shoup` its Shoup quotient.
pub open spec fn butterfly_params(w: u64, w_shoup: u64, q: u64, q_twice: u64) -> bool {
    &&& 0 < q < 0x4000_0000_0000_0000
    &&& q_twice == 2 * q
    &&& w < q
    &&& w_shoup == shoup_repr_spec(w as int, q as int)
}

/// Forward butterfly routine for the number theoretic transform. Given inputs `x < 4q` and
/// `y < 4q` it returns `x' = x + wy` and `y' = x - wy` modulo `q`, both in `[0, 4q)`.
pub fn forward_butterly_0_to_4q(x: u64, y: u64, w: u64, w_shoup: u64, q: u64, q_twice: u64) -> (r: (
    u64,
    u64,
))
    requires
        butterfly_params(w, w_shoup, q, q_twice),
        x < 4 * q,
        y < 4 * q,
    ensures
        ({
            let xr = reduce_once(x as int, 2 * q);
            let t = shoup_mul_spec(y as int, w as int, w_shoup as int, q as int);
            &&& r.0 == xr + t
            &&& r.1 == xr + 2 * q - t
        }),
        r.0 < 4 * q,
        r.1 < 4 * q,
        r.0 as int % q as int == (x + w * y) % (q as int),
        r.1 as int % q as int == (x - w * y) % (q as int),
{
    let ghost x0 = x;
    let mut x = x;
    if x >= q_twice {
        x = x - q_twice;
    }
    let t = shoup_mul(y, w, w_shoup, q);
    proof {
        let qi = q as int;
        lemma_add_multiple(x as int, 2, qi);
        assert((x as int) % qi == (x0 as int) % qi);
        lemma_congruent_add(x as int, t as int, x0 as int, w * y, qi);
        lemma_congruent_sub(x as int, t as int, x0 as int, w * y, qi);
        lemma_add_multiple(x - t, 2, qi);
    }
    (x + t, x + q_twice - t)
}

/// Same as [`forward_butterly_0_to_4q`] with both outputs reduced into `[0, 2q)`.
pub fn forward_butterly_0_to_2q(x: u64, y: u64, w: u64, w_shoup: u64, q: u64, q_twice: u64) -> (r: (
    u64,
    u64,
))
    requires
        butterfly_params(w, w_shoup, q, q_twice),
        x < 4 * q,
        y < 4 * q,
    ensures
        ({
            let xr = reduce_once(x as int, 2 * q);
            let t = shoup_mul_spec(y as int, w as int, w_shoup as int, q as int);
            &&& r.0 == reduce_once(xr + t, 2 * q)
            &&& r.1 == (if xr >= t { xr - t } else { xr - t + 2 * q })
        }),
        r.0 < 2 * q,
        r.1 < 2 * q,
        r.0 as int % q as int == (x + w * y) % (q as int),
        r.1 as int % q as int == (x - w * y) % (q as int),
{
    let ghost x0 = x;
    let mut x = x;
    if x >= q_twice {
        x = x - q_twice;
    }
    let t = shoup_mul(y, w, w_shoup, q);
    let ox = x.wrapping_add(t);
    let oy = x.wrapping_sub(t);
    let rx = ox.min(ox.wrapping_sub(q_twice));
    let ry = oy.min(oy.wrapping_add(q_twice));
    proof {
        let qi = q as int;
        lemma_add_multiple(x as int, 2, qi);
        assert((x as int) % qi == (x0 as int) % qi);
        lemma_congruent_add(x as int, t as int, x0 as int, w * y, qi);
        lemma_congruent_sub(x as int, t as int, x0 as int, w * y, qi);
        lemma_add_multiple(x + t, -2, qi);
        lemma_add_multiple(x - t, 2, qi);
    }
    (rx, ry)
}

/// Inverse butterfly routine of the inverse number theoretic transform. Given inputs
/// `x < 2q` and `y < 2q` it returns `x' = x + y` and `y' = w(x - y)` modulo `q`, both in
/// `[0, 2q)`.
pub fn inverse_butterfly_0_to_2q(
    x: u64,
    y: u64,
    w_inv: u64,
    w_inv_shoup: u64,
    q: u64,
    q_twice: u64,
) -> (r: (u64, u64))
    requires
        butterfly_params(w_inv, w_inv_shoup, q, q_twice),
        x < 2 * q,
        y < 2 * q,
    ensures
        r.0 == reduce_once(x + y, 2 * q),
        r.1 == shoup_mul_spec(x + 2 * q - y, w_inv as int, w_inv_shoup as int, q as int),
        r.0 < 2 * q,
        r.1 < 2 * q,
        r.0 as int % q as int == (x + y) % (q as int),
        r.1 as int % q as int == (w_inv * (x - y)) % (q as int),
{
    let mut x_dash = x + y;
    if x_dash >= q_twice {
        x_dash -= q_twice;
    }
    let t = x + q_twice - y;
    let y_dash = shoup_mul(t, w_inv, w_inv_shoup, q);
    proof {
        let qi = q as int;
        lemma_add_multiple(x + y, -2, qi);
        lemma_add_multiple(x - y, 2, qi);
        assert((t as int) % qi == (x - y) % qi);
        lemma_congruent_mul(t as int, w_inv as int, x - y, w_inv as int, qi);
        vstd::arithmetic::mul::lemma_mul_is_commutative(x - y, w_inv as int);
    }
    (x_dash, y_dash)
}

} // verus!
