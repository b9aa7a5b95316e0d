use phantom_zone::backend::{Ntt, NttBackendU64};
use rand::distributions::Uniform;
use rand::{thread_rng, Rng};

const Q_60_BITS: u64 = 1152921504606748673;
const N: usize = 1 << 4;

const K: usize = 128;

fn random_vec_in_fq(size: usize, q: u64) -> Vec<u64> {
    thread_rng()
        .sample_iter(Uniform::new(0, q))
        .take(size)
        .collect::<Vec<u64>>()
}

fn assert_output_range(a: &[u64], max_val: u64) {
    a.iter()
        .for_each(|v| assert!(v <= &max_val, "{v} > {max_val}"));
}

fn mul_mod_u128(a: u64, b: u64, q: u64) -> u64 {
    ((a as u128 * b as u128) % q as u128) as u64
}

fn pow_mod(mut base: u64, mut e: u64, q: u64) -> u64 {
    let mut acc = 1u64 % q;
    base %= q;
    while e > 0 {
        if e & 1 == 1 {
            acc = mul_mod_u128(acc, base, q);
        }
        base = mul_mod_u128(base, base, q);
        e >>= 1;
    }
    acc
}

/// Deterministic Miller-Rabin for 64-bit integers.
fn is_prime(n: u64) -> bool {
    if n < 2 {
        return false;
    }
    for p in [2u64, 3, 5, 7, 11, 13, 17, 19, 23, 29, 31, 37] {
        if n % p == 0 {
            return n == p;
        }
    }
    let mut d = n - 1;
    let mut s = 0;
    while d % 2 == 0 {
        d /= 2;
        s += 1;
    }
    'outer: for a in [2u64, 3, 5, 7, 11, 13, 17, 19, 23, 29, 31, 37] {
        let mut x = pow_mod(a, d, n);
        if x == 1 || x == n - 1 {
            continue;
        }
        for _ in 1..s {
            x = mul_mod_u128(x, x, n);
            if x == n - 1 {
                continue 'outer;
            }
        }
        return false;
    }
    true
}

/// The largest prime below `upper` that is `1` modulo `modulo`, with at most `bits` bits.
fn generate_prime(bits: u8, modulo: u64, upper: u64) -> Option<u64> {
    assert!(upper <= 1u64 << bits);
    let mut candidate = upper - (upper % modulo) + 1;
    while candidate >= upper {
        candidate -= modulo;
    }
    while candidate > modulo {
        if is_prime(candidate) {
            return Some(candidate);
        }
        candidate -= modulo;
    }
    None
}

/// Schoolbook product of `a` and `b` in `Z_p[X]/(X^n + 1)`.
fn negacyclic_mul<F: Fn(&u64, &u64) -> u64>(a: &[u64], b: &[u64], mul: F, p: u64) -> Vec<u64> {
    let n = a.len();
    let mut r = vec![0u64; n];
    for i in 0..n {
        for j in 0..n {
            let prod = mul(&a[i], &b[j]);
            if i + j < n {
                r[i + j] = (r[i + j] + prod) % p;
            } else {
                r[i + j - n] = (r[i + j - n] + p - prod) % p;
            }
        }
    }
    r
}

fn elwise_mul_mut(a: &mut [u64], b: &[u64], p: u64) {
    a.iter_mut()
        .zip(b.iter())
        .for_each(|(x, y)| *x = mul_mod_u128(*x, *y, p));
}

#[test]
fn native_ntt_backend_works() {
    let ntt_backend = NttBackendU64::_new(Q_60_BITS, N).unwrap();
    for _ in 0..K {
        let mut a = random_vec_in_fq(N, Q_60_BITS);
        let a_clone = a.clone();

        ntt_backend.forward(&mut a);
        assert_output_range(a.as_ref(), Q_60_BITS - 1);
        assert_ne!(a, a_clone);
        ntt_backend.backward(&mut a);
        assert_output_range(a.as_ref(), Q_60_BITS - 1);
        assert_eq!(a, a_clone);

        ntt_backend.forward_lazy(&mut a);
        assert_output_range(a.as_ref(), (2 * Q_60_BITS) - 1);
        assert_ne!(a, a_clone);
        ntt_backend.backward(&mut a);
        assert_output_range(a.as_ref(), Q_60_BITS - 1);
        assert_eq!(a, a_clone);

        ntt_backend.forward(&mut a);
        assert_output_range(a.as_ref(), Q_60_BITS - 1);
        ntt_backend.backward_lazy(&mut a);
        assert_output_range(a.as_ref(), (2 * Q_60_BITS) - 1);
        // reduce
        a.iter_mut().for_each(|a0| {
            if *a0 >= Q_60_BITS {
                *a0 -= *a0 - Q_60_BITS;
            }
        });
        assert_eq!(a, a_clone);
    }
}

#[test]
fn native_ntt_negacylic_mul() {
    let primes = [25, 40, 50, 60]
        .iter()
        .map(|bits| generate_prime(*bits, (2 * N) as u64, 1u64 << bits).unwrap())
        .collect::<Vec<u64>>();

    for p in primes.into_iter() {
        let ntt_backend = NttBackendU64::_new(p, N).unwrap();
        for _ in 0..K {
            let a = random_vec_in_fq(N, p);
            let b = random_vec_in_fq(N, p);

            let mut a_clone = a.clone();
            let mut b_clone = b.clone();
            ntt_backend.forward_lazy(&mut a_clone);
            ntt_backend.forward_lazy(&mut b_clone);
            elwise_mul_mut(&mut a_clone, &b_clone, p);
            ntt_backend.backward(&mut a_clone);

            let mul = |a: &u64, b: &u64| {
                let tmp = *a as u128 * *b as u128;
                (tmp % p as u128) as u64
            };
            let expected_out = negacyclic_mul(&a, &b, mul, p);

            assert_eq!(a_clone, expected_out);
        }
    }
}
