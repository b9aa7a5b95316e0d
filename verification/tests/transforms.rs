use phantom_zone::arith::{mod_exponent, shoup_representation};
use phantom_zone::backend::{
    find_primitive_root, primitive_root_candidate, Ntt, NttBackendU64, NttInit, SeededStream,
};
use phantom_zone::bit_reverse::reverse_bits;
use phantom_zone::ntt::{ntt, ntt_inv, ntt_inv_lazy, ntt_lazy};

const Q: u64 = 97;
const PSI: u64 = 8; // a primitive 16-th root of unity modulo 97
const N: usize = 8;

struct Tables {
    psi: Vec<u64>,
    psi_shoup: Vec<u64>,
    psi_inv: Vec<u64>,
    psi_inv_shoup: Vec<u64>,
    n_inv: u64,
    n_inv_shoup: u64,
}

fn tables() -> Tables {
    let psi_inv_root = mod_exponent(PSI, Q - 2, Q);
    let mut psi = vec![0u64; N];
    let mut psi_inv = vec![0u64; N];
    for i in 0..N {
        psi[reverse_bits(i, 3)] = mod_exponent(PSI, i as u64, Q);
        psi_inv[reverse_bits(i, 3)] = mod_exponent(psi_inv_root, i as u64, Q);
    }
    let psi_shoup = psi.iter().map(|w| shoup_representation(*w, Q)).collect();
    let psi_inv_shoup = psi_inv.iter().map(|w| shoup_representation(*w, Q)).collect();
    let n_inv = mod_exponent(N as u64, Q - 2, Q);
    Tables {
        psi,
        psi_shoup,
        psi_inv,
        psi_inv_shoup,
        n_inv,
        n_inv_shoup: shoup_representation(n_inv, Q),
    }
}

/// `a` evaluated at `psi^(2 * bitrev(k) + 1)` for each position `k`.
fn evaluations(a: &[u64]) -> Vec<u64> {
    (0..N)
        .map(|k| {
            let root = mod_exponent(PSI, 2 * reverse_bits(k, 3) as u64 + 1, Q);
            let mut acc = 0u64;
            for (j, aj) in a.iter().enumerate() {
                acc = (acc + aj * mod_exponent(root, j as u64, Q)) % Q;
            }
            acc
        })
        .collect()
}

#[test]
fn forward_transform_evaluates_at_odd_powers() {
    let t = tables();
    let a: Vec<u64> = vec![1, 2, 3, 4, 5, 6, 7, 8];
    let mut out = a.clone();
    ntt(&mut out, &t.psi, &t.psi_shoup, Q, 2 * Q);
    assert_eq!(out, evaluations(&a));
    let mut lazy = a.clone();
    ntt_lazy(&mut lazy, &t.psi, &t.psi_shoup, Q, 2 * Q);
    assert!(lazy.iter().all(|v| *v < 2 * Q));
    let reduced: Vec<u64> = lazy.iter().map(|v| v % Q).collect();
    assert_eq!(reduced, out);
}

#[test]
fn forward_transform_accepts_inputs_below_four_q() {
    let t = tables();
    let a: Vec<u64> = vec![0, 96, 97, 193, 250, 387, 2, 300];
    let reduced: Vec<u64> = a.iter().map(|v| v % Q).collect();
    let mut out = a.clone();
    ntt(&mut out, &t.psi, &t.psi_shoup, Q, 2 * Q);
    assert_eq!(out, evaluations(&reduced));
}

#[test]
fn inverse_transform_undoes_forward_transform() {
    let t = tables();
    let a: Vec<u64> = vec![11, 0, 96, 45, 3, 77, 50, 1];
    let mut v = a.clone();
    ntt(&mut v, &t.psi, &t.psi_shoup, Q, 2 * Q);
    ntt_inv(&mut v, &t.psi_inv, &t.psi_inv_shoup, t.n_inv, t.n_inv_shoup, Q, 2 * Q);
    assert_eq!(v, a);
    let mut w = a.clone();
    ntt_lazy(&mut w, &t.psi, &t.psi_shoup, Q, 2 * Q);
    ntt_inv_lazy(&mut w, &t.psi_inv, &t.psi_inv_shoup, t.n_inv, t.n_inv_shoup, Q, 2 * Q);
    assert!(w.iter().all(|x| *x < 2 * Q));
    let reduced: Vec<u64> = w.iter().map(|x| x % Q).collect();
    assert_eq!(reduced, a);
}

#[test]
fn transforms_of_length_one_reduce_the_input() {
    let mut a = vec![150u64];
    ntt_lazy(&mut a, &[0], &[0], Q, 2 * Q);
    assert_eq!(a, vec![150]);
    ntt(&mut a, &[0], &[0], Q, 2 * Q);
    assert_eq!(a, vec![53]);
    let mut b = vec![170u64];
    ntt_inv_lazy(&mut b, &[0], &[0], 0, 0, Q, 2 * Q);
    assert_eq!(b, vec![170]);
    ntt_inv(&mut b, &[0], &[0], 0, 0, Q, 2 * Q);
    assert_eq!(b, vec![73]);
    let mut empty: Vec<u64> = vec![];
    ntt_lazy(&mut empty, &[], &[], Q, 2 * Q);
    assert!(empty.is_empty());
}

#[test]
fn root_candidates_are_tested_at_half_order() {
    // 3 generates the units modulo 17: 3^8 == -1
    assert_eq!(primitive_root_candidate(3, 17, 16), Some(3));
    // 16 == -1 squares to one
    assert_eq!(primitive_root_candidate(16, 17, 16), None);
    // 20 reduces to 3
    assert_eq!(primitive_root_candidate(20, 17, 16), Some(3));
    // for n == 8 the candidate is the square of the sample
    assert_eq!(primitive_root_candidate(3, 17, 8), Some(9));
    // a multiple of q gives the candidate 0, which is no root of unity
    assert_eq!(primitive_root_candidate(34, 17, 16), None);
}

#[test]
fn found_roots_are_primitive() {
    let mut rng = SeededStream::new([7u8; 32]);
    let q = 12289u64; // 12289 == 3 * 2^12 + 1
    for n in [2u64, 4, 512, 4096] {
        let omega = find_primitive_root(q, n, &mut rng).unwrap();
        assert!(omega < q);
        assert_eq!(mod_exponent(omega, n, q), 1);
        assert_ne!(mod_exponent(omega, n / 2, q), 1);
    }
}

#[test]
fn backend_round_trip_and_ranges() {
    let backend = NttBackendU64::_new(Q, N).unwrap();
    let a: Vec<u64> = vec![5, 90, 0, 33, 96, 1, 64, 12];
    let mut v = a.clone();
    backend.forward(&mut v);
    assert!(v.iter().all(|x| *x < Q));
    backend.backward(&mut v);
    assert_eq!(v, a);
    backend.forward_lazy(&mut v);
    assert!(v.iter().all(|x| *x < 2 * Q));
    backend.backward_lazy(&mut v);
    assert!(v.iter().all(|x| *x < 2 * Q));
    let reduced: Vec<u64> = v.iter().map(|x| x % Q).collect();
    assert_eq!(reduced, a);
}

#[test]
fn backend_from_trait_matches_direct_construction() {
    let via_trait = <NttBackendU64 as NttInit<u64>>::new(&Q, N).unwrap();
    let direct = NttBackendU64::_new(Q, N).unwrap();
    let a: Vec<u64> = vec![1, 2, 3, 4, 5, 6, 7, 8];
    let mut x = a.clone();
    let mut y = a.clone();
    via_trait.forward(&mut x);
    direct.forward(&mut y);
    assert_eq!(x, y);
}

#[test]
fn backend_multiplies_negacyclically() {
    let backend = NttBackendU64::_new(Q, N).unwrap();
    // (1 + X) * X^7 == X^7 + X^8 == X^7 - 1 in Z_97[X] / (X^8 + 1)
    let a: Vec<u64> = vec![1, 1, 0, 0, 0, 0, 0, 0];
    let b: Vec<u64> = vec![0, 0, 0, 0, 0, 0, 0, 1];
    let mut fa = a.clone();
    let mut fb = b.clone();
    backend.forward_lazy(&mut fa);
    backend.forward_lazy(&mut fb);
    let mut prod: Vec<u64> = fa
        .iter()
        .zip(fb.iter())
        .map(|(x, y)| ((*x as u128 * *y as u128) % Q as u128) as u64)
        .collect();
    backend.backward(&mut prod);
    assert_eq!(prod, vec![96, 0, 0, 0, 0, 0, 0, 1]);
}

#[test]
fn root_search_gives_none_without_roots() {
    let mut rng = SeededStream::new([3u8; 32]);
    // modulo 1 every candidate is 0
    assert_eq!(find_primitive_root(1, 2, &mut rng), None);
    // 97 is not 1 modulo 64: no 64-th root of unity exists
    assert_eq!(find_primitive_root(97, 64, &mut rng), None);
    // 12289 is not 1 modulo 8192
    assert_eq!(find_primitive_root(12289, 8192, &mut rng), None);
}

#[test]
fn root_search_is_determined_by_the_seed() {
    let mut r1 = SeededStream::new([9u8; 32]);
    let mut r2 = SeededStream::new([9u8; 32]);
    for n in [2u64, 16, 4096] {
        assert_eq!(
            find_primitive_root(12289, n, &mut r1),
            find_primitive_root(12289, n, &mut r2)
        );
    }
}

#[test]
fn backend_construction_is_reproducible() {
    let b1 = NttBackendU64::_new(Q, N).unwrap();
    let b2 = NttBackendU64::_new(Q, N).unwrap();
    let a: Vec<u64> = vec![3, 1, 4, 1, 5, 9, 2, 6];
    let mut v = a.clone();
    b1.forward(&mut v);
    b2.backward(&mut v);
    assert_eq!(v, a);
    // no 16-th root of unity exists modulo 101
    assert!(NttBackendU64::_new(101, N).is_none());
}
