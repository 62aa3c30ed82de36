use ark_bls12_381::Fr;
use ark_ff::{BigInteger, Field, PrimeField};
use ark_poly::{EvaluationDomain, Radix2EvaluationDomain};
use ark_std::rand::rngs::StdRng;
use ark_std::rand::SeedableRng;
use ark_std::UniformRand;
use batch_encryption::bits::reverse_bits;
use batch_encryption::fft::{circulant_mul, group_fft_in_place, group_ifft_in_place};
use batch_encryption::field::Scalar;
use batch_encryption::group::{GroupElem, G1};
use batch_encryption::partial_fractions::{get_omega, kernel_transform};

fn scalar_of(f: &Fr) -> Scalar {
    Scalar::from_le_bytes_mod_order(&f.into_bigint().to_bytes_le())
}

fn same<G: GroupElem>(a: &[G], b: &[G]) -> bool {
    a.len() == b.len() && a.iter().zip(b.iter()).all(|(x, y)| x.equals(y))
}

/// Group FFT then IFFT recovers the input vector, for both scalar and
/// group-element inputs.
#[test]
fn fft_ifft_roundtrip() {
    let rng = &mut StdRng::seed_from_u64(21);
    for &n in &[1usize, 2, 4, 8, 16, 32] {
        let omega = get_omega(n);

        let scalars: Vec<Scalar> = (0..n).map(|_| Scalar::random(rng)).collect();
        let mut work: Vec<Scalar> = scalars.iter().map(|s| s.duplicate()).collect();
        group_fft_in_place(&mut work, &omega);
        group_ifft_in_place(&mut work, &omega);
        assert!(same(&work, &scalars), "scalar roundtrip mismatch at n={n}");

        let points: Vec<G1> = (0..n).map(|_| G1::random(rng)).collect();
        let mut work: Vec<G1> = points.iter().map(|p| p.duplicate()).collect();
        group_fft_in_place(&mut work, &omega);
        group_ifft_in_place(&mut work, &omega);
        assert!(same(&work, &points), "group roundtrip mismatch at n={n}");
    }
}

/// The group FFT commutes with scalar multiplication: FFT of (g·s_i) equals
/// g·FFT(s_i).
#[test]
fn group_fft_agrees_with_scalar_fft_via_generator() {
    let rng = &mut StdRng::seed_from_u64(22);
    for &n in &[2usize, 4, 8, 16, 32] {
        let omega = get_omega(n);
        let domain = Radix2EvaluationDomain::<Fr>::new(n).unwrap();
        let g = G1::generator();

        let scalars: Vec<Fr> = (0..n).map(|_| Fr::rand(rng)).collect();

        let scalar_fft = domain.fft(&scalars);
        let expected: Vec<G1> = scalar_fft.iter().map(|s| g.times(&scalar_of(s))).collect();

        let mut points: Vec<G1> = scalars.iter().map(|s| g.times(&scalar_of(s))).collect();
        group_fft_in_place(&mut points, &omega);

        assert!(same(&points, &expected), "group FFT ≠ scalar FFT at n={n}");
    }
}

/// Naive circulant product `result[j] = Σ_k ω^(−j)·d_(j−k)·a_k`, with
/// `d[0] = 0` and `d[r] = 1/(1 − ω^(−r))`.
fn naive_circulant_mul(a: &[G1], omega: &Scalar) -> Vec<G1> {
    let n = a.len();
    let omega_inv = omega.inverse().unwrap();
    let d: Vec<Scalar> = (0..n)
        .map(|r| {
            if r == 0 {
                Scalar::zero()
            } else {
                Scalar::one().sub(&omega_inv.pow(r as u64)).inverse().unwrap()
            }
        })
        .collect();
    (0..n)
        .map(|j| {
            let omega_neg_j = omega_inv.pow(j as u64);
            let mut acc = G1::identity();
            for (k, a_k) in a.iter().enumerate() {
                let r = (j + n - k) % n;
                acc = acc.plus(&a_k.times(&omega_neg_j.mul(&d[r])));
            }
            acc
        })
        .collect()
}

/// `circulant_mul` matches the naive O(n²) computation.
#[test]
fn circulant_mul_matches_naive() {
    let rng = &mut StdRng::seed_from_u64(23);
    for &n in &[2usize, 4, 8, 16] {
        let omega = get_omega(n);
        let d_hat = kernel_transform(n, &omega);
        let a: Vec<G1> = (0..n).map(|_| G1::random(rng)).collect();
        let got = circulant_mul(&d_hat, &a, &omega);
        let expected = naive_circulant_mul(&a, &omega);
        assert!(same(&got, &expected), "circulant_mul mismatch at n={n}");
    }
}

/// The kernel transform is the FFT of `d_0 = 0`, `d_r = 1/(1 − ω^(−r))`.
#[test]
fn kernel_transform_matches_scalar_fft() {
    for &n in &[1usize, 2, 4, 8] {
        let omega = get_omega(n);
        let domain = Radix2EvaluationDomain::<Fr>::new(n).unwrap();
        let omega_fr = domain.group_gen();
        let d: Vec<Fr> = (0..n)
            .map(|r| {
                if r == 0 {
                    Fr::from(0u64)
                } else {
                    (Fr::from(1u64) - omega_fr.inverse().unwrap().pow([r as u64])).inverse().unwrap()
                }
            })
            .collect();
        let expected: Vec<Scalar> = domain.fft(&d).iter().map(scalar_of).collect();
        assert!(same(&kernel_transform(n, &omega), &expected));
    }
}

#[test]
fn reverse_bits_examples() {
    assert_eq!(reverse_bits(0, 3), 0);
    assert_eq!(reverse_bits(1, 3), 4);
    assert_eq!(reverse_bits(3, 3), 6);
    assert_eq!(reverse_bits(6, 3), 3);
    assert_eq!(reverse_bits(1, 1), 1);
    assert_eq!(reverse_bits(5, 4), 10);
    for x in 0..16usize {
        assert_eq!(reverse_bits(reverse_bits(x, 4), 4), x);
    }
}

#[test]
fn fft_of_unit_vector_is_all_ones() {
    let omega = get_omega(8);
    let mut v: Vec<Scalar> = (0..8).map(|i| if i == 0 { Scalar::one() } else { Scalar::zero() }).collect();
    group_fft_in_place(&mut v, &omega);
    assert!(v.iter().all(|x| x.equals(&Scalar::one())));
    // a delta at position 1 transforms to the powers of omega
    let mut w: Vec<Scalar> = (0..8).map(|i| if i == 1 { Scalar::one() } else { Scalar::zero() }).collect();
    group_fft_in_place(&mut w, &omega);
    for (m, x) in w.iter().enumerate() {
        assert!(x.equals(&omega.pow(m as u64)));
    }
}

#[test]
fn kernel_transform_of_size_two() {
    // ω = −1, d = (0, 1/(1 − ω)) = (0, 1/2), so d̂ = (1/2, −1/2)
    let omega = get_omega(2);
    assert!(omega.equals(&Scalar::zero().sub(&Scalar::one())));
    let half = Scalar::from_u64(2).inverse().unwrap();
    let d_hat = kernel_transform(2, &omega);
    assert_eq!(d_hat.len(), 2);
    assert!(d_hat[0].equals(&half));
    assert!(d_hat[1].equals(&Scalar::zero().sub(&half)));
}

#[test]
fn extra_index_is_two() {
    for &n in &[1usize, 2, 4, 8, 16, 1024] {
        assert!(batch_encryption::partial_fractions::get_extra_index(n).equals(&Scalar::from_u64(2)));
    }
}

#[test]
fn extra_index_for_sizes_that_are_not_powers_of_two() {
    let two = Scalar::from_u64(2);
    for &n in &[3usize, 5, 6, 7, 100, 254, 255, 1000, 12345] {
        let g = batch_encryption::partial_fractions::get_extra_index(n);
        assert!(g.equals(&two));
        assert!(!g.pow(n as u64).equals(&Scalar::one()));
    }
}

#[test]
fn reverse_bits_moves_each_bit() {
    for &log_n in &[1u32, 3, 5, 10, 64] {
        for &x in &[0usize, 1, 2, 5, 0b1011_0110, usize::MAX, 0x1234_5678_9abc_def0] {
            let r = reverse_bits(x, log_n);
            if log_n < 64 {
                assert!(r < (1usize << log_n));
            }
            for b in 0..log_n as usize {
                assert_eq!((r >> b) & 1, (x >> (log_n as usize - 1 - b)) & 1);
            }
        }
    }
}
