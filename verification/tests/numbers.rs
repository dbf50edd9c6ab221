use rustfft::array_utils::transpose;
use rustfft::algorithm::butterflies::verify_size;
use rustfft::common::{verify_length, verify_length_divisible};
use rustfft::math_utils::{modular_exponent, mul_mod, power, prime_factors, primitive_root};

#[test]
fn prime_factors_of_small_numbers() {
    assert_eq!(prime_factors(0), vec![]);
    assert_eq!(prime_factors(1), vec![]);
    assert_eq!(prime_factors(2), vec![(2, 1)]);
    assert_eq!(prime_factors(12), vec![(2, 2), (3, 1)]);
    assert_eq!(prime_factors(97), vec![(97, 1)]);
    assert_eq!(prime_factors(96), vec![(2, 5), (3, 1)]);
    assert_eq!(prime_factors(10201), vec![(101, 2)]);
    assert_eq!(
        prime_factors(2 * 3 * 5 * 7 * 11 * 13),
        vec![(2, 1), (3, 1), (5, 1), (7, 1), (11, 1), (13, 1)]
    );
}

fn is_prime(n: usize) -> bool {
    n >= 2 && (2..n).all(|d| n % d != 0)
}

#[test]
fn prime_factors_multiply_to_the_number() {
    for n in 2..2000usize {
        let factors = prime_factors(n);
        let mut product = 1usize;
        let mut previous = 0usize;
        for &(prime, count) in &factors {
            assert!(is_prime(prime), "{} is listed for {}", prime, n);
            assert!(count >= 1);
            assert!(prime > previous);
            previous = prime;
            product *= prime.pow(count as u32);
        }
        assert_eq!(product, n);
    }
}

#[test]
fn modular_arithmetic() {
    assert_eq!(mul_mod(7, 8, 10), 6);
    assert_eq!(mul_mod(usize::MAX, usize::MAX, usize::MAX - 1), 1);
    assert_eq!(modular_exponent(2, 10, 1000), 24);
    assert_eq!(modular_exponent(3, 0, 7), 1);
    assert_eq!(modular_exponent(3, 6, 7), 1);
    assert_eq!(modular_exponent(5, 3, 1), 0);
    assert_eq!(power(3, 4), 81);
    assert_eq!(power(2, 0), 1);
}

#[test]
fn least_primitive_roots() {
    assert_eq!(primitive_root(0), None);
    assert_eq!(primitive_root(1), None);
    assert_eq!(primitive_root(2), None);
    assert_eq!(primitive_root(3), Some(2));
    assert_eq!(primitive_root(5), Some(2));
    assert_eq!(primitive_root(7), Some(3));
    assert_eq!(primitive_root(23), Some(5));
    assert_eq!(primitive_root(101), Some(2));
    assert_eq!(primitive_root(191), Some(19));
}

#[test]
fn no_primitive_root_without_a_prime() {
    // 561 = 3 * 11 * 17 passes for Fermat's test with every base that is coprime to it
    for &n in &[4usize, 6, 8, 9, 15, 25, 100, 561] {
        assert_eq!(primitive_root(n), None, "{} is no prime", n);
    }
}

#[test]
fn primitive_root_generates_every_residue() {
    for &p in &[3usize, 5, 7, 11, 13, 101, 257] {
        let g = primitive_root(p).unwrap();
        let mut seen = vec![false; p];
        let mut x = 1usize;
        for _ in 0..p - 1 {
            x = mul_mod(x, g, p);
            assert!(!seen[x]);
            seen[x] = true;
        }
        assert_eq!(x, 1);
    }
}

#[test]
fn transpose_of_a_grid() {
    // two rows of three
    let input = [1, 2, 3, 4, 5, 6];
    let mut output = [0; 6];
    transpose(3, 2, &input, &mut output);
    assert_eq!(output, [1, 4, 2, 5, 3, 6]);
    let mut back = [0; 6];
    transpose(2, 3, &output, &mut back);
    assert_eq!(back, input);
}

#[test]
fn buffer_sizes() {
    assert!(verify_size(&[1, 2, 3], &[4, 5, 6], 3));
    assert!(!verify_size(&[1, 2, 3], &[4, 5], 3));
    assert!(!verify_size(&[1, 2], &[4, 5, 6], 3));
    assert!(verify_length(&[1, 2, 3], &[4, 5, 6], 3));
    assert!(!verify_length(&[1, 2, 3], &[4, 5], 3));
    assert!(verify_length_divisible(&[1, 2, 3, 4], &[5, 6, 7, 8], 2));
    assert!(!verify_length_divisible(&[1, 2, 3], &[5, 6, 7], 2));
    assert!(!verify_length_divisible(&[1, 2], &[5, 6, 7, 8], 2));
    assert!(!verify_length_divisible::<i32>(&[], &[], 2));
    assert!(!verify_length_divisible(&[1, 2], &[5, 6], 0));
}
