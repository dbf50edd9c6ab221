use rand::rngs::StdRng;
use rand::{Rng, SeedableRng};
use rustfft::algorithm::butterflies::{
    Butterfly2, Butterfly3, Butterfly4, Butterfly5, Butterfly6, Butterfly7,
};
use rustfft::algorithm::dft::DFT;
use rustfft::algorithm::good_thomas_algorithm::GoodThomasAlgorithm;
use rustfft::algorithm::mixed_radix::{MixedRadixSingle, MixedRadixTerminal};
use rustfft::algorithm::raders_algorithm::RadersAlgorithm;
use rustfft::algorithm::radix4::Radix4;
use rustfft::algorithm::FFTAlgorithm;
use rustfft::hardcoded_butterflies::{butterfly_2, butterfly_4};
use rustfft::plan::plan_fft;
use rustfft::{Complex, FFTnum, FFT};

/// Single precision, with the twiddles rounded from double precision.
#[derive(Clone, Copy, Debug, PartialEq)]
struct Real(f32);

impl FFTnum for Real {
    fn zero_spec() -> Self {
        unreachable!()
    }
    fn add_spec(self, _rhs: Self) -> Self {
        unreachable!()
    }
    fn sub_spec(self, _rhs: Self) -> Self {
        unreachable!()
    }
    fn mul_spec(self, _rhs: Self) -> Self {
        unreachable!()
    }
    fn neg_spec(self) -> Self {
        unreachable!()
    }
    fn unit_fraction_spec(_denominator: usize) -> Self {
        unreachable!()
    }
    fn root_of_unity_spec(_index: usize, _len: usize, _inverse: bool) -> (Self, Self) {
        unreachable!()
    }
    fn zero() -> Self {
        Real(0.0)
    }
    fn plus(self, rhs: Self) -> Self {
        Real(self.0 + rhs.0)
    }
    fn minus(self, rhs: Self) -> Self {
        Real(self.0 - rhs.0)
    }
    fn times(self, rhs: Self) -> Self {
        Real(self.0 * rhs.0)
    }
    fn negate(self) -> Self {
        Real(-self.0)
    }
    fn unit_fraction(denominator: usize) -> Self {
        Real((1f64 / denominator as f64) as f32)
    }
    fn root_of_unity(index: usize, len: usize, inverse: bool) -> (Self, Self) {
        let constant = if inverse { 2f64 } else { -2f64 } * std::f64::consts::PI / len as f64;
        let c = num::Complex::from_polar(1f64, constant * index as f64);
        (Real(c.re as f32), Real(c.im as f32))
    }
}

type Sample = Complex<Real>;

fn sample(re: f32, im: f32) -> Sample {
    Complex { re: Real(re), im: Real(im) }
}

fn zeros(len: usize) -> Vec<Sample> {
    vec![sample(0.0, 0.0); len]
}

fn random_signal(length: usize) -> Vec<Sample> {
    let mut rng = StdRng::seed_from_u64(0x5eed_0000 + length as u64);
    let mut signal = Vec::with_capacity(length);
    for _ in 0..length {
        signal.push(sample(rng.gen_range(-10.0f32..10.0), rng.gen_range(-10.0f32..10.0)));
    }
    signal
}

fn compare_vectors(vec1: &[Sample], vec2: &[Sample]) -> bool {
    assert_eq!(vec1.len(), vec2.len());
    let mut sse = 0f32;
    for (a, b) in vec1.iter().zip(vec2.iter()) {
        let re = a.re.0 - b.re.0;
        let im = a.im.0 - b.im.0;
        sse += (re * re + im * im).sqrt();
    }
    vec1.is_empty() || (sse / vec1.len() as f32) < 0.1f32
}

/// The transform by definition in single precision complex arithmetic.
fn dft(signal: &[Sample], spectrum: &mut [Sample], inverse: bool) {
    let sign = if inverse { 1f32 } else { -1f32 };
    for (k, spec_bin) in spectrum.iter_mut().enumerate() {
        let mut sum = num::Complex::new(0f32, 0f32);
        for (i, x) in signal.iter().enumerate() {
            let angle =
                sign * (i * k) as f32 * 2f32 * std::f32::consts::PI / signal.len() as f32;
            let twiddle = num::Complex::from_polar(1f32, angle);
            sum = sum + twiddle * num::Complex::new(x.re.0, x.im.0);
        }
        *spec_bin = sample(sum.re, sum.im);
    }
}

#[test]
fn test_butterfly2() {
    let n = 5;
    const SIZE: usize = 2;

    let butterfly2 = Butterfly2 {};
    let dft = DFT::new(SIZE, false);
    let dft_inverse = DFT::new(SIZE, true);

    let input_data = random_signal(n * SIZE);

    for (i, input) in input_data.chunks(SIZE).enumerate() {
        //compute expected values
        let mut expected_input = input.to_vec();
        let mut expected = [sample(0.0, 0.0); SIZE];
        dft.process(&mut expected_input, &mut expected);

        let mut expected_inverse_input = input.to_vec();
        let mut expected_inverse = [sample(0.0, 0.0); SIZE];
        dft_inverse.process(&mut expected_inverse_input, &mut expected_inverse);

        //test process method
        let mut process_input = input.to_vec();
        let mut actual = [sample(0.0, 0.0); SIZE];
        butterfly2.process(&mut process_input, &mut actual);

        assert!(compare_vectors(&actual, &expected), "forward, i = {}", i);
        assert!(compare_vectors(&actual, &expected_inverse), "inverse, i = {}", i);

        //test perform_fft method
        let mut inplace = input.to_vec();
        butterfly2.perform_fft(&mut inplace);

        assert!(compare_vectors(&expected, &inplace), "forward inplace, i = {}", i);
    }
}

#[test]
fn test_matches_dft() {
    for len in 1..50 {
        let mut input = random_signal(len);
        let mut expected = input.clone();
        dft(&input, &mut expected, false);

        let mut actual = input.clone();
        let dft_instance = DFT::new(len, false);
        dft_instance.process(&mut input, &mut actual);

        assert!(compare_vectors(&expected, &actual), "length = {}", len);
    }

    //verify that it doesn't crash if we have a length of 0
    let zero_dft = DFT::new(0, false);
    let mut zero_input: Vec<Sample> = Vec::new();
    let mut zero_output: Vec<Sample> = Vec::new();

    zero_dft.process(&mut zero_input, &mut zero_output);
}

/// Returns true if our `dft` function calculates the given spectrum from the
/// given signal, and if the DFT struct does the same
fn test_dft_correct(signal: &[Sample], spectrum: &[Sample]) -> bool {
    assert_eq!(signal.len(), spectrum.len());

    let expected_signal = signal.to_vec();
    let mut expected_spectrum = zeros(spectrum.len());

    let mut actual_signal = signal.to_vec();
    let mut actual_spectrum = zeros(spectrum.len());

    dft(&expected_signal, &mut expected_spectrum, false);

    let dft_instance = DFT::new(signal.len(), false);
    dft_instance.process(&mut actual_signal, &mut actual_spectrum);

    compare_vectors(spectrum, &expected_spectrum) && compare_vectors(spectrum, &actual_spectrum)
}

#[test]
fn test_dft_known_len_2() {
    let signal = [sample(1f32, 0f32), sample(-1f32, 0f32)];
    let spectrum = [sample(0f32, 0f32), sample(2f32, 0f32)];
    assert!(test_dft_correct(&signal[..], &spectrum[..]));
}

#[test]
fn test_dft_known_len_3() {
    let signal = [sample(1f32, 1f32), sample(2f32, -3f32), sample(-1f32, 4f32)];
    let spectrum = [
        sample(2f32, 2f32),
        sample(-5.562177f32, -2.098076f32),
        sample(6.562178f32, 3.09807f32),
    ];
    assert!(test_dft_correct(&signal[..], &spectrum[..]));
}

#[test]
fn test_dft_known_len_4() {
    let signal =
        [sample(0f32, 1f32), sample(2.5f32, -3f32), sample(-1f32, -1f32), sample(4f32, 0f32)];
    let spectrum = [
        sample(5.5f32, -3f32),
        sample(-2f32, 3.5f32),
        sample(-7.5f32, 3f32),
        sample(4f32, 0.5f32),
    ];
    assert!(test_dft_correct(&signal[..], &spectrum[..]));
}

#[test]
fn test_dft_known_len_6() {
    let signal = [
        sample(1f32, 1f32),
        sample(2f32, 2f32),
        sample(3f32, 3f32),
        sample(4f32, 4f32),
        sample(5f32, 5f32),
        sample(6f32, 6f32),
    ];
    let spectrum = [
        sample(21f32, 21f32),
        sample(-8.16f32, 2.16f32),
        sample(-4.76f32, -1.24f32),
        sample(-3f32, -3f32),
        sample(-1.24f32, -4.76f32),
        sample(2.16f32, -8.16f32),
    ];
    assert!(test_dft_correct(&signal[..], &spectrum[..]));
}

fn check_against_dft(algorithm: &FFTAlgorithm<Real>, len: usize, inverse: bool, what: &str) {
    let n = 3;
    let input_data = random_signal(n * len);
    for (i, input) in input_data.chunks(len).enumerate() {
        let mut expected = zeros(len);
        dft(input, &mut expected, inverse);
        let mut actual = zeros(len);
        algorithm.process(input, &mut actual);
        assert!(
            compare_vectors(&expected, &actual),
            "{}, length = {}, inverse = {}, i = {}",
            what,
            len,
            inverse,
            i
        );
    }
}

#[test]
fn test_butterfly3() {
    for &inverse in &[false, true] {
        check_against_dft(&FFTAlgorithm::Butterfly3(Butterfly3::new(inverse)), 3, inverse, "b3");
    }
}

#[test]
fn test_butterfly4() {
    for &inverse in &[false, true] {
        check_against_dft(&FFTAlgorithm::Butterfly4(Butterfly4::new(inverse)), 4, inverse, "b4");
    }
}

#[test]
fn test_butterfly5() {
    for &inverse in &[false, true] {
        check_against_dft(&FFTAlgorithm::Butterfly5(Butterfly5::new(inverse)), 5, inverse, "b5");
    }
}

#[test]
fn test_butterfly6() {
    for &inverse in &[false, true] {
        check_against_dft(&FFTAlgorithm::Butterfly6(Butterfly6::new(inverse)), 6, inverse, "b6");
    }
}

#[test]
fn test_butterfly7() {
    for &inverse in &[false, true] {
        check_against_dft(&FFTAlgorithm::Butterfly7(Butterfly7::new(inverse)), 7, inverse, "b7");
    }
}

#[test]
fn butterfly_inverse_of_is_the_other_direction() {
    let forward3 = Butterfly3::<Real>::new(false);
    check_against_dft(
        &FFTAlgorithm::Butterfly3(Butterfly3::inverse_of(&forward3)),
        3,
        true,
        "b3 inverse_of",
    );
    let forward6 = Butterfly6::<Real>::new(false);
    check_against_dft(
        &FFTAlgorithm::Butterfly6(Butterfly6::inverse_of(&forward6)),
        6,
        true,
        "b6 inverse_of",
    );
}

#[test]
fn radix4_matches_dft() {
    for &len in &[1usize, 2, 4, 8, 16, 32, 64, 128] {
        for &inverse in &[false, true] {
            let fft = FFTAlgorithm::Radix4(Radix4::new(len, inverse));
            check_against_dft(&fft, len, inverse, "radix4");
        }
    }
}

#[test]
fn mixed_radix_single_matches_dft() {
    for &(width, height) in &[(2usize, 3usize), (3, 2), (4, 5), (7, 8), (5, 5), (1, 6), (6, 1)] {
        for &inverse in &[false, true] {
            let width_fft = Box::new(FFTAlgorithm::DFT(DFT::new(width, inverse)));
            let height_fft = Box::new(FFTAlgorithm::DFT(DFT::new(height, inverse)));
            let fft = MixedRadixSingle::new(width, width_fft, height, height_fft, inverse);
            check_against_dft(
                &FFTAlgorithm::MixedRadixSingle(fft),
                width * height,
                inverse,
                "mixed radix",
            );
        }
    }
}

#[test]
fn good_thomas_matches_dft_for_coprime_lengths() {
    for &(n1, n2) in &[(3usize, 4usize), (4, 3), (5, 7), (2, 9), (9, 2), (1, 5), (8, 1)] {
        for &inverse in &[false, true] {
            let n1_fft = Box::new(FFTAlgorithm::DFT(DFT::new(n1, inverse)));
            let n2_fft = Box::new(FFTAlgorithm::DFT(DFT::new(n2, inverse)));
            let fft = GoodThomasAlgorithm::new(n1, n1_fft, n2, n2_fft);
            assert_eq!(fft.len(), n1 * n2);
            check_against_dft(&FFTAlgorithm::GoodThomas(fft), n1 * n2, inverse, "good thomas");
        }
    }
}

#[test]
fn good_thomas_index_maps() {
    let n1_fft = Box::new(FFTAlgorithm::<Real>::DFT(DFT::new(2, false)));
    let n2_fft = Box::new(FFTAlgorithm::<Real>::DFT(DFT::new(3, false)));
    let fft = GoodThomasAlgorithm::new(2, n1_fft, 3, n2_fft);
    // row b, column a comes from (3a + 2b) mod 6
    assert_eq!(fft.input_map, vec![0, 3, 2, 5, 4, 1]);
    // output k comes from row k mod 2, column k mod 3
    assert_eq!(fft.output_map, vec![0, 4, 2, 3, 1, 5]);
}

#[test]
fn mixed_radix_terminal_matches_dft() {
    let cases: Vec<(usize, Vec<(usize, usize)>)> = vec![
        (3, vec![(3, 1)]),
        (6, vec![(2, 1), (3, 1)]),
        (8, vec![(2, 3)]),
        (12, vec![(2, 2), (3, 1)]),
        (45, vec![(3, 2), (5, 1)]),
        (77, vec![(7, 1), (11, 1)]),
        (210, vec![(2, 1), (3, 1), (5, 1), (7, 1)]),
    ];
    for (len, factors) in cases {
        for &inverse in &[false, true] {
            let fft = MixedRadixTerminal::new(len, &factors, inverse);
            assert_eq!(fft.len(), len);
            check_against_dft(&FFTAlgorithm::MixedRadixTerminal(fft), len, inverse, "terminal");
        }
    }
}

#[test]
fn raders_algorithm_matches_dft() {
    for &len in &[3usize, 5, 7, 11, 13, 17, 101] {
        for &inverse in &[false, true] {
            let inner_fft = Box::new(FFTAlgorithm::DFT(DFT::new(len - 1, inverse)));
            let fft = RadersAlgorithm::new(len, inner_fft, inverse).unwrap();
            check_against_dft(&FFTAlgorithm::Raders(fft), len, inverse, "raders");
        }
    }
}

#[test]
fn raders_algorithm_wants_a_primitive_root() {
    let inner_fft = Box::new(FFTAlgorithm::<Real>::DFT(DFT::new(1, false)));
    assert!(RadersAlgorithm::new(2, inner_fft, false).is_none());
    let inner_fft = Box::new(FFTAlgorithm::<Real>::DFT(DFT::new(8, false)));
    assert!(RadersAlgorithm::new(9, inner_fft, false).is_none());
}

#[test]
fn planned_matches_dft_up_to_100() {
    for len in 1..100 {
        for &inverse in &[false, true] {
            let fft = plan_fft::<Real>(len, inverse);
            assert_eq!(fft.len(), len);
            check_against_dft(&fft, len, inverse, "planned");
        }
    }
}

#[test]
fn planned_matches_dft_on_every_branch() {
    // 96 and 192: a large power of 2 beside other factors; 101, 103, 127: large primes;
    // 202, 303: a large prime beside small ones; 256: a power of two
    for &len in &[96usize, 192, 101, 103, 127, 202, 303, 256, 480] {
        for &inverse in &[false, true] {
            let fft = plan_fft::<Real>(len, inverse);
            assert_eq!(fft.len(), len);
            check_against_dft(&fft, len, inverse, "planned");
        }
    }
}

#[test]
fn planner_picks_the_algorithm_by_the_factors() {
    assert!(matches!(*plan_fft::<Real>(0, false), FFTAlgorithm::Noop(_)));
    assert!(matches!(*plan_fft::<Real>(1, false), FFTAlgorithm::Noop(_)));
    assert!(matches!(*plan_fft::<Real>(2, false), FFTAlgorithm::Radix4(_)));
    assert!(matches!(*plan_fft::<Real>(64, false), FFTAlgorithm::Radix4(_)));
    assert!(matches!(*plan_fft::<Real>(3, false), FFTAlgorithm::MixedRadixTerminal(_)));
    assert!(matches!(*plan_fft::<Real>(48, false), FFTAlgorithm::MixedRadixTerminal(_)));
    assert!(matches!(*plan_fft::<Real>(97, false), FFTAlgorithm::MixedRadixTerminal(_)));
    assert!(matches!(*plan_fft::<Real>(101, false), FFTAlgorithm::Raders(_)));
    // 96 = 2^5 * 3: radix 4 for 32 beside the plan for 3
    match *plan_fft::<Real>(96, false) {
        FFTAlgorithm::MixedRadixSingle(ref a) => {
            assert_eq!(a.width, 32);
            assert_eq!(a.height, 3);
            assert!(matches!(*a.width_size_fft, FFTAlgorithm::Radix4(_)));
            assert!(matches!(*a.height_size_fft, FFTAlgorithm::MixedRadixTerminal(_)));
        }
        _ => panic!("96 is planned as a combination"),
    }
    // 202 = 2 * 101: the plan for 101 beside the plan for 2
    match *plan_fft::<Real>(202, false) {
        FFTAlgorithm::MixedRadixSingle(ref a) => {
            assert_eq!(a.width, 101);
            assert_eq!(a.height, 2);
            assert!(matches!(*a.width_size_fft, FFTAlgorithm::Raders(_)));
            assert!(matches!(*a.height_size_fft, FFTAlgorithm::MixedRadixTerminal(_)));
        }
        _ => panic!("202 is planned as a combination"),
    }
    // 101^2: two halves of one large prime each
    match *plan_fft::<Real>(10201, false) {
        FFTAlgorithm::MixedRadixSingle(ref a) => {
            assert_eq!(a.width, 101);
            assert_eq!(a.height, 101);
            assert!(matches!(*a.width_size_fft, FFTAlgorithm::Raders(_)));
            assert!(matches!(*a.height_size_fft, FFTAlgorithm::Raders(_)));
        }
        _ => panic!("10201 is planned as a combination"),
    }
}

#[test]
fn forward_then_inverse_scales_by_the_length() {
    for &len in &[1usize, 2, 3, 4, 5, 6, 7, 8, 12, 30, 49, 64, 96, 101, 202] {
        let signal = random_signal(len);
        let mut forward = FFT::<Real>::new(len, false);
        let mut inverse = FFT::<Real>::new(len, true);
        let mut spectrum = zeros(len);
        forward.process(&signal, &mut spectrum);
        let mut back = zeros(len);
        inverse.process(&spectrum, &mut back);
        let scaled: Vec<Sample> =
            back.iter().map(|c| sample(c.re.0 / len as f32, c.im.0 / len as f32)).collect();
        assert!(compare_vectors(&signal, &scaled), "length = {}", len);
    }
}

#[test]
fn known_vectors_through_the_facade() {
    let mut fft2 = FFT::<Real>::new(2, false);
    let mut out2 = zeros(2);
    fft2.process(&[sample(1.0, 0.0), sample(-1.0, 0.0)], &mut out2);
    assert_eq!(out2, vec![sample(0.0, 0.0), sample(2.0, 0.0)]);

    let mut fft4 = FFT::<Real>::new(4, false);
    let mut out4 = zeros(4);
    fft4.process(
        &[sample(0.0, 1.0), sample(2.5, -3.0), sample(-1.0, -1.0), sample(4.0, 0.0)],
        &mut out4,
    );
    assert!(compare_vectors(
        &out4,
        &[sample(5.5, -3.0), sample(-2.0, 3.5), sample(-7.5, 3.0), sample(4.0, 0.5)]
    ));

    let mut fft3 = FFT::<Real>::new(3, false);
    let mut out3 = zeros(3);
    fft3.process(&[sample(1.0, 1.0), sample(2.0, -3.0), sample(-1.0, 4.0)], &mut out3);
    let expected3 =
        [sample(2.0, 2.0), sample(-5.562177, -2.098076), sample(6.562178, 3.09807)];
    for (a, b) in out3.iter().zip(expected3.iter()) {
        assert!((a.re.0 - b.re.0).abs() < 1e-4 && (a.im.0 - b.im.0).abs() < 1e-4);
    }
}

#[test]
fn butterfly4_known_vector_is_exact() {
    let mut buffer =
        [sample(0.0, 1.0), sample(2.5, -3.0), sample(-1.0, -1.0), sample(4.0, 0.0)];
    Butterfly4::new(false).perform_fft(&mut buffer);
    assert_eq!(
        buffer,
        [sample(5.5, -3.0), sample(-2.0, 3.5), sample(-7.5, 3.0), sample(4.0, 0.5)]
    );
    // the inverse direction turns the other way
    let mut buffer =
        [sample(0.0, 1.0), sample(2.5, -3.0), sample(-1.0, -1.0), sample(4.0, 0.0)];
    Butterfly4::new(true).perform_fft(&mut buffer);
    assert_eq!(
        buffer,
        [sample(5.5, -3.0), sample(4.0, 0.5), sample(-7.5, 3.0), sample(-2.0, 3.5)]
    );
}

#[test]
fn process_multi_is_process_on_every_lane() {
    for &len in &[2usize, 3, 4, 5, 6, 7, 8, 12, 35, 101] {
        let lanes = 4;
        let fft = plan_fft::<Real>(len, false);
        let input = random_signal(lanes * len);
        let mut together = zeros(lanes * len);
        fft.process_multi(&input, &mut together);
        for (i, lane) in input.chunks(len).enumerate() {
            let mut alone = zeros(len);
            fft.process(lane, &mut alone);
            assert_eq!(&together[i * len..(i + 1) * len], &alone[..], "length = {}", len);
        }
    }
}

#[test]
fn butterfly_process_multi_is_process_on_every_lane() {
    let input = random_signal(3 * 7);
    let butterfly = Butterfly7::<Real>::new(false);
    let mut together = zeros(input.len());
    butterfly.process_multi(&input, &mut together);
    let mut inplace = input.clone();
    butterfly.process_multi_inplace(&mut inplace);
    assert_eq!(together, inplace);
    for (i, lane) in input.chunks(7).enumerate() {
        let mut alone = zeros(7);
        butterfly.process(lane, &mut alone);
        assert_eq!(&together[i * 7..(i + 1) * 7], &alone[..]);
    }
    let dft = DFT::<Real>::new(7, false);
    let mut by_definition = zeros(input.len());
    dft.process_multi(&input, &mut by_definition);
    assert!(compare_vectors(&together, &by_definition));
}

#[test]
fn planned_kernel_lengths_agree_with_the_butterflies() {
    for &inverse in &[false, true] {
        let kernels: Vec<(usize, FFTAlgorithm<Real>)> = vec![
            (2, FFTAlgorithm::Butterfly2(Butterfly2)),
            (3, FFTAlgorithm::Butterfly3(Butterfly3::new(inverse))),
            (4, FFTAlgorithm::Butterfly4(Butterfly4::new(inverse))),
            (5, FFTAlgorithm::Butterfly5(Butterfly5::new(inverse))),
            (6, FFTAlgorithm::Butterfly6(Butterfly6::new(inverse))),
            (7, FFTAlgorithm::Butterfly7(Butterfly7::new(inverse))),
        ];
        for (len, kernel) in kernels {
            let planned = plan_fft::<Real>(len, inverse);
            let input = random_signal(len);
            let mut by_plan = zeros(len);
            planned.process(&input, &mut by_plan);
            let mut by_kernel = zeros(len);
            kernel.process(&input, &mut by_kernel);
            assert!(compare_vectors(&by_plan, &by_kernel), "length = {}", len);
        }
    }
}

#[test]
fn lengths_zero_and_one_are_the_identity() {
    let mut empty = FFT::<Real>::new(0, false);
    let mut nothing: Vec<Sample> = Vec::new();
    empty.process(&[], &mut nothing);
    assert!(nothing.is_empty());

    for &inverse in &[false, true] {
        let mut one = FFT::<Real>::new(1, inverse);
        let mut out = zeros(1);
        one.process(&[sample(3.5, -1.25)], &mut out);
        assert_eq!(out, vec![sample(3.5, -1.25)]);
    }
}

#[test]
fn free_dft_matches_the_table_driven_one() {
    for &len in &[1usize, 2, 5, 16, 31] {
        let signal = random_signal(len);
        let mut direct = zeros(len);
        rustfft::dft(&signal, &mut direct);
        let mut expected = zeros(len);
        dft(&signal, &mut expected, false);
        assert!(compare_vectors(&direct, &expected), "length = {}", len);
    }
}

#[test]
fn hardcoded_butterflies_are_one_step_of_the_transform() {
    let one = sample(1.0, 0.0);

    // with twiddles 1 a column is the transform of its elements
    let mut data = [sample(1.0, 2.0), sample(3.0, -1.0)];
    butterfly_2(&mut data, 1, &[one], 1);
    assert_eq!(data, [sample(4.0, 1.0), sample(-2.0, 3.0)]);

    let mut data = [sample(0.0, 1.0), sample(2.5, -3.0), sample(-1.0, -1.0), sample(4.0, 0.0)];
    butterfly_4(&mut data, 1, &[one], 1);
    assert_eq!(
        data,
        [sample(5.5, -3.0), sample(-2.0, 3.5), sample(-7.5, 3.0), sample(4.0, 0.5)]
    );

    // two columns with the twiddles 1 and -i make the transform of length 4 out of two of
    // length 2; what lies behind the blocks stays
    let minus_i = sample(0.0, -1.0);
    let x = [sample(1.0, 0.0), sample(2.0, 0.0), sample(3.0, 0.0), sample(4.0, 0.0)];
    // the transforms of length 2 of the even and of the odd elements
    let mut data = [
        sample(4.0, 0.0),
        sample(-2.0, 0.0),
        sample(6.0, 0.0),
        sample(-2.0, 0.0),
        sample(9.0, 9.0),
    ];
    butterfly_2(&mut data, 1, &[one, minus_i], 2);
    let mut expected = zeros(4);
    dft(&x, &mut expected, false);
    assert!(compare_vectors(&data[..4], &expected));
    assert_eq!(data[4], sample(9.0, 9.0));
}

#[test]
fn complex_arithmetic_is_exact_on_small_integers() {
    let a = sample(1.0, 2.0);
    let b = sample(3.0, -4.0);
    assert_eq!(a.plus(b), sample(4.0, -2.0));
    assert_eq!(a.minus(b), sample(-2.0, 6.0));
    // (1 + 2i)(3 - 4i) = 3 - 4i + 6i + 8 = 11 + 2i
    assert_eq!(a.times(b), sample(11.0, 2.0));
    assert_eq!(a.scale(Real(3.0)), sample(3.0, 6.0));
    assert_eq!(a.conj(), sample(1.0, -2.0));
    // times -i and times i
    assert_eq!(a.rotate(false), sample(2.0, -1.0));
    assert_eq!(a.rotate(true), sample(-2.0, 1.0));
    assert_eq!(Complex::<Real>::zero(), sample(0.0, 0.0));
    assert_eq!(Complex::new(Real(1.0), Real(2.0)), a);
}

#[test]
fn butterfly3_formula_with_a_given_twiddle() {
    // b = [x1 + x2, x1 - x2] = [1 + i, 3 - 7i]; c1 = 2 b0 + x0 = 3 + 3i;
    // c2 = b1 * 3i = 21 + 9i
    let butterfly = Butterfly3 { twiddle: sample(2.0, 3.0) };
    let mut buffer = [sample(1.0, 1.0), sample(2.0, -3.0), sample(-1.0, 4.0)];
    butterfly.perform_fft(&mut buffer);
    assert_eq!(buffer, [sample(2.0, 2.0), sample(24.0, 12.0), sample(-18.0, -6.0)]);
}

#[test]
fn dft_formula_with_a_given_table() {
    let dft = DFT { twiddles: vec![sample(1.0, 0.0), sample(0.0, 1.0), sample(2.0, 0.0)] };
    let input = [sample(1.0, 0.0), sample(2.0, 1.0), sample(0.0, -1.0)];
    let mut output = zeros(3);
    dft.process(&input, &mut output);
    // bin 0: t0 x0 + t0 x1 + t0 x2; bin 1: t0 x0 + t1 x1 + t2 x2; bin 2: t0 x0 + t2 x1 + t1 x2
    assert_eq!(output, vec![sample(3.0, 0.0), sample(0.0, 0.0), sample(6.0, 2.0)]);
}

#[test]
fn twiddle_tables() {
    let table = rustfft::twiddles::generate_twiddle_factors::<Real>(4, false);
    assert_eq!(table.len(), 4);
    let expected = [sample(1.0, 0.0), sample(0.0, -1.0), sample(-1.0, 0.0), sample(0.0, 1.0)];
    assert!(compare_vectors(&table, &expected));
    let inverse = rustfft::twiddles::generate_twiddle_factors::<Real>(4, true);
    let expected = [sample(1.0, 0.0), sample(0.0, 1.0), sample(-1.0, 0.0), sample(0.0, -1.0)];
    assert!(compare_vectors(&inverse, &expected));
    assert!(rustfft::twiddles::generate_twiddle_factors::<Real>(0, false).is_empty());
    for k in 0..4 {
        assert_eq!(rustfft::twiddles::single_twiddle::<Real>(k, 4, false), table[k]);
    }
}

#[test]
fn radix4_formula_on_four_elements() {
    // with every twiddle 1 the radix-4 step is the transform of length 4
    let one = sample(1.0, 0.0);
    let radix4 = Radix4 { twiddles: vec![one; 4], inverse: false };
    let input = [sample(0.0, 1.0), sample(2.5, -3.0), sample(-1.0, -1.0), sample(4.0, 0.0)];
    let mut output = zeros(4);
    radix4.process(&input, &mut output);
    assert_eq!(
        output,
        vec![sample(5.5, -3.0), sample(-2.0, 3.5), sample(-7.5, 3.0), sample(4.0, 0.5)]
    );
}

#[test]
fn mixed_radix_terminal_chains_the_kernels() {
    // 360 = 2^3 * 3^2 * 5: kernels 4, 2, 3, 3, 5
    let fft = MixedRadixTerminal::<Real>::new(360, &[(2, 3), (3, 2), (5, 1)], false);
    let mut widths = Vec::new();
    let mut stage: &FFTAlgorithm<Real> = &fft.stages;
    while let FFTAlgorithm::MixedRadixSingle(a) = stage {
        widths.push(a.width);
        stage = &a.height_size_fft;
    }
    widths.push(stage.len());
    assert_eq!(widths, vec![4, 2, 3, 3, 5]);
    assert!(matches!(stage, FFTAlgorithm::Butterfly5(_)));
    assert_eq!(rustfft::algorithm::mixed_radix::expand_factors(&[(2, 4), (11, 1)]), vec![4, 4, 11]);
}

#[test]
fn power_of_two_lengths() {
    for n in 0..70usize {
        assert_eq!(rustfft::algorithm::radix4::is_power_of_two(n), n.is_power_of_two());
    }
    assert!(!rustfft::algorithm::radix4::is_power_of_two(usize::MAX));
}

#[test]
fn butterfly5_is_its_formula() {
    for &inverse in &[false, true] {
        let butterfly = Butterfly5::<Real>::new(inverse);
        let x = random_signal(5);

        // the convolution of [x1, x2, x4, x3] with the table, by two transforms of length 4
        let mut s = [x[1], x[2], x[4], x[3]];
        Butterfly4::new(inverse).perform_fft(&mut s);
        for i in 0..4 {
            s[i] = s[i].times(butterfly.inner_fft_multiply[i]);
        }
        Butterfly4::new(!inverse).perform_fft(&mut s);
        let sum = x[0].plus(x[1]).plus(x[2]).plus(x[3]).plus(x[4]);
        let expected =
            [sum, s[0].plus(x[0]), s[3].plus(x[0]), s[1].plus(x[0]), s[2].plus(x[0])];

        let mut buffer = x.clone();
        butterfly.perform_fft(&mut buffer);
        assert_eq!(&buffer[..], &expected[..]);
    }
}

#[test]
fn butterfly6_is_its_formula() {
    let butterfly = Butterfly6::<Real>::new(false);
    let x = random_signal(6);

    let mut a = [x[0], x[2], x[4]];
    let mut b = [x[3], x[5], x[1]];
    butterfly.butterfly3.perform_fft(&mut a);
    butterfly.butterfly3.perform_fft(&mut b);
    let expected = [
        a[0].plus(b[0]),
        a[1].minus(b[1]),
        a[2].plus(b[2]),
        a[0].minus(b[0]),
        a[1].plus(b[1]),
        a[2].minus(b[2]),
    ];

    let mut buffer = x.clone();
    butterfly.perform_fft(&mut buffer);
    assert_eq!(&buffer[..], &expected[..]);
}

#[test]
fn butterfly7_is_its_formula() {
    for &inverse in &[false, true] {
        let butterfly = Butterfly7::<Real>::new(inverse);
        let x = random_signal(7);

        let mut s = [x[3], x[2], x[6], x[4], x[5], x[1]];
        Butterfly6::new(inverse).perform_fft(&mut s);
        for i in 0..6 {
            s[i] = s[i].times(butterfly.inner_fft_multiply[i]);
        }
        Butterfly6::inverse_of(&Butterfly6::new(inverse)).perform_fft(&mut s);
        let sum = x[0].plus(x[1]).plus(x[2]).plus(x[3]).plus(x[4]).plus(x[5]).plus(x[6]);
        let expected = [
            sum,
            s[5].plus(x[0]),
            s[3].plus(x[0]),
            s[4].plus(x[0]),
            s[1].plus(x[0]),
            s[0].plus(x[0]),
            s[2].plus(x[0]),
        ];

        let mut buffer = x.clone();
        butterfly.perform_fft(&mut buffer);
        assert_eq!(&buffer[..], &expected[..]);
    }
}

#[test]
fn mixed_radix_single_is_the_six_steps() {
    let (width, height) = (3usize, 4usize);
    let len = width * height;
    let fft = MixedRadixSingle::new(
        width,
        Box::new(FFTAlgorithm::<Real>::DFT(DFT::new(width, false))),
        height,
        Box::new(FFTAlgorithm::DFT(DFT::new(height, false))),
        false,
    );
    // twiddle x * height + y is the root of unity of exponent x * y
    for x in 0..width {
        for y in 0..height {
            assert_eq!(
                fft.twiddles[x * height + y],
                rustfft::twiddles::single_twiddle::<Real>(x * y, len, false)
            );
        }
    }

    let input = random_signal(len);
    let mut a = zeros(len);
    let mut b = zeros(len);
    rustfft::array_utils::transpose(width, height, &input, &mut a);
    DFT::<Real>::new(height, false).process_multi(&a, &mut b);
    rustfft::algorithm::mixed_radix::multiply_by(&mut b, &fft.twiddles);
    rustfft::array_utils::transpose(height, width, &b, &mut a);
    DFT::<Real>::new(width, false).process_multi(&a, &mut b);
    rustfft::array_utils::transpose(width, height, &b, &mut a);

    let mut output = zeros(len);
    fft.process(&input, &mut output);
    assert_eq!(output, a);
}

#[test]
fn raders_algorithm_tables() {
    let inner_fft = Box::new(FFTAlgorithm::<Real>::DFT(DFT::new(6, false)));
    let fft = RadersAlgorithm::new(7, inner_fft, false).unwrap();
    assert_eq!(fft.len(), 7);
    assert_eq!(fft.primitive_root, 3);
    // 3 * 5 = 15 = 2 * 7 + 1
    assert_eq!(fft.primitive_root_inverse, 5);
    assert_eq!(fft.inner_fft_data.len(), 6);
}
