pub mod butterflies;
pub mod dft;
pub mod good_thomas_algorithm;
pub mod mixed_radix;
pub mod raders_algorithm;
pub mod radix4;

use crate::algorithm::butterflies::{
    Butterfly2, Butterfly3, Butterfly4, Butterfly5, Butterfly6, Butterfly7,
};
use crate::algorithm::dft::DFT;
use crate::algorithm::good_thomas_algorithm::GoodThomasAlgorithm;
use crate::algorithm::mixed_radix::{MixedRadixSingle, MixedRadixTerminal};
use crate::algorithm::raders_algorithm::RadersAlgorithm;
use crate::algorithm::radix4::Radix4;
use crate::algorithm::raders_algorithm::{
    gathered_by_powers, lemma_scattered_len, raders_products,
};
use crate::array_utils::{
    chunk, chunk_mut, copy_into, lane, lemma_lane_bounds, lemma_lane_replaced,
    lemma_map_lanes_from_lanes, lemma_map_lanes_lane, map_lanes,
};
use crate::common::FFTnum;
use crate::complex::Complex;
use vstd::prelude::*;

verus! {

/// The transform of a length below 2: the identity.
pub struct NoopAlgorithm {
    pub len: usize,
}

impl NoopAlgorithm {
    /// `x` as it is.
    pub open spec fn transform<T: FFTnum>(&self, x: Seq<Complex<T>>) -> Seq<Complex<T>> {
        x
    }

    /// Copies `input` to `output`.
    pub fn process<T: FFTnum>(&self, input: &[Complex<T>], output: &mut [Complex<T>])
        requires
            old(output)@.len() == input@.len(),
        ensures
            final(output)@ == self.transform(input@),
    {
        copy_into(input, output);
    }

    pub fn len(&self) -> (n: usize)
        ensures
            n == self.len,
    {
        self.len
    }
}

/// A transform of one fixed length and direction, made once and used for any number of
/// calls. It is exactly one of the algorithms of this crate; the composed ones own their
/// parts.
pub enum FFTAlgorithm<T> {
    Noop(NoopAlgorithm),
    Butterfly2(Butterfly2),
    Butterfly3(Butterfly3<T>),
    Butterfly4(Butterfly4),
    Butterfly5(Butterfly5<T>),
    Butterfly6(Butterfly6<T>),
    Butterfly7(Butterfly7<T>),
    DFT(DFT<T>),
    Radix4(Radix4<T>),
    MixedRadixSingle(MixedRadixSingle<T>),
    MixedRadixTerminal(MixedRadixTerminal<T>),
    GoodThomas(GoodThomasAlgorithm<T>),
    Raders(RadersAlgorithm<T>),
}

impl<T: FFTnum> FFTAlgorithm<T> {
    /// The length of the buffers that the transform takes.
    pub open spec fn spec_len(&self) -> nat
        decreases self,
    {
        match self {
            FFTAlgorithm::Noop(a) => a.len as nat,
            FFTAlgorithm::Butterfly2(_) => 2,
            FFTAlgorithm::Butterfly3(_) => 3,
            FFTAlgorithm::Butterfly4(_) => 4,
            FFTAlgorithm::Butterfly5(_) => 5,
            FFTAlgorithm::Butterfly6(_) => 6,
            FFTAlgorithm::Butterfly7(_) => 7,
            FFTAlgorithm::DFT(a) => a.spec_len(),
            FFTAlgorithm::Radix4(a) => a.spec_len(),
            FFTAlgorithm::MixedRadixSingle(a) => a.spec_len(),
            FFTAlgorithm::MixedRadixTerminal(a) => a.spec_len(),
            FFTAlgorithm::GoodThomas(a) => a.spec_len(),
            FFTAlgorithm::Raders(a) => a.spec_len(),
        }
    }

    /// The tables and parts of the algorithm have the sizes that its length asks for.
    pub open spec fn wf(&self) -> bool
        decreases self,
    {
        match self {
            FFTAlgorithm::Radix4(a) => a.wf(),
            FFTAlgorithm::MixedRadixSingle(a) => a.wf(),
            FFTAlgorithm::MixedRadixTerminal(a) => a.wf(),
            FFTAlgorithm::GoodThomas(a) => a.wf(),
            FFTAlgorithm::Raders(a) => a.wf(),
            _ => true,
        }
    }

    /// What the algorithm makes of a buffer of its length.
    pub open spec fn transform(&self, x: Seq<Complex<T>>) -> Seq<Complex<T>>
        decreases self, 0nat,
    {
        match self {
            FFTAlgorithm::Noop(a) => a.transform(x),
            FFTAlgorithm::Butterfly2(a) => a.transform(x),
            FFTAlgorithm::Butterfly3(a) => a.transform(x),
            FFTAlgorithm::Butterfly4(a) => a.transform(x),
            FFTAlgorithm::Butterfly5(a) => a.transform(x),
            FFTAlgorithm::Butterfly6(a) => a.transform(x),
            FFTAlgorithm::Butterfly7(a) => a.transform(x),
            FFTAlgorithm::DFT(a) => a.transform(x),
            FFTAlgorithm::Radix4(a) => a.transform(x),
            FFTAlgorithm::MixedRadixSingle(a) => a.transform(x),
            FFTAlgorithm::MixedRadixTerminal(a) => a.transform(x),
            FFTAlgorithm::GoodThomas(a) => a.transform(x),
            FFTAlgorithm::Raders(a) => a.transform(x),
        }
    }

    /// What the algorithm makes of a buffer of concatenated lanes of its length: each lane is
    /// transformed on its own.
    pub open spec fn transform_lanes(&self, s: Seq<Complex<T>>) -> Seq<Complex<T>>
        decreases self, 1nat,
    {
        Seq::new(
            s.len(),
            |k: int|
                self.transform(lane(s, self.spec_len(), k / (self.spec_len() as int)))[k % (
                self.spec_len() as int)],
        )
    }

    pub fn len(&self) -> (n: usize)
        ensures
            n == self.spec_len(),
        decreases self,
    {
        match self {
            FFTAlgorithm::Noop(a) => a.len(),
            FFTAlgorithm::Butterfly2(a) => a.len(),
            FFTAlgorithm::Butterfly3(a) => a.len(),
            FFTAlgorithm::Butterfly4(a) => a.len(),
            FFTAlgorithm::Butterfly5(a) => a.len(),
            FFTAlgorithm::Butterfly6(a) => a.len(),
            FFTAlgorithm::Butterfly7(a) => a.len(),
            FFTAlgorithm::DFT(a) => a.len(),
            FFTAlgorithm::Radix4(a) => a.len(),
            FFTAlgorithm::MixedRadixSingle(a) => a.len(),
            FFTAlgorithm::MixedRadixTerminal(a) => a.len(),
            FFTAlgorithm::GoodThomas(a) => a.len(),
            FFTAlgorithm::Raders(a) => a.len(),
        }
    }

    /// Writes the transform of `input` to `output`.
    pub fn process(&self, input: &[Complex<T>], output: &mut [Complex<T>])
        requires
            self.wf(),
            input@.len() == self.spec_len(),
            old(output)@.len() == self.spec_len(),
        ensures
            final(output)@ == self.transform(input@),
            final(output)@.len() == self.spec_len(),
        decreases self, 0nat,
    {
        match self {
            FFTAlgorithm::Noop(a) => a.process(input, output),
            FFTAlgorithm::Butterfly2(a) => a.process(input, output),
            FFTAlgorithm::Butterfly3(a) => a.process(input, output),
            FFTAlgorithm::Butterfly4(a) => a.process(input, output),
            FFTAlgorithm::Butterfly5(a) => a.process(input, output),
            FFTAlgorithm::Butterfly6(a) => a.process(input, output),
            FFTAlgorithm::Butterfly7(a) => a.process(input, output),
            FFTAlgorithm::DFT(a) => a.process(input, output),
            FFTAlgorithm::Radix4(a) => a.process(input, output),
            FFTAlgorithm::MixedRadixSingle(a) => a.process(input, output),
            FFTAlgorithm::MixedRadixTerminal(a) => a.process(input, output),
            FFTAlgorithm::GoodThomas(a) => a.process(input, output),
            FFTAlgorithm::Raders(a) => a.process(input, output),
        }
    }

    /// Writes the transform of every lane of `input` to the same lane of `output`: the
    /// result is that of one call of `process` for each lane.
    pub fn process_multi(&self, input: &[Complex<T>], output: &mut [Complex<T>])
        requires
            self.wf(),
            self.spec_len() > 0,
            input@.len() % self.spec_len() == 0,
            old(output)@.len() == input@.len(),
        ensures
            final(output)@ == self.transform_lanes(input@),
            forall|m: int|
                0 <= m < input@.len() / self.spec_len() ==> #[trigger] lane(
                    final(output)@,
                    self.spec_len(),
                    m,
                ) == self.transform(lane(input@, self.spec_len(), m)),
        decreases self, 1nat,
    {
        let n = self.len();
        let total = input.len();
        let lanes = total / n;
        let mut m: usize = 0;
        while m < lanes
            invariant
                self.wf(),
                n == self.spec_len(),
                n > 0,
                total == input@.len(),
                output@.len() == total,
                total % n == 0,
                lanes == total / n,
                m <= lanes,
                forall|i: int|
                    0 <= i < m ==> #[trigger] lane(output@, n as nat, i) == self.transform(
                        lane(input@, n as nat, i),
                    ),
            decreases lanes - m,
        {
            proof {
                lemma_lane_bounds(total as nat, n as nat, m as int);
            }
            let ghost before = output@;
            let in_chunk = chunk(input, m * n, n);
            let out_chunk = chunk_mut(output, m * n, n);
            assert(in_chunk@ =~= lane(input@, n as nat, m as int));
            self.process(in_chunk, out_chunk);
            proof {
                lemma_lane_replaced(
                    before,
                    output@,
                    n as nat,
                    m as int,
                    self.transform(lane(input@, n as nat, m as int)),
                );
            }
            m += 1;
        }
        proof {
            let f = |l: Seq<Complex<T>>| self.transform(l);
            assert forall|i: int| 0 <= i < total / n implies #[trigger] lane(output@, n as nat, i)
                == f(lane(input@, n as nat, i)) by {}
            lemma_map_lanes_from_lanes(f, n as nat, input@, output@);
            assert(map_lanes(f, n as nat, input@) =~= self.transform_lanes(input@));
        }
    }
}

/// The transform of a buffer of the algorithm's length has that length.
pub proof fn lemma_transform_len<T: FFTnum>(algorithm: FFTAlgorithm<T>, x: Seq<Complex<T>>)
    requires
        algorithm.wf(),
        x.len() == algorithm.spec_len(),
    ensures
        algorithm.transform(x).len() == algorithm.spec_len(),
    decreases algorithm,
{
    match algorithm {
        FFTAlgorithm::MixedRadixTerminal(a) => {
            assert(a.wf());
            assert(algorithm.spec_len() == a.stages.spec_len());
            assert(algorithm.transform(x) == a.stages.transform(x));
            lemma_transform_len(*a.stages, x);
        },
        FFTAlgorithm::Raders(a) => {
            let inner = gathered_by_powers(x, a.primitive_root as nat, a.len as nat);
            let first = a.inner_fft.transform(inner);
            let second = a.inner_fft.transform(raders_products(first, a.inner_fft_data@, x[0]));
            lemma_scattered_len(
                x.update(0, x[0].add_spec(first[0])),
                second,
                a.primitive_root_inverse as nat,
                a.len as nat,
                (a.len - 1) as nat,
            );
        },
        FFTAlgorithm::MixedRadixSingle(a) => {
            assert(a.transform(x).len() == x.len());
        },
        FFTAlgorithm::GoodThomas(a) => {
            assert(a.wf());
            assert(a.transform(x).len() == a.output_map@.len());
        },
        _ => {},
    }
}

/// Transforming a buffer of lanes at once is transforming each lane on its own: lane `m` of
/// the result is the transform of lane `m`.
pub proof fn lemma_lanes_are_independent<T: FFTnum>(
    algorithm: FFTAlgorithm<T>,
    s: Seq<Complex<T>>,
    m: int,
)
    requires
        algorithm.wf(),
        algorithm.spec_len() > 0,
        s.len() % algorithm.spec_len() == 0,
        0 <= m < s.len() / algorithm.spec_len(),
    ensures
        lane(algorithm.transform_lanes(s), algorithm.spec_len(), m) == algorithm.transform(
            lane(s, algorithm.spec_len(), m),
        ),
{
    let n = algorithm.spec_len();
    let f = |l: Seq<Complex<T>>| algorithm.transform(l);
    lemma_lane_bounds(s.len(), n, m);
    lemma_transform_len(algorithm, lane(s, n, m));
    lemma_map_lanes_lane(f, n, s, m);
    assert(map_lanes(f, n, s) =~= algorithm.transform_lanes(s));
}

} // verus!
