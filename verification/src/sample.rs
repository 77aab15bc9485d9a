use vstd::prelude::*;

verus! {

/// A quadrature sample: one two-component (real, imaginary) value, the unit
/// flowing along every wire of the graph.
///
/// The engine never computes with samples; it only moves them between
/// buffers, zeroes them, and extracts real components at the output stage.
/// Each component is therefore held as the raw 32-bit machine encoding of
/// the underlying number; the host converts to and from its native
/// floating-point representation at the boundary. The all-zero encoding is
/// the zero (silent) sample.
#[derive(Clone, Copy, PartialEq, Eq, Structural, Debug, Hash)]
pub struct Sample {
    /// Raw encoding of the real component.
    pub re: u32,
    /// Raw encoding of the imaginary component.
    pub im: u32,
}

impl Sample {
    /// The zero sample: both components hold the all-zero encoding.
    pub open spec fn spec_zero() -> Sample {
        Sample { re: 0, im: 0 }
    }

    /// Silence on a wire.
    pub fn zero() -> (s: Sample)
        ensures
            s == Sample::spec_zero(),
    {
        Sample { re: 0, im: 0 }
    }
}

/// `rows` blocks of `len` zero samples each: what a node's writable output
/// buffers hold before its `process` runs.
pub open spec fn spec_zero_blocks(rows: int, len: int) -> Seq<Seq<Sample>> {
    Seq::new(rows as nat, |r: int| Seq::new(len as nat, |j: int| Sample::spec_zero()))
}

/// A fresh block of `len` copies of `value`.
pub fn fill_block(len: usize, value: Sample) -> (b: Vec<Sample>)
    ensures
        b@.len() == len,
        forall|i: int| 0 <= i < len ==> b@[i] == value,
{
    let mut b: Vec<Sample> = Vec::new();
    let mut i: usize = 0;
    while i < len
        invariant
            i <= len,
            b@.len() == i,
            forall|j: int| 0 <= j < i ==> b@[j] == value,
        decreases len - i,
    {
        b.push(value);
        i += 1;
    }
    b
}

/// A fresh block of `len` zero samples: silence.
pub fn zero_block(len: usize) -> (b: Vec<Sample>)
    ensures
        b@.len() == len,
        forall|i: int| 0 <= i < len ==> b@[i] == Sample::spec_zero(),
{
    fill_block(len, Sample::zero())
}

/// An element-for-element copy of `src`.
pub fn copy_block(src: &Vec<Sample>) -> (b: Vec<Sample>)
    ensures
        b@ == src@,
{
    let mut b: Vec<Sample> = Vec::new();
    let mut i: usize = 0;
    while i < src.len()
        invariant
            i <= src@.len(),
            b@.len() == i,
            forall|j: int| 0 <= j < i ==> b@[j] == src@[j],
        decreases src@.len() - i,
    {
        b.push(src[i]);
        i += 1;
    }
    proof {
        assert(b@ =~= src@);
    }
    b
}

impl View for Sample {
    type V = Sample;

    open spec fn view(&self) -> Sample {
        *self
    }
}

impl DeepView for Sample {
    type V = Sample;

    open spec fn deep_view(&self) -> Sample {
        *self
    }
}

} // verus!
