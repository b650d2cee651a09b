//! Conversion of the receiver's raw interleaved I/Q bytes into complex samples.
use vstd::prelude::*;

verus! {

/// The full-scale denominator of a sample component: a component `c` stands
/// for the amplitude `c / 127`.
pub const FULL_SCALE: i16 = 127;

/// One complex baseband sample, each component in units of `1 / FULL_SCALE`.
#[derive(Clone, Copy, Debug, PartialEq, Eq)]
pub struct Sample {
    pub re: i16,
    pub im: i16,
}

/// The amplitude an unsigned 8-bit receiver reading stands for, in units of
/// `1 / FULL_SCALE`: readings are offset by 127, so `b / 127 - 1`.
pub open spec fn level(b: u8) -> int {
    b as int - 127
}

/// Removes the receiver's offset from one raw reading.
pub fn byte_level(b: u8) -> (out: i16)
    ensures
        out == level(b),
        out + 127 == b,
        -127 <= out <= 128,
{
    b as i16 - 127
}

/// Pairs up the interleaved in-phase and quadrature bytes of a receiver
/// buffer into samples: byte `2 i` is the real and byte `2 i + 1` the
/// imaginary part of sample `i`.
#[allow(non_snake_case)]
pub fn dataToSamples(data: Vec<u8>) -> (out: Vec<Sample>)
    requires
        data.len() % 2 == 0,
    ensures
        out.len() == data.len() / 2,
        forall|i: int| 0 <= i < out.len() ==> (#[trigger] out@[i]).re == level(data@[2 * i]) && out@[i].im == level(data@[2 * i + 1]),
        forall|i: int| 0 <= i < out.len() ==> (#[trigger] out@[i]).re + 127 == data@[2 * i] && out@[i].im + 127 == data@[2 * i + 1],
{
    let mut out: Vec<Sample> = Vec::new();
    let mut i: usize = 0;
    while i < data.len() / 2
        invariant
            data.len() % 2 == 0,
            i <= data.len() / 2,
            out.len() == i,
            forall|j: int| 0 <= j < i ==> (#[trigger] out@[j]).re == level(data@[2 * j]) && out@[j].im == level(data@[2 * j + 1]),
        decreases data.len() / 2 - i,
    {
        let s = Sample { re: byte_level(data[2 * i]), im: byte_level(data[2 * i + 1]) };
        out.push(s);
        i = i + 1;
    }
    out
}

} // verus!
