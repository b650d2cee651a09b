//! Signal-processing and packet-decoding logic for an RTL-SDR receiver:
//! run-length decoding of demodulated pulse trains, pulse and bit
//! classification, packet framing, conversion of raw I/Q bytes into
//! samples, and the index arithmetic that frames and thins sample buffers.

pub mod display;
pub mod dsputils;
pub mod rfinder;
pub mod rle;
pub mod samples;
