//! Planning for discrete Fourier transforms of arbitrary length: how a length
//! is split into mixed-radix stages, where each stage finds its twiddle
//! factors among the roots of unity, and when the chirp-convolution strategy
//! is the better choice.

pub mod algorithms;
pub mod factors;
pub mod math;
pub mod primes;
pub mod roots;
pub mod smooth;
