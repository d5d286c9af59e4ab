//! A quantum-register simulator: a register of 2^n complex amplitudes evolved
//! in place by 2x2 gate matrices, sequentially or across parallel workers,
//! and composed into the quantum Fourier transform.
//!
//! Amplitude components are exact fixed-point scalars (see `fixed`), so every
//! arithmetic step has a precise mathematical meaning that the contracts in
//! this crate state and prove.

pub mod circuit;
pub mod complex;
pub mod fixed;
pub mod matrix;
