pub mod arithmetic;
pub mod bn256;
pub mod bytes;
pub mod curve;
pub mod dft;
pub mod fft;
pub mod field;
pub mod helpers;
pub mod plonk;
pub mod poly;
pub mod rng;
pub mod transcript;

pub use helpers::SerdeFormat;
