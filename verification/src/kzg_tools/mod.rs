pub mod barycentric;
pub mod barycentric_lemmas;
pub mod curve;
pub mod domain;
pub mod error;
pub mod evaluation;
pub mod fft;
pub mod field;
pub mod interpolation;
pub mod modular;
pub mod poly_lemmas;
pub mod poly_spec;
pub mod polynomial;
pub mod roots;
pub mod sums;
pub mod text;
pub mod trusted_setup;
pub mod unity;
