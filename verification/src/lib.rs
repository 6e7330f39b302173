//! Symbolic polynomial arithmetic over `i64` coefficients, and reduction to
//! canonical representatives in a quotient ring defined by a modulus
//! polynomial.
//!
//! - `model` holds the mathematical model: polynomials as `Seq<int>`
//!   coefficient sequences, the spec-level sum, convolution product and
//!   normalization, and the lemmas relating them.
//! - `poly` holds the `Polynomial` value type with normalized storage,
//!   construction, degree, addition and multiplication.
//! - `ring` holds `QuotientRing`: a fixed non-zero modulus and reduction of
//!   arbitrary polynomials by polynomial long division, specified against
//!   `spec_reduce`, a spec-level long division over `int`.
//! - `text` holds the canonical string rendering.
//! - `laws` states and proves the ring laws the operations obey, and the
//!   uniqueness of the canonical representative.

pub mod laws;
pub mod model;
pub mod poly;
pub mod ring;
pub mod text;

pub use poly::Polynomial;
pub use ring::QuotientRing;
pub use ring::RingError;
