//! A small algebra stack for KZG polynomial commitments: modular field
//! arithmetic, dense polynomials, a short Weierstrass curve over a field and
//! its quadratic extension, a placeholder pairing, and the commitment
//! protocol on top of them.

pub mod curve_ext_laws;
pub mod curve_laws;
pub mod curve_math;
pub mod elliptic_curve;
pub mod error;
pub mod field;
pub mod gcd;
pub mod kzg;
pub mod modular;
pub mod poly_laws;
pub mod poly_math;
pub mod polynomial;
pub mod toy_pairing;
