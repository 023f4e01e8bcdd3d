//! Number theory over arbitrary-precision signed integers: Euclid's
//! algorithms, modular inverses and powers, the Chinese remainder theorem,
//! Euler's totient, continued fractions and integer roots.
pub mod coprime;
pub mod error;
pub mod fraction;
pub mod general;
pub mod roots;
pub mod vec;
pub mod zz;

pub use error::Error;
pub use fraction::continued_fraction;
pub use general::{egcd, gcd, mod_inv, mod_pow, pow, smod, crt, totient};
pub use vec::dot;
pub use zz::ZZ;
