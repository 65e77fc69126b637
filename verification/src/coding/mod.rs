//! Universal codes: self-delimiting bit patterns for positive integers.

pub mod round_trip;
pub mod traits;
pub mod unary;

pub use self::traits::{CodeError, Codes, UniversalCode};
pub use self::unary::Unary;
