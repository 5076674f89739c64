//! Core of a STARK proof system over a small prime field: a constraint
//! evaluation table with divisor-quotient accumulation, a FRI proof object
//! with a byte-exact serialization contract, and the verifier's
//! out-of-domain consistency check and DEEP composition.

pub mod codec;
pub mod divisor;
pub mod errors;
pub mod field;
pub mod polynom;
pub mod fri;
pub mod table;
pub mod verify;
