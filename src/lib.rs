//! Time-lock proof-of-work challenges of the kCTF scheme: generation,
//! solving by sequential modular square roots, fast verification by squaring,
//! and the text encoding that carries challenges and solutions.

pub mod arith;
pub mod bignat;
pub mod codec;
pub mod pow;

pub use codec::{decode_solution, KctfErrors};
pub use pow::KctfPow;
