//! The `add_mod` / `mul_mod` builtin runner of a Cairo-style virtual machine:
//! the multi-word integer codec, the deduction of missing operands, the
//! memory fill over all instances and the security checks, together with the
//! modular arithmetic of the secp hints.

pub mod air_private_input;
pub mod bignum;
pub mod ec_utils;
pub mod errors;
pub mod memory;
pub mod model;
pub mod math_utils;
pub mod modulo;
