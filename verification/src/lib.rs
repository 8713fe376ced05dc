//! Four-limb (256-bit) modular and Montgomery arithmetic.
//!
//! A field element is four little-endian 64-bit limbs.  The operations are
//! the ones a field type gets from the code generator in `app/`: doubling,
//! addition, subtraction and negation modulo the field's modulus, and
//! Montgomery multiplication, squaring and reduction with the Montgomery
//! radix `R = 2^256`.  Each operation is built from limb additions,
//! subtractions and multiplications with explicit carries, selects results
//! through masks rather than branches, and is proved against a
//! mathematical model over `nat`.

pub mod limbs;
pub mod modular;
pub mod field_ops;
pub mod montgomery;
pub mod laws;
