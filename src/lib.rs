//! Arithmetic over finite fields of prime order, on 256-bit words.
//!
//! Every operation is proved free of overflow and returns the canonical
//! representative of its result. The laws of the field (round trips,
//! Fermat's little theorem) are stated and proved in `laws`.
pub mod decimal;
pub mod fermat;
pub mod field;
pub mod laws;
pub mod modular;
pub mod wide;
