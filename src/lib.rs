//! The numeric and logical core of a torus-based homomorphic NAND evaluator:
//! 32-bit torus arithmetic and its signed gadget decomposition, polynomials of
//! the negacyclic ring Z[X]/(X^N + 1), binary samples, and a small boolean
//! expression language evaluated through a single NAND primitive.
pub mod word;
pub mod binary;
pub mod torus;
pub mod polynomial;
pub mod logic;
pub mod parse;
pub mod sampling;
