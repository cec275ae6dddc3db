//! Arbitrary-precision decimal to binary conversion, on digit vectors.
pub mod parse;
pub mod decimal;
pub mod binary;
pub mod grouping;
pub mod dump;
pub mod pipeline;
