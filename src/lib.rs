//! Bit-level field packing: fields of any width at any bit offset of a byte
//! buffer, byte-order normalisation of raw codes, and enum specifiers whose
//! codes are checked against their width when they are defined.

/// Reading and writing fields of a byte buffer.
pub mod bits;
/// Byte orders of raw codes.
pub mod order;
/// Enum specifiers: width resolution, validation, encoding and decoding.
pub mod specifier;
