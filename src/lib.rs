//! Parsing, validation, conversion and classification of 48-bit IEEE
//! extended identifiers (MAC addresses).
//!
//! [`utils`] holds the four accepted notations and their normalisation;
//! [`macaddress`] holds the address value, its conversions and its
//! classification predicates.

pub mod macaddress;
pub mod utils;
