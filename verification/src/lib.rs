//! Shamir secret sharing over the field with 256 elements, with its
//! arithmetic, its split and its reconstruction verified.

pub mod field;
pub mod field_laws;
pub mod interpolation;
pub mod laws;
pub mod poly;
pub mod secrecy;
pub mod shamir;
