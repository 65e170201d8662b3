//! Concrete value decoders.

pub mod borsh;
