//! An in-memory secondary-indexing engine for key/value stores.
//!
//! Raw `(key, value)` pairs are decoded into an ordered sequence of typed
//! columns by a pluggable [`rover::ValueDecoder`]; the [`rover::Rover`]
//! indexer then maintains, per column position, two synchronized index
//! structures: one for exact-match lookup by column value and one for
//! retrieving all keys in ascending column order.

pub mod column;
pub mod decoder;
pub mod rover;
