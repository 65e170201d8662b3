//! A placeholder decoder for a binary record format: no format is wired up
//! yet, so every value is reported as undecodable.

use vstd::prelude::*;
use vstd::string::StringExecFns;

use crate::column::Column;
use crate::rover::{DecodeError, ValueDecoder as RoverValueDecoder};

verus! {

/// A decoder stub: decoding always fails with a [`DecodeError`].
pub struct ValueDecoder {}

impl<V> RoverValueDecoder<V> for ValueDecoder {
    fn decode(&self, _value: V) -> Result<Vec<Column>, DecodeError> {
        Err(DecodeError { reason: String::from_str("decoding is not implemented") })
    }
}

} // verus!
