//! Reading every entry of a neutron table.
use vstd::prelude::*;
use crate::bytes::copy_range;
use crate::error::NeutronError;

verus! {

/// Reads every entry of a table. The bloom filter's length is read from a
/// window of the first nine bytes, which does not convert to the eight bytes
/// of an integer, so this gives an error. Requires at least nine bytes (the
/// window is taken without a bounds check).
pub fn run(bytes: &[u8]) -> (r: Result<Vec<(String, String)>, NeutronError>)
    requires
        bytes@.len() >= 9,
    ensures
        r == Err::<Vec<(String, String)>, NeutronError>(NeutronError::InvalidByteSize),
{
    let bloom_filter_length_buffer = copy_range(bytes, 0, 9);
    if bloom_filter_length_buffer.len() != 8 {
        return Err(NeutronError::InvalidByteSize);
    }
    Ok(Vec::new())
}

} // verus!
