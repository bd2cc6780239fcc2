use vstd::prelude::*;

use crate::storage::Storage;
use crate::DfsError;

verus! {

/// The reply to a read-block request. `bytes_total` is reserved for streaming
/// and is zero whenever the whole block fits in one reply.
pub struct ReadBlockResponse {
    /// Number of payload bytes carried by this reply.
    pub bytes_read: u64,
    /// Reserved for streaming; zero when the whole block is in `block_data`.
    pub bytes_total: u64,
    /// The block's payload.
    pub block_data: Vec<u8>,
}

/// Services a read-block request against a DataNode's store. Fails with
/// `not-found` exactly when no block of that name is stored.
pub fn read_block(store: &Storage, name: &str) -> (r: Result<ReadBlockResponse, DfsError>)
    requires
        store.wf(),
    ensures
        match r {
            Ok(resp) => store.contents().contains_key(name@) && resp.block_data@
                == store.contents()[name@] && resp.bytes_read == resp.block_data@.len()
                && resp.bytes_total == 0,
            Err(e) => e == DfsError::NotFound && !store.contents().contains_key(name@),
        },
{
    let data = match store.read(name) {
        Ok(data) => data,
        Err(e) => {
            return Err(e);
        },
    };
    let bytes_read = data.len() as u64;
    Ok(ReadBlockResponse { bytes_read, bytes_total: 0, block_data: data })
}

} // verus!
