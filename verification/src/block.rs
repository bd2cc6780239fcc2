use vstd::prelude::*;

verus! {

/// The metadata and payload a caller supplies when writing one block.
/// `block_size` is the authoritative byte count: payloads longer than
/// `block_size` are truncated to it on every write.
pub struct BlockInfo {
    /// 0-based position of the block within its file.
    pub block_id: u64,
    /// Authoritative byte count of the block.
    pub block_size: u64,
    /// The payload bytes; at most `block_size` of them are stored.
    pub block_data: Vec<u8>,
}

/// The payload that a write of `info` stores: the data, truncated to
/// `info.block_size` bytes when more were supplied.
pub open spec fn stored_bytes(info: BlockInfo) -> Seq<u8> {
    if info.block_data@.len() > info.block_size {
        info.block_data@.take(info.block_size as int)
    } else {
        info.block_data@
    }
}

/// One name-addressed block held by a DataNode.
pub struct Block {
    /// The globally unique (within one DataNode) block name.
    pub name: String,
    /// The stored payload.
    pub data: Vec<u8>,
}

impl Block {
    /// The bytes this block holds.
    pub open spec fn bytes(self) -> Seq<u8> {
        self.data@
    }

    pub fn new(name: String, data: Vec<u8>) -> (r: Block)
        ensures
            r.name@ == name@,
            r.bytes() == data@,
    {
        Block { name, data }
    }

    /// Returns a copy of the block's payload.
    pub fn read(&self) -> (r: Vec<u8>)
        ensures
            r@ == self.bytes(),
    {
        copy_bytes(&self.data, self.data.len())
    }

    /// Overwrites the payload with `block_info`'s data, truncated to its
    /// declared size.
    pub fn write(&mut self, block_info: BlockInfo)
        ensures
            final(self).name@ == old(self).name@,
            final(self).bytes() == stored_bytes(block_info),
    {
        self.data = truncate_to_size(&block_info);
    }
}

/// Copies out at most `info.block_size` bytes of `info.block_data`.
pub fn truncate_to_size(info: &BlockInfo) -> (r: Vec<u8>)
    ensures
        r@ == stored_bytes(*info),
{
    let limit: usize = if info.block_data.len() as u64 > info.block_size {
        info.block_size as usize
    } else {
        info.block_data.len()
    };
    let out = copy_bytes(&info.block_data, limit);
    proof {
        assert(out@ =~= stored_bytes(*info));
    }
    out
}

/// Copies the first `limit` bytes of `data` into a fresh vector.
pub fn copy_bytes(data: &Vec<u8>, limit: usize) -> (r: Vec<u8>)
    requires
        limit <= data@.len(),
    ensures
        r@ == data@.take(limit as int),
{
    let mut out: Vec<u8> = Vec::new();
    let mut i: usize = 0;
    while i < limit
        invariant
            limit <= data@.len(),
            i <= limit,
            out@ == data@.take(i as int),
        decreases limit - i,
    {
        out.push(data[i]);
        i = i + 1;
        proof {
            assert(out@ =~= data@.take(i as int));
        }
    }
    out
}

} // verus!
