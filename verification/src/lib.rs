//! The verified core of a minimal HDFS-style distributed file service: a
//! NameNode that assigns blocks to DataNodes deterministically and tracks
//! their liveness, the DataNode block store with name-addressed blocks and
//! size truncation, and the client driver's chunking of files into blocks.
//! The NameNode never carries payload bytes; clients take the routing map it
//! returns and move block bytes to and from DataNodes directly.

use vstd::prelude::*;

mod block;
mod block_records;
mod datanode;
mod driver;
mod names;
mod placement;
mod records;
mod storage;
mod table;

pub use block::Block;
pub use block::BlockInfo;
pub use names::block_name;
pub use storage::Storage;
pub use datanode::ReadBlockResponse;
pub use datanode::read_block;
pub use table::StrTable;
pub use block_records::BlockRecords;
pub use records::DataNodeInfo;
pub use records::NameNodeRecords;
pub use records::NodeStatus;
pub use records::SystemInfoResponse;
pub use driver::assemble_file;
pub use driver::build_block_requests;
pub use driver::slice_block;

verus! {

/// The failure kinds a file or block operation can report.
#[derive(Clone, Copy, Debug, PartialEq, Eq, Structural)]
pub enum DfsError {
    /// A required part of a request was missing.
    InvalidArgument,
    /// The NameNode has no registered DataNodes, so no placement can be assigned.
    NoCapacity,
    /// A block of the given name is already stored.
    AlreadyExists,
    /// The file path or block name is absent where existence is required.
    NotFound,
    /// A recorded placement entry was lost.
    Internal,
}

impl DfsError {
    /// The wire message for this failure kind.
    pub open spec fn message_spec(self) -> Seq<char> {
        match self {
            DfsError::InvalidArgument => "argument-invalid"@,
            DfsError::NoCapacity => "no-capacity"@,
            DfsError::AlreadyExists => "already-exists"@,
            DfsError::NotFound => "not-found"@,
            DfsError::Internal => "internal"@,
        }
    }

    /// Returns the message text for this failure kind.
    pub fn message(&self) -> (r: &'static str)
        ensures
            r@ == self.message_spec(),
    {
        match self {
            DfsError::InvalidArgument => "argument-invalid",
            DfsError::NoCapacity => "no-capacity",
            DfsError::AlreadyExists => "already-exists",
            DfsError::NotFound => "not-found",
            DfsError::Internal => "internal",
        }
    }
}

} // verus!
