use vstd::prelude::*;

use std::collections::HashMap;

use crate::DfsError;

verus! {

broadcast use vstd::std_specs::hash::group_hash_axioms;

/// Records which DataNodes each block is placed on, keyed by block id.
pub struct BlockRecords {
    /// Mapping from block id to DataNode addresses.
    block_mappings: HashMap<u64, Vec<String>>,
}

impl BlockRecords {
    /// The records as a map from block id to the address list's contents.
    pub closed spec fn view(self) -> Map<u64, Seq<Seq<char>>> {
        Map::new(
            |k: u64| self.block_mappings@.contains_key(k),
            |k: u64| self.block_mappings@[k].deep_view(),
        )
    }

    pub fn new() -> (r: BlockRecords)
        ensures
            r.view() == Map::<u64, Seq<Seq<char>>>::empty(),
    {
        let records = BlockRecords { block_mappings: HashMap::new() };
        proof {
            assert(records.view() =~= Map::<u64, Seq<Seq<char>>>::empty());
        }
        records
    }

    /// Records the placement of a block, replacing any placement already held
    /// for that block id, and returns the recorded addresses.
    pub fn add_block_to_records(&mut self, block_id: u64, datanode_addrs: Vec<String>) -> (r:
        Result<Vec<String>, DfsError>)
        ensures
            r is Ok,
            r->Ok_0.deep_view() == datanode_addrs.deep_view(),
            final(self).view() == old(self).view().insert(block_id, datanode_addrs.deep_view()),
    {
        let stored = clone_addrs(&datanode_addrs);
        self.block_mappings.insert(block_id, stored);
        proof {
            assert(final(self).view() =~= old(self).view().insert(
                block_id,
                datanode_addrs.deep_view(),
            ));
        }
        Ok(datanode_addrs)
    }

    /// Removes a block from the records, returning the addresses it was
    /// placed on if it was held.
    pub fn remove_block_from_records(&mut self, block_id: &u64) -> (r: Option<Vec<String>>)
        ensures
            final(self).view() == old(self).view().remove(*block_id),
            match r {
                Some(addrs) => old(self).view().contains_key(*block_id) && addrs.deep_view() == old(
                    self,
                ).view()[*block_id],
                None => !old(self).view().contains_key(*block_id),
            },
    {
        let r = self.block_mappings.remove(block_id);
        proof {
            assert(final(self).view() =~= old(self).view().remove(*block_id));
        }
        r
    }

    /// Returns the addresses a block is placed on. Fails with `not-found`
    /// exactly when the block id is not recorded.
    pub fn get_block_datanodes(&self, block_id: &u64) -> (r: Result<Vec<String>, DfsError>)
        ensures
            match r {
                Ok(addrs) => self.view().contains_key(*block_id) && addrs.deep_view()
                    == self.view()[*block_id],
                Err(e) => e == DfsError::NotFound && !self.view().contains_key(*block_id),
            },
    {
        match self.block_mappings.get(block_id) {
            Some(addrs) => Ok(clone_addrs(addrs)),
            None => Err(DfsError::NotFound),
        }
    }
}

/// Returns a copy of an address list with the same contents.
pub fn clone_addrs(addrs: &Vec<String>) -> (r: Vec<String>)
    ensures
        r.deep_view() == addrs.deep_view(),
        r@.len() == addrs@.len(),
{
    let r = addrs.clone();
    proof {
        assert forall|i: int| 0 <= i < addrs@.len() implies r@[i] == addrs@[i] by {
            assert(vstd::pervasive::cloned::<String>(addrs@[i], r@[i]));
        }
        assert(r@ =~= addrs@);
        assert(r.deep_view() =~= addrs.deep_view());
    }
    r
}

} // verus!
