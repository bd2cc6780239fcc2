use vstd::prelude::*;

use crate::block::Block;
use crate::block::BlockInfo;
use crate::block::stored_bytes;
use crate::block::truncate_to_size;
use crate::names::str_eq;
use crate::DfsError;

verus! {

/// The abstract contents of a list of blocks: the finite map from block name
/// to payload. A later block of the same name overrides an earlier one; a
/// well-formed store never holds two blocks of one name.
pub open spec fn contents_of(blocks: Seq<Block>) -> Map<Seq<char>, Seq<u8>>
    decreases blocks.len(),
{
    if blocks.len() == 0 {
        Map::empty()
    } else {
        contents_of(blocks.drop_last()).insert(blocks.last().name@, blocks.last().bytes())
    }
}

/// A name is held by some block of the list.
pub open spec fn holds_name(blocks: Seq<Block>, name: Seq<char>) -> bool {
    exists|i: int| 0 <= i < blocks.len() && blocks[i].name@ == name
}

pub proof fn lemma_contents_dom(blocks: Seq<Block>, name: Seq<char>)
    ensures
        contents_of(blocks).contains_key(name) <==> holds_name(blocks, name),
    decreases blocks.len(),
{
    if blocks.len() > 0 {
        lemma_contents_dom(blocks.drop_last(), name);
        if blocks.last().name@ == name {
            assert(blocks[blocks.len() - 1].name@ == name);
        } else {
            if holds_name(blocks, name) {
                let i = choose|i: int| 0 <= i < blocks.len() && blocks[i].name@ == name;
                assert(blocks.drop_last()[i] == blocks[i]);
            }
            if holds_name(blocks.drop_last(), name) {
                let i = choose|i: int|
                    0 <= i < blocks.drop_last().len() && blocks.drop_last()[i].name@ == name;
                assert(blocks[i].name@ == name);
            }
        }
    }
}

pub proof fn lemma_contents_index(blocks: Seq<Block>, i: int)
    requires
        blocks.map_values(|b: Block| b.name@).no_duplicates(),
        0 <= i < blocks.len(),
    ensures
        contents_of(blocks).contains_key(blocks[i].name@),
        contents_of(blocks)[blocks[i].name@] == blocks[i].bytes(),
    decreases blocks.len(),
{
    let names = blocks.map_values(|b: Block| b.name@);
    if i == blocks.len() - 1 {
    } else {
        assert(blocks.drop_last().map_values(|b: Block| b.name@) =~= names.drop_last());
        lemma_contents_index(blocks.drop_last(), i);
        assert(names[i] != names[blocks.len() - 1]);
        assert(blocks.last().name@ != blocks[i].name@);
    }
}

pub proof fn lemma_contents_remove(blocks: Seq<Block>, i: int)
    requires
        blocks.map_values(|b: Block| b.name@).no_duplicates(),
        0 <= i < blocks.len(),
    ensures
        contents_of(blocks.remove(i)) == contents_of(blocks).remove(blocks[i].name@),
    decreases blocks.len(),
{
    let names = blocks.map_values(|b: Block| b.name@);
    if i == blocks.len() - 1 {
        assert(blocks.remove(i) =~= blocks.drop_last());
        lemma_contents_dom(blocks.drop_last(), blocks[i].name@);
        assert(!holds_name(blocks.drop_last(), blocks[i].name@)) by {
            if holds_name(blocks.drop_last(), blocks[i].name@) {
                let j = choose|j: int|
                    0 <= j < blocks.drop_last().len() && blocks.drop_last()[j].name@
                        == blocks[i].name@;
                assert(names[j] == names[i]);
            }
        }
        assert(contents_of(blocks.drop_last()) =~= contents_of(blocks).remove(blocks[i].name@));
    } else {
        assert(blocks.drop_last().map_values(|b: Block| b.name@) =~= names.drop_last());
        lemma_contents_remove(blocks.drop_last(), i);
        assert(blocks.remove(i).drop_last() =~= blocks.drop_last().remove(i));
        assert(blocks.remove(i).last() == blocks.last());
        assert(names[i] != names[blocks.len() - 1]);
        assert(contents_of(blocks.remove(i)) == contents_of(blocks.drop_last().remove(i)).insert(
            blocks.last().name@,
            blocks.last().bytes(),
        ));
        assert(contents_of(blocks).remove(blocks[i].name@) =~= contents_of(
            blocks.drop_last(),
        ).remove(blocks[i].name@).insert(blocks.last().name@, blocks.last().bytes()));
    }
}

pub proof fn lemma_contents_update(blocks: Seq<Block>, i: int, b: Block)
    requires
        blocks.map_values(|bl: Block| bl.name@).no_duplicates(),
        0 <= i < blocks.len(),
        b.name@ == blocks[i].name@,
    ensures
        contents_of(blocks.update(i, b)) == contents_of(blocks).insert(b.name@, b.bytes()),
    decreases blocks.len(),
{
    let names = blocks.map_values(|bl: Block| bl.name@);
    if i == blocks.len() - 1 {
        assert(blocks.update(i, b).drop_last() =~= blocks.drop_last());
        assert(blocks.update(i, b).last() == b);
    } else {
        assert(blocks.drop_last().map_values(|bl: Block| bl.name@) =~= names.drop_last());
        lemma_contents_update(blocks.drop_last(), i, b);
        assert(blocks.update(i, b).drop_last() =~= blocks.drop_last().update(i, b));
        assert(blocks.update(i, b).last() == blocks.last());
        assert(names[i] != names[blocks.len() - 1]);
        assert(contents_of(blocks.update(i, b)) == contents_of(blocks.drop_last()).insert(
            b.name@,
            b.bytes(),
        ).insert(blocks.last().name@, blocks.last().bytes()));
        assert(contents_of(blocks).insert(b.name@, b.bytes()) =~= contents_of(
            blocks.drop_last(),
        ).insert(b.name@, b.bytes()).insert(blocks.last().name@, blocks.last().bytes()));
    }
}

/// Block storage for a DataNode: name-addressed blocks with exclusive names.
pub struct Storage {
    /// Blocks stored in the DataNode.
    pub blocks: Vec<Block>,
}

impl Storage {
    /// Block names are unique within one store.
    pub open spec fn wf(self) -> bool {
        self.blocks@.map_values(|b: Block| b.name@).no_duplicates()
    }

    /// The store as a map from block name to payload.
    pub open spec fn contents(self) -> Map<Seq<char>, Seq<u8>> {
        contents_of(self.blocks@)
    }

    pub fn new() -> (r: Storage)
        ensures
            r.wf(),
            r.contents() == Map::<Seq<char>, Seq<u8>>::empty(),
    {
        Storage { blocks: Vec::new() }
    }

    /// Finds the position of the block of the given name, if any.
    fn position_of(&self, name: &str) -> (r: Option<usize>)
        ensures
            match r {
                Some(i) => i < self.blocks@.len() && self.blocks@[i as int].name@ == name@,
                None => !holds_name(self.blocks@, name@),
            },
    {
        let mut i: usize = 0;
        while i < self.blocks.len()
            invariant
                i <= self.blocks@.len(),
                forall|j: int| 0 <= j < i ==> self.blocks@[j].name@ != name@,
            decreases self.blocks@.len() - i,
        {
            if str_eq(self.blocks[i].name.as_str(), name) {
                return Some(i);
            }
            i = i + 1;
        }
        None
    }

    /// Returns whether a block of the given name is stored.
    pub fn has_block(&self, name: &str) -> (r: bool)
        ensures
            r == self.contents().contains_key(name@),
    {
        proof {
            lemma_contents_dom(self.blocks@, name@);
        }
        self.position_of(name).is_some()
    }

    /// Returns a reference to the block of the given name, if stored.
    pub fn get_block(&self, name: &str) -> (r: Option<&Block>)
        requires
            self.wf(),
        ensures
            match r {
                Some(b) => self.contents().contains_key(name@) && b.name@ == name@ && b.bytes()
                    == self.contents()[name@],
                None => !self.contents().contains_key(name@),
            },
    {
        proof {
            lemma_contents_dom(self.blocks@, name@);
        }
        match self.position_of(name) {
            Some(i) => {
                proof {
                    lemma_contents_index(self.blocks@, i as int);
                }
                Some(&self.blocks[i])
            },
            None => None,
        }
    }

    /// Takes a block name and returns the bytes stored in that block.
    /// Fails with `not-found` exactly when no block of that name is stored.
    pub fn read(&self, name: &str) -> (r: Result<Vec<u8>, DfsError>)
        requires
            self.wf(),
        ensures
            match r {
                Ok(data) => self.contents().contains_key(name@) && data@ == self.contents()[name@],
                Err(e) => e == DfsError::NotFound && !self.contents().contains_key(name@),
            },
    {
        match self.get_block(name) {
            Some(b) => Ok(b.read()),
            None => Err(DfsError::NotFound),
        }
    }

    /// Stores a new block of the given name holding `block_info`'s payload,
    /// truncated to its declared size. Fails with `already-exists` exactly
    /// when a block of that name is already stored, leaving the store
    /// unchanged.
    pub fn create(&mut self, name: &str, block_info: BlockInfo) -> (r: Result<(), DfsError>)
        requires
            old(self).wf(),
        ensures
            final(self).wf(),
            match r {
                Ok(()) => !old(self).contents().contains_key(name@) && final(self).contents()
                    == old(self).contents().insert(name@, stored_bytes(block_info)),
                Err(e) => e == DfsError::AlreadyExists && old(self).contents().contains_key(name@)
                    && *final(self) == *old(self),
            },
    {
        proof {
            lemma_contents_dom(self.blocks@, name@);
        }
        if self.position_of(name).is_some() {
            return Err(DfsError::AlreadyExists);
        }
        let data = truncate_to_size(&block_info);
        let block = Block::new(name.to_owned(), data);
        proof {
            let ghost names = self.blocks@.map_values(|b: Block| b.name@);
            assert(self.blocks@.push(block).map_values(|b: Block| b.name@) =~= names.push(name@));
            assert(self.blocks@.push(block).drop_last() =~= self.blocks@);
        }
        self.blocks.push(block);
        Ok(())
    }

    /// Takes a block name and payload and updates or creates the block; the
    /// payload is truncated to its declared size either way. A declared size
    /// of zero means delete: the sentinel the file-shrinking branch of an
    /// update sends. Always succeeds.
    pub fn update(&mut self, name: &str, block_info: BlockInfo) -> (r: Result<(), DfsError>)
        requires
            old(self).wf(),
        ensures
            final(self).wf(),
            r is Ok,
            block_info.block_size == 0 ==> final(self).contents() == old(self).contents().remove(
                name@,
            ),
            block_info.block_size != 0 ==> final(self).contents() == old(self).contents().insert(
                name@,
                stored_bytes(block_info),
            ),
    {
        if block_info.block_size == 0 {
            return self.delete(name);
        }
        proof {
            lemma_contents_dom(self.blocks@, name@);
        }
        match self.position_of(name) {
            Some(i) => {
                let data = truncate_to_size(&block_info);
                let owned = copy_string(&self.blocks[i].name);
                let block = Block::new(owned, data);
                proof {
                    lemma_contents_update(self.blocks@, i as int, block);
                    assert(self.blocks@.update(i as int, block).map_values(|b: Block| b.name@)
                        =~= self.blocks@.map_values(|b: Block| b.name@));
                }
                self.blocks.set(i, block);
                Ok(())
            },
            None => self.create(name, block_info),
        }
    }

    /// Takes a block name and deletes the block. Missing blocks are accepted:
    /// deletion is idempotent and always succeeds.
    pub fn delete(&mut self, name: &str) -> (r: Result<(), DfsError>)
        requires
            old(self).wf(),
        ensures
            final(self).wf(),
            r is Ok,
            final(self).contents() == old(self).contents().remove(name@),
    {
        proof {
            lemma_contents_dom(self.blocks@, name@);
        }
        match self.position_of(name) {
            Some(i) => {
                proof {
                    lemma_contents_remove(self.blocks@, i as int);
                    let ghost names = self.blocks@.map_values(|b: Block| b.name@);
                    assert(self.blocks@.remove(i as int).map_values(|b: Block| b.name@)
                        =~= names.remove(i as int));
                    names.lemma_multiset_has_no_duplicates();
                    broadcast use vstd::seq_lib::group_to_multiset_ensures;

                    names.remove(i as int).lemma_multiset_has_no_duplicates_conv();
                }
                self.blocks.remove(i);
                Ok(())
            },
            None => {
                proof {
                    assert(self.contents() =~= self.contents().remove(name@));
                }
                Ok(())
            },
        }
    }
}

/// Returns an owned copy of a string.
pub fn copy_string(s: &String) -> (r: String)
    ensures
        r@ == s@,
{
    s.as_str().to_owned()
}

/// Law: a delete followed by another delete of the same name leaves the store
/// as one delete does, and `Storage::delete` succeeds both times by its
/// contract.
pub proof fn lemma_delete_idempotent(m: Map<Seq<char>, Seq<u8>>, name: Seq<char>)
    ensures
        m.remove(name).remove(name) == m.remove(name),
{
    assert(m.remove(name).remove(name) =~= m.remove(name));
}

/// Law: after a create of `name` stores payload `d`, the name is present, so
/// a second `Storage::create` of the same name fails with `already-exists` by
/// its contract.
pub proof fn lemma_create_twice_fails(m: Map<Seq<char>, Seq<u8>>, name: Seq<char>, d: Seq<u8>)
    ensures
        m.insert(name, d).contains_key(name),
{
}

/// Law: a create of `name` with payload `info` followed by a read of `name`
/// yields the first `min(len(data), size)` bytes of the supplied data, by the
/// contracts of `Storage::create` and `Storage::read`.
pub proof fn lemma_create_then_read(m: Map<Seq<char>, Seq<u8>>, name: Seq<char>, info: BlockInfo)
    ensures
        m.insert(name, stored_bytes(info))[name] == stored_bytes(info),
        stored_bytes(info) == info.block_data@.take(
            vstd::math::min(info.block_data@.len() as int, info.block_size as int),
        ),
{
    assert(stored_bytes(info) =~= info.block_data@.take(
        vstd::math::min(info.block_data@.len() as int, info.block_size as int),
    ));
}

} // verus!
