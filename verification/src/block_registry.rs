use vstd::prelude::*;

use crate::block::Block;
use crate::text::ascii_str_eq;

verus! {

use vstd::string::StringExecFnsIsAscii;
use vstd::utf8::is_ascii_chars;

/// Handle of a registered block type.  Ids are assigned sequentially
/// starting at 1 and are never reused; 0 is not a valid id (the absence
/// of a block is an `Option::None`, not an id).
#[derive(Debug, Clone, Copy, PartialEq, Eq, Hash, Structural)]
pub struct BlockId(pub u16);

/// Errors of the block registry.
#[derive(Debug, Clone, Copy, PartialEq, Eq, Structural)]
pub enum RegistryError {
    /// A name was looked up that was never registered.
    UnknownBlock,
    /// The same name was registered a second time.
    DuplicateName,
}

/// Append-only table of block types: an ordered list of names paired with
/// what the mesher needs for each block, plus a name lookup.  The block
/// registered under the i-th name (0-based) has id i + 1.
///
/// Names are ASCII and at most 255 bytes, so they fit the length-prefixed
/// name table of the persisted chunk format.
pub struct BlockRegistry {
    names: Vec<String>,
    blocks: Vec<Block>,
}

impl BlockRegistry {
    /// The registered names in registration order; the id of the name at
    /// position i is i + 1.
    pub closed spec fn names_view(self) -> Seq<Seq<char>> {
        self.names@.map_values(|s: String| s@)
    }

    /// The registered blocks in registration order.
    pub closed spec fn blocks_view(self) -> Seq<Block> {
        self.blocks@
    }

    pub open spec fn num_blocks(self) -> int {
        self.names_view().len() as int
    }

    /// Well-formed: names and blocks run in parallel, ids fit in 16 bits,
    /// every name is ASCII and at most 255 bytes, and no name repeats.
    pub open spec fn wf(self) -> bool {
        &&& self.names_view().len() == self.blocks_view().len()
        &&& self.names_view().len() <= 0xFFFF
        &&& forall|i: int|
            0 <= i < self.names_view().len() ==> (#[trigger] self.names_view()[i]).len() <= 255
                && is_ascii_chars(self.names_view()[i])
        &&& forall|i: int, j: int|
            0 <= i < j < self.names_view().len() ==> self.names_view()[i] != self.names_view()[j]
    }

    pub open spec fn valid_id(self, id: BlockId) -> bool {
        1 <= id.0 <= self.num_blocks()
    }

    pub open spec fn spec_name(self, id: BlockId) -> Seq<char>
        recommends
            self.valid_id(id),
    {
        self.names_view()[id.0 - 1]
    }

    pub open spec fn spec_block(self, id: BlockId) -> Block
        recommends
            self.valid_id(id),
    {
        self.blocks_view()[id.0 - 1]
    }

    pub open spec fn contains_name(self, name: Seq<char>) -> bool {
        exists|i: int| 0 <= i < self.names_view().len() && #[trigger] self.names_view()[i] == name
    }

    /// The id `name` is registered under.  Meaningful only when
    /// `contains_name(name)` holds; well defined because names never
    /// repeat in a well-formed registry.
    pub open spec fn spec_id(self, name: Seq<char>) -> BlockId
        recommends
            self.contains_name(name),
    {
        let i = choose|i: int|
            0 <= i < self.names_view().len() && #[trigger] self.names_view()[i] == name;
        BlockId((i + 1) as u16)
    }

    /// In a well-formed registry, looking a name up by the id it is
    /// registered under gives that id back.
    pub proof fn lemma_spec_id_of_name(self, id: BlockId)
        requires
            self.wf(),
            self.valid_id(id),
        ensures
            self.contains_name(self.spec_name(id)),
            self.spec_id(self.spec_name(id)) == id,
    {
        let name = self.spec_name(id);
        assert(self.names_view()[id.0 - 1] == name);
        let i = choose|i: int|
            0 <= i < self.names_view().len() && #[trigger] self.names_view()[i] == name;
        if i != id.0 - 1 {
            assert(self.names_view()[i] == self.names_view()[id.0 - 1]);
            assert(false);
        }
    }

    pub fn new() -> (r: Self)
        ensures
            r.wf(),
            r.num_blocks() == 0,
    {
        let r = BlockRegistry { names: Vec::new(), blocks: Vec::new() };
        proof {
            assert(r.names_view() =~= Seq::<Seq<char>>::empty());
        }
        r
    }

    pub fn block_count(&self) -> (r: usize)
        requires
            self.wf(),
        ensures
            r == self.num_blocks(),
    {
        self.names.len()
    }

    /// Register a block type under a new name.  The new id is one past the
    /// previous highest.  Registering the same name twice is rejected and
    /// leaves the registry unchanged.
    pub fn register(&mut self, name: String, block: Block) -> (r: Result<
        BlockId,
        RegistryError,
    >)
        requires
            old(self).wf(),
            old(self).num_blocks() < 0xFFFF,
            name.is_ascii(),
            name@.len() <= 255,
        ensures
            final(self).wf(),
            match r {
                Ok(id) => {
                    &&& !old(self).contains_name(name@)
                    &&& id.0 == old(self).num_blocks() + 1
                    &&& final(self).names_view() == old(self).names_view().push(name@)
                    &&& final(self).blocks_view() == old(self).blocks_view().push(block)
                },
                Err(e) => {
                    &&& e == RegistryError::DuplicateName
                    &&& old(self).contains_name(name@)
                    &&& *final(self) == *old(self)
                },
            },
    {
        let n = self.names.len();
        let mut i: usize = 0;
        while i < n
            invariant
                i <= n,
                n == self.names_view().len(),
                self.wf(),
                name.is_ascii(),
                forall|j: int| 0 <= j < i ==> self.names_view()[j] != name@,
            decreases n - i,
        {
            proof {
                assert(self.names_view()[i as int] == self.names@[i as int]@);
            }
            if ascii_str_eq(self.names[i].as_str(), name.as_str()) {
                return Err(RegistryError::DuplicateName);
            }
            i += 1;
        }
        let id = BlockId((self.blocks.len() as u16) + 1);
        self.names.push(name);
        self.blocks.push(block);
        proof {
            assert(self.names_view() =~= old(self).names_view().push(self.names@.last()@));
        }
        Ok(id)
    }

    /// The id registered for a name, or `UnknownBlock` if the name was
    /// never registered.
    pub fn block_id(&self, name: &str) -> (r: Result<BlockId, RegistryError>)
        requires
            self.wf(),
        ensures
            match r {
                Ok(id) => {
                    &&& self.contains_name(name@)
                    &&& self.valid_id(id)
                    &&& self.spec_name(id) == name@
                    &&& id == self.spec_id(name@)
                },
                Err(e) => {
                    &&& e == RegistryError::UnknownBlock
                    &&& !self.contains_name(name@)
                },
            },
    {
        if !name.is_ascii() {
            return Err(RegistryError::UnknownBlock);
        }
        let n = self.names.len();
        let mut i: usize = 0;
        while i < n
            invariant
                i <= n,
                n == self.names_view().len(),
                self.wf(),
                name.is_ascii(),
                forall|j: int| 0 <= j < i ==> self.names_view()[j] != name@,
            decreases n - i,
        {
            proof {
                assert(self.names_view()[i as int] == self.names@[i as int]@);
            }
            if ascii_str_eq(self.names[i].as_str(), name) {
                proof {
                    let id = BlockId((i + 1) as u16);
                    self.lemma_spec_id_of_name(id);
                }
                return Ok(BlockId((i as u16) + 1));
            }
            i += 1;
        }
        Err(RegistryError::UnknownBlock)
    }

    /// The name a block id was registered under.  Used when serializing a
    /// chunk, so a linear reverse scan would also do; ids index directly.
    pub fn name(&self, id: BlockId) -> (r: String)
        requires
            self.wf(),
            self.valid_id(id),
        ensures
            r@ == self.spec_name(id),
    {
        self.names[(id.0 - 1) as usize].clone()
    }

    /// The block type registered under an id.
    pub fn block(&self, id: BlockId) -> (r: &Block)
        requires
            self.wf(),
            self.valid_id(id),
        ensures
            *r == self.spec_block(id),
    {
        &self.blocks[(id.0 - 1) as usize]
    }
}

} // verus!
