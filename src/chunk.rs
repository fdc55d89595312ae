use vstd::prelude::*;
use crate::consts::CHUNK_SIZE;
use crate::packed::PackedIds;
use crate::position::ChunkPosition;

verus! {

/// The kind of a cell. Its numeric id is part of the stored and wire format.
#[derive(Clone, Copy, Debug, PartialEq, Eq, Hash, Structural)]
pub enum Block {
    Void,
    Air,
    Grass,
    Dirt,
    Stone,
}

/// The numeric id of a block.
pub open spec fn block_id(b: Block) -> u64 {
    match b {
        Block::Void => 0,
        Block::Air => 1,
        Block::Grass => 2,
        Block::Dirt => 3,
        Block::Stone => 4,
    }
}

/// The block with numeric id `id`.
pub open spec fn block_of(id: u64) -> Block {
    if id == 1 {
        Block::Air
    } else if id == 2 {
        Block::Grass
    } else if id == 3 {
        Block::Dirt
    } else if id == 4 {
        Block::Stone
    } else {
        Block::Void
    }
}

/// `id` names a block.
pub open spec fn is_block_id(id: u64) -> bool {
    id < 5
}

impl Block {
    /// The numeric id of this block.
    pub fn id(self) -> (r: u64)
        ensures
            r == block_id(self),
            is_block_id(r),
            block_of(r) == self,
    {
        match self {
            Block::Void => 0,
            Block::Air => 1,
            Block::Grass => 2,
            Block::Dirt => 3,
            Block::Stone => 4,
        }
    }

    /// The block with numeric id `id`, if there is one.
    pub fn from_id(id: u64) -> (r: Option<Block>)
        ensures
            r is Some <==> is_block_id(id),
            r is Some ==> r->0 == block_of(id) && block_id(r->0) == id,
    {
        if id == 0 {
            Some(Block::Void)
        } else if id == 1 {
            Some(Block::Air)
        } else if id == 2 {
            Some(Block::Grass)
        } else if id == 3 {
            Some(Block::Dirt)
        } else if id == 4 {
            Some(Block::Stone)
        } else {
            None
        }
    }
}

/// The ids of a chunk after writing `cells` in order: a later write to a cell
/// replaces an earlier one.
pub open spec fn chunk_writes(ids: Seq<u64>, cells: Seq<(ChunkPosition, Block)>) -> Seq<u64>
    decreases cells.len(),
{
    if cells.len() == 0 {
        ids
    } else {
        let (p, b) = cells.last();
        chunk_writes(ids, cells.drop_last()).update(p.spec_linear(), block_id(b))
    }
}

/// Every id in `ids` names a block.
pub open spec fn all_blocks(ids: Seq<u64>) -> bool {
    forall|i: int| 0 <= i < ids.len() ==> is_block_id(#[trigger] ids[i])
}

/// The cells of one chunk: a packed column of `CHUNK_SIZE` block ids.
#[derive(Clone, Debug)]
pub struct Chunk {
    ids: PackedIds,
}

impl View for Chunk {
    type V = Seq<u64>;

    closed spec fn view(&self) -> Seq<u64> {
        self.ids@
    }
}

impl Chunk {
    pub closed spec fn wf(&self) -> bool {
        self.ids.wf() && all_blocks(self.ids@)
    }

    /// The packed store that holds the ids.
    pub closed spec fn spec_packed(&self) -> PackedIds {
        self.ids
    }

    pub proof fn lemma_wf(&self)
        requires
            self.wf(),
        ensures
            self@.len() == CHUNK_SIZE,
            all_blocks(self@),
            self.spec_packed().wf(),
            self.spec_packed()@ == self@,
    {
    }

    /// A chunk of `Void` cells.
    pub fn new() -> (r: Self)
        ensures
            r.wf(),
            r@ == Seq::new(CHUNK_SIZE as nat, |i: int| 0u64),
    {
        Chunk { ids: PackedIds::zeroed(1) }
    }

    /// The chunk held by a packed store, if every value in it names a block.
    pub fn from_packed(ids: PackedIds) -> (r: Option<Self>)
        requires
            ids.wf(),
        ensures
            r is Some <==> all_blocks(ids@),
            r is Some ==> r->0.wf() && r->0@ == ids@ && r->0.spec_packed() == ids,
    {
        let mut i: usize = 0;
        while i < CHUNK_SIZE as usize
            invariant
                ids.wf(),
                i <= CHUNK_SIZE,
                forall|k: int| 0 <= k < i ==> is_block_id(#[trigger] ids@[k]),
            decreases CHUNK_SIZE - i,
        {
            if ids.get(i) >= 5 {
                return None;
            }
            i += 1;
        }
        Some(Chunk { ids })
    }

    /// The packed store that holds the ids.
    pub fn packed(&self) -> (r: &PackedIds)
        ensures
            *r == self.spec_packed(),
    {
        &self.ids
    }

    /// Writes each `(position, block)` in order.
    pub fn set_blocks(&mut self, cells: &Vec<(ChunkPosition, Block)>)
        requires
            old(self).wf(),
            forall|k: int| 0 <= k < cells@.len() ==> (#[trigger] cells@[k]).0.is_valid(),
        ensures
            final(self).wf(),
            final(self)@ == chunk_writes(old(self)@, cells@),
    {
        let ghost start = self@;
        let mut k: usize = 0;
        while k < cells.len()
            invariant
                self.wf(),
                0 <= k <= cells@.len(),
                forall|j: int| 0 <= j < cells@.len() ==> (#[trigger] cells@[j]).0.is_valid(),
                self@ == chunk_writes(start, cells@.take(k as int)),
            decreases cells@.len() - k,
        {
            let (p, b) = cells[k];
            let i = p.linearize();
            self.ids.set(i as usize, b.id());
            proof {
                assert(cells@.take(k + 1).drop_last() =~= cells@.take(k as int));
                assert forall|j: int| 0 <= j < self.ids@.len() implies is_block_id(#[trigger] self.ids@[j]) by {}
            }
            k += 1;
        }
        assert(cells@.take(cells@.len() as int) =~= cells@);
    }

    /// The block at `p`.
    pub fn get_block(&self, p: ChunkPosition) -> (r: Block)
        requires
            self.wf(),
            p.is_valid(),
        ensures
            r == block_of(self@[p.spec_linear()]),
            block_id(r) == self@[p.spec_linear()],
    {
        let i = p.linearize();
        let id = self.ids.get(i as usize);
        match Block::from_id(id) {
            Some(b) => b,
            None => Block::Void,
        }
    }

    /// The block at each position, in order.
    pub fn get_blocks(&self, positions: &Vec<ChunkPosition>) -> (r: Vec<Block>)
        requires
            self.wf(),
            forall|k: int| 0 <= k < positions@.len() ==> (#[trigger] positions@[k]).is_valid(),
        ensures
            r@.len() == positions@.len(),
            forall|k: int| 0 <= k < r@.len() ==> #[trigger] r@[k] == block_of(self@[positions@[k].spec_linear()]),
    {
        let mut r: Vec<Block> = Vec::new();
        let mut k: usize = 0;
        while k < positions.len()
            invariant
                self.wf(),
                k <= positions@.len(),
                r@.len() == k,
                forall|j: int| 0 <= j < positions@.len() ==> (#[trigger] positions@[j]).is_valid(),
                forall|j: int| 0 <= j < k ==> #[trigger] r@[j] == block_of(self@[positions@[j].spec_linear()]),
            decreases positions@.len() - k,
        {
            let i = positions[k].linearize();
            let id = self.ids.get(i as usize);
            let b = match Block::from_id(id) {
                Some(b) => b,
                None => Block::Void,
            };
            r.push(b);
            k += 1;
        }
        r
    }
}

impl Default for Chunk {
    fn default() -> (r: Self)
        ensures
            r.wf(),
            r@ == Seq::new(CHUNK_SIZE as nat, |i: int| 0u64),
    {
        Chunk::new()
    }
}

impl Chunk {
    /// A copy with the same packed store.
    pub fn duplicate(&self) -> (r: Self)
        requires
            self.wf(),
        ensures
            r.wf(),
            r@ == self@,
            r.spec_packed().spec_bits() == self.spec_packed().spec_bits(),
            r.spec_packed().spec_words() == self.spec_packed().spec_words(),
    {
        Chunk { ids: self.ids.duplicate() }
    }
}

} // verus!
