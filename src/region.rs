use vstd::prelude::*;
use crate::chunk::{Block, Chunk, all_blocks, block_id, block_of, chunk_writes};
use crate::consts::{CHUNK_AXIS, CHUNK_SIZE, REGION_SIZE, REGION_SPAN};
use crate::entity::{Entity, EntityId};
use crate::position::{ChunkPosition, RegionPosition, lemma_chunk_indices};
use crate::table::{EntityTable, insert_all, remove_all};

verus! {

/// What a region holds: the block ids of each chunk, in chunk order, and the
/// entities by id.
pub struct RegionModel {
    pub chunks: Seq<Seq<u64>>,
    pub entities: Map<EntityId, Entity>,
}

/// The region of all-`Void` cells and no entities.
pub open spec fn default_model() -> RegionModel {
    RegionModel {
        chunks: Seq::new(REGION_SIZE as nat, |c: int| Seq::new(CHUNK_SIZE as nat, |i: int| 0u64)),
        entities: Map::empty(),
    }
}

/// The chunk-local position of a region cell.
pub open spec fn local_pos(p: RegionPosition) -> ChunkPosition {
    ChunkPosition { x: p.x % CHUNK_AXIS, y: p.y % CHUNK_AXIS, z: p.z % CHUNK_AXIS }
}

/// The block id at cell `p`.
pub open spec fn id_at(m: RegionModel, p: RegionPosition) -> u64 {
    m.chunks[p.spec_chunk_id()][p.spec_local()]
}

/// The block at cell `p`.
pub open spec fn block_at(m: RegionModel, p: RegionPosition) -> Block {
    block_of(id_at(m, p))
}

/// Every cell of `cells` lies inside the region.
pub open spec fn cells_in_bounds(cells: Seq<(RegionPosition, Block)>) -> bool {
    forall|k: int| 0 <= k < cells.len() ==> (#[trigger] cells[k]).0.is_valid()
}

/// The chunk ids after writing `cells` in order: a later write to a cell
/// replaces an earlier one.
pub open spec fn write_cells(chunks: Seq<Seq<u64>>, cells: Seq<(RegionPosition, Block)>) -> Seq<Seq<u64>>
    decreases cells.len(),
{
    if cells.len() == 0 {
        chunks
    } else {
        let prev = write_cells(chunks, cells.drop_last());
        let (p, b) = cells.last();
        let c = p.spec_chunk_id();
        prev.update(c, prev[c].update(p.spec_local(), block_id(b)))
    }
}

/// The cells of `cells` that fall in chunk `c`, in order, in chunk-local
/// positions.
pub open spec fn cells_of_chunk(cells: Seq<(RegionPosition, Block)>, c: int) -> Seq<(ChunkPosition, Block)>
    decreases cells.len(),
{
    if cells.len() == 0 {
        Seq::empty()
    } else {
        let prev = cells_of_chunk(cells.drop_last(), c);
        let (p, b) = cells.last();
        if p.spec_chunk_id() == c {
            prev.push((local_pos(p), b))
        } else {
            prev
        }
    }
}

/// Writing in-bounds cells region-wide is writing, in each chunk, the cells
/// that fall in it.
pub proof fn lemma_write_cells_by_chunk(chunks: Seq<Seq<u64>>, cells: Seq<(RegionPosition, Block)>)
    requires
        chunks_wf(chunks),
        cells_in_bounds(cells),
    ensures
        chunks_wf(write_cells(chunks, cells)),
        forall|c: int| 0 <= c < REGION_SIZE ==>
            #[trigger] write_cells(chunks, cells)[c] == chunk_writes(chunks[c], cells_of_chunk(cells, c)),
    decreases cells.len(),
{
    if cells.len() > 0 {
        let init = cells.drop_last();
        lemma_write_cells_by_chunk(chunks, init);
        let (p, b) = cells.last();
        lemma_chunk_indices(p);
        let prev = write_cells(chunks, init);
        assert forall|c: int| 0 <= c < REGION_SIZE implies
            #[trigger] write_cells(chunks, cells)[c] == chunk_writes(chunks[c], cells_of_chunk(cells, c)) by {
            if c == p.spec_chunk_id() {
                let l = cells_of_chunk(init, c);
                assert(l.push((local_pos(p), b)).drop_last() == l);
            }
        }
        let w = write_cells(chunks, cells);
        assert forall|c: int| 0 <= c < REGION_SIZE implies (#[trigger] w[c]).len() == CHUNK_SIZE && all_blocks(w[c]) by {
            if c == p.spec_chunk_id() {
                assert(forall|i: int| 0 <= i < w[c].len() ==> #[trigger] w[c][i] == prev[c][i] || w[c][i] == block_id(b));
            }
        }
    }
}

/// A change to a region.
#[derive(Clone, Debug)]
pub enum Operation {
    /// Replaces the listed cells; a later entry for a cell wins.
    SetBlocks(Vec<(RegionPosition, Block)>),
    /// Inserts or replaces the listed entities; a later entry for an id wins.
    InsertEntity(Vec<(EntityId, Entity)>),
    /// Removes the listed ids; ids that are not present are ignored.
    RemoveEntity(Vec<EntityId>),
}

/// What an operation holds.
pub enum OperationView {
    SetBlocks(Seq<(RegionPosition, Block)>),
    InsertEntity(Seq<(EntityId, Entity)>),
    RemoveEntity(Seq<EntityId>),
}

impl View for Operation {
    type V = OperationView;

    open spec fn view(&self) -> OperationView {
        match self {
            Operation::SetBlocks(cells) => OperationView::SetBlocks(cells@),
            Operation::InsertEntity(es) => OperationView::InsertEntity(es@),
            Operation::RemoveEntity(ids) => OperationView::RemoveEntity(ids@),
        }
    }
}

/// The operation changes nothing outside the region's bounds.
pub open spec fn op_in_bounds(op: Operation) -> bool {
    match op {
        Operation::SetBlocks(cells) => cells_in_bounds(cells@),
        _ => true,
    }
}

/// The region after `op`. A `SetBlocks` with a cell out of bounds is rejected
/// and leaves the region as it was.
pub open spec fn apply_op(m: RegionModel, op: Operation) -> RegionModel {
    match op {
        Operation::SetBlocks(cells) => if cells_in_bounds(cells@) {
            RegionModel { chunks: write_cells(m.chunks, cells@), entities: m.entities }
        } else {
            m
        },
        Operation::InsertEntity(es) => RegionModel { chunks: m.chunks, entities: insert_all(m.entities, es@) },
        Operation::RemoveEntity(ids) => RegionModel { chunks: m.chunks, entities: remove_all(m.entities, ids@) },
    }
}

/// The region after each of `ops` in order.
pub open spec fn apply_ops(m: RegionModel, ops: Seq<Operation>) -> RegionModel
    decreases ops.len(),
{
    if ops.len() == 0 {
        m
    } else {
        apply_op(apply_ops(m, ops.drop_last()), ops.last())
    }
}

/// The chunks hold `REGION_SIZE` columns of `CHUNK_SIZE` block ids.
pub open spec fn chunks_wf(chunks: Seq<Seq<u64>>) -> bool {
    &&& chunks.len() == REGION_SIZE
    &&& forall|c: int| 0 <= c < REGION_SIZE ==> (#[trigger] chunks[c]).len() == CHUNK_SIZE && all_blocks(chunks[c])
}

/// An operation was rejected: one of its cells lies outside the region.
#[derive(Clone, Copy, Debug, PartialEq, Eq, Structural)]
pub struct BoundsViolation;

/// The cells of one region: `REGION_SIZE` chunks in chunk order, and the
/// entities in it.
#[derive(Clone, Debug)]
pub struct Region {
    chunks: Vec<Chunk>,
    entities: EntityTable,
}

impl View for Region {
    type V = RegionModel;

    closed spec fn view(&self) -> RegionModel {
        RegionModel {
            chunks: Seq::new(self.chunks@.len(), |c: int| self.chunks@[c]@),
            entities: self.entities@,
        }
    }
}

impl Region {
    pub closed spec fn wf(&self) -> bool {
        &&& self.chunks@.len() == REGION_SIZE
        &&& forall|c: int| 0 <= c < REGION_SIZE ==> (#[trigger] self.chunks@[c]).wf()
        &&& self.entities.wf()
    }

    /// The chunk store at index `c`.
    pub closed spec fn spec_chunk(&self, c: int) -> Chunk {
        self.chunks@[c]
    }

    /// The entity table.
    pub closed spec fn spec_entities(&self) -> EntityTable {
        self.entities
    }

    pub proof fn lemma_wf(&self)
        requires
            self.wf(),
        ensures
            chunks_wf(self@.chunks),
            forall|c: int| 0 <= c < REGION_SIZE ==> (#[trigger] self.spec_chunk(c)).wf() && self.spec_chunk(c)@ == self@.chunks[c],
            self.spec_entities().wf(),
            self.spec_entities()@ == self@.entities,
    {
        assert forall|c: int| 0 <= c < REGION_SIZE implies (#[trigger] self@.chunks[c]).len() == CHUNK_SIZE && all_blocks(self@.chunks[c]) by {
            self.chunks@[c].lemma_wf();
        }
    }

    /// The region of all-`Void` cells and no entities.
    pub fn new() -> (r: Self)
        ensures
            r.wf(),
            r@ == default_model(),
    {
        let mut chunks: Vec<Chunk> = Vec::new();
        while chunks.len() < REGION_SIZE as usize
            invariant
                chunks@.len() <= REGION_SIZE,
                forall|c: int| 0 <= c < chunks@.len() ==> (#[trigger] chunks@[c]).wf()
                    && chunks@[c]@ == Seq::new(CHUNK_SIZE as nat, |i: int| 0u64),
            decreases REGION_SIZE - chunks@.len(),
        {
            chunks.push(Chunk::new());
        }
        let r = Region { chunks, entities: EntityTable::new() };
        assert(r@.chunks =~= default_model().chunks);
        r
    }

    /// A region from its chunks and entities, if there are `REGION_SIZE`
    /// chunks.
    pub fn from_parts(chunks: Vec<Chunk>, entities: EntityTable) -> (r: Option<Self>)
        requires
            forall|c: int| 0 <= c < chunks@.len() ==> (#[trigger] chunks@[c]).wf(),
            entities.wf(),
        ensures
            r is Some <==> chunks@.len() == REGION_SIZE,
            r is Some ==> r->0.wf() && r->0@.entities == entities@
                && forall|c: int| 0 <= c < REGION_SIZE ==> #[trigger] r->0.spec_chunk(c) == chunks@[c],
    {
        if chunks.len() as u64 == REGION_SIZE {
            Some(Region { chunks, entities })
        } else {
            None
        }
    }

    /// The chunk store at index `c`.
    pub fn chunk(&self, c: usize) -> (r: &Chunk)
        requires
            self.wf(),
            c < REGION_SIZE,
        ensures
            *r == self.spec_chunk(c as int),
    {
        &self.chunks[c]
    }

    /// The entity table.
    pub fn entities(&self) -> (r: &EntityTable)
        ensures
            *r == self.spec_entities(),
    {
        &self.entities
    }
}

/// Whether every cell of `cells` lies inside the region.
pub fn cells_within(cells: &Vec<(RegionPosition, Block)>) -> (r: bool)
    ensures
        r == cells_in_bounds(cells@),
{
    let mut k: usize = 0;
    while k < cells.len()
        invariant
            k <= cells@.len(),
            forall|j: int| 0 <= j < k ==> (#[trigger] cells@[j]).0.is_valid(),
        decreases cells@.len() - k,
    {
        let p = cells[k].0;
        if !(p.x < REGION_SPAN && p.y < REGION_SPAN && p.z < REGION_SPAN) {
            assert(!cells@[k as int].0.is_valid());
            return false;
        }
        k += 1;
    }
    true
}

impl Region {
    /// Writes each `(position, block)` in order, grouping the cells by chunk
    /// and handing each group to its chunk. A write with a cell outside the
    /// region is rejected as a whole and leaves the region unchanged.
    pub fn set_blocks(&mut self, cells: &Vec<(RegionPosition, Block)>) -> (r: Result<(), BoundsViolation>)
        requires
            old(self).wf(),
        ensures
            final(self).wf(),
            r is Err <==> !cells_in_bounds(cells@),
            final(self)@ == if cells_in_bounds(cells@) {
                RegionModel { chunks: write_cells(old(self)@.chunks, cells@), entities: old(self)@.entities }
            } else {
                old(self)@
            },
    {
        if cells_within(cells) {
            self.write_blocks(cells);
            Ok(())
        } else {
            Err(BoundsViolation)
        }
    }

    fn write_blocks(&mut self, cells: &Vec<(RegionPosition, Block)>)
        requires
            old(self).wf(),
            cells_in_bounds(cells@),
        ensures
            final(self).wf(),
            final(self)@ == (RegionModel { chunks: write_cells(old(self)@.chunks, cells@), entities: old(self)@.entities }),
    {
        let ghost start = self@;
        let mut buckets: Vec<Vec<(ChunkPosition, Block)>> = Vec::new();
        while buckets.len() < REGION_SIZE as usize
            invariant
                buckets@.len() <= REGION_SIZE,
                forall|c: int| 0 <= c < buckets@.len() ==> (#[trigger] buckets@[c])@ == Seq::<(ChunkPosition, Block)>::empty(),
            decreases REGION_SIZE - buckets@.len(),
        {
            buckets.push(Vec::new());
        }
        let mut k: usize = 0;
        while k < cells.len()
            invariant
                k <= cells@.len(),
                cells_in_bounds(cells@),
                buckets@.len() == REGION_SIZE,
                forall|c: int| 0 <= c < REGION_SIZE ==> (#[trigger] buckets@[c])@ == cells_of_chunk(cells@.take(k as int), c),
            decreases cells@.len() - k,
        {
            let (p, b) = cells[k];
            let c = p.to_chunk_id() as usize;
            let mut bucket: Vec<(ChunkPosition, Block)> = Vec::new();
            buckets.set_and_swap(c, &mut bucket);
            bucket.push((p.to_chunk_pos(), b));
            buckets.set_and_swap(c, &mut bucket);
            proof {
                assert(cells@.take(k + 1).drop_last() =~= cells@.take(k as int));
            }
            k += 1;
        }
        assert(cells@.take(cells@.len() as int) =~= cells@);
        proof {
            self.lemma_wf();
        }
        let mut c: usize = 0;
        while c < REGION_SIZE as usize
            invariant
                c <= REGION_SIZE,
                cells_in_bounds(cells@),
                buckets@.len() == REGION_SIZE,
                forall|d: int| 0 <= d < REGION_SIZE ==> (#[trigger] buckets@[d])@ == cells_of_chunk(cells@, d),
                chunks_wf(start.chunks),
                self.chunks@.len() == REGION_SIZE,
                self.entities == old(self).entities,
                self.entities.wf(),
                forall|d: int| 0 <= d < REGION_SIZE ==> (#[trigger] self.chunks@[d]).wf(),
                forall|d: int| 0 <= d < c ==> (#[trigger] self.chunks@[d])@ == chunk_writes(start.chunks[d], cells_of_chunk(cells@, d)),
                forall|d: int| c <= d < REGION_SIZE ==> (#[trigger] self.chunks@[d])@ == start.chunks[d],
            decreases REGION_SIZE - c,
        {
            if buckets[c].len() > 0 {
                proof {
                    assert forall|j: int| 0 <= j < buckets@[c as int]@.len() implies (#[trigger] buckets@[c as int]@[j]).0.is_valid() by {
                        lemma_cells_of_chunk_valid(cells@, c as int);
                    }
                }
                let mut ch = Chunk::new();
                self.chunks.set_and_swap(c, &mut ch);
                ch.set_blocks(&buckets[c]);
                self.chunks.set_and_swap(c, &mut ch);
            }
            c += 1;
        }
        proof {
            lemma_write_cells_by_chunk(start.chunks, cells@);
            assert(self@.chunks =~= write_cells(start.chunks, cells@));
        }
    }

    /// The block at each position, in order, paired with its position.
    pub fn get_blocks(&self, positions: &Vec<RegionPosition>) -> (r: Vec<(RegionPosition, Block)>)
        requires
            self.wf(),
            forall|k: int| 0 <= k < positions@.len() ==> (#[trigger] positions@[k]).is_valid(),
        ensures
            r@.len() == positions@.len(),
            forall|k: int| 0 <= k < r@.len() ==> #[trigger] r@[k] == (positions@[k], block_at(self@, positions@[k])),
    {
        let mut r: Vec<(RegionPosition, Block)> = Vec::new();
        let mut k: usize = 0;
        proof {
            self.lemma_wf();
        }
        while k < positions.len()
            invariant
                self.wf(),
                k <= positions@.len(),
                r@.len() == k,
                forall|j: int| 0 <= j < positions@.len() ==> (#[trigger] positions@[j]).is_valid(),
                forall|j: int| 0 <= j < k ==> #[trigger] r@[j] == (positions@[j], block_at(self@, positions@[j])),
            decreases positions@.len() - k,
        {
            let p = positions[k];
            let c = p.to_chunk_id() as usize;
            let b = self.chunks[c].get_block(p.to_chunk_pos());
            r.push((p, b));
            k += 1;
        }
        r
    }

    /// Inserts or replaces each listed entity, in order.
    pub fn insert_entities(&mut self, mapping: &Vec<(EntityId, Entity)>)
        requires
            old(self).wf(),
        ensures
            final(self).wf(),
            final(self)@ == (RegionModel { chunks: old(self)@.chunks, entities: insert_all(old(self)@.entities, mapping@) }),
    {
        let ghost start = self@;
        let mut k: usize = 0;
        while k < mapping.len()
            invariant
                self.wf(),
                k <= mapping@.len(),
                self@.chunks == start.chunks,
                self@.entities == insert_all(start.entities, mapping@.take(k as int)),
            decreases mapping@.len() - k,
        {
            let (id, e) = mapping[k];
            self.entities.insert(id, e);
            proof {
                assert(mapping@.take(k + 1).drop_last() =~= mapping@.take(k as int));
            }
            k += 1;
        }
        assert(mapping@.take(mapping@.len() as int) =~= mapping@);
    }

    /// Removes each listed id; ids that are not present are ignored.
    pub fn remove_entities(&mut self, entities: &Vec<EntityId>)
        requires
            old(self).wf(),
        ensures
            final(self).wf(),
            final(self)@ == (RegionModel { chunks: old(self)@.chunks, entities: remove_all(old(self)@.entities, entities@) }),
    {
        let ghost start = self@;
        let mut k: usize = 0;
        while k < entities.len()
            invariant
                self.wf(),
                k <= entities@.len(),
                self@.chunks == start.chunks,
                self@.entities == remove_all(start.entities, entities@.take(k as int)),
            decreases entities@.len() - k,
        {
            self.entities.remove(entities[k]);
            proof {
                assert(entities@.take(k + 1).drop_last() =~= entities@.take(k as int));
            }
            k += 1;
        }
        assert(entities@.take(entities@.len() as int) =~= entities@);
    }

    /// Applies `op`. A `SetBlocks` with a cell outside the region is rejected
    /// and changes nothing.
    pub fn apply(&mut self, op: &Operation) -> (r: Result<(), BoundsViolation>)
        requires
            old(self).wf(),
        ensures
            final(self).wf(),
            final(self)@ == apply_op(old(self)@, *op),
            r is Err <==> !op_in_bounds(*op),
    {
        match op {
            Operation::SetBlocks(cells) => self.set_blocks(cells),
            Operation::InsertEntity(mapping) => {
                self.insert_entities(mapping);
                Ok(())
            },
            Operation::RemoveEntity(ids) => {
                self.remove_entities(ids);
                Ok(())
            },
        }
    }
}

proof fn lemma_cells_of_chunk_valid(cells: Seq<(RegionPosition, Block)>, c: int)
    requires
        cells_in_bounds(cells),
    ensures
        forall|j: int| 0 <= j < cells_of_chunk(cells, c).len() ==> (#[trigger] cells_of_chunk(cells, c)[j]).0.is_valid(),
    decreases cells.len(),
{
    if cells.len() > 0 {
        lemma_cells_of_chunk_valid(cells.drop_last(), c);
        let (p, b) = cells.last();
        assert(cells[cells.len() - 1].0.is_valid());
        let prev = cells_of_chunk(cells.drop_last(), c);
        let cur = cells_of_chunk(cells, c);
        assert forall|j: int| 0 <= j < cur.len() implies (#[trigger] cur[j]).0.is_valid() by {
            if j < prev.len() {
                assert(cur[j] == prev[j]);
            }
        }
    }
}

impl Default for Region {
    fn default() -> (r: Self)
        ensures
            r.wf(),
            r@ == default_model(),
    {
        Region::new()
    }
}

impl Region {
    /// A copy with the same chunks and entities.
    pub fn duplicate(&self) -> (r: Self)
        requires
            self.wf(),
        ensures
            r.wf(),
            r@ == self@,
    {
        let mut chunks: Vec<Chunk> = Vec::new();
        let mut c: usize = 0;
        while c < self.chunks.len()
            invariant
                self.wf(),
                c <= self.chunks@.len(),
                chunks@.len() == c,
                forall|d: int| 0 <= d < c ==> (#[trigger] chunks@[d]).wf() && chunks@[d]@ == self.chunks@[d]@,
            decreases self.chunks@.len() - c,
        {
            chunks.push(self.chunks[c].duplicate());
            c += 1;
        }
        let r = Region { chunks, entities: self.entities.duplicate() };
        assert(r@.chunks =~= self@.chunks);
        r
    }
}

} // verus!
