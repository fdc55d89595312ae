use vstd::prelude::*;
use crate::chunk::{Block, block_id, block_of};
use crate::position::{RegionPosition, lemma_chunk_and_local_identify, lemma_chunk_indices};
use crate::region::{
    RegionModel, Operation, apply_op, apply_ops, block_at, cells_in_bounds, chunks_wf, id_at,
    write_cells,
};

verus! {

/// The block that the last entry of `cells` for `p` writes, if any entry
/// does.
pub open spec fn last_write(cells: Seq<(RegionPosition, Block)>, p: RegionPosition) -> Option<Block>
    decreases cells.len(),
{
    if cells.len() == 0 {
        None
    } else if cells.last().0 == p {
        Some(cells.last().1)
    } else {
        last_write(cells.drop_last(), p)
    }
}

/// After writing `cells`, a cell holds the block of the last entry for it,
/// or what it held before when there is none.
pub proof fn lemma_write_cells_at(chunks: Seq<Seq<u64>>, cells: Seq<(RegionPosition, Block)>, p: RegionPosition)
    requires
        chunks_wf(chunks),
        cells_in_bounds(cells),
        p.is_valid(),
    ensures
        write_cells(chunks, cells)[p.spec_chunk_id()][p.spec_local()] == match last_write(cells, p) {
            Some(b) => block_id(b),
            None => chunks[p.spec_chunk_id()][p.spec_local()],
        },
    decreases cells.len(),
{
    lemma_chunk_indices(p);
    if cells.len() > 0 {
        let init = cells.drop_last();
        lemma_write_cells_at(chunks, init, p);
        let (q, b) = cells.last();
        assert(cells[cells.len() - 1].0.is_valid());
        lemma_chunk_indices(q);
        crate::region::lemma_write_cells_by_chunk(chunks, init);
        if q != p && q.spec_chunk_id() == p.spec_chunk_id() && q.spec_local() == p.spec_local() {
            lemma_chunk_and_local_identify(p, q);
        }
    }
}

/// The block at a cell after `SetBlocks(cells)`.
pub proof fn lemma_set_blocks_at(m: RegionModel, cells: Vec<(RegionPosition, Block)>, p: RegionPosition)
    requires
        chunks_wf(m.chunks),
        cells_in_bounds(cells@),
        p.is_valid(),
    ensures
        block_at(apply_op(m, Operation::SetBlocks(cells)), p) == match last_write(cells@, p) {
            Some(b) => b,
            None => block_at(m, p),
        },
        chunks_wf(apply_op(m, Operation::SetBlocks(cells)).chunks),
{
    lemma_write_cells_at(m.chunks, cells@, p);
    crate::region::lemma_write_cells_by_chunk(m.chunks, cells@);
    match last_write(cells@, p) {
        Some(b) => {
            assert(block_of(block_id(b)) == b);
        },
        None => {},
    }
}

/// Two `SetBlocks` that touch no common cell, applied in either order, leave
/// every cell with the block that one of them wrote, or with what it held.
pub proof fn lemma_disjoint_set_blocks(m: RegionModel, a: Vec<(RegionPosition, Block)>, b: Vec<(RegionPosition, Block)>, p: RegionPosition)
    requires
        chunks_wf(m.chunks),
        cells_in_bounds(a@),
        cells_in_bounds(b@),
        forall|i: int, j: int| 0 <= i < a@.len() && 0 <= j < b@.len() ==> a@[i].0 != b@[j].0,
        p.is_valid(),
    ensures
        block_at(apply_op(apply_op(m, Operation::SetBlocks(a)), Operation::SetBlocks(b)), p)
            == block_at(apply_op(apply_op(m, Operation::SetBlocks(b)), Operation::SetBlocks(a)), p),
        block_at(apply_op(apply_op(m, Operation::SetBlocks(a)), Operation::SetBlocks(b)), p) == match last_write(a@, p) {
            Some(x) => x,
            None => match last_write(b@, p) {
                Some(y) => y,
                None => block_at(m, p),
            },
        },
{
    let ma = apply_op(m, Operation::SetBlocks(a));
    let mb = apply_op(m, Operation::SetBlocks(b));
    lemma_set_blocks_at(m, a, p);
    lemma_set_blocks_at(m, b, p);
    lemma_set_blocks_at(ma, b, p);
    lemma_set_blocks_at(mb, a, p);
    if last_write(a@, p) is Some && last_write(b@, p) is Some {
        let i = lemma_last_write_entry(a@, p);
        let j = lemma_last_write_entry(b@, p);
        assert(a@[i].0 != b@[j].0);
    }
}

proof fn lemma_last_write_entry(cells: Seq<(RegionPosition, Block)>, p: RegionPosition) -> (i: int)
    requires
        last_write(cells, p) is Some,
    ensures
        0 <= i < cells.len(),
        cells[i].0 == p,
    decreases cells.len(),
{
    if cells.last().0 == p {
        cells.len() - 1
    } else {
        lemma_last_write_entry(cells.drop_last(), p)
    }
}

/// When two `SetBlocks` write the same cell, the cell ends with the block of
/// the one applied last.
pub proof fn lemma_last_writer_wins(m: RegionModel, a: Vec<(RegionPosition, Block)>, b: Vec<(RegionPosition, Block)>, p: RegionPosition)
    requires
        chunks_wf(m.chunks),
        cells_in_bounds(a@),
        cells_in_bounds(b@),
        p.is_valid(),
        last_write(b@, p) is Some,
    ensures
        block_at(apply_op(apply_op(m, Operation::SetBlocks(a)), Operation::SetBlocks(b)), p) == last_write(b@, p)->0,
{
    lemma_set_blocks_at(m, a, p);
    lemma_set_blocks_at(apply_op(m, Operation::SetBlocks(a)), b, p);
}

/// Applying a log in two parts is applying it whole: a copy that applied
/// `ops1` and then catches up on `ops2` equals one that applied `ops1 + ops2`.
pub proof fn lemma_apply_ops_split(m: RegionModel, ops1: Seq<Operation>, ops2: Seq<Operation>)
    ensures
        apply_ops(apply_ops(m, ops1), ops2) == apply_ops(m, ops1 + ops2),
    decreases ops2.len(),
{
    if ops2.len() == 0 {
        assert(ops1 + ops2 =~= ops1);
    } else {
        lemma_apply_ops_split(m, ops1, ops2.drop_last());
        assert((ops1 + ops2).drop_last() =~= ops1 + ops2.drop_last());
    }
}

} // verus!
