use vstd::prelude::*;
use crate::chunk::Block;
use crate::position::{GlobalPosition, RegionId, RegionPosition};

verus! {

/// The region-local position of a world cell.
pub open spec fn spec_region_pos(p: GlobalPosition) -> RegionPosition {
    RegionPosition {
        x: ((p.x as int) % (crate::consts::REGION_SPAN as int)) as u64,
        y: ((p.y as int) % (crate::consts::REGION_SPAN as int)) as u64,
        z: ((p.z as int) % (crate::consts::REGION_SPAN as int)) as u64,
    }
}

/// The cells of `cells` that lie in region `id`, in order, in region-local
/// positions.
pub open spec fn cells_in_region(cells: Seq<(GlobalPosition, Block)>, id: RegionId) -> Seq<(RegionPosition, Block)>
    decreases cells.len(),
{
    if cells.len() == 0 {
        Seq::empty()
    } else {
        let prev = cells_in_region(cells.drop_last(), id);
        let (p, b) = cells.last();
        if p.spec_region_id() == id {
            prev.push((spec_region_pos(p), b))
        } else {
            prev
        }
    }
}

/// Every cell of `cells` lies in a region of the world.
pub open spec fn all_in_world(cells: Seq<(GlobalPosition, Block)>) -> bool {
    forall|k: int| 0 <= k < cells.len() ==> (#[trigger] cells[k]).0.in_world()
}

/// Some cell of `cells` lies in region `id`.
pub open spec fn touches(cells: Seq<(GlobalPosition, Block)>, id: RegionId) -> bool {
    exists|k: int| 0 <= k < cells.len() && (#[trigger] cells[k]).0.spec_region_id() == id
}

/// Splits world cells by region: one entry per region that a cell lies in,
/// in order of first appearance, holding that region's cells in order and in
/// region-local positions.
pub fn group_by_region(cells: &Vec<(GlobalPosition, Block)>) -> (r: Vec<(RegionId, Vec<(RegionPosition, Block)>)>)
    requires
        all_in_world(cells@),
    ensures
        forall|i: int, j: int| 0 <= i < j < r@.len() ==> r@[i].0 != r@[j].0,
        forall|i: int| 0 <= i < r@.len() ==> (#[trigger] r@[i]).1@ == cells_in_region(cells@, r@[i].0),
        forall|i: int| 0 <= i < r@.len() ==> touches(cells@, (#[trigger] r@[i]).0),
        forall|id: RegionId| touches(cells@, id) ==> exists|i: int| 0 <= i < r@.len() && (#[trigger] r@[i]).0 == id,
{
    let mut r: Vec<(RegionId, Vec<(RegionPosition, Block)>)> = Vec::new();
    let mut k: usize = 0;
    while k < cells.len()
        invariant
            k <= cells@.len(),
            all_in_world(cells@),
            forall|i: int, j: int| 0 <= i < j < r@.len() ==> r@[i].0 != r@[j].0,
            forall|i: int| 0 <= i < r@.len() ==> (#[trigger] r@[i]).1@ == cells_in_region(cells@.take(k as int), r@[i].0),
            forall|i: int| 0 <= i < r@.len() ==> touches(cells@.take(k as int), (#[trigger] r@[i]).0),
            forall|id: RegionId| touches(cells@.take(k as int), id) ==> exists|i: int| 0 <= i < r@.len() && (#[trigger] r@[i]).0 == id,
        decreases cells@.len() - k,
    {
        let (p, b) = cells[k];
        assert(cells@[k as int].0.in_world());
        let id = p.to_region_id();
        let local = p.to_region_pos();
        let ghost pre = cells@.take(k as int);
        let ghost post = cells@.take(k + 1);
        proof {
            assert(post.drop_last() =~= pre);
            assert(post.last() == (p, b));
            assert(local == spec_region_pos(p));
            assert forall|q: RegionId| q != id implies cells_in_region(post, q) == cells_in_region(pre, q) by {}
            assert(cells_in_region(post, id) == cells_in_region(pre, id).push((local, b)));
            assert forall|q: RegionId| #[trigger] touches(post, q) <==> (touches(pre, q) || q == id) by {
                if touches(pre, q) {
                    let j = choose|j: int| 0 <= j < pre.len() && (#[trigger] pre[j]).0.spec_region_id() == q;
                    assert(post[j] == pre[j]);
                }
                if q == id {
                    assert(post[k as int].0.spec_region_id() == q);
                }
                if touches(post, q) && q != id {
                    let j = choose|j: int| 0 <= j < post.len() && (#[trigger] post[j]).0.spec_region_id() == q;
                    assert(pre[j] == post[j]);
                }
            }
        }
        let mut i: usize = 0;
        while i < r.len() && r[i].0 != id
            invariant
                i <= r@.len(),
                forall|j: int| 0 <= j < i ==> r@[j].0 != id,
            decreases r@.len() - i,
        {
            i += 1;
        }
        if i < r.len() {
            let ghost old_r = r@;
            let mut entry: (RegionId, Vec<(RegionPosition, Block)>) = (id, Vec::new());
            r.set_and_swap(i, &mut entry);
            entry.1.push((local, b));
            r.set_and_swap(i, &mut entry);
            proof {
                assert forall|j: int| 0 <= j < r@.len() implies r@[j].0 == old_r[j].0 by {}
                assert forall|q: RegionId| touches(post, q) implies exists|j: int| 0 <= j < r@.len() && (#[trigger] r@[j]).0 == q by {
                    if q == id {
                        assert(r@[i as int].0 == q);
                    } else {
                        let j = choose|j: int| 0 <= j < old_r.len() && (#[trigger] old_r[j]).0 == q;
                        assert(r@[j].0 == q);
                    }
                }
            }
        } else {
            let ghost old_r = r@;
            let mut list: Vec<(RegionPosition, Block)> = Vec::new();
            list.push((local, b));
            proof {
                assert(cells_in_region(pre, id) =~= Seq::<(RegionPosition, Block)>::empty()) by {
                    if cells_in_region(pre, id).len() > 0 {
                        lemma_nonempty_touches(pre, id);
                    }
                }
            }
            r.push((id, list));
            proof {
                assert forall|q: RegionId| touches(post, q) implies exists|j: int| 0 <= j < r@.len() && (#[trigger] r@[j]).0 == q by {
                    if q == id {
                        assert(r@[old_r.len() as int].0 == q);
                    } else {
                        let j = choose|j: int| 0 <= j < old_r.len() && (#[trigger] old_r[j]).0 == q;
                        assert(r@[j].0 == q);
                    }
                }
            }
        }
        k += 1;
    }
    assert(cells@.take(cells@.len() as int) =~= cells@);
    r
}

proof fn lemma_nonempty_touches(cells: Seq<(GlobalPosition, Block)>, id: RegionId)
    requires
        cells_in_region(cells, id).len() > 0,
    ensures
        touches(cells, id),
    decreases cells.len(),
{
    let init = cells.drop_last();
    if cells.last().0.spec_region_id() == id {
        assert(cells[cells.len() - 1].0.spec_region_id() == id);
    } else {
        lemma_nonempty_touches(init, id);
        let j = choose|j: int| 0 <= j < init.len() && (#[trigger] init[j]).0.spec_region_id() == id;
        assert(cells[j] == init[j]);
    }
}

} // verus!
