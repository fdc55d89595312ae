use vstd::prelude::*;
use crate::position::RegionId;
use crate::codec::{decode_region, encodes, encodes_permuted};
use crate::entity::{Entity, EntityId};
use crate::laws::lemma_apply_ops_split;
use crate::region::{cells_within, Operation, Region, RegionModel, apply_op, apply_ops, default_model, op_in_bounds};

verus! {

/// Identifier of a client session: the 128-bit value of its UUID.
pub type ClientId = u128;

/// An operation tagged with the session that asked for it.
#[derive(Clone, Debug)]
pub struct Procedure {
    pub client: ClientId,
    pub operation: Operation,
}

/// The operations of the procedures in `ps` that `client` did not author, in
/// order.
pub open spec fn others(client: ClientId, ps: Seq<Procedure>) -> Seq<Operation>
    decreases ps.len(),
{
    if ps.len() == 0 {
        Seq::empty()
    } else {
        let prev = others(client, ps.drop_last());
        if ps.last().client != client {
            prev.push(ps.last().operation)
        } else {
            prev
        }
    }
}

/// The in-bounds operations of `ops`, in order, tagged with `client`.
pub open spec fn accepted(client: ClientId, ops: Seq<Operation>) -> Seq<Procedure>
    decreases ops.len(),
{
    if ops.len() == 0 {
        Seq::empty()
    } else {
        let prev = accepted(client, ops.drop_last());
        if op_in_bounds(ops.last()) {
            prev.push(Procedure { client, operation: ops.last() })
        } else {
            prev
        }
    }
}

/// Every operation handed to `client` in a publish batch was authored by
/// another session.
pub proof fn lemma_no_echo(client: ClientId, ps: Seq<Procedure>)
    ensures
        forall|i: int| 0 <= i < others(client, ps).len() ==> exists|j: int|
            0 <= j < ps.len() && (#[trigger] ps[j]).client != client && ps[j].operation == #[trigger] others(client, ps)[i],
    decreases ps.len(),
{
    if ps.len() > 0 {
        let init = ps.drop_last();
        lemma_no_echo(client, init);
        let cur = others(client, ps);
        let prev = others(client, init);
        assert forall|i: int| 0 <= i < cur.len() implies exists|j: int|
            0 <= j < ps.len() && (#[trigger] ps[j]).client != client && ps[j].operation == #[trigger] cur[i] by {
            if i < prev.len() {
                let j = choose|j: int| 0 <= j < init.len() && (#[trigger] init[j]).client != client && init[j].operation == prev[i];
                assert(ps[j] == init[j]);
            } else {
                assert(ps[ps.len() - 1].client != client);
            }
        }
    }
}

/// Every procedure authored by `client` is left out of its publish batch.
pub proof fn lemma_own_left_out(client: ClientId, ps: Seq<Procedure>)
    requires
        forall|j: int| 0 <= j < ps.len() ==> (#[trigger] ps[j]).client == client,
    ensures
        others(client, ps) == Seq::<Operation>::empty(),
    decreases ps.len(),
{
    if ps.len() > 0 {
        lemma_own_left_out(client, ps.drop_last());
        assert(ps[ps.len() - 1].client == client);
    }
}

/// The operations of a log of procedures, in order.
pub open spec fn log_ops(log: Seq<Procedure>) -> Seq<Operation> {
    log.map_values(|p: Procedure| p.operation)
}

/// The two copies of a work unit agree: the published copy, which applied the
/// first `k` procedures of the log and then replays the rest, ends equal to
/// the pending copy, which applied the whole log; both are the fold of the
/// log's operations over the region they started from.
pub proof fn lemma_replicas_agree(start: RegionModel, log: Seq<Procedure>, k: int)
    requires
        0 <= k <= log.len(),
    ensures
        apply_ops(apply_ops(start, log_ops(log.take(k))), log_ops(log.skip(k))) == apply_ops(start, log_ops(log)),
{
    lemma_apply_ops_split(start, log_ops(log.take(k)), log_ops(log.skip(k)));
    assert(log_ops(log.take(k)) + log_ops(log.skip(k)) =~= log_ops(log));
}

impl Operation {
    /// Whether every cell the operation writes lies inside the region.
    pub fn in_bounds(&self) -> (r: bool)
        ensures
            r == op_in_bounds(*self),
    {
        match self {
            Operation::SetBlocks(cells) => cells_within(cells),
            _ => true,
        }
    }
}

/// Tags each in-bounds operation of `ops` with `client`, in order; an
/// operation with a cell outside the region is rejected and left out.
pub fn accept_operations(client: ClientId, ops: Vec<Operation>) -> (r: Vec<Procedure>)
    ensures
        r@ == accepted(client, ops@),
{
    let mut rest = ops;
    let ghost all = rest@;
    let total = rest.len();
    let mut r: Vec<Procedure> = Vec::new();
    let mut k: usize = 0;
    while rest.len() > 0
        invariant
            all.len() == total,
            k + rest@.len() == all.len(),
            rest@ == all.skip(k as int),
            r@ == accepted(client, all.take(k as int)),
        decreases rest@.len(),
    {
        let op = rest.remove(0);
        proof {
            assert(all.take(k + 1).drop_last() =~= all.take(k as int));
            assert(all.take(k + 1).last() == op);
            assert(rest@ =~= all.skip(k + 1));
        }
        if op.in_bounds() {
            r.push(Procedure { client, operation: op });
        }
        k += 1;
    }
    assert(all.take(all.len() as int) =~= all);
    r
}

/// The operations of `polled` that `client` did not author, in order.
pub fn collect_others(client: ClientId, polled: Vec<Procedure>) -> (r: Vec<Operation>)
    ensures
        r@ == others(client, polled@),
{
    let mut rest = polled;
    let ghost all = rest@;
    let total = rest.len();
    let mut r: Vec<Operation> = Vec::new();
    let mut k: usize = 0;
    while rest.len() > 0
        invariant
            all.len() == total,
            k + rest@.len() == all.len(),
            rest@ == all.skip(k as int),
            r@ == others(client, all.take(k as int)),
        decreases rest@.len(),
    {
        let p = rest.remove(0);
        proof {
            assert(all.take(k + 1).drop_last() =~= all.take(k as int));
            assert(all.take(k + 1).last() == p);
            assert(rest@ =~= all.skip(k + 1));
        }
        if p.client != client {
            r.push(p.operation);
        }
        k += 1;
    }
    assert(all.take(all.len() as int) =~= all);
    r
}

/// One publish batch for `client`: for each polled region, in order, the
/// operations that other sessions authored. A region with nothing new gets an
/// empty list.
pub fn publish_batch(client: ClientId, polled: Vec<(RegionId, Vec<Procedure>)>) -> (r: Vec<(RegionId, Vec<Operation>)>)
    ensures
        r@.len() == polled@.len(),
        forall|i: int| 0 <= i < r@.len() ==> (#[trigger] r@[i]).0 == polled@[i].0 && r@[i].1@ == others(client, polled@[i].1@),
{
    let mut rest = polled;
    let ghost all = rest@;
    let total = rest.len();
    let mut r: Vec<(RegionId, Vec<Operation>)> = Vec::new();
    let mut k: usize = 0;
    while rest.len() > 0
        invariant
            all.len() == total,
            k + rest@.len() == all.len(),
            rest@ == all.skip(k as int),
            r@.len() == k,
            forall|i: int| 0 <= i < k ==> (#[trigger] r@[i]).0 == all[i].0 && r@[i].1@ == others(client, all[i].1@),
        decreases rest@.len(),
    {
        let (id, ps) = rest.remove(0);
        proof {
            assert(all[k as int] == (id, ps));
            assert(rest@ =~= all.skip(k + 1));
        }
        let ops = collect_others(client, ps);
        r.push((id, ops));
        k += 1;
    }
    r
}

/// The state of one region held by a work unit: the region's id and its
/// cells and entities.
#[derive(Clone, Debug)]
pub struct WorkUnit {
    region_id: RegionId,
    region: Region,
}

impl WorkUnit {
    pub closed spec fn wf(&self) -> bool {
        self.region.wf()
    }

    pub closed spec fn spec_region_id(&self) -> RegionId {
        self.region_id
    }

    pub closed spec fn spec_region(&self) -> Region {
        self.region
    }

    pub fn new(region_id: RegionId, region: Region) -> (r: Self)
        requires
            region.wf(),
        ensures
            r.wf(),
            r.spec_region_id() == region_id,
            r.spec_region()@ == region@,
    {
        WorkUnit { region_id, region }
    }

    /// A work unit for `region_id` whose region comes from the bytes fetched
    /// from storage: the region they encode, or the default region when
    /// nothing was fetched or the bytes encode no region.
    pub fn from_storage(region_id: RegionId, fetched: Option<Vec<u8>>) -> (r: Self)
        ensures
            r.wf(),
            r.spec_region_id() == region_id,
            fetched is None ==> r.spec_region()@ == default_model(),
            forall|x: Region, s: Seq<(EntityId, Entity)>|
                fetched is Some && #[trigger] encodes_permuted(fetched->0@, x, s) ==> r.spec_region()@ == x@,
            forall|x: Region| fetched is Some && #[trigger] encodes(fetched->0@, x) ==> r.spec_region()@ == x@,
            fetched is Some && !(exists|x: Region, s: Seq<(EntityId, Entity)>| #[trigger] encodes_permuted(fetched->0@, x, s))
                ==> r.spec_region()@ == default_model(),
    {
        let region = match fetched {
            Some(bytes) => match decode_region(&bytes) {
                Ok(region) => {
                    proof {
                        let s = choose|s: Seq<(EntityId, Entity)>| #[trigger] encodes_permuted(bytes@, region, s);
                        assert(encodes_permuted(bytes@, region, s));
                    }
                    region
                },
                Err(_) => Region::new(),
            },
            None => Region::new(),
        };
        WorkUnit { region_id, region }
    }

    /// Applies the operation of a procedure to the region.
    pub fn absorb(&mut self, procedure: &Procedure)
        requires
            old(self).wf(),
        ensures
            final(self).wf(),
            final(self).spec_region_id() == old(self).spec_region_id(),
            final(self).spec_region()@ == apply_op(old(self).spec_region()@, procedure.operation),
    {
        let _ = self.region.apply(&procedure.operation);
    }

    /// A copy holding the same region.
    pub fn duplicate(&self) -> (r: Self)
        requires
            self.wf(),
        ensures
            r.wf(),
            r.spec_region_id() == self.spec_region_id(),
            r.spec_region()@ == self.spec_region()@,
    {
        WorkUnit { region_id: self.region_id, region: self.region.duplicate() }
    }

    pub fn region_id(&self) -> (r: RegionId)
        ensures
            r == self.spec_region_id(),
    {
        self.region_id
    }

    /// The region; it is well formed when the unit is.
    pub fn region(&self) -> (r: &Region)
        ensures
            *r == self.spec_region(),
            self.wf() ==> r.wf(),
    {
        &self.region
    }
}

} // verus!
