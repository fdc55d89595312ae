use vstd::prelude::*;
use crate::chunk::{Block, block_id};
use crate::codec::{
    DecodeError, encode_entity, encode_region, entity_at, entity_bytes, entries_bytes, le_bytes,
    le_value, lemma_entity_len, lemma_le_len, lemma_le_round_trip,
    lemma_le_bytes_of_value, lemma_le_value_bound, lemma_pow256_values, lemma_sub, pow256, push_le, read_entity, read_field, region_bytes,
};
use crate::entity::{Entity, EntityId};
use crate::position::{RegionId, RegionPosition};
use crate::region::{Operation, OperationView, Region};

verus! {

/// `seg` lies in `b` at `pos`.
pub open spec fn bytes_at(b: Seq<u8>, pos: int, seg: Seq<u8>) -> bool {
    &&& 0 <= pos
    &&& pos + seg.len() <= b.len()
    &&& b.subrange(pos, pos + seg.len()) == seg
}

proof fn lemma_at_split(b: Seq<u8>, pos: int, h: Seq<u8>, r: Seq<u8>)
    requires
        bytes_at(b, pos, h + r),
    ensures
        bytes_at(b, pos, h),
        bytes_at(b, pos + h.len(), r),
{
    lemma_sub(b, pos, h + r, 0, h.len() as int);
    assert((h + r).subrange(0, h.len() as int) =~= h);
    lemma_sub(b, pos, h + r, h.len() as int, r.len() as int);
    assert((h + r).subrange(h.len() as int, (h.len() + r.len()) as int) =~= r);
}

proof fn lemma_field(b: Seq<u8>, pos: int, v: int, n: nat)
    requires
        bytes_at(b, pos, le_bytes(v, n)),
        0 <= v < pow256(n),
    ensures
        le_value(b.subrange(pos, pos + n)) == v,
        le_bytes(v, n).len() == n,
{
    lemma_le_round_trip(v, n);
}

/// A field of `n` bytes is the `n` low bytes of the number it spells.
proof fn lemma_exact_field(b: Seq<u8>, pos: int, n: nat)
    requires
        0 <= pos,
        pos + n <= b.len(),
    ensures
        le_bytes(le_value(b.subrange(pos, pos + n)), n) == b.subrange(pos, pos + n),
        0 <= le_value(b.subrange(pos, pos + n)) < pow256(n),
{
    lemma_le_bytes_of_value(b.subrange(pos, pos + n));
    lemma_le_value_bound(b.subrange(pos, pos + n));
}

/// The bytes of one cell write: the three coordinates, then the block id,
/// eight bytes each.
pub open spec fn cell_bytes(c: (RegionPosition, Block)) -> Seq<u8> {
    le_bytes(c.0.x as int, 8) + le_bytes(c.0.y as int, 8) + le_bytes(c.0.z as int, 8) + le_bytes(block_id(c.1) as int, 8)
}

/// The views of a list of operations.
pub open spec fn ops_view(s: Seq<Operation>) -> Seq<OperationView> {
    s.map_values(|o: Operation| o@)
}

/// The views of a batch of per-region operation lists.
pub open spec fn batch_view(s: Seq<(RegionId, Vec<Operation>)>) -> Seq<(RegionId, Seq<OperationView>)> {
    s.map_values(|e: (RegionId, Vec<Operation>)| (e.0, ops_view(e.1@)))
}

/// The bytes of an operation: a four-byte tag, the number of entries in eight
/// bytes, then the entries.
pub open spec fn op_bytes(v: OperationView) -> Seq<u8> {
    match v {
        OperationView::SetBlocks(cs) => le_bytes(0, 4) + le_bytes(cs.len() as int, 8) + cells_bytes(cs),
        OperationView::InsertEntity(es) => le_bytes(1, 4) + le_bytes(es.len() as int, 8) + entries_bytes(es),
        OperationView::RemoveEntity(ids) => le_bytes(2, 4) + le_bytes(ids.len() as int, 8) + entity_ids_bytes(ids),
    }
}

/// The entries of the operation can be counted in a `usize`.
pub open spec fn op_fits(v: OperationView) -> bool {
    match v {
        OperationView::SetBlocks(cs) => cs.len() <= usize::MAX,
        OperationView::InsertEntity(es) => es.len() <= usize::MAX,
        OperationView::RemoveEntity(ids) => ids.len() <= usize::MAX,
    }
}

/// The bytes of one region's operation list: the region id, the number of
/// operations, then the operations.
pub open spec fn batch_entry_bytes(e: (RegionId, Seq<OperationView>)) -> Seq<u8> {
    le_bytes(e.0 as int, 8) + le_bytes(e.1.len() as int, 8) + ops_bytes(e.1)
}

/// Every count in the entry can be held in a `usize`.
pub open spec fn batch_entry_fits(e: (RegionId, Seq<OperationView>)) -> bool {
    e.1.len() <= usize::MAX && ops_fit(e.1)
}

/// The bytes of each entry of `s`, in order.
pub open spec fn cells_bytes(s: Seq<(RegionPosition, Block)>) -> Seq<u8>
    decreases s.len(),
{
    if s.len() == 0 {
        Seq::empty()
    } else {
        cell_bytes(s[0]) + cells_bytes(s.skip(1))
    }
}

proof fn lemma_cells_push(s: Seq<(RegionPosition, Block)>, x: (RegionPosition, Block))
    ensures
        cells_bytes(s.push(x)) == cells_bytes(s) + cell_bytes(x),
    decreases s.len(),
{
    let t = s.push(x);
    assert(t.skip(1) =~= if s.len() == 0 { Seq::<(RegionPosition, Block)>::empty() } else { s.skip(1).push(x) });
    if s.len() == 0 {
        assert(t[0] == x);
        assert(cells_bytes(Seq::<(RegionPosition, Block)>::empty()) == Seq::<u8>::empty());
        assert(cells_bytes(t) =~= cells_bytes(s) + cell_bytes(x));
    } else {
        lemma_cells_push(s.skip(1), x);
        assert(t[0] == s[0]);
        assert(cells_bytes(t) =~= cells_bytes(s) + cell_bytes(x));
    }
}

proof fn lemma_cells_unfold(s: Seq<(RegionPosition, Block)>, i: int)
    requires
        0 <= i < s.len(),
    ensures
        cells_bytes(s.skip(i)) == cell_bytes(s[i]) + cells_bytes(s.skip(i + 1)),
{
    assert(s.skip(i).skip(1) =~= s.skip(i + 1));
    assert(s.skip(i)[0] == s[i]);
}

proof fn lemma_entries_push(s: Seq<(EntityId, Entity)>, x: (EntityId, Entity))
    ensures
        entries_bytes(s.push(x)) == entries_bytes(s) + entity_bytes(x.0, x.1),
    decreases s.len(),
{
    let t = s.push(x);
    assert(t.skip(1) =~= if s.len() == 0 { Seq::<(EntityId, Entity)>::empty() } else { s.skip(1).push(x) });
    if s.len() == 0 {
        assert(t[0] == x);
        assert(entries_bytes(Seq::<(EntityId, Entity)>::empty()) == Seq::<u8>::empty());
        assert(entries_bytes(t) =~= entries_bytes(s) + entity_bytes(x.0, x.1));
    } else {
        lemma_entries_push(s.skip(1), x);
        assert(t[0] == s[0]);
        assert(entries_bytes(t) =~= entries_bytes(s) + entity_bytes(x.0, x.1));
    }
}

proof fn lemma_entries_unfold(s: Seq<(EntityId, Entity)>, i: int)
    requires
        0 <= i < s.len(),
    ensures
        entries_bytes(s.skip(i)) == entity_bytes(s[i].0, s[i].1) + entries_bytes(s.skip(i + 1)),
{
    assert(s.skip(i).skip(1) =~= s.skip(i + 1));
    assert(s.skip(i)[0] == s[i]);
}

/// The bytes of each entry of `s`, in order.
pub open spec fn entity_ids_bytes(s: Seq<EntityId>) -> Seq<u8>
    decreases s.len(),
{
    if s.len() == 0 {
        Seq::empty()
    } else {
        le_bytes(s[0] as int, 16) + entity_ids_bytes(s.skip(1))
    }
}

proof fn lemma_entity_ids_push(s: Seq<EntityId>, x: EntityId)
    ensures
        entity_ids_bytes(s.push(x)) == entity_ids_bytes(s) + le_bytes(x as int, 16),
    decreases s.len(),
{
    let t = s.push(x);
    assert(t.skip(1) =~= if s.len() == 0 { Seq::<EntityId>::empty() } else { s.skip(1).push(x) });
    if s.len() == 0 {
        assert(t[0] == x);
        assert(entity_ids_bytes(Seq::<EntityId>::empty()) == Seq::<u8>::empty());
        assert(entity_ids_bytes(t) =~= entity_ids_bytes(s) + le_bytes(x as int, 16));
    } else {
        lemma_entity_ids_push(s.skip(1), x);
        assert(t[0] == s[0]);
        assert(entity_ids_bytes(t) =~= entity_ids_bytes(s) + le_bytes(x as int, 16));
    }
}

proof fn lemma_entity_ids_unfold(s: Seq<EntityId>, i: int)
    requires
        0 <= i < s.len(),
    ensures
        entity_ids_bytes(s.skip(i)) == le_bytes(s[i] as int, 16) + entity_ids_bytes(s.skip(i + 1)),
{
    assert(s.skip(i).skip(1) =~= s.skip(i + 1));
    assert(s.skip(i)[0] == s[i]);
}

/// The bytes of each entry of `s`, in order.
pub open spec fn region_ids_bytes(s: Seq<RegionId>) -> Seq<u8>
    decreases s.len(),
{
    if s.len() == 0 {
        Seq::empty()
    } else {
        le_bytes(s[0] as int, 8) + region_ids_bytes(s.skip(1))
    }
}

proof fn lemma_region_ids_push(s: Seq<RegionId>, x: RegionId)
    ensures
        region_ids_bytes(s.push(x)) == region_ids_bytes(s) + le_bytes(x as int, 8),
    decreases s.len(),
{
    let t = s.push(x);
    assert(t.skip(1) =~= if s.len() == 0 { Seq::<RegionId>::empty() } else { s.skip(1).push(x) });
    if s.len() == 0 {
        assert(t[0] == x);
        assert(region_ids_bytes(Seq::<RegionId>::empty()) == Seq::<u8>::empty());
        assert(region_ids_bytes(t) =~= region_ids_bytes(s) + le_bytes(x as int, 8));
    } else {
        lemma_region_ids_push(s.skip(1), x);
        assert(t[0] == s[0]);
        assert(region_ids_bytes(t) =~= region_ids_bytes(s) + le_bytes(x as int, 8));
    }
}

proof fn lemma_region_ids_unfold(s: Seq<RegionId>, i: int)
    requires
        0 <= i < s.len(),
    ensures
        region_ids_bytes(s.skip(i)) == le_bytes(s[i] as int, 8) + region_ids_bytes(s.skip(i + 1)),
{
    assert(s.skip(i).skip(1) =~= s.skip(i + 1));
    assert(s.skip(i)[0] == s[i]);
}

/// The bytes of each entry of `s`, in order.
pub open spec fn ops_bytes(s: Seq<OperationView>) -> Seq<u8>
    decreases s.len(),
{
    if s.len() == 0 {
        Seq::empty()
    } else {
        op_bytes(s[0]) + ops_bytes(s.skip(1))
    }
}

/// Every entry of `s` can be counted in a `usize`.
pub open spec fn ops_fit(s: Seq<OperationView>) -> bool {
    forall|i: int| 0 <= i < s.len() ==> #[trigger] op_fits(s[i])
}

proof fn lemma_ops_push(s: Seq<OperationView>, x: OperationView)
    ensures
        ops_bytes(s.push(x)) == ops_bytes(s) + op_bytes(x),
    decreases s.len(),
{
    let t = s.push(x);
    assert(t.skip(1) =~= if s.len() == 0 { Seq::<OperationView>::empty() } else { s.skip(1).push(x) });
    if s.len() == 0 {
        assert(t[0] == x);
        assert(ops_bytes(Seq::<OperationView>::empty()) == Seq::<u8>::empty());
        assert(ops_bytes(t) =~= ops_bytes(s) + op_bytes(x));
    } else {
        lemma_ops_push(s.skip(1), x);
        assert(t[0] == s[0]);
        assert(ops_bytes(t) =~= ops_bytes(s) + op_bytes(x));
    }
}

proof fn lemma_ops_unfold(s: Seq<OperationView>, i: int)
    requires
        0 <= i < s.len(),
    ensures
        ops_bytes(s.skip(i)) == op_bytes(s[i]) + ops_bytes(s.skip(i + 1)),
{
    assert(s.skip(i).skip(1) =~= s.skip(i + 1));
    assert(s.skip(i)[0] == s[i]);
}

/// The bytes of each entry of `s`, in order.
pub open spec fn batch_bytes(s: Seq<(RegionId, Seq<OperationView>)>) -> Seq<u8>
    decreases s.len(),
{
    if s.len() == 0 {
        Seq::empty()
    } else {
        batch_entry_bytes(s[0]) + batch_bytes(s.skip(1))
    }
}

/// Every entry of `s` can be counted in a `usize`.
pub open spec fn batch_fit(s: Seq<(RegionId, Seq<OperationView>)>) -> bool {
    forall|i: int| 0 <= i < s.len() ==> #[trigger] batch_entry_fits(s[i])
}

proof fn lemma_batch_push(s: Seq<(RegionId, Seq<OperationView>)>, x: (RegionId, Seq<OperationView>))
    ensures
        batch_bytes(s.push(x)) == batch_bytes(s) + batch_entry_bytes(x),
    decreases s.len(),
{
    let t = s.push(x);
    assert(t.skip(1) =~= if s.len() == 0 { Seq::<(RegionId, Seq<OperationView>)>::empty() } else { s.skip(1).push(x) });
    if s.len() == 0 {
        assert(t[0] == x);
        assert(batch_bytes(Seq::<(RegionId, Seq<OperationView>)>::empty()) == Seq::<u8>::empty());
        assert(batch_bytes(t) =~= batch_bytes(s) + batch_entry_bytes(x));
    } else {
        lemma_batch_push(s.skip(1), x);
        assert(t[0] == s[0]);
        assert(batch_bytes(t) =~= batch_bytes(s) + batch_entry_bytes(x));
    }
}

proof fn lemma_batch_unfold(s: Seq<(RegionId, Seq<OperationView>)>, i: int)
    requires
        0 <= i < s.len(),
    ensures
        batch_bytes(s.skip(i)) == batch_entry_bytes(s[i]) + batch_bytes(s.skip(i + 1)),
{
    assert(s.skip(i).skip(1) =~= s.skip(i + 1));
    assert(s.skip(i)[0] == s[i]);
}

/// Reads one cell write at `pos`: on success, the cell and the position
/// after it.
fn read_cell(bytes: &Vec<u8>, pos: usize) -> (r: Option<((RegionPosition, Block), usize)>)
    ensures
        r is Some ==> pos <= r.unwrap().1 <= bytes@.len()
            && bytes@.subrange(pos as int, r.unwrap().1 as int) == cell_bytes(r.unwrap().0),
        forall|c: (RegionPosition, Block)| #[trigger] bytes_at(bytes@, pos as int, cell_bytes(c)) ==>
            r is Some && r.unwrap().0 == c && r.unwrap().1 == pos + cell_bytes(c).len(),
{
    let total = bytes.len();
    proof {
        lemma_pow256_values();
        assert forall|c: (RegionPosition, Block)| #[trigger] bytes_at(bytes@, pos as int, cell_bytes(c)) implies
            cell_bytes(c).len() == 32
            && le_value(bytes@.subrange(pos as int, pos + 8)) == c.0.x
            && le_value(bytes@.subrange(pos + 8, pos + 16)) == c.0.y
            && le_value(bytes@.subrange(pos + 16, pos + 24)) == c.0.z
            && le_value(bytes@.subrange(pos + 24, pos + 32)) == block_id(c.1) by {
            let a = le_bytes(c.0.x as int, 8);
            let b = le_bytes(c.0.y as int, 8);
            let d = le_bytes(c.0.z as int, 8);
            let e = le_bytes(block_id(c.1) as int, 8);
            lemma_le_len(c.0.x as int, 8);
            lemma_le_len(c.0.y as int, 8);
            lemma_le_len(c.0.z as int, 8);
            lemma_le_len(block_id(c.1) as int, 8);
            lemma_at_split(bytes@, pos as int, a + b + d, e);
            lemma_at_split(bytes@, pos as int, a + b, d);
            lemma_at_split(bytes@, pos as int, a, b);
            lemma_field(bytes@, pos as int, c.0.x as int, 8);
            lemma_field(bytes@, pos + 8, c.0.y as int, 8);
            lemma_field(bytes@, pos + 16, c.0.z as int, 8);
            lemma_field(bytes@, pos + 24, block_id(c.1) as int, 8);
        }
    }
    if pos > total || total - pos < 32 {
        return None;
    }
    let x = read_field(bytes, pos, 8);
    let y = read_field(bytes, pos + 8, 8);
    let z = read_field(bytes, pos + 16, 8);
    let id = read_field(bytes, pos + 24, 8);
    let b = match Block::from_id(id as u64) {
        Some(b) => b,
        None => {
            return None;
        },
    };
    let p = RegionPosition { x: x as u64, y: y as u64, z: z as u64 };
    proof {
        assert forall|c: (RegionPosition, Block)| #[trigger] bytes_at(bytes@, pos as int, cell_bytes(c)) implies
            (p, b) == c by {
            assert(block_id(b) == block_id(c.1));
        }
        lemma_exact_field(bytes@, pos as int, 8);
        lemma_exact_field(bytes@, pos + 8, 8);
        lemma_exact_field(bytes@, pos + 16, 8);
        lemma_exact_field(bytes@, pos + 24, 8);
        assert(bytes@.subrange(pos as int, pos + 32) =~= bytes@.subrange(pos as int, pos + 8) + bytes@.subrange(pos + 8, pos + 16)
            + bytes@.subrange(pos + 16, pos + 24) + bytes@.subrange(pos + 24, pos + 32));
    }
    Some(((p, b), pos + 32))
}

/// Reads a sixteen-byte entity id at `pos`.
fn read_entity_id(bytes: &Vec<u8>, pos: usize) -> (r: Option<(EntityId, usize)>)
    ensures
        r is Some ==> pos <= r.unwrap().1 <= bytes@.len()
            && bytes@.subrange(pos as int, r.unwrap().1 as int) == le_bytes(r.unwrap().0 as int, 16),
        forall|v: EntityId| #[trigger] bytes_at(bytes@, pos as int, le_bytes(v as int, 16)) ==>
            r is Some && r.unwrap().0 == v && r.unwrap().1 == pos + le_bytes(v as int, 16).len(),
{
    let total = bytes.len();
    proof {
        lemma_pow256_values();
        assert forall|v: EntityId| #[trigger] bytes_at(bytes@, pos as int, le_bytes(v as int, 16)) implies
            le_value(bytes@.subrange(pos as int, pos + 16)) == v && le_bytes(v as int, 16).len() == 16 by {
            lemma_field(bytes@, pos as int, v as int, 16);
        }
    }
    if pos > total || total - pos < 16 {
        return None;
    }
    proof {
        lemma_exact_field(bytes@, pos as int, 16);
    }
    Some((read_field(bytes, pos, 16), pos + 16))
}

/// Reads an eight-byte region id at `pos`.
fn read_region_id(bytes: &Vec<u8>, pos: usize) -> (r: Option<(RegionId, usize)>)
    ensures
        r is Some ==> pos <= r.unwrap().1 <= bytes@.len()
            && bytes@.subrange(pos as int, r.unwrap().1 as int) == le_bytes(r.unwrap().0 as int, 8),
        forall|v: RegionId| #[trigger] bytes_at(bytes@, pos as int, le_bytes(v as int, 8)) ==>
            r is Some && r.unwrap().0 == v && r.unwrap().1 == pos + le_bytes(v as int, 8).len(),
{
    let total = bytes.len();
    proof {
        lemma_pow256_values();
        assert forall|v: RegionId| #[trigger] bytes_at(bytes@, pos as int, le_bytes(v as int, 8)) implies
            le_value(bytes@.subrange(pos as int, pos + 8)) == v && le_bytes(v as int, 8).len() == 8 by {
            lemma_field(bytes@, pos as int, v as int, 8);
        }
    }
    if pos > total || total - pos < 8 {
        return None;
    }
    proof {
        lemma_exact_field(bytes@, pos as int, 8);
    }
    Some((read_field(bytes, pos, 8) as u64, pos + 8))
}

/// The tag and entry count that an operation's bytes start with.
pub open spec fn op_header(v: OperationView) -> (int, int) {
    match v {
        OperationView::SetBlocks(cs) => (0, cs.len() as int),
        OperationView::InsertEntity(es) => (1, es.len() as int),
        OperationView::RemoveEntity(ids) => (2, ids.len() as int),
    }
}

/// The bytes of an operation's entries.
pub open spec fn op_body(v: OperationView) -> Seq<u8> {
    match v {
        OperationView::SetBlocks(cs) => cells_bytes(cs),
        OperationView::InsertEntity(es) => entries_bytes(es),
        OperationView::RemoveEntity(ids) => entity_ids_bytes(ids),
    }
}

proof fn lemma_header(bytes: Seq<u8>, pos: int, tag: int, n: int, body: Seq<u8>)
    requires
        bytes_at(bytes, pos, le_bytes(tag, 4) + le_bytes(n, 8) + body),
        0 <= tag < 0x1_0000_0000,
        0 <= n <= usize::MAX,
    ensures
        le_value(bytes.subrange(pos, pos + 4)) == tag,
        le_value(bytes.subrange(pos + 4, pos + 12)) == n,
        bytes_at(bytes, pos + 12, body),
        (le_bytes(tag, 4) + le_bytes(n, 8) + body).len() == 12 + body.len(),
{
    lemma_pow256_values();
    lemma_le_len(tag, 4);
    lemma_le_len(n, 8);
    lemma_at_split(bytes, pos, le_bytes(tag, 4) + le_bytes(n, 8), body);
    lemma_at_split(bytes, pos, le_bytes(tag, 4), le_bytes(n, 8));
    lemma_field(bytes, pos, tag, 4);
    lemma_field(bytes, pos + 4, n, 8);
}

/// Reads one operation at `pos`: on success, the operation and the position
/// after it.
fn read_operation(bytes: &Vec<u8>, pos: usize) -> (r: Option<(Operation, usize)>)
    ensures
        r is Some ==> pos <= r.unwrap().1 <= bytes@.len()
            && bytes@.subrange(pos as int, r.unwrap().1 as int) == op_bytes(r.unwrap().0@),
        forall|v: OperationView| #[trigger] bytes_at(bytes@, pos as int, op_bytes(v)) && op_fits(v) ==>
            r is Some && r.unwrap().0@ == v && r.unwrap().1 == pos + op_bytes(v).len(),
{
    let total = bytes.len();
    proof {
        assert forall|v: OperationView| #[trigger] bytes_at(bytes@, pos as int, op_bytes(v)) && op_fits(v) implies
            pos + 12 <= total
            && le_value(bytes@.subrange(pos as int, pos + 4)) == op_header(v).0
            && le_value(bytes@.subrange(pos + 4, pos + 12)) == op_header(v).1
            && bytes_at(bytes@, pos + 12, op_body(v))
            && op_bytes(v).len() == 12 + op_body(v).len() by {
            lemma_header(bytes@, pos as int, op_header(v).0, op_header(v).1, op_body(v));
        }
    }
    if pos > total || total - pos < 12 {
        return None;
    }
    let tag = read_field(bytes, pos, 4);
    let n = read_field(bytes, pos + 4, 8);
    proof {
        lemma_exact_field(bytes@, pos as int, 4);
        lemma_exact_field(bytes@, pos + 4, 8);
        assert forall|end: int| pos + 12 <= end <= bytes@.len() implies #[trigger] bytes@.subrange(pos as int, end)
            == bytes@.subrange(pos as int, pos + 4) + bytes@.subrange(pos + 4, pos + 12) + bytes@.subrange(pos + 12, end) by {
            assert(bytes@.subrange(pos as int, end)
                =~= bytes@.subrange(pos as int, pos + 4) + bytes@.subrange(pos + 4, pos + 12) + bytes@.subrange(pos + 12, end));
        }
    }
    if tag == 0 {
        match read_cells(bytes, pos + 12, n) {
            Some((cells, end)) => Some((Operation::SetBlocks(cells), end)),
            None => None,
        }
    } else if tag == 1 {
        match read_entries(bytes, pos + 12, n) {
            Some((es, end)) => Some((Operation::InsertEntity(es), end)),
            None => None,
        }
    } else if tag == 2 {
        match read_entity_ids(bytes, pos + 12, n) {
            Some((ids, end)) => Some((Operation::RemoveEntity(ids), end)),
            None => None,
        }
    } else {
        None
    }
}

/// Reads one region's operation list at `pos`: on success, the region id with
/// its operations, and the position after them.
fn read_batch_entry(bytes: &Vec<u8>, pos: usize) -> (r: Option<((RegionId, Vec<Operation>), usize)>)
    ensures
        r is Some ==> pos <= r.unwrap().1 <= bytes@.len()
            && bytes@.subrange(pos as int, r.unwrap().1 as int) == batch_entry_bytes((r.unwrap().0.0, ops_view(r.unwrap().0.1@))),
        forall|e: (RegionId, Seq<OperationView>)| #[trigger] bytes_at(bytes@, pos as int, batch_entry_bytes(e)) && batch_entry_fits(e) ==>
            r is Some && (r.unwrap().0.0, ops_view(r.unwrap().0.1@)) == e && r.unwrap().1 == pos + batch_entry_bytes(e).len(),
{
    let total = bytes.len();
    proof {
        assert forall|e: (RegionId, Seq<OperationView>)| #[trigger] bytes_at(bytes@, pos as int, batch_entry_bytes(e)) && batch_entry_fits(e) implies
            pos + 16 <= total
            && le_value(bytes@.subrange(pos as int, pos + 8)) == e.0
            && le_value(bytes@.subrange(pos + 8, pos + 16)) == e.1.len()
            && bytes_at(bytes@, pos + 16, ops_bytes(e.1))
            && batch_entry_bytes(e).len() == 16 + ops_bytes(e.1).len() by {
            lemma_pow256_values();
            lemma_le_len(e.0 as int, 8);
            lemma_le_len(e.1.len() as int, 8);
            lemma_at_split(bytes@, pos as int, le_bytes(e.0 as int, 8) + le_bytes(e.1.len() as int, 8), ops_bytes(e.1));
            lemma_at_split(bytes@, pos as int, le_bytes(e.0 as int, 8), le_bytes(e.1.len() as int, 8));
            lemma_field(bytes@, pos as int, e.0 as int, 8);
            lemma_field(bytes@, pos + 8, e.1.len() as int, 8);
        }
    }
    if pos > total || total - pos < 16 {
        return None;
    }
    proof {
        lemma_pow256_values();
    }
    let id = read_field(bytes, pos, 8) as u64;
    let n = read_field(bytes, pos + 8, 8);
    proof {
        lemma_exact_field(bytes@, pos as int, 8);
        lemma_exact_field(bytes@, pos + 8, 8);
        assert forall|end: int| pos + 16 <= end <= bytes@.len() implies #[trigger] bytes@.subrange(pos as int, end)
            == bytes@.subrange(pos as int, pos + 8) + bytes@.subrange(pos + 8, pos + 16) + bytes@.subrange(pos + 16, end) by {
            assert(bytes@.subrange(pos as int, end)
                =~= bytes@.subrange(pos as int, pos + 8) + bytes@.subrange(pos + 8, pos + 16) + bytes@.subrange(pos + 16, end));
        }
    }
    match read_ops(bytes, pos + 16, n) {
        Some((ops, end)) => Some(((id, ops), end)),
        None => None,
    }
}

/// Reads `n` entries of `cells_bytes` at `pos`: on success, the entries and
/// the position after them.
fn read_cells(bytes: &Vec<u8>, pos: usize, n: u128) -> (r: Option<(Vec<(RegionPosition, Block)>, usize)>)
    ensures
        r is Some ==> pos <= r.unwrap().1 <= bytes@.len() && r.unwrap().0@.len() == n
            && bytes@.subrange(pos as int, r.unwrap().1 as int) == cells_bytes(r.unwrap().0@),
        forall|s: Seq<(RegionPosition, Block)>| #[trigger] bytes_at(bytes@, pos as int, cells_bytes(s)) && s.len() == n ==>
            r is Some && r.unwrap().0@ == s && r.unwrap().1 == pos + cells_bytes(s).len(),
{
    let total = bytes.len();
    if pos > total {
        return None;
    }
    let mut out: Vec<(RegionPosition, Block)> = Vec::new();
    let mut cur = pos;
    let mut i: u128 = 0;
    proof {
        assert(out@ =~= Seq::<(RegionPosition, Block)>::empty());
        assert(bytes@.subrange(pos as int, pos as int) =~= cells_bytes(out@));
        assert forall|s: Seq<(RegionPosition, Block)>| #[trigger] bytes_at(bytes@, pos as int, cells_bytes(s)) && s.len() == n implies
            out@ == s.take(0) && bytes_at(bytes@, cur as int, cells_bytes(s.skip(0)))
            && cur + cells_bytes(s.skip(0)).len() == pos + cells_bytes(s).len() by {
            assert(s.skip(0) =~= s);
            assert(s.take(0) =~= Seq::<(RegionPosition, Block)>::empty());
            assert(out@ =~= Seq::<(RegionPosition, Block)>::empty());
        }
    }
    while i < n
        invariant
            bytes@.len() == total,
            pos <= cur <= total,
            i <= n,
            out@.len() == i,
            bytes@.subrange(pos as int, cur as int) == cells_bytes(out@),
            forall|s: Seq<(RegionPosition, Block)>| #[trigger] bytes_at(bytes@, pos as int, cells_bytes(s)) && s.len() == n ==>
                out@ == s.take(i as int) && bytes_at(bytes@, cur as int, cells_bytes(s.skip(i as int)))
                && cur + cells_bytes(s.skip(i as int)).len() == pos + cells_bytes(s).len(),
        decreases n - i,
    {
        let next = read_cell(bytes, cur);
        proof {
            assert forall|s: Seq<(RegionPosition, Block)>| #[trigger] bytes_at(bytes@, pos as int, cells_bytes(s)) && s.len() == n implies
                next is Some && next.unwrap().0 == s[i as int]
                && next.unwrap().1 == cur + (cell_bytes(s[i as int])).len()
                && bytes_at(bytes@, next.unwrap().1 as int, cells_bytes(s.skip(i + 1))) by {
                lemma_cells_unfold(s, i as int);
                lemma_at_split(bytes@, cur as int, cell_bytes(s[i as int]), cells_bytes(s.skip(i + 1)));
                assert(bytes_at(bytes@, cur as int, cell_bytes(s[i as int])));
            }
        }
        match next {
            Some((item, end)) => {
                let ghost before = cur;
                let ghost before_view = out@;
                out.push(item);
                cur = end;
                proof {
                    assert(out@ =~= before_view.push(item));
                    lemma_cells_push(before_view, item);
                    assert(bytes@.subrange(pos as int, cur as int)
                        =~= bytes@.subrange(pos as int, before as int) + bytes@.subrange(before as int, cur as int));
                    assert forall|s: Seq<(RegionPosition, Block)>| #[trigger] bytes_at(bytes@, pos as int, cells_bytes(s)) && s.len() == n implies
                        out@ == s.take(i + 1) && bytes_at(bytes@, cur as int, cells_bytes(s.skip(i + 1)))
                        && cur + cells_bytes(s.skip(i + 1)).len() == pos + cells_bytes(s).len() by {
                        assert(out@ =~= s.take(i + 1));
                        lemma_cells_unfold(s, i as int);
                        assert(cur == before + (cell_bytes(s[i as int])).len());
                    }
                }
            },
            None => {
                return None;
            },
        }
        i += 1;
    }
    proof {
        assert forall|s: Seq<(RegionPosition, Block)>| #[trigger] bytes_at(bytes@, pos as int, cells_bytes(s)) && s.len() == n implies
            out@ == s && cur == pos + cells_bytes(s).len() by {
            assert(s.take(n as int) =~= s);
            assert(s.skip(n as int) =~= Seq::<(RegionPosition, Block)>::empty());
        }
    }
    Some((out, cur))
}

/// Reads `n` entries of `entries_bytes` at `pos`: on success, the entries and
/// the position after them.
fn read_entries(bytes: &Vec<u8>, pos: usize, n: u128) -> (r: Option<(Vec<(EntityId, Entity)>, usize)>)
    ensures
        r is Some ==> pos <= r.unwrap().1 <= bytes@.len() && r.unwrap().0@.len() == n
            && bytes@.subrange(pos as int, r.unwrap().1 as int) == entries_bytes(r.unwrap().0@),
        forall|s: Seq<(EntityId, Entity)>| #[trigger] bytes_at(bytes@, pos as int, entries_bytes(s)) && s.len() == n ==>
            r is Some && r.unwrap().0@ == s && r.unwrap().1 == pos + entries_bytes(s).len(),
{
    let total = bytes.len();
    if pos > total {
        return None;
    }
    let mut out: Vec<(EntityId, Entity)> = Vec::new();
    let mut cur = pos;
    let mut i: u128 = 0;
    proof {
        assert(out@ =~= Seq::<(EntityId, Entity)>::empty());
        assert(bytes@.subrange(pos as int, pos as int) =~= entries_bytes(out@));
        assert forall|s: Seq<(EntityId, Entity)>| #[trigger] bytes_at(bytes@, pos as int, entries_bytes(s)) && s.len() == n implies
            out@ == s.take(0) && bytes_at(bytes@, cur as int, entries_bytes(s.skip(0)))
            && cur + entries_bytes(s.skip(0)).len() == pos + entries_bytes(s).len() by {
            assert(s.skip(0) =~= s);
            assert(s.take(0) =~= Seq::<(EntityId, Entity)>::empty());
            assert(out@ =~= Seq::<(EntityId, Entity)>::empty());
        }
    }
    while i < n
        invariant
            bytes@.len() == total,
            pos <= cur <= total,
            i <= n,
            out@.len() == i,
            bytes@.subrange(pos as int, cur as int) == entries_bytes(out@),
            forall|s: Seq<(EntityId, Entity)>| #[trigger] bytes_at(bytes@, pos as int, entries_bytes(s)) && s.len() == n ==>
                out@ == s.take(i as int) && bytes_at(bytes@, cur as int, entries_bytes(s.skip(i as int)))
                && cur + entries_bytes(s.skip(i as int)).len() == pos + entries_bytes(s).len(),
        decreases n - i,
    {
        let next = read_entity(bytes, cur);
        proof {
            assert forall|s: Seq<(EntityId, Entity)>| #[trigger] bytes_at(bytes@, pos as int, entries_bytes(s)) && s.len() == n implies
                next is Some && next.unwrap().0 == s[i as int]
                && next.unwrap().1 == cur + (entity_bytes(s[i as int].0, s[i as int].1)).len()
                && bytes_at(bytes@, next.unwrap().1 as int, entries_bytes(s.skip(i + 1))) by {
                lemma_entries_unfold(s, i as int);
                lemma_at_split(bytes@, cur as int, entity_bytes(s[i as int].0, s[i as int].1), entries_bytes(s.skip(i + 1)));
                lemma_entity_len(s[i as int].0, s[i as int].1);
                assert(entity_at(bytes@, cur as int, s[i as int].0, s[i as int].1));
            }
        }
        match next {
            Some((item, end)) => {
                let ghost before = cur;
                let ghost before_view = out@;
                out.push(item);
                cur = end;
                proof {
                    assert(out@ =~= before_view.push(item));
                    lemma_entries_push(before_view, item);
                    assert(bytes@.subrange(pos as int, cur as int)
                        =~= bytes@.subrange(pos as int, before as int) + bytes@.subrange(before as int, cur as int));
                    assert forall|s: Seq<(EntityId, Entity)>| #[trigger] bytes_at(bytes@, pos as int, entries_bytes(s)) && s.len() == n implies
                        out@ == s.take(i + 1) && bytes_at(bytes@, cur as int, entries_bytes(s.skip(i + 1)))
                        && cur + entries_bytes(s.skip(i + 1)).len() == pos + entries_bytes(s).len() by {
                        assert(out@ =~= s.take(i + 1));
                        lemma_entries_unfold(s, i as int);
                        assert(cur == before + (entity_bytes(s[i as int].0, s[i as int].1)).len());
                    }
                }
            },
            None => {
                return None;
            },
        }
        i += 1;
    }
    proof {
        assert forall|s: Seq<(EntityId, Entity)>| #[trigger] bytes_at(bytes@, pos as int, entries_bytes(s)) && s.len() == n implies
            out@ == s && cur == pos + entries_bytes(s).len() by {
            assert(s.take(n as int) =~= s);
            assert(s.skip(n as int) =~= Seq::<(EntityId, Entity)>::empty());
        }
    }
    Some((out, cur))
}

/// Reads `n` entries of `entity_ids_bytes` at `pos`: on success, the entries and
/// the position after them.
fn read_entity_ids(bytes: &Vec<u8>, pos: usize, n: u128) -> (r: Option<(Vec<EntityId>, usize)>)
    ensures
        r is Some ==> pos <= r.unwrap().1 <= bytes@.len() && r.unwrap().0@.len() == n
            && bytes@.subrange(pos as int, r.unwrap().1 as int) == entity_ids_bytes(r.unwrap().0@),
        forall|s: Seq<EntityId>| #[trigger] bytes_at(bytes@, pos as int, entity_ids_bytes(s)) && s.len() == n ==>
            r is Some && r.unwrap().0@ == s && r.unwrap().1 == pos + entity_ids_bytes(s).len(),
{
    let total = bytes.len();
    if pos > total {
        return None;
    }
    let mut out: Vec<EntityId> = Vec::new();
    let mut cur = pos;
    let mut i: u128 = 0;
    proof {
        assert(out@ =~= Seq::<EntityId>::empty());
        assert(bytes@.subrange(pos as int, pos as int) =~= entity_ids_bytes(out@));
        assert forall|s: Seq<EntityId>| #[trigger] bytes_at(bytes@, pos as int, entity_ids_bytes(s)) && s.len() == n implies
            out@ == s.take(0) && bytes_at(bytes@, cur as int, entity_ids_bytes(s.skip(0)))
            && cur + entity_ids_bytes(s.skip(0)).len() == pos + entity_ids_bytes(s).len() by {
            assert(s.skip(0) =~= s);
            assert(s.take(0) =~= Seq::<EntityId>::empty());
            assert(out@ =~= Seq::<EntityId>::empty());
        }
    }
    while i < n
        invariant
            bytes@.len() == total,
            pos <= cur <= total,
            i <= n,
            out@.len() == i,
            bytes@.subrange(pos as int, cur as int) == entity_ids_bytes(out@),
            forall|s: Seq<EntityId>| #[trigger] bytes_at(bytes@, pos as int, entity_ids_bytes(s)) && s.len() == n ==>
                out@ == s.take(i as int) && bytes_at(bytes@, cur as int, entity_ids_bytes(s.skip(i as int)))
                && cur + entity_ids_bytes(s.skip(i as int)).len() == pos + entity_ids_bytes(s).len(),
        decreases n - i,
    {
        let next = read_entity_id(bytes, cur);
        proof {
            assert forall|s: Seq<EntityId>| #[trigger] bytes_at(bytes@, pos as int, entity_ids_bytes(s)) && s.len() == n implies
                next is Some && next.unwrap().0 == s[i as int]
                && next.unwrap().1 == cur + (le_bytes(s[i as int] as int, 16)).len()
                && bytes_at(bytes@, next.unwrap().1 as int, entity_ids_bytes(s.skip(i + 1))) by {
                lemma_entity_ids_unfold(s, i as int);
                lemma_at_split(bytes@, cur as int, le_bytes(s[i as int] as int, 16), entity_ids_bytes(s.skip(i + 1)));
                assert(bytes_at(bytes@, cur as int, le_bytes(s[i as int] as int, 16)));
            }
        }
        match next {
            Some((item, end)) => {
                let ghost before = cur;
                let ghost before_view = out@;
                out.push(item);
                cur = end;
                proof {
                    assert(out@ =~= before_view.push(item));
                    lemma_entity_ids_push(before_view, item);
                    assert(bytes@.subrange(pos as int, cur as int)
                        =~= bytes@.subrange(pos as int, before as int) + bytes@.subrange(before as int, cur as int));
                    assert forall|s: Seq<EntityId>| #[trigger] bytes_at(bytes@, pos as int, entity_ids_bytes(s)) && s.len() == n implies
                        out@ == s.take(i + 1) && bytes_at(bytes@, cur as int, entity_ids_bytes(s.skip(i + 1)))
                        && cur + entity_ids_bytes(s.skip(i + 1)).len() == pos + entity_ids_bytes(s).len() by {
                        assert(out@ =~= s.take(i + 1));
                        lemma_entity_ids_unfold(s, i as int);
                        assert(cur == before + (le_bytes(s[i as int] as int, 16)).len());
                    }
                }
            },
            None => {
                return None;
            },
        }
        i += 1;
    }
    proof {
        assert forall|s: Seq<EntityId>| #[trigger] bytes_at(bytes@, pos as int, entity_ids_bytes(s)) && s.len() == n implies
            out@ == s && cur == pos + entity_ids_bytes(s).len() by {
            assert(s.take(n as int) =~= s);
            assert(s.skip(n as int) =~= Seq::<EntityId>::empty());
        }
    }
    Some((out, cur))
}

/// Reads `n` entries of `region_ids_bytes` at `pos`: on success, the entries and
/// the position after them.
fn read_region_ids(bytes: &Vec<u8>, pos: usize, n: u128) -> (r: Option<(Vec<RegionId>, usize)>)
    ensures
        r is Some ==> pos <= r.unwrap().1 <= bytes@.len() && r.unwrap().0@.len() == n
            && bytes@.subrange(pos as int, r.unwrap().1 as int) == region_ids_bytes(r.unwrap().0@),
        forall|s: Seq<RegionId>| #[trigger] bytes_at(bytes@, pos as int, region_ids_bytes(s)) && s.len() == n ==>
            r is Some && r.unwrap().0@ == s && r.unwrap().1 == pos + region_ids_bytes(s).len(),
{
    let total = bytes.len();
    if pos > total {
        return None;
    }
    let mut out: Vec<RegionId> = Vec::new();
    let mut cur = pos;
    let mut i: u128 = 0;
    proof {
        assert(out@ =~= Seq::<RegionId>::empty());
        assert(bytes@.subrange(pos as int, pos as int) =~= region_ids_bytes(out@));
        assert forall|s: Seq<RegionId>| #[trigger] bytes_at(bytes@, pos as int, region_ids_bytes(s)) && s.len() == n implies
            out@ == s.take(0) && bytes_at(bytes@, cur as int, region_ids_bytes(s.skip(0)))
            && cur + region_ids_bytes(s.skip(0)).len() == pos + region_ids_bytes(s).len() by {
            assert(s.skip(0) =~= s);
            assert(s.take(0) =~= Seq::<RegionId>::empty());
            assert(out@ =~= Seq::<RegionId>::empty());
        }
    }
    while i < n
        invariant
            bytes@.len() == total,
            pos <= cur <= total,
            i <= n,
            out@.len() == i,
            bytes@.subrange(pos as int, cur as int) == region_ids_bytes(out@),
            forall|s: Seq<RegionId>| #[trigger] bytes_at(bytes@, pos as int, region_ids_bytes(s)) && s.len() == n ==>
                out@ == s.take(i as int) && bytes_at(bytes@, cur as int, region_ids_bytes(s.skip(i as int)))
                && cur + region_ids_bytes(s.skip(i as int)).len() == pos + region_ids_bytes(s).len(),
        decreases n - i,
    {
        let next = read_region_id(bytes, cur);
        proof {
            assert forall|s: Seq<RegionId>| #[trigger] bytes_at(bytes@, pos as int, region_ids_bytes(s)) && s.len() == n implies
                next is Some && next.unwrap().0 == s[i as int]
                && next.unwrap().1 == cur + (le_bytes(s[i as int] as int, 8)).len()
                && bytes_at(bytes@, next.unwrap().1 as int, region_ids_bytes(s.skip(i + 1))) by {
                lemma_region_ids_unfold(s, i as int);
                lemma_at_split(bytes@, cur as int, le_bytes(s[i as int] as int, 8), region_ids_bytes(s.skip(i + 1)));
                assert(bytes_at(bytes@, cur as int, le_bytes(s[i as int] as int, 8)));
            }
        }
        match next {
            Some((item, end)) => {
                let ghost before = cur;
                let ghost before_view = out@;
                out.push(item);
                cur = end;
                proof {
                    assert(out@ =~= before_view.push(item));
                    lemma_region_ids_push(before_view, item);
                    assert(bytes@.subrange(pos as int, cur as int)
                        =~= bytes@.subrange(pos as int, before as int) + bytes@.subrange(before as int, cur as int));
                    assert forall|s: Seq<RegionId>| #[trigger] bytes_at(bytes@, pos as int, region_ids_bytes(s)) && s.len() == n implies
                        out@ == s.take(i + 1) && bytes_at(bytes@, cur as int, region_ids_bytes(s.skip(i + 1)))
                        && cur + region_ids_bytes(s.skip(i + 1)).len() == pos + region_ids_bytes(s).len() by {
                        assert(out@ =~= s.take(i + 1));
                        lemma_region_ids_unfold(s, i as int);
                        assert(cur == before + (le_bytes(s[i as int] as int, 8)).len());
                    }
                }
            },
            None => {
                return None;
            },
        }
        i += 1;
    }
    proof {
        assert forall|s: Seq<RegionId>| #[trigger] bytes_at(bytes@, pos as int, region_ids_bytes(s)) && s.len() == n implies
            out@ == s && cur == pos + region_ids_bytes(s).len() by {
            assert(s.take(n as int) =~= s);
            assert(s.skip(n as int) =~= Seq::<RegionId>::empty());
        }
    }
    Some((out, cur))
}

/// Reads `n` entries of `ops_bytes` at `pos`: on success, the entries and
/// the position after them.
fn read_ops(bytes: &Vec<u8>, pos: usize, n: u128) -> (r: Option<(Vec<Operation>, usize)>)
    ensures
        r is Some ==> pos <= r.unwrap().1 <= bytes@.len() && ops_view(r.unwrap().0@).len() == n
            && bytes@.subrange(pos as int, r.unwrap().1 as int) == ops_bytes(ops_view(r.unwrap().0@)),
        forall|s: Seq<OperationView>| #[trigger] bytes_at(bytes@, pos as int, ops_bytes(s)) && s.len() == n && ops_fit(s) ==>
            r is Some && ops_view(r.unwrap().0@) == s && r.unwrap().1 == pos + ops_bytes(s).len(),
{
    let total = bytes.len();
    if pos > total {
        return None;
    }
    let mut out: Vec<Operation> = Vec::new();
    let mut cur = pos;
    let mut i: u128 = 0;
    proof {
        assert(ops_view(out@) =~= Seq::<OperationView>::empty());
        assert(bytes@.subrange(pos as int, pos as int) =~= ops_bytes(ops_view(out@)));
        assert forall|s: Seq<OperationView>| #[trigger] bytes_at(bytes@, pos as int, ops_bytes(s)) && s.len() == n && ops_fit(s) implies
            ops_view(out@) == s.take(0) && bytes_at(bytes@, cur as int, ops_bytes(s.skip(0)))
            && cur + ops_bytes(s.skip(0)).len() == pos + ops_bytes(s).len() by {
            assert(s.skip(0) =~= s);
            assert(s.take(0) =~= Seq::<OperationView>::empty());
            assert(ops_view(out@) =~= Seq::<OperationView>::empty());
        }
    }
    while i < n
        invariant
            bytes@.len() == total,
            pos <= cur <= total,
            i <= n,
            ops_view(out@).len() == i,
            bytes@.subrange(pos as int, cur as int) == ops_bytes(ops_view(out@)),
            forall|s: Seq<OperationView>| #[trigger] bytes_at(bytes@, pos as int, ops_bytes(s)) && s.len() == n && ops_fit(s) ==>
                ops_view(out@) == s.take(i as int) && bytes_at(bytes@, cur as int, ops_bytes(s.skip(i as int)))
                && cur + ops_bytes(s.skip(i as int)).len() == pos + ops_bytes(s).len(),
        decreases n - i,
    {
        let next = read_operation(bytes, cur);
        proof {
            assert forall|s: Seq<OperationView>| #[trigger] bytes_at(bytes@, pos as int, ops_bytes(s)) && s.len() == n && ops_fit(s) implies
                next is Some && next.unwrap().0@ == s[i as int]
                && next.unwrap().1 == cur + (op_bytes(s[i as int])).len()
                && bytes_at(bytes@, next.unwrap().1 as int, ops_bytes(s.skip(i + 1))) by {
                lemma_ops_unfold(s, i as int);
                lemma_at_split(bytes@, cur as int, op_bytes(s[i as int]), ops_bytes(s.skip(i + 1)));
                assert(op_fits(s[i as int]));
            }
        }
        match next {
            Some((item, end)) => {
                let ghost before = cur;
                let ghost before_view = ops_view(out@);
                out.push(item);
                cur = end;
                proof {
                    assert(ops_view(out@) =~= before_view.push(item@));
                    lemma_ops_push(before_view, item@);
                    assert(bytes@.subrange(pos as int, cur as int)
                        =~= bytes@.subrange(pos as int, before as int) + bytes@.subrange(before as int, cur as int));
                    assert forall|s: Seq<OperationView>| #[trigger] bytes_at(bytes@, pos as int, ops_bytes(s)) && s.len() == n && ops_fit(s) implies
                        ops_view(out@) == s.take(i + 1) && bytes_at(bytes@, cur as int, ops_bytes(s.skip(i + 1)))
                        && cur + ops_bytes(s.skip(i + 1)).len() == pos + ops_bytes(s).len() by {
                        assert(ops_view(out@) =~= s.take(i + 1));
                        lemma_ops_unfold(s, i as int);
                        assert(cur == before + (op_bytes(s[i as int])).len());
                    }
                }
            },
            None => {
                return None;
            },
        }
        i += 1;
    }
    proof {
        assert forall|s: Seq<OperationView>| #[trigger] bytes_at(bytes@, pos as int, ops_bytes(s)) && s.len() == n && ops_fit(s) implies
            ops_view(out@) == s && cur == pos + ops_bytes(s).len() by {
            assert(s.take(n as int) =~= s);
            assert(s.skip(n as int) =~= Seq::<OperationView>::empty());
        }
    }
    Some((out, cur))
}

/// Reads `n` entries of `batch_bytes` at `pos`: on success, the entries and
/// the position after them.
fn read_batch(bytes: &Vec<u8>, pos: usize, n: u128) -> (r: Option<(Vec<(RegionId, Vec<Operation>)>, usize)>)
    ensures
        r is Some ==> pos <= r.unwrap().1 <= bytes@.len() && batch_view(r.unwrap().0@).len() == n
            && bytes@.subrange(pos as int, r.unwrap().1 as int) == batch_bytes(batch_view(r.unwrap().0@)),
        forall|s: Seq<(RegionId, Seq<OperationView>)>| #[trigger] bytes_at(bytes@, pos as int, batch_bytes(s)) && s.len() == n && batch_fit(s) ==>
            r is Some && batch_view(r.unwrap().0@) == s && r.unwrap().1 == pos + batch_bytes(s).len(),
{
    let total = bytes.len();
    if pos > total {
        return None;
    }
    let mut out: Vec<(RegionId, Vec<Operation>)> = Vec::new();
    let mut cur = pos;
    let mut i: u128 = 0;
    proof {
        assert(batch_view(out@) =~= Seq::<(RegionId, Seq<OperationView>)>::empty());
        assert(bytes@.subrange(pos as int, pos as int) =~= batch_bytes(batch_view(out@)));
        assert forall|s: Seq<(RegionId, Seq<OperationView>)>| #[trigger] bytes_at(bytes@, pos as int, batch_bytes(s)) && s.len() == n && batch_fit(s) implies
            batch_view(out@) == s.take(0) && bytes_at(bytes@, cur as int, batch_bytes(s.skip(0)))
            && cur + batch_bytes(s.skip(0)).len() == pos + batch_bytes(s).len() by {
            assert(s.skip(0) =~= s);
            assert(s.take(0) =~= Seq::<(RegionId, Seq<OperationView>)>::empty());
            assert(batch_view(out@) =~= Seq::<(RegionId, Seq<OperationView>)>::empty());
        }
    }
    while i < n
        invariant
            bytes@.len() == total,
            pos <= cur <= total,
            i <= n,
            batch_view(out@).len() == i,
            bytes@.subrange(pos as int, cur as int) == batch_bytes(batch_view(out@)),
            forall|s: Seq<(RegionId, Seq<OperationView>)>| #[trigger] bytes_at(bytes@, pos as int, batch_bytes(s)) && s.len() == n && batch_fit(s) ==>
                batch_view(out@) == s.take(i as int) && bytes_at(bytes@, cur as int, batch_bytes(s.skip(i as int)))
                && cur + batch_bytes(s.skip(i as int)).len() == pos + batch_bytes(s).len(),
        decreases n - i,
    {
        let next = read_batch_entry(bytes, cur);
        proof {
            assert forall|s: Seq<(RegionId, Seq<OperationView>)>| #[trigger] bytes_at(bytes@, pos as int, batch_bytes(s)) && s.len() == n && batch_fit(s) implies
                next is Some && (next.unwrap().0.0, ops_view(next.unwrap().0.1@)) == s[i as int]
                && next.unwrap().1 == cur + (batch_entry_bytes(s[i as int])).len()
                && bytes_at(bytes@, next.unwrap().1 as int, batch_bytes(s.skip(i + 1))) by {
                lemma_batch_unfold(s, i as int);
                lemma_at_split(bytes@, cur as int, batch_entry_bytes(s[i as int]), batch_bytes(s.skip(i + 1)));
                assert(batch_entry_fits(s[i as int]));
            }
        }
        match next {
            Some((item, end)) => {
                let ghost before = cur;
                let ghost before_view = batch_view(out@);
                out.push(item);
                cur = end;
                proof {
                    assert(batch_view(out@) =~= before_view.push((item.0, ops_view(item.1@))));
                    lemma_batch_push(before_view, (item.0, ops_view(item.1@)));
                    assert(bytes@.subrange(pos as int, cur as int)
                        =~= bytes@.subrange(pos as int, before as int) + bytes@.subrange(before as int, cur as int));
                    assert forall|s: Seq<(RegionId, Seq<OperationView>)>| #[trigger] bytes_at(bytes@, pos as int, batch_bytes(s)) && s.len() == n && batch_fit(s) implies
                        batch_view(out@) == s.take(i + 1) && bytes_at(bytes@, cur as int, batch_bytes(s.skip(i + 1)))
                        && cur + batch_bytes(s.skip(i + 1)).len() == pos + batch_bytes(s).len() by {
                        assert(batch_view(out@) =~= s.take(i + 1));
                        lemma_batch_unfold(s, i as int);
                        assert(cur == before + (batch_entry_bytes(s[i as int])).len());
                    }
                }
            },
            None => {
                return None;
            },
        }
        i += 1;
    }
    proof {
        assert forall|s: Seq<(RegionId, Seq<OperationView>)>| #[trigger] bytes_at(bytes@, pos as int, batch_bytes(s)) && s.len() == n && batch_fit(s) implies
            batch_view(out@) == s && cur == pos + batch_bytes(s).len() by {
            assert(s.take(n as int) =~= s);
            assert(s.skip(n as int) =~= Seq::<(RegionId, Seq<OperationView>)>::empty());
        }
    }
    Some((out, cur))
}

/// Appends the bytes of each of `items`, in order.
fn write_cells(out: &mut Vec<u8>, items: &Vec<(RegionPosition, Block)>)
    ensures
        final(out)@ == old(out)@ + cells_bytes(items@),
{
    let ghost start = out@;
    let ghost s = items@;
    let mut i: usize = 0;
    assert(s.skip(0) =~= s);
    assert(start + Seq::<u8>::empty() =~= start);
    while i < items.len()
        invariant
            i <= items@.len(),
            s == items@,
            s.len() == items@.len(),
            start + cells_bytes(s) == out@ + cells_bytes(s.skip(i as int)),
        decreases items@.len() - i,
    {
        let ghost before = out@;
        proof {
            lemma_cells_unfold(s, i as int);
            assert(s[i as int] == items@[i as int]);
        }
        encode_cell(out, items[i]);
        proof {
            assert(before + cells_bytes(s.skip(i as int)) =~= out@ + cells_bytes(s.skip(i + 1)));
        }
        i += 1;
    }
    proof {
        assert(s.skip(items@.len() as int) =~= Seq::<(RegionPosition, Block)>::empty());
        assert(out@ + Seq::<u8>::empty() =~= out@);
    }
}

/// Appends the bytes of each of `items`, in order.
fn write_entries(out: &mut Vec<u8>, items: &Vec<(EntityId, Entity)>)
    ensures
        final(out)@ == old(out)@ + entries_bytes(items@),
{
    let ghost start = out@;
    let ghost s = items@;
    let mut i: usize = 0;
    assert(s.skip(0) =~= s);
    assert(start + Seq::<u8>::empty() =~= start);
    while i < items.len()
        invariant
            i <= items@.len(),
            s == items@,
            s.len() == items@.len(),
            start + entries_bytes(s) == out@ + entries_bytes(s.skip(i as int)),
        decreases items@.len() - i,
    {
        let ghost before = out@;
        proof {
            lemma_entries_unfold(s, i as int);
            assert(s[i as int] == items@[i as int]);
        }
        encode_entity(out, items[i].0, items[i].1);
        proof {
            assert(before + entries_bytes(s.skip(i as int)) =~= out@ + entries_bytes(s.skip(i + 1)));
        }
        i += 1;
    }
    proof {
        assert(s.skip(items@.len() as int) =~= Seq::<(EntityId, Entity)>::empty());
        assert(out@ + Seq::<u8>::empty() =~= out@);
    }
}

/// Appends the bytes of each of `items`, in order.
fn write_entity_ids(out: &mut Vec<u8>, items: &Vec<EntityId>)
    ensures
        final(out)@ == old(out)@ + entity_ids_bytes(items@),
{
    let ghost start = out@;
    let ghost s = items@;
    let mut i: usize = 0;
    assert(s.skip(0) =~= s);
    assert(start + Seq::<u8>::empty() =~= start);
    while i < items.len()
        invariant
            i <= items@.len(),
            s == items@,
            s.len() == items@.len(),
            start + entity_ids_bytes(s) == out@ + entity_ids_bytes(s.skip(i as int)),
        decreases items@.len() - i,
    {
        let ghost before = out@;
        proof {
            lemma_entity_ids_unfold(s, i as int);
            assert(s[i as int] == items@[i as int]);
        }
        push_le(out, items[i], 16);
        proof {
            assert(before + entity_ids_bytes(s.skip(i as int)) =~= out@ + entity_ids_bytes(s.skip(i + 1)));
        }
        i += 1;
    }
    proof {
        assert(s.skip(items@.len() as int) =~= Seq::<EntityId>::empty());
        assert(out@ + Seq::<u8>::empty() =~= out@);
    }
}

/// Appends the bytes of each of `items`, in order.
fn write_region_ids(out: &mut Vec<u8>, items: &Vec<RegionId>)
    ensures
        final(out)@ == old(out)@ + region_ids_bytes(items@),
{
    let ghost start = out@;
    let ghost s = items@;
    let mut i: usize = 0;
    assert(s.skip(0) =~= s);
    assert(start + Seq::<u8>::empty() =~= start);
    while i < items.len()
        invariant
            i <= items@.len(),
            s == items@,
            s.len() == items@.len(),
            start + region_ids_bytes(s) == out@ + region_ids_bytes(s.skip(i as int)),
        decreases items@.len() - i,
    {
        let ghost before = out@;
        proof {
            lemma_region_ids_unfold(s, i as int);
            assert(s[i as int] == items@[i as int]);
        }
        push_le(out, items[i] as u128, 8);
        proof {
            assert(before + region_ids_bytes(s.skip(i as int)) =~= out@ + region_ids_bytes(s.skip(i + 1)));
        }
        i += 1;
    }
    proof {
        assert(s.skip(items@.len() as int) =~= Seq::<RegionId>::empty());
        assert(out@ + Seq::<u8>::empty() =~= out@);
    }
}

/// Appends the bytes of each of `items`, in order.
fn write_ops(out: &mut Vec<u8>, items: &Vec<Operation>)
    ensures
        final(out)@ == old(out)@ + ops_bytes(ops_view(items@)),
{
    let ghost start = out@;
    let ghost s = ops_view(items@);
    let mut i: usize = 0;
    assert(s.skip(0) =~= s);
    assert(start + Seq::<u8>::empty() =~= start);
    while i < items.len()
        invariant
            i <= items@.len(),
            s == ops_view(items@),
            s.len() == items@.len(),
            start + ops_bytes(s) == out@ + ops_bytes(s.skip(i as int)),
        decreases items@.len() - i,
    {
        let ghost before = out@;
        proof {
            lemma_ops_unfold(s, i as int);
            assert(s[i as int] == items@[i as int]@);
        }
        encode_operation(out, &items[i]);
        proof {
            assert(before + ops_bytes(s.skip(i as int)) =~= out@ + ops_bytes(s.skip(i + 1)));
        }
        i += 1;
    }
    proof {
        assert(s.skip(items@.len() as int) =~= Seq::<OperationView>::empty());
        assert(out@ + Seq::<u8>::empty() =~= out@);
    }
}

/// Appends the bytes of each of `items`, in order.
fn write_batch(out: &mut Vec<u8>, items: &Vec<(RegionId, Vec<Operation>)>)
    ensures
        final(out)@ == old(out)@ + batch_bytes(batch_view(items@)),
{
    let ghost start = out@;
    let ghost s = batch_view(items@);
    let mut i: usize = 0;
    assert(s.skip(0) =~= s);
    assert(start + Seq::<u8>::empty() =~= start);
    while i < items.len()
        invariant
            i <= items@.len(),
            s == batch_view(items@),
            s.len() == items@.len(),
            start + batch_bytes(s) == out@ + batch_bytes(s.skip(i as int)),
        decreases items@.len() - i,
    {
        let ghost before = out@;
        proof {
            lemma_batch_unfold(s, i as int);
            assert(s[i as int] == (items@[i as int].0, ops_view(items@[i as int].1@)));
        }
        encode_batch_entry(out, &items[i]);
        proof {
            assert(before + batch_bytes(s.skip(i as int)) =~= out@ + batch_bytes(s.skip(i + 1)));
        }
        i += 1;
    }
    proof {
        assert(s.skip(items@.len() as int) =~= Seq::<(RegionId, Seq<OperationView>)>::empty());
        assert(out@ + Seq::<u8>::empty() =~= out@);
    }
}

/// Appends the bytes of one cell write.
fn encode_cell(out: &mut Vec<u8>, c: (RegionPosition, Block))
    ensures
        final(out)@ == old(out)@ + cell_bytes(c),
{
    let ghost start = out@;
    push_le(out, c.0.x as u128, 8);
    push_le(out, c.0.y as u128, 8);
    push_le(out, c.0.z as u128, 8);
    push_le(out, c.1.id() as u128, 8);
    assert(out@ =~= start + cell_bytes(c));
}

/// Appends the bytes of one operation.
fn encode_operation(out: &mut Vec<u8>, op: &Operation)
    ensures
        final(out)@ == old(out)@ + op_bytes(op@),
{
    let ghost start = out@;
    match op {
        Operation::SetBlocks(cells) => {
            push_le(out, 0, 4);
            push_le(out, cells.len() as u128, 8);
            write_cells(out, cells);
        },
        Operation::InsertEntity(es) => {
            push_le(out, 1, 4);
            push_le(out, es.len() as u128, 8);
            write_entries(out, es);
        },
        Operation::RemoveEntity(ids) => {
            push_le(out, 2, 4);
            push_le(out, ids.len() as u128, 8);
            write_entity_ids(out, ids);
        },
    }
    assert(out@ =~= start + op_bytes(op@));
}

/// Appends the bytes of one region's operation list.
fn encode_batch_entry(out: &mut Vec<u8>, e: &(RegionId, Vec<Operation>))
    ensures
        final(out)@ == old(out)@ + batch_entry_bytes((e.0, ops_view(e.1@))),
{
    let ghost start = out@;
    push_le(out, e.0 as u128, 8);
    push_le(out, e.1.len() as u128, 8);
    write_ops(out, &e.1);
    assert(out@ =~= start + batch_entry_bytes((e.0, ops_view(e.1@))));
}

/// What a request holds.
pub enum RequestView {
    Subscribe(Seq<RegionId>),
    Perform(Seq<(RegionId, Seq<OperationView>)>),
}

/// A message from a client.
#[derive(Debug)]
pub enum Request {
    /// Subscribes the session to each listed region.
    Subscribe(Vec<RegionId>),
    /// Applies each region's operations, in order, to that region.
    Perform(Vec<(RegionId, Vec<Operation>)>),
}

impl View for Request {
    type V = RequestView;

    open spec fn view(&self) -> RequestView {
        match self {
            Request::Subscribe(ids) => RequestView::Subscribe(ids@),
            Request::Perform(batch) => RequestView::Perform(batch_view(batch@)),
        }
    }
}

/// The bytes of a request: a four-byte tag, the number of entries in eight
/// bytes, then the entries.
pub open spec fn request_bytes(v: RequestView) -> Seq<u8> {
    match v {
        RequestView::Subscribe(ids) => le_bytes(0, 4) + le_bytes(ids.len() as int, 8) + region_ids_bytes(ids),
        RequestView::Perform(batch) => le_bytes(1, 4) + le_bytes(batch.len() as int, 8) + batch_bytes(batch),
    }
}

/// Every count in the request can be held in a `usize`.
pub open spec fn request_fits(v: RequestView) -> bool {
    match v {
        RequestView::Subscribe(ids) => ids.len() <= usize::MAX,
        RequestView::Perform(batch) => batch.len() <= usize::MAX && batch_fit(batch),
    }
}

/// A message to a client.
#[derive(Debug)]
pub enum Response {
    /// For each region, the operations that other sessions performed on it.
    Publish(Vec<(RegionId, Vec<Operation>)>),
    /// For each region, its current state.
    Refresh(Vec<(RegionId, Region)>),
}

/// The bytes of each region snapshot of a refresh, in order: the region id,
/// then the region's canonical bytes.
pub open spec fn refresh_bytes(s: Seq<(RegionId, Region)>) -> Seq<u8>
    decreases s.len(),
{
    if s.len() == 0 {
        Seq::empty()
    } else {
        le_bytes(s[0].0 as int, 8) + region_bytes(s[0].1) + refresh_bytes(s.skip(1))
    }
}

/// The bytes of a response: a four-byte tag, the number of entries in eight
/// bytes, then the entries.
pub open spec fn response_bytes(r: Response) -> Seq<u8> {
    match r {
        Response::Publish(batch) => le_bytes(0, 4) + le_bytes(batch@.len() as int, 8) + batch_bytes(batch_view(batch@)),
        Response::Refresh(regions) => le_bytes(1, 4) + le_bytes(regions@.len() as int, 8) + refresh_bytes(regions@),
    }
}

/// The regions of a refresh are well formed.
pub open spec fn response_wf(r: Response) -> bool {
    match r {
        Response::Publish(_) => true,
        Response::Refresh(regions) => forall|i: int| 0 <= i < regions@.len() ==> (#[trigger] regions@[i]).1.wf(),
    }
}

/// The bytes of a request.
pub fn encode_request(req: &Request) -> (out: Vec<u8>)
    ensures
        out@ == request_bytes(req@),
{
    let mut out: Vec<u8> = Vec::new();
    match req {
        Request::Subscribe(ids) => {
            push_le(&mut out, 0, 4);
            push_le(&mut out, ids.len() as u128, 8);
            write_region_ids(&mut out, ids);
        },
        Request::Perform(batch) => {
            push_le(&mut out, 1, 4);
            push_le(&mut out, batch.len() as u128, 8);
            write_batch(&mut out, batch);
        },
    }
    assert(out@ =~= request_bytes(req@));
    out
}

/// The request whose bytes are `bytes`; any other bytes give `DecodeError`.
pub fn decode_request(bytes: &Vec<u8>) -> (r: Result<Request, DecodeError>)
    ensures
        r is Ok ==> request_bytes(r.unwrap()@) == bytes@,
        forall|v: RequestView| #[trigger] request_bytes(v) == bytes@ && request_fits(v) ==> r is Ok && r.unwrap()@ == v,
{
    let total = bytes.len();
    proof {
        assert forall|v: RequestView| #[trigger] request_bytes(v) == bytes@ && request_fits(v) implies
            bytes_at(bytes@, 0, request_bytes(v)) by {
            assert(bytes@.subrange(0, bytes@.len() as int) =~= bytes@);
        }
    }
    if total < 12 {
        proof {
            assert forall|v: RequestView| #[trigger] request_bytes(v) == bytes@ && request_fits(v) implies false by {
                match v {
                    RequestView::Subscribe(ids) => lemma_header(bytes@, 0, 0, ids.len() as int, region_ids_bytes(ids)),
                    RequestView::Perform(batch) => lemma_header(bytes@, 0, 1, batch.len() as int, batch_bytes(batch)),
                }
            }
        }
        return Err(DecodeError);
    }
    proof {
        lemma_pow256_values();
    }
    let tag = read_field(bytes, 0, 4);
    let n = read_field(bytes, 4, 8);
    proof {
        lemma_exact_field(bytes@, 0, 4);
        lemma_exact_field(bytes@, 4, 8);
        assert(bytes@ =~= bytes@.subrange(0, 4) + bytes@.subrange(4, 12) + bytes@.subrange(12, total as int));
        assert(bytes@.subrange(0, total as int) =~= bytes@);
        assert forall|v: RequestView| #[trigger] request_bytes(v) == bytes@ && request_fits(v) implies
            match v {
                RequestView::Subscribe(ids) => tag == 0 && n == ids.len() && bytes_at(bytes@, 12, region_ids_bytes(ids))
                    && 12 + region_ids_bytes(ids).len() == total,
                RequestView::Perform(batch) => tag == 1 && n == batch.len() && bytes_at(bytes@, 12, batch_bytes(batch))
                    && 12 + batch_bytes(batch).len() == total,
            } by {
            match v {
                RequestView::Subscribe(ids) => lemma_header(bytes@, 0, 0, ids.len() as int, region_ids_bytes(ids)),
                RequestView::Perform(batch) => lemma_header(bytes@, 0, 1, batch.len() as int, batch_bytes(batch)),
            }
        }
    }
    if tag == 0 {
        match read_region_ids(bytes, 12, n) {
            Some((ids, end)) => {
                if end == total {
                    Ok(Request::Subscribe(ids))
                } else {
                    Err(DecodeError)
                }
            },
            None => Err(DecodeError),
        }
    } else if tag == 1 {
        match read_batch(bytes, 12, n) {
            Some((batch, end)) => {
                if end == total {
                    Ok(Request::Perform(batch))
                } else {
                    Err(DecodeError)
                }
            },
            None => Err(DecodeError),
        }
    } else {
        Err(DecodeError)
    }
}

/// The bytes of a response.
pub fn encode_response(resp: &Response) -> (out: Vec<u8>)
    requires
        response_wf(*resp),
    ensures
        out@ == response_bytes(*resp),
{
    let mut out: Vec<u8> = Vec::new();
    match resp {
        Response::Publish(batch) => {
            push_le(&mut out, 0, 4);
            push_le(&mut out, batch.len() as u128, 8);
            write_batch(&mut out, batch);
        },
        Response::Refresh(regions) => {
            push_le(&mut out, 1, 4);
            push_le(&mut out, regions.len() as u128, 8);
            let ghost start = out@;
            let ghost s = regions@;
            let mut i: usize = 0;
            assert(s.skip(0) =~= s);
            assert(forall|j: int| 0 <= j < regions@.len() ==> (#[trigger] regions@[j]).1.wf());
            while i < regions.len()
                invariant
                    forall|j: int| 0 <= j < regions@.len() ==> (#[trigger] regions@[j]).1.wf(),
                    s == regions@,
                    i <= s.len(),
                    start + refresh_bytes(s) == out@ + refresh_bytes(s.skip(i as int)),
                decreases s.len() - i,
            {
                let ghost before = out@;
                proof {
                    assert(s.skip(i as int).skip(1) =~= s.skip(i + 1));
                    assert(s.skip(i as int)[0] == s[i as int]);
                    assert(regions@[i as int].1.wf());
                }
                push_le(&mut out, regions[i].0 as u128, 8);
                let bytes = encode_region(&regions[i].1);
                let mut k: usize = 0;
                let ghost mid = out@;
                while k < bytes.len()
                    invariant
                        k <= bytes@.len(),
                        out@ == mid + bytes@.take(k as int),
                    decreases bytes@.len() - k,
                {
                    out.push(bytes[k]);
                    proof {
                        assert(bytes@.take(k + 1) =~= bytes@.take(k as int).push(bytes@[k as int]));
                    }
                    k += 1;
                }
                proof {
                    assert(bytes@.take(bytes@.len() as int) =~= bytes@);
                    assert(before + refresh_bytes(s.skip(i as int)) =~= out@ + refresh_bytes(s.skip(i + 1)));
                }
                i += 1;
            }
            proof {
                assert(s.skip(s.len() as int) =~= Seq::<(RegionId, Region)>::empty());
                assert(out@ + Seq::<u8>::empty() =~= out@);
            }
        },
    }
    assert(out@ =~= response_bytes(*resp));
    out
}

} // verus!
