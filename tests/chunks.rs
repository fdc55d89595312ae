use higgs::chunk::{Block, Chunk};
use higgs::consts::CHUNK_SIZE;
use higgs::packed::PackedIds;
use higgs::position::ChunkPosition;

#[test]
fn packed_store_widens_and_keeps_values() {
    let mut ids = PackedIds::zeroed(1);
    assert_eq!(ids.bits(), 1);
    assert_eq!(ids.words().len(), 8);
    ids.set(5, 1);
    assert_eq!(ids.bits(), 1);
    ids.set(6, 3);
    assert_eq!(ids.bits(), 2);
    ids.set(7, 300);
    assert_eq!(ids.bits(), 16);
    assert_eq!(ids.words().len(), 128);
    ids.set(511, u64::MAX);
    assert_eq!(ids.bits(), 64);
    assert_eq!(ids.get(5), 1);
    assert_eq!(ids.get(6), 3);
    assert_eq!(ids.get(7), 300);
    assert_eq!(ids.get(511), u64::MAX);
    for i in 0..CHUNK_SIZE as usize {
        if ![5, 6, 7, 511].contains(&i) {
            assert_eq!(ids.get(i), 0);
        }
    }
}

#[test]
fn packed_store_set_is_idempotent() {
    let mut ids = PackedIds::zeroed(4);
    ids.set(100, 9);
    let once = (ids.bits(), ids.words().clone());
    ids.set(100, 9);
    assert_eq!((ids.bits(), ids.words().clone()), once);
}

#[test]
fn packed_store_parts_are_checked() {
    assert!(PackedIds::from_parts(3, vec![0; 24]).is_none());
    assert!(PackedIds::from_parts(2, vec![0; 15]).is_none());
    let ids = PackedIds::from_parts(2, vec![u64::MAX; 16]).unwrap();
    assert_eq!(ids.get(0), 3);
    assert_eq!(ids.get(511), 3);
}

#[test]
fn chunk_bulk_set_and_get() {
    let mut chunk = Chunk::default();
    let a = ChunkPosition::new(1, 2, 3);
    let b = ChunkPosition::new(7, 7, 7);
    chunk.set_blocks(&vec![(a, Block::Stone), (b, Block::Grass), (a, Block::Dirt)]);
    assert_eq!(
        chunk.get_blocks(&vec![a, b, ChunkPosition::new(0, 0, 0)]),
        vec![Block::Dirt, Block::Grass, Block::Void]
    );
    assert_eq!(chunk.get_block(b), Block::Grass);
    assert_eq!(chunk.packed().get(a.linearize() as usize), 3);
}

#[test]
fn chunk_rejects_ids_that_name_no_block() {
    let mut ids = PackedIds::zeroed(1);
    ids.set(3, 5);
    assert!(Chunk::from_packed(ids).is_none());
    let mut ids = PackedIds::zeroed(1);
    ids.set(3, 4);
    assert!(Chunk::from_packed(ids).is_some());
}

#[test]
fn block_ids_are_fixed() {
    let all = [Block::Void, Block::Air, Block::Grass, Block::Dirt, Block::Stone];
    for (i, b) in all.iter().enumerate() {
        assert_eq!(b.id(), i as u64);
        assert_eq!(Block::from_id(i as u64), Some(*b));
    }
    assert_eq!(Block::from_id(5), None);
}
