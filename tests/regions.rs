use higgs::chunk::Block;
use higgs::consts::{CHUNK_SIZE, REGION_SIZE};
use higgs::entity::{Entity, Look, PrecisePosition};
use higgs::region::{BoundsViolation, Operation, Region};
use higgs::position::RegionPosition;

fn player(id: u128) -> Entity {
    Entity::Player {
        player_id: id,
        position: PrecisePosition { x: 1.5f32.to_bits(), y: 2.0f32.to_bits(), z: (-3.0f32).to_bits() },
        look: Look { yaw: 0.25f32.to_bits(), pitch: 0 },
    }
}

fn block(r: &Region, x: u64, y: u64, z: u64) -> Block {
    r.get_blocks(&vec![RegionPosition::new(x, y, z)])[0].1
}

#[test]
fn default_region_is_void_and_empty() {
    let r = Region::default();
    for c in 0..REGION_SIZE as usize {
        let ids = r.chunk(c).packed();
        for i in 0..CHUNK_SIZE as usize {
            assert_eq!(ids.get(i), 0);
        }
    }
    assert!(r.entities().entries().is_empty());
    assert_eq!(block(&r, 63, 63, 63), Block::Void);
}

#[test]
fn set_blocks_routes_cells_to_their_chunks() {
    let mut r = Region::new();
    let cells = vec![
        (RegionPosition::new(1, 2, 3), Block::Stone),
        (RegionPosition::new(9, 17, 25), Block::Grass),
        (RegionPosition::new(63, 0, 63), Block::Air),
        (RegionPosition::new(1, 2, 3), Block::Dirt),
    ];
    assert_eq!(r.set_blocks(&cells), Ok(()));
    let got = r.get_blocks(&vec![
        RegionPosition::new(1, 2, 3),
        RegionPosition::new(9, 17, 25),
        RegionPosition::new(63, 0, 63),
        RegionPosition::new(2, 2, 3),
    ]);
    assert_eq!(got[0], (RegionPosition::new(1, 2, 3), Block::Dirt));
    assert_eq!(got[1], (RegionPosition::new(9, 17, 25), Block::Grass));
    assert_eq!(got[2], (RegionPosition::new(63, 0, 63), Block::Air));
    assert_eq!(got[3], (RegionPosition::new(2, 2, 3), Block::Void));
    assert_eq!(r.chunk(209).packed().get(73), 2);
}

#[test]
fn out_of_bounds_set_blocks_is_rejected() {
    let mut r = Region::new();
    let bad = Operation::SetBlocks(vec![
        (RegionPosition::new(1, 1, 1), Block::Stone),
        (RegionPosition::new(64, 0, 0), Block::Stone),
    ]);
    assert_eq!(r.apply(&bad), Err(BoundsViolation));
    assert_eq!(block(&r, 1, 1, 1), Block::Void);
    let good = Operation::SetBlocks(vec![(RegionPosition::new(1, 1, 1), Block::Stone)]);
    assert_eq!(r.apply(&good), Ok(()));
    assert_eq!(block(&r, 1, 1, 1), Block::Stone);
    assert!(!bad.in_bounds());
    assert!(good.in_bounds());
}

#[test]
fn entities_insert_replace_and_remove() {
    let mut r = Region::new();
    r.apply(&Operation::InsertEntity(vec![(7, player(1)), (3, player(2)), (7, player(3))])).unwrap();
    assert_eq!(r.entities().entries().clone(), vec![(3, player(2)), (7, player(3))]);
    r.apply(&Operation::RemoveEntity(vec![3, 99])).unwrap();
    assert_eq!(r.entities().entries().clone(), vec![(7, player(3))]);
    r.insert_entities(&vec![(1, player(4))]);
    r.remove_entities(&vec![7]);
    assert_eq!(r.entities().entries().clone(), vec![(1, player(4))]);
}

#[test]
fn disjoint_set_blocks_commute() {
    let a = Operation::SetBlocks(vec![(RegionPosition::new(0, 0, 0), Block::Stone), (RegionPosition::new(10, 0, 0), Block::Dirt)]);
    let b = Operation::SetBlocks(vec![(RegionPosition::new(0, 0, 1), Block::Grass), (RegionPosition::new(40, 40, 40), Block::Air)]);
    let mut ab = Region::new();
    ab.apply(&a).unwrap();
    ab.apply(&b).unwrap();
    let mut ba = Region::new();
    ba.apply(&b).unwrap();
    ba.apply(&a).unwrap();
    let probe = vec![
        RegionPosition::new(0, 0, 0),
        RegionPosition::new(10, 0, 0),
        RegionPosition::new(0, 0, 1),
        RegionPosition::new(40, 40, 40),
        RegionPosition::new(5, 5, 5),
    ];
    assert_eq!(ab.get_blocks(&probe), ba.get_blocks(&probe));
    let blocks: Vec<Block> = ab.get_blocks(&probe).into_iter().map(|(_, b)| b).collect();
    assert_eq!(blocks, vec![Block::Stone, Block::Dirt, Block::Grass, Block::Air, Block::Void]);
}

#[test]
fn overlapping_set_blocks_last_applied_wins() {
    let a = Operation::SetBlocks(vec![(RegionPosition::new(3, 3, 3), Block::Stone)]);
    let b = Operation::SetBlocks(vec![(RegionPosition::new(3, 3, 3), Block::Grass)]);
    let mut r = Region::new();
    r.apply(&a).unwrap();
    r.apply(&b).unwrap();
    assert_eq!(block(&r, 3, 3, 3), Block::Grass);
    let mut s = Region::new();
    s.apply(&b).unwrap();
    s.apply(&a).unwrap();
    assert_eq!(block(&s, 3, 3, 3), Block::Stone);
}

#[test]
fn set_blocks_rejects_out_of_bounds_cells() {
    let mut r = Region::new();
    let cells = vec![
        (RegionPosition::new(1, 1, 1), Block::Stone),
        (RegionPosition::new(0, 64, 0), Block::Stone),
    ];
    assert_eq!(r.set_blocks(&cells), Err(BoundsViolation));
    assert_eq!(block(&r, 1, 1, 1), Block::Void);
    assert_eq!(r.set_blocks(&vec![(RegionPosition::new(1, 1, 1), Block::Dirt)]), Ok(()));
    assert_eq!(block(&r, 1, 1, 1), Block::Dirt);
}
