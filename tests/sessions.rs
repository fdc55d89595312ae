use higgs::chunk::Block;
use higgs::codec::encode_region;
use higgs::position::RegionPosition;
use higgs::region::{Operation, Region};
use higgs::session::{accept_operations, collect_others, publish_batch, Procedure, WorkUnit};

fn set(x: u64, b: Block) -> Operation {
    Operation::SetBlocks(vec![(RegionPosition::new(x, 2, 3), b)])
}

fn cells(op: &Operation) -> Vec<(RegionPosition, Block)> {
    match op {
        Operation::SetBlocks(c) => c.clone(),
        _ => panic!("not a SetBlocks"),
    }
}

#[test]
fn perform_tags_and_rejects_out_of_bounds() {
    let ops = vec![set(1, Block::Stone), set(64, Block::Dirt), Operation::RemoveEntity(vec![1])];
    let procs = accept_operations(42, ops);
    assert_eq!(procs.len(), 2);
    assert!(procs.iter().all(|p| p.client == 42));
    assert_eq!(cells(&procs[0].operation), vec![(RegionPosition::new(1, 2, 3), Block::Stone)]);
    assert!(matches!(procs[1].operation, Operation::RemoveEntity(_)));
}

#[test]
fn publish_suppresses_echo() {
    let polled = vec![
        Procedure { client: 1, operation: set(1, Block::Stone) },
        Procedure { client: 2, operation: set(2, Block::Grass) },
        Procedure { client: 1, operation: set(3, Block::Dirt) },
    ];
    let for_two = collect_others(2, polled.clone());
    assert_eq!(for_two.len(), 2);
    assert_eq!(cells(&for_two[0]), vec![(RegionPosition::new(1, 2, 3), Block::Stone)]);
    assert_eq!(cells(&for_two[1]), vec![(RegionPosition::new(3, 2, 3), Block::Dirt)]);
    let for_one = collect_others(1, polled);
    assert_eq!(for_one.len(), 1);
    assert_eq!(cells(&for_one[0]), vec![(RegionPosition::new(2, 2, 3), Block::Grass)]);
}

#[test]
fn publish_batch_covers_every_region() {
    let polled = vec![
        (0u64, vec![Procedure { client: 1, operation: set(1, Block::Stone) }]),
        (1u64, Vec::new()),
        (2u64, vec![Procedure { client: 9, operation: set(1, Block::Air) }]),
    ];
    let batch = publish_batch(1, polled);
    assert_eq!(batch.len(), 3);
    assert_eq!((batch[0].0, batch[0].1.len()), (0, 0));
    assert_eq!((batch[1].0, batch[1].1.len()), (1, 0));
    assert_eq!(batch[2].0, 2);
    assert_eq!(cells(&batch[2].1[0]), vec![(RegionPosition::new(1, 2, 3), Block::Air)]);
}

#[test]
fn work_unit_loads_or_starts_empty() {
    let empty = encode_region(&Region::new());
    let unit = WorkUnit::from_storage(7, None);
    assert_eq!(unit.region_id(), 7);
    assert_eq!(encode_region(unit.region()), empty);
    let unit = WorkUnit::from_storage(7, Some(vec![1, 2, 3]));
    assert_eq!(encode_region(unit.region()), empty);
    let mut r = Region::new();
    r.apply(&set(5, Block::Stone)).unwrap();
    let saved = encode_region(&r);
    let unit = WorkUnit::from_storage(7, Some(saved.clone()));
    assert_eq!(encode_region(unit.region()), saved);
}

#[test]
fn replicas_that_replay_the_log_agree() {
    let log = vec![
        Procedure { client: 1, operation: set(1, Block::Stone) },
        Procedure { client: 2, operation: Operation::InsertEntity(Vec::new()) },
        Procedure { client: 2, operation: set(1, Block::Dirt) },
        Procedure { client: 1, operation: set(64, Block::Air) },
    ];
    let mut pending = WorkUnit::new(0, Region::new());
    for p in &log {
        pending.absorb(p);
    }
    let mut published = WorkUnit::new(0, Region::new());
    for p in &log[..2] {
        published.absorb(p);
    }
    let snapshot = encode_region(published.region());
    for p in &log[2..] {
        published.absorb(p);
    }
    assert_eq!(encode_region(published.region()), encode_region(pending.region()));
    let mut late = WorkUnit::from_storage(0, Some(snapshot));
    for p in &log[2..] {
        late.absorb(p);
    }
    assert_eq!(encode_region(late.region()), encode_region(pending.region()));
    assert_eq!(pending.region().get_blocks(&vec![RegionPosition::new(1, 2, 3)])[0].1, Block::Dirt);
}
