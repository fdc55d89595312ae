use higgs::chunk::Block;
use higgs::position::{GlobalPosition, RegionPosition};
use higgs::world::group_by_region;

#[test]
fn cells_are_grouped_by_region_in_order() {
    let cells = vec![
        (GlobalPosition::new(0, 0, 0), Block::Stone),
        (GlobalPosition::new(-1, 0, 0), Block::Dirt),
        (GlobalPosition::new(63, 1, 2), Block::Grass),
        (GlobalPosition::new(-64, 5, 5), Block::Air),
    ];
    let groups = group_by_region(&cells);
    assert_eq!(groups.len(), 2);
    let origin = GlobalPosition::new(0, 0, 0).to_region_id();
    let west = GlobalPosition::new(-1, 0, 0).to_region_id();
    assert_eq!(west, origin - 1);
    assert_eq!(groups[0].0, origin);
    assert_eq!(groups[0].1, vec![(RegionPosition::new(0, 0, 0), Block::Stone), (RegionPosition::new(63, 1, 2), Block::Grass)]);
    assert_eq!(groups[1].0, west);
    assert_eq!(groups[1].1, vec![(RegionPosition::new(63, 0, 0), Block::Dirt), (RegionPosition::new(0, 5, 5), Block::Air)]);
    assert!(group_by_region(&Vec::new()).is_empty());
}

#[test]
fn world_bounds() {
    assert!(GlobalPosition::new(0, 0, 0).is_in_world());
    assert!(GlobalPosition::new(-32_000_000, 31_999_999, 0).is_in_world());
    assert!(!GlobalPosition::new(32_000_000, 0, 0).is_in_world());
    assert!(!GlobalPosition::new(0, -32_000_001, 0).is_in_world());
}
