use higgs::consts::{CHUNK_AXIS, REGION_AXIS, REGION_SPAN, WORLD_AXIS};
use higgs::position::{delinearize, linearize, ChunkPosition, GlobalPosition, RegionPosition};

#[test]
fn linearize_orders_x_then_y_then_z() {
    assert_eq!(linearize((1, 2, 3), 8), 209);
    assert_eq!(linearize((0, 0, 0), 8), 0);
    assert_eq!(linearize((7, 7, 7), 8), 511);
}

#[test]
fn delinearize_inverts_linearize() {
    assert_eq!(delinearize(209, 8), (1, 2, 3));
    for index in 0..512u64 {
        let (x, y, z) = delinearize(index, 8);
        assert_eq!(linearize((x, y, z), 8), index);
    }
}

#[test]
fn chunk_position_round_trip() {
    for x in 0..CHUNK_AXIS {
        for y in 0..CHUNK_AXIS {
            for z in 0..CHUNK_AXIS {
                let p = ChunkPosition::new(x, y, z);
                assert_eq!(ChunkPosition::delinearize(p.linearize()), p);
            }
        }
    }
}

#[test]
fn region_position_round_trip() {
    for (x, y, z) in [(0, 0, 0), (63, 63, 63), (1, 2, 3), (63, 0, 17), (8, 9, 10)] {
        let p = RegionPosition::new(x, y, z);
        assert_eq!(RegionPosition::delinearize(p.linearize()), p);
    }
    assert_eq!(RegionPosition::new(63, 63, 63).linearize(), 262_143);
}

#[test]
fn region_position_splits_into_chunk_and_local() {
    let p = RegionPosition::new(9, 17, 25);
    assert_eq!(p.to_chunk_id(), 209);
    assert_eq!(p.to_chunk_pos(), ChunkPosition::new(1, 1, 1));
    assert_eq!(ChunkPosition::new(1, 1, 1).to_region_pos(209), p);
}

#[test]
fn global_position_maps_to_region() {
    let p = GlobalPosition::new(-1, 0, 64);
    assert_eq!(p.to_region_id(), 500_001_500_000_499_999);
    assert_eq!(p.to_region_pos(), RegionPosition::new(63, 0, 0));
    assert_eq!(GlobalPosition::new(0, 0, 0).to_region_id(), 500_000_500_000_500_000);
}

#[test]
fn global_division_is_euclidean() {
    let p = GlobalPosition::new(-7, 7, -8);
    assert_eq!(p.div_scalar(2), GlobalPosition::new(-4, 3, -4));
    assert_eq!(p.rem_scalar(2), GlobalPosition::new(1, 1, 0));
    assert_eq!(p.div(GlobalPosition::new(-2, -2, 3)), GlobalPosition::new(4, -3, -3));
    assert_eq!(p.rem(GlobalPosition::new(-2, -2, 3)), GlobalPosition::new(1, 1, 1));
}

#[test]
fn component_wise_arithmetic() {
    let a = RegionPosition::new(10, 20, 30);
    let b = RegionPosition::new(3, 4, 5);
    assert_eq!(a.add(b), RegionPosition::new(13, 24, 35));
    assert_eq!(a.sub(b), RegionPosition::new(7, 16, 25));
    assert_eq!(a.mul(b), RegionPosition::new(30, 80, 150));
    assert_eq!(a.div(b), RegionPosition::new(3, 5, 6));
    assert_eq!(a.rem(b), RegionPosition::new(1, 0, 0));
    assert_eq!(a.add_scalar(1), RegionPosition::new(11, 21, 31));
    assert_eq!(a.sub_scalar(10), RegionPosition::new(0, 10, 20));
    assert_eq!(a.mul_scalar(2), RegionPosition::new(20, 40, 60));
    let g = GlobalPosition::new(-1, 2, -3);
    assert_eq!(g.add(GlobalPosition::new(1, 1, 1)), GlobalPosition::new(0, 3, -2));
    assert_eq!(g.sub(GlobalPosition::new(1, 1, 1)), GlobalPosition::new(-2, 1, -4));
    assert_eq!(g.mul_scalar(-2), GlobalPosition::new(2, -4, 6));
}

#[test]
fn constants_agree() {
    assert_eq!(REGION_SPAN, REGION_AXIS * CHUNK_AXIS);
    assert_eq!(WORLD_AXIS, 1_000_000);
}
