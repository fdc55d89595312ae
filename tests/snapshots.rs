use higgs::chunk::Block;
use higgs::codec::{decode_region, encode_region, push_le, read_le, DecodeError};
use higgs::consts::REGION_SIZE;
use higgs::entity::{Entity, Look, PrecisePosition};
use higgs::position::RegionPosition;
use higgs::region::{Operation, Region};

fn player(id: u128) -> Entity {
    Entity::Player {
        player_id: id,
        position: PrecisePosition { x: 7, y: 8, z: 9 },
        look: Look { yaw: 10, pitch: 11 },
    }
}

fn sample() -> Region {
    let mut r = Region::new();
    r.apply(&Operation::SetBlocks(vec![
        (RegionPosition::new(1, 2, 3), Block::Stone),
        (RegionPosition::new(63, 63, 63), Block::Air),
    ]))
    .unwrap();
    r.apply(&Operation::InsertEntity(vec![(0x0102, player(5)), (0x01, player(6))])).unwrap();
    r.apply(&Operation::RemoveEntity(vec![0x77])).unwrap();
    r
}

#[test]
fn little_endian_helpers() {
    let mut out = Vec::new();
    push_le(&mut out, 0x0102_0304, 4);
    assert_eq!(out, vec![4, 3, 2, 1]);
    assert_eq!(read_le(&out, 0, 4), Some(0x0102_0304));
    assert_eq!(read_le(&out, 1, 2), Some(0x0203));
    assert_eq!(read_le(&out, 2, 4), None);
}

#[test]
fn default_region_encoding_layout() {
    let bytes = encode_region(&Region::new());
    assert_eq!(bytes.len(), REGION_SIZE as usize * (1 + 8 + 8 * 8) + 8);
    assert_eq!(bytes[0], 1);
    assert_eq!(&bytes[1..9], &[8, 0, 0, 0, 0, 0, 0, 0]);
    assert_eq!(&bytes[bytes.len() - 8..], &[0; 8]);
}

#[test]
fn round_trip_of_default_region() {
    let bytes = encode_region(&Region::new());
    let back = decode_region(&bytes).unwrap();
    assert_eq!(encode_region(&back), bytes);
}

#[test]
fn round_trip_after_operations() {
    let r = sample();
    let bytes = encode_region(&r);
    let back = decode_region(&bytes).unwrap();
    assert_eq!(encode_region(&back), bytes);
    assert_eq!(back.entities().entries().clone(), vec![(0x01, player(6)), (0x0102, player(5))]);
    assert_eq!(back.get_blocks(&vec![RegionPosition::new(1, 2, 3)])[0].1, Block::Stone);
    assert_eq!(back.chunk(511).packed().bits(), r.chunk(511).packed().bits());
}

#[test]
fn decoding_sorts_permuted_entities() {
    let r = sample();
    let bytes = encode_region(&r);
    let n = bytes.len();
    let mut swapped = bytes[..n - 112].to_vec();
    swapped.extend_from_slice(&bytes[n - 56..]);
    swapped.extend_from_slice(&bytes[n - 112..n - 56]);
    assert_ne!(swapped, bytes);
    let back = decode_region(&swapped).unwrap();
    assert_eq!(encode_region(&back), bytes);
}

#[test]
fn malformed_snapshots_are_rejected() {
    let bytes = encode_region(&sample());
    assert_eq!(decode_region(&bytes[..bytes.len() - 1].to_vec()).err(), Some(DecodeError));
    let mut longer = bytes.clone();
    longer.push(0);
    assert_eq!(decode_region(&longer).err(), Some(DecodeError));
    let mut bad_width = bytes.clone();
    bad_width[0] = 3;
    assert_eq!(decode_region(&bad_width).err(), Some(DecodeError));
    let mut bad_tag = bytes.clone();
    let tag_at = bytes.len() - 56 + 16;
    bad_tag[tag_at] = 1;
    assert_eq!(decode_region(&bad_tag).err(), Some(DecodeError));
    assert_eq!(decode_region(&Vec::new()).err(), Some(DecodeError));
}

#[test]
fn duplicate_entity_ids_are_rejected() {
    let bytes = encode_region(&sample());
    let n = bytes.len();
    let mut doubled = bytes[..n - 112].to_vec();
    doubled.extend_from_slice(&bytes[n - 56..]);
    doubled.extend_from_slice(&bytes[n - 56..]);
    assert_eq!(decode_region(&doubled).err(), Some(DecodeError));
}

#[test]
fn duplicates_encode_alike() {
    let r = sample();
    assert_eq!(encode_region(&r.duplicate()), encode_region(&r));
    assert_eq!(r.chunk(0).duplicate().packed().words(), r.chunk(0).packed().words());
}
