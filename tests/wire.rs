use higgs::chunk::Block;
use higgs::codec::{encode_region, DecodeError};
use higgs::entity::{Entity, Look, PrecisePosition};
use higgs::net::{decode_request, encode_request, encode_response, Request, Response};
use higgs::position::RegionPosition;
use higgs::region::{Operation, Region};

fn player(id: u128) -> Entity {
    Entity::Player { player_id: id, position: PrecisePosition { x: 1, y: 2, z: 3 }, look: Look { yaw: 4, pitch: 5 } }
}

fn perform() -> Request {
    Request::Perform(vec![
        (0, vec![Operation::SetBlocks(vec![(RegionPosition::new(1, 2, 3), Block::Stone)])]),
        (
            7,
            vec![
                Operation::InsertEntity(vec![(9, player(1))]),
                Operation::RemoveEntity(vec![9, 10]),
            ],
        ),
    ])
}

#[test]
fn subscribe_request_layout_and_round_trip() {
    let bytes = encode_request(&Request::Subscribe(vec![42, 7]));
    assert_eq!(bytes.len(), 4 + 8 + 16);
    assert_eq!(&bytes[..12], &[0, 0, 0, 0, 2, 0, 0, 0, 0, 0, 0, 0]);
    assert_eq!(bytes[12], 42);
    match decode_request(&bytes).unwrap() {
        Request::Subscribe(ids) => assert_eq!(ids, vec![42, 7]),
        other => panic!("unexpected {:?}", other),
    }
}

#[test]
fn perform_request_round_trip() {
    let bytes = encode_request(&perform());
    let back = decode_request(&bytes).unwrap();
    assert_eq!(encode_request(&back), bytes);
    match back {
        Request::Perform(batch) => {
            assert_eq!(batch.len(), 2);
            assert_eq!(batch[1].0, 7);
            match &batch[1].1[0] {
                Operation::InsertEntity(es) => assert_eq!(es.clone(), vec![(9, player(1))]),
                other => panic!("unexpected {:?}", other),
            }
        },
        other => panic!("unexpected {:?}", other),
    }
}

#[test]
fn malformed_requests_are_rejected() {
    let bytes = encode_request(&perform());
    assert_eq!(decode_request(&bytes[..bytes.len() - 1].to_vec()).err().map(|_| ()), Some(()));
    let mut longer = bytes.clone();
    longer.push(1);
    assert!(matches!(decode_request(&longer), Err(DecodeError)));
    let mut bad_tag = bytes.clone();
    bad_tag[0] = 9;
    assert!(matches!(decode_request(&bad_tag), Err(DecodeError)));
    let mut bad_block = encode_request(&Request::Perform(vec![(0, vec![Operation::SetBlocks(vec![(RegionPosition::new(0, 0, 0), Block::Air)])])]));
    let block_at = bad_block.len() - 8;
    bad_block[block_at] = 5;
    assert!(matches!(decode_request(&bad_block), Err(DecodeError)));
    assert!(matches!(decode_request(&vec![1, 0]), Err(DecodeError)));
}

#[test]
fn response_layout() {
    let publish = encode_response(&Response::Publish(vec![(3, Vec::new())]));
    assert_eq!(publish, vec![0, 0, 0, 0, 1, 0, 0, 0, 0, 0, 0, 0, 3, 0, 0, 0, 0, 0, 0, 0, 0, 0, 0, 0, 0, 0, 0, 0]);
    let refresh = encode_response(&Response::Refresh(vec![(42, Region::new())]));
    let region = encode_region(&Region::new());
    assert_eq!(refresh.len(), 12 + 8 + region.len());
    assert_eq!(&refresh[..4], &[1, 0, 0, 0]);
    assert_eq!(refresh[12], 42);
    assert_eq!(&refresh[20..], &region[..]);
}
