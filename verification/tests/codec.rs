use spaceships::codec::{
    decode_c2s, decode_carrier, decode_s2c, encode_c2s, encode_carrier, encode_s2c,
};
use spaceships::protocol::{
    ClientToServerMessage, Color, MessageCarrier, ServerToClientMessage, Spaceship, Vec2,
};

fn sample_ship() -> Spaceship {
    Spaceship {
        id: 7,
        color: Color { r: 10, g: 20, b: 30 },
        position: Vec2 { x: -1, y: 250 },
        velocity: Vec2 { x: 3, y: -4 },
        rotation: -90,
    }
}

#[test]
fn c2s_hello_exact_bytes() {
    assert_eq!(encode_c2s(&ClientToServerMessage::Hello), vec![1u8]);
    assert_eq!(encode_c2s(&ClientToServerMessage::Goodbye), vec![3u8]);
}

#[test]
fn c2s_update_exact_bytes() {
    let ship = sample_ship();
    let bytes = encode_c2s(&ClientToServerMessage::UpdateSpaceship(ship));
    let expected: Vec<u8> = vec![
        2, // tag
        7, 0, // id
        10, 20, 30, // color
        0xff, 0xff, 0xff, 0xff, // position.x == -1
        250, 0, 0, 0, // position.y == 250
        3, 0, 0, 0, // velocity.x == 3
        0xfc, 0xff, 0xff, 0xff, // velocity.y == -4
        0xa6, 0xff, 0xff, 0xff, // rotation == -90
    ];
    assert_eq!(bytes, expected);
}

#[test]
fn c2s_round_trips() {
    for m in [
        ClientToServerMessage::Hello,
        ClientToServerMessage::UpdateSpaceship(sample_ship()),
        ClientToServerMessage::Goodbye,
    ] {
        let bytes = encode_c2s(&m);
        assert_eq!(decode_c2s(&bytes), Some(m));
    }
}

#[test]
fn s2c_assign_exact_bytes() {
    let bytes = encode_s2c(&ServerToClientMessage::AssignSpaceship(0x1234));
    assert_eq!(bytes, vec![1u8, 0x34, 0x12]);
}

#[test]
fn s2c_round_trips() {
    for m in [
        ServerToClientMessage::AssignSpaceship(1),
        ServerToClientMessage::UpdateSpaceship(sample_ship()),
        ServerToClientMessage::AddSpaceship(sample_ship()),
        ServerToClientMessage::RemoveSpaceship(65535),
        ServerToClientMessage::Goodbye,
    ] {
        let bytes = encode_s2c(&m);
        assert_eq!(decode_s2c(&bytes), Some(m));
    }
}

#[test]
fn corrupt_bytes_are_rejected() {
    assert_eq!(decode_c2s(&vec![]), None);
    assert_eq!(decode_c2s(&vec![9]), None);
    assert_eq!(decode_c2s(&vec![2, 0, 0]), None); // truncated update
    assert_eq!(decode_s2c(&vec![0]), None);
    assert_eq!(decode_s2c(&vec![1, 0]), None); // truncated assign
    assert_eq!(decode_carrier(&vec![1, 2, 3]), None); // shorter than a count
}

#[test]
fn carrier_round_trip_with_specific() {
    let carrier = MessageCarrier {
        general: vec![
            ServerToClientMessage::UpdateSpaceship(sample_ship()),
            ServerToClientMessage::RemoveSpaceship(3),
        ],
        specific: Some(vec![ServerToClientMessage::AssignSpaceship(4)]),
    };
    let bytes = encode_carrier(&carrier);
    assert_eq!(decode_carrier(&bytes), Some(carrier));
}

#[test]
fn carrier_round_trip_without_specific() {
    let carrier = MessageCarrier { general: vec![ServerToClientMessage::Goodbye], specific: None };
    let bytes = encode_carrier(&carrier);
    assert_eq!(decode_carrier(&bytes), Some(carrier));
}

#[test]
fn carrier_with_trailing_garbage_is_rejected() {
    let carrier = MessageCarrier { general: vec![], specific: None };
    let mut bytes = encode_carrier(&carrier);
    bytes.push(0);
    assert_eq!(decode_carrier(&bytes), None);
}
