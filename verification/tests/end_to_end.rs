use spaceships::client::SpaceshipGame;
use spaceships::codec::{decode_carrier, encode_carrier};
use spaceships::protocol::{ClientToServerMessage, Color, ServerToClientMessage, Spaceship, Vec2};
use spaceships::server::GameState;

const ADDR_A: u64 = 1001;
const ADDR_B: u64 = 1002;

#[test]
fn each_peer_gets_only_its_own_assignment() {
    let mut state = GameState::new();
    let inbound = vec![
        (ADDR_A, ClientToServerMessage::Hello),
        (ADDR_B, ClientToServerMessage::Hello),
    ];
    let out = state.tick(&inbound, 1);
    assert_eq!(out.len(), 2);
    assert_eq!(out[0].0, ADDR_A);
    assert_eq!(
        out[0].1.specific,
        Some(vec![ServerToClientMessage::AssignSpaceship(1)])
    );
    assert_eq!(out[1].0, ADDR_B);
    assert_eq!(
        out[1].1.specific,
        Some(vec![ServerToClientMessage::AssignSpaceship(2)])
    );
    // The shared batch is identical for every destination.
    assert_eq!(out[0].1.general, out[1].1.general);
}

#[test]
fn client_mirrors_server_world_through_the_codec() {
    let mut state = GameState::new();
    let mut client_a = SpaceshipGame::new();

    let fresh = |id: u16| Spaceship {
        id,
        color: Color { r: 255, g: 0, b: 0 },
        position: Vec2 { x: 0, y: 0 },
        velocity: Vec2 { x: 0, y: 0 },
        rotation: 0,
    };

    // Peer A joins; its carrier travels through the byte codec. The shared
    // batch is applied before the assignment in the specific batch, so the
    // very first echo of A's own entity still lands in the mirror.
    let out = state.tick(&vec![(ADDR_A, ClientToServerMessage::Hello)], 1);
    let bytes = encode_carrier(&out[0].1);
    client_a.consume_update(decode_carrier(&bytes).unwrap());
    assert_eq!(client_a.mine, Some(1));
    assert_eq!(client_a.ships, vec![fresh(1)]);

    // Peer B joins; now that A knows its identity, the echo of A's entity
    // is ignored and only B's is mirrored anew.
    let out = state.tick(&vec![(ADDR_B, ClientToServerMessage::Hello)], 1);
    let to_a = out.iter().find(|(dest, _)| *dest == ADDR_A).unwrap();
    let bytes = encode_carrier(&to_a.1);
    client_a.consume_update(decode_carrier(&bytes).unwrap());
    assert_eq!(client_a.mine, Some(1));
    assert_eq!(client_a.ships, vec![fresh(1), fresh(2)]);
}
