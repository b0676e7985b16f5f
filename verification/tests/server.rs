use spaceships::pace_remaining;
use spaceships::protocol::{
    ClientToServerMessage, Color, ServerToClientMessage, Spaceship, Vec2,
};
use spaceships::server::GameState;

const ADDR_A: u64 = 0xa;
const ADDR_B: u64 = 0xb;

fn ship(id: u16, px: i32, py: i32, vx: i32, vy: i32) -> Spaceship {
    Spaceship {
        id,
        color: Color { r: 1, g: 2, b: 3 },
        position: Vec2 { x: px, y: py },
        velocity: Vec2 { x: vx, y: vy },
        rotation: 0,
    }
}

#[test]
fn register_assigns_distinct_fresh_ids() {
    let mut state = GameState::new();
    let a = state.register(ADDR_A);
    let b = state.register(ADDR_B);
    assert_eq!(a, Some(1));
    assert_eq!(b, Some(2));
    // A duplicate hello creates no new identity.
    assert_eq!(state.register(ADDR_A), None);
    assert_eq!(state.next_id, 2);
}

#[test]
fn unregister_returns_freed_id() {
    let mut state = GameState::new();
    state.register(ADDR_A);
    assert_eq!(state.unregister(ADDR_A), Some(1));
    assert_eq!(state.unregister(ADDR_A), None);
}

#[test]
fn update_after_unregister_resurrects_nothing() {
    let mut state = GameState::new();
    state.register(ADDR_A);
    state.unregister(ADDR_A);
    let applied = state.apply_update(ADDR_A, ship(1, 5, 5, 0, 0));
    assert!(!applied);
    assert!(state.ship_from_addr(ADDR_A).is_none());
}

#[test]
fn update_replaces_whole_entity() {
    let mut state = GameState::new();
    state.register(ADDR_A);
    let newer = ship(1, 5, 6, 7, 8);
    assert!(state.apply_update(ADDR_A, newer));
    assert_eq!(state.ship_from_addr(ADDR_A), Some(newer));
}

#[test]
fn update_from_unknown_address_is_dropped() {
    let mut state = GameState::new();
    assert!(!state.apply_update(ADDR_A, ship(1, 0, 0, 0, 0)));
    assert!(state.ship_from_addr(ADDR_A).is_none());
}

#[test]
fn first_hello_gets_assignment_in_its_own_batch() {
    let mut state = GameState::new();
    assert_eq!(state.next_id, 0);
    let inbound = vec![(ADDR_A, ClientToServerMessage::Hello)];
    let out = state.tick(&inbound, 1);
    assert_eq!(state.ship_from_addr(ADDR_A).unwrap().id, 1);
    assert_eq!(out.len(), 1);
    let (dest, carrier) = &out[0];
    assert_eq!(*dest, ADDR_A);
    assert_eq!(
        carrier.specific,
        Some(vec![ServerToClientMessage::AssignSpaceship(1)])
    );
}

#[test]
fn update_is_integrated_and_broadcast_once_per_entity() {
    let mut state = GameState::new();
    state.tick(&vec![(ADDR_A, ClientToServerMessage::Hello)], 1);
    state.tick(&vec![(ADDR_B, ClientToServerMessage::Hello)], 1);

    let sent = ship(1, 5, 0, 1, 0);
    let inbound = vec![(ADDR_A, ClientToServerMessage::UpdateSpaceship(sent))];
    let out = state.tick(&inbound, 1);

    assert_eq!(out.len(), 2);
    let integrated = ship(1, 6, 0, 1, 0); // position advanced by velocity
    for (_, carrier) in &out {
        let hits = carrier
            .general
            .iter()
            .filter(|m| **m == ServerToClientMessage::UpdateSpaceship(integrated))
            .count();
        assert_eq!(hits, 1);
        // Both peers see the very same shared batch.
        assert_eq!(carrier.general, out[0].1.general);
    }
}

#[test]
fn goodbye_is_broadcast_exactly_once() {
    let mut state = GameState::new();
    state.tick(&vec![(ADDR_A, ClientToServerMessage::Hello)], 1);
    state.tick(&vec![(ADDR_B, ClientToServerMessage::Hello)], 1);

    let out = state.tick(&vec![(ADDR_A, ClientToServerMessage::Goodbye)], 1);
    assert_eq!(out.len(), 1); // only B is still known
    assert_eq!(out[0].0, ADDR_B);
    let removals = out[0]
        .1
        .general
        .iter()
        .filter(|m| **m == ServerToClientMessage::RemoveSpaceship(1))
        .count();
    assert_eq!(removals, 1);

    // The following tick repeats no removal.
    let out2 = state.tick(&vec![], 1);
    assert!(out2[0]
        .1
        .general
        .iter()
        .all(|m| *m != ServerToClientMessage::RemoveSpaceship(1)));
}

#[test]
fn duplicate_hello_in_one_tick_queues_one_assignment() {
    let mut state = GameState::new();
    let inbound = vec![
        (ADDR_A, ClientToServerMessage::Hello),
        (ADDR_A, ClientToServerMessage::Hello),
    ];
    let out = state.tick(&inbound, 1);
    assert_eq!(out.len(), 1);
    assert_eq!(
        out[0].1.specific,
        Some(vec![ServerToClientMessage::AssignSpaceship(1)])
    );
    assert_eq!(state.next_id, 1);
}

#[test]
fn integrate_advances_position_by_velocity_times_dt() {
    let mut state = GameState::new();
    state.register(ADDR_A);
    state.apply_update(ADDR_A, ship(1, 10, 20, 2, -3));
    state.integrate_all(2);
    let s = state.ship_from_addr(ADDR_A).unwrap();
    assert_eq!((s.position.x, s.position.y), (14, 14));
    assert_eq!((s.velocity.x, s.velocity.y), (2, -3));
}

#[test]
fn integration_wraps_at_the_coordinate_width() {
    let mut state = GameState::new();
    state.register(ADDR_A);
    state.apply_update(ADDR_A, ship(1, i32::MAX, 0, 1, 0));
    state.integrate_all(1);
    assert_eq!(state.ship_from_addr(ADDR_A).unwrap().position.x, i32::MIN);
}

#[test]
fn identity_counter_wraps_at_the_type_width() {
    // The counter is fixed-width and not reclaimed; at the boundary it
    // wraps rather than fail.
    let mut state = GameState::new();
    state.next_id = u16::MAX;
    assert_eq!(state.register(ADDR_A), Some(0));
}

#[test]
fn pace_clamps_to_zero_on_overrun() {
    assert_eq!(pace_remaining(16, 5), 11);
    assert_eq!(pace_remaining(16, 16), 0);
    assert_eq!(pace_remaining(16, 40), 0);
}
