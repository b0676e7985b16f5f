use spaceships::client::SpaceshipGame;
use spaceships::protocol::{
    Color, MessageCarrier, ServerToClientMessage, Spaceship, Vec2,
};

fn ship(id: u16, px: i32) -> Spaceship {
    Spaceship {
        id,
        color: Color { r: 9, g: 9, b: 9 },
        position: Vec2 { x: px, y: 0 },
        velocity: Vec2 { x: 0, y: 0 },
        rotation: 0,
    }
}

#[test]
fn assignment_only_records_identity() {
    let mut game = SpaceshipGame::new();
    game.process_update(ServerToClientMessage::AssignSpaceship(4));
    assert_eq!(game.mine, Some(4));
    assert!(game.ships.is_empty());
    assert!(game.my_ship().is_none());
}

#[test]
fn update_inserts_and_replaces_non_owned() {
    let mut game = SpaceshipGame::new();
    game.process_update(ServerToClientMessage::UpdateSpaceship(ship(2, 1)));
    assert_eq!(game.ships, vec![ship(2, 1)]);
    game.process_update(ServerToClientMessage::UpdateSpaceship(ship(2, 8)));
    assert_eq!(game.ships, vec![ship(2, 8)]);
}

#[test]
fn same_update_twice_is_idempotent() {
    let mut game = SpaceshipGame::new();
    game.process_update(ServerToClientMessage::UpdateSpaceship(ship(2, 5)));
    let after_once = game.ships.clone();
    game.process_update(ServerToClientMessage::UpdateSpaceship(ship(2, 5)));
    assert_eq!(game.ships, after_once);
}

#[test]
fn own_updates_are_ignored_however_often() {
    let mut game = SpaceshipGame::new();
    game.process_update(ServerToClientMessage::AssignSpaceship(7));
    for _ in 0..3 {
        game.process_update(ServerToClientMessage::UpdateSpaceship(ship(7, 42)));
    }
    assert!(game.ships.is_empty());
    // Another entity still comes through.
    game.process_update(ServerToClientMessage::UpdateSpaceship(ship(8, 1)));
    assert_eq!(game.ships, vec![ship(8, 1)]);
}

#[test]
fn add_and_remove_are_unconditional() {
    let mut game = SpaceshipGame::new();
    game.process_update(ServerToClientMessage::AssignSpaceship(7));
    // Even the owned entity is added by an explicit add.
    game.process_update(ServerToClientMessage::AddSpaceship(ship(7, 3)));
    assert_eq!(game.ships, vec![ship(7, 3)]);
    assert_eq!(game.my_ship(), Some(ship(7, 3)));
    game.process_update(ServerToClientMessage::RemoveSpaceship(7));
    assert!(game.ships.is_empty());
}

#[test]
fn goodbye_changes_nothing() {
    let mut game = SpaceshipGame::new();
    game.process_update(ServerToClientMessage::AddSpaceship(ship(1, 1)));
    game.process_update(ServerToClientMessage::Goodbye);
    assert_eq!(game.ships, vec![ship(1, 1)]);
    assert_eq!(game.mine, None);
}

#[test]
fn carrier_applies_general_before_specific() {
    let mut game = SpaceshipGame::new();
    let carrier = MessageCarrier {
        general: vec![
            ServerToClientMessage::AddSpaceship(ship(3, 1)),
            ServerToClientMessage::AssignSpaceship(5),
        ],
        specific: Some(vec![
            // Applied after the broadcast batch: the removal and the later
            // assignment win.
            ServerToClientMessage::RemoveSpaceship(3),
            ServerToClientMessage::AssignSpaceship(9),
        ]),
    };
    game.consume_update(carrier);
    assert!(game.ships.is_empty());
    assert_eq!(game.mine, Some(9));
}

#[test]
fn carrier_without_specific_applies_general_alone() {
    let mut game = SpaceshipGame::new();
    let carrier = MessageCarrier {
        general: vec![ServerToClientMessage::AddSpaceship(ship(1, 2))],
        specific: None,
    };
    game.consume_update(carrier);
    assert_eq!(game.ships, vec![ship(1, 2)]);
}
