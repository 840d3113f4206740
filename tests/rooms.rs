use paddle_server::geometry::{Vec3, UNIT};
use paddle_server::physics::{BodyKey, ColliderKey, SIDE_DEPTH};
use paddle_server::player::Player;
use paddle_server::room::{Room, RoomState, ROOM_CAPACITY};
use paddle_server::room_controller::{InputOutcome, Placement, PlayerInput, RoomController};

fn body(i: u32) -> BodyKey {
    BodyKey { index: i, generation: 0 }
}

fn collider(i: u32) -> ColliderKey {
    ColliderKey { index: i, generation: 0 }
}

fn player(id: u128) -> Player {
    Player { id, display_name: "TBC".to_string() }
}

#[test]
fn new_player_has_a_random_id_and_placeholder_name() {
    let a = Player::new();
    let b = Player::new();
    assert_ne!(a.get_id(), b.get_id());
    assert_eq!(a.display_name, "TBC");
}

#[test]
fn third_join_is_refused() {
    let mut room = Room::new(body(0));
    assert_eq!(room.room_capacity(), ROOM_CAPACITY);
    assert_eq!(room.add_player(player(1), body(1), collider(1)), Some(0));
    assert_eq!(room.add_player(player(2), body(2), collider(2)), Some(1));
    assert_eq!(room.add_player(player(3), body(3), collider(3)), None);
    assert_eq!(room.population(), 2);
    assert!(!room.contains_player(3));
    assert!(!room.is_open_for_join());
}

#[test]
fn started_room_takes_no_one() {
    let mut room = Room::new(body(0));
    room.start_room();
    assert_eq!(room.room_state(), RoomState::Started);
    assert_eq!(room.add_player(player(1), body(1), collider(1)), None);
    assert_eq!(room.population(), 0);
    room.end_room();
    assert_eq!(room.room_state(), RoomState::Ended);
    room.start_room();
    assert_eq!(room.room_state(), RoomState::Ended);
}

#[test]
fn room_refuses_operations_of_strangers() {
    let mut room = Room::new(body(0));
    room.add_player(player(1), body(1), collider(1));
    assert!(!room.player_move(9, 1, 2, 3));
    assert!(!room.player_hit(9));
    assert_eq!(room.player_hit_end(9, &Vec3::new(0, 0, 0), &Vec3::new(0, 0, 0)), None);
    assert!(room.tick_room().is_empty());
    assert!(room.player_move(1, 1, 2, 3));
    let moves = room.tick_room();
    assert_eq!(moves.len(), 1);
    assert_eq!(moves[0].target, Vec3::new(1, 2, SIDE_DEPTH));
}

#[test]
fn room_removal_frees_a_seat() {
    let mut room = Room::new(body(0));
    room.add_player(player(1), body(1), collider(1));
    room.add_player(player(2), body(2), collider(2));
    assert!(room.remove_player(1));
    assert!(!room.remove_player(1));
    assert_eq!(room.population(), 1);
    assert!(room.is_open_for_join());
    assert_eq!(room.add_player(player(3), body(3), collider(3)), Some(1));
}

#[test]
fn players_fill_rooms_first_fit() {
    let mut c = RoomController::new();
    assert_eq!(c.add_player_to_room(player(1), body(1), collider(1)), None);
    let first = c.create_room(body(0));
    let second = c.create_room(body(0));
    assert_eq!(c.room_count(), 2);
    assert_eq!(c.open_room(), Some(0));
    assert_eq!(c.add_player_to_room(player(1), body(1), collider(1)), Some(Placement { room_id: first, seat: 0 }));
    assert_eq!(c.add_player_to_room(player(2), body(2), collider(2)), Some(Placement { room_id: first, seat: 1 }));
    assert_eq!(c.open_room(), Some(1));
    assert_eq!(c.add_player_to_room(player(3), body(1), collider(1)), Some(Placement { room_id: second, seat: 0 }));
    assert_eq!(c.find_room_by_player(2), Some(0));
    assert_eq!(c.find_room_by_player(3), Some(1));
    assert_eq!(c.find_room_by_player(4), None);
    assert_eq!(c.add_player_to_room(player(3), body(5), collider(5)), None);
}

#[test]
fn no_open_room_refuses_the_player() {
    let mut c = RoomController::new();
    c.create_room(body(0));
    c.add_player_to_room(player(1), body(1), collider(1));
    c.add_player_to_room(player(2), body(2), collider(2));
    assert_eq!(c.open_room(), None);
    assert_eq!(c.add_player_to_room(player(3), body(3), collider(3)), None);
    assert_eq!(c.room(0).population(), 2);
}

#[test]
fn operations_route_to_the_players_room() {
    let mut c = RoomController::new();
    c.create_room(body(0));
    c.create_room(body(0));
    c.add_player_to_room(player(1), body(1), collider(1));
    c.add_player_to_room(player(2), body(2), collider(2));
    c.add_player_to_room(player(3), body(1), collider(1));
    assert!(c.player_move(3, UNIT, 0, 0));
    assert!(!c.player_move(8, UNIT, 0, 0));
    assert!(c.player_hit(2));
    assert!(!c.player_hit(8));
    let report = c.player_hit_end(2, &Vec3::new(0, 0, 0), &Vec3::new(0, 3 * UNIT, 4 * UNIT)).unwrap();
    assert_eq!(report.distance, 5 * UNIT as u64);
    assert!(report.elapsed_nanos.is_some());
    assert_eq!(c.player_hit_end(8, &Vec3::new(0, 0, 0), &Vec3::new(0, 0, 0)), None);
    let ticks = c.process_rooms();
    assert_eq!(ticks.len(), 2);
    assert!(ticks[0].moves.is_empty());
    assert_eq!(ticks[1].moves.len(), 1);
    assert_eq!(ticks[1].moves[0].target, Vec3::new(UNIT, 0, SIDE_DEPTH));
    assert_eq!(ticks[1].room_id, c.room(1).get_room_id());
}

#[test]
fn idle_rooms_are_ticked_too() {
    let mut c = RoomController::new();
    c.create_room(body(0));
    c.create_room(body(0));
    let ticks = c.process_rooms();
    assert_eq!(ticks.len(), 2);
    assert!(ticks.iter().all(|t| t.moves.is_empty()));
}

#[test]
fn removal_through_the_controller() {
    let mut c = RoomController::new();
    let id = c.create_room(body(0));
    c.add_player_to_room(player(1), body(1), collider(1));
    assert_eq!(c.remove_player(1), Some(id));
    assert_eq!(c.remove_player(1), None);
    assert_eq!(c.find_room_by_player(1), None);
    assert_eq!(c.room(0).population(), 0);
}

#[test]
fn only_empty_rooms_are_deleted() {
    let mut c = RoomController::new();
    let a = c.create_room(body(0));
    let b = c.create_room(body(0));
    c.add_player_to_room(player(1), body(1), collider(1));
    assert!(!c.delete_room(a));
    assert!(c.delete_room(b));
    assert!(!c.delete_room(b));
    assert_eq!(c.room_count(), 1);
    assert_eq!(c.room(0).get_room_id(), a);
}

#[test]
fn input_is_routed_and_reported() {
    let mut c = RoomController::new();
    c.create_room(body(0));
    c.add_player_to_room(player(1), body(1), collider(1));
    c.add_player_to_room(player(2), body(2), collider(2));
    assert_eq!(c.handle_input(2, PlayerInput::Move { dx: UNIT, dy: 0, dz: 0 }), InputOutcome::Moved);
    assert_eq!(c.handle_input(9, PlayerInput::Move { dx: UNIT, dy: 0, dz: 0 }), InputOutcome::UnknownPlayer);
    assert_eq!(c.handle_input(1, PlayerInput::HitBegin), InputOutcome::HitBegun);
    assert_eq!(c.handle_input(9, PlayerInput::HitBegin), InputOutcome::UnknownPlayer);
    let far = Vec3::new(i64::MAX, 0, 0);
    let origin = Vec3::new(0, 0, 0);
    assert_eq!(c.handle_input(1, PlayerInput::HitEnd { paddle: far, ball: origin }), InputOutcome::OutOfRange);
    match c.handle_input(1, PlayerInput::HitEnd { paddle: origin, ball: Vec3::new(3 * UNIT, 0, 4 * UNIT) }) {
        InputOutcome::HitEnded(report) => {
            assert_eq!(report.distance, 5 * UNIT as u64);
            assert!(report.elapsed_nanos.is_some());
        }
        other => panic!("unexpected outcome {:?}", other),
    }
    match c.handle_input(1, PlayerInput::HitEnd { paddle: origin, ball: origin }) {
        InputOutcome::HitEnded(report) => assert_eq!(report.elapsed_nanos, None),
        other => panic!("unexpected outcome {:?}", other),
    }
    assert_eq!(c.handle_input(9, PlayerInput::HitEnd { paddle: origin, ball: origin }), InputOutcome::UnknownPlayer);
    let ticks = c.process_rooms();
    assert_eq!(ticks[0].moves.len(), 1);
    assert_eq!(ticks[0].moves[0].target, Vec3::new(UNIT, 0, -SIDE_DEPTH));
}
