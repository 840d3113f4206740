use paddle_server::geometry::{Vec3, UNIT};
use paddle_server::messages::{init_message, snapshot, ServerMessage};
use paddle_server::physics::{BodyKey, ColliderKey};
use paddle_server::player::Player;
use paddle_server::room_controller::RoomController;

fn body(i: u32) -> BodyKey {
    BodyKey { index: i, generation: 0 }
}

fn collider(i: u32) -> ColliderKey {
    ColliderKey { index: i, generation: 0 }
}

#[test]
fn two_players_tick_and_one_leaves() {
    let mut c = RoomController::new();
    c.create_room(body(0));
    let p0 = Player::new();
    let p1 = Player::new();
    let (id0, id1) = (p0.get_id(), p1.get_id());
    c.add_player_to_room(p0, body(1), collider(1)).unwrap();
    c.add_player_to_room(p1, body(2), collider(2)).unwrap();

    let world = c.room(0).physics_world();
    let init0 = init_message(world, id0).unwrap();
    let init1 = init_message(world, id1).unwrap();
    assert_eq!(init0, ServerMessage::Init { player_id: id0, player_index: 0 });
    assert_eq!(init1, ServerMessage::Init { player_id: id1, player_index: 1 });
    assert_ne!(init0, init1);

    c.process_rooms();
    let ball = Vec3::new(0, UNIT, 0);
    let vel = Vec3::new(0, 0, -UNIT);
    let positions = vec![Vec3::new(0, 0, 9 * UNIT), Vec3::new(0, 0, -9 * UNIT)];
    let snap = snapshot(c.room(0).physics_world(), ball, vel, &positions);
    assert_eq!(
        snap,
        vec![
            ServerMessage::BallState { pos: ball, vel },
            ServerMessage::PlayerState { player_id: id0, player_num: 0, pos: positions[0] },
            ServerMessage::PlayerState { player_id: id1, player_num: 1, pos: positions[1] },
        ]
    );

    assert!(c.remove_player(id0).is_some());
    let notice = ServerMessage::Remove { player_id: id0 };
    assert_eq!(notice, ServerMessage::Remove { player_id: id0 });

    c.process_rooms();
    let positions = vec![Vec3::new(0, 0, -9 * UNIT)];
    let snap = snapshot(c.room(0).physics_world(), ball, vel, &positions);
    assert_eq!(snap.len(), 2);
    assert_eq!(snap[1], ServerMessage::PlayerState { player_id: id1, player_num: 1, pos: positions[0] });
    assert!(init_message(c.room(0).physics_world(), id0).is_none());
}
