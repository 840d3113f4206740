use paddle_server::geometry::{Vec3, UNIT};
use paddle_server::physics::{
    pin_to_side, BodyKey, ColliderKey, Move, PhysicsWorld, HIT_WINDOW_SECS, SIDE_DEPTH, SIDE_TOLERANCE,
};
use paddle_server::timer::{Timer, NANOS_PER_SEC};

fn body(i: u32) -> BodyKey {
    BodyKey { index: i, generation: 0 }
}

fn collider(i: u32) -> ColliderKey {
    ColliderKey { index: i, generation: 0 }
}

/// A world whose ball is body 0, with players 10, 11, 12 on bodies and
/// colliders 1, 2, 3.
fn world_with_three() -> PhysicsWorld {
    let mut w = PhysicsWorld::new(body(0));
    assert_eq!(w.add_player(10, body(1), collider(1)), Some(0));
    assert_eq!(w.add_player(11, body(2), collider(2)), Some(1));
    assert_eq!(w.add_player(12, body(3), collider(3)), Some(2));
    w
}

#[test]
fn seats_follow_the_number_of_players() {
    let w = world_with_three();
    assert_eq!(w.get_player_number(10), 0);
    assert_eq!(w.get_player_number(11), 1);
    assert_eq!(w.get_player_number(12), 2);
    assert_eq!(w.get_player_number(99), -1);
    assert_eq!(w.players().len(), 3);
}

#[test]
fn add_refuses_a_known_id_or_a_used_key() {
    let mut w = world_with_three();
    assert_eq!(w.add_player(10, body(4), collider(4)), None);
    assert_eq!(w.add_player(13, body(2), collider(4)), None);
    assert_eq!(w.add_player(13, body(4), collider(3)), None);
    assert_eq!(w.add_player(13, body(0), collider(4)), None);
    assert_eq!(w.players().len(), 3);
    assert_eq!(w.add_player(13, body(4), collider(4)), Some(3));
}

#[test]
fn lookups_by_body_and_collider() {
    let w = world_with_three();
    assert_eq!(w.body_of(11), Some(body(2)));
    assert_eq!(w.body_of(99), None);
    assert_eq!(w.player_of_collider(collider(3)), Some(12));
    assert_eq!(w.player_of_collider(collider(9)), None);
    assert_eq!(w.ball_handle(), body(0));
}

#[test]
fn moves_coalesce_to_the_last() {
    let mut w = world_with_three();
    w.add_move_to_queue(12, UNIT, 0, 0);
    w.add_move_to_queue(12, 2 * UNIT, 0, 0);
    w.add_move_to_queue(12, 3 * UNIT, 0, 0);
    let moves = w.step();
    assert_eq!(moves, vec![Move { player_id: 12, body: body(3), target: Vec3::new(3 * UNIT, 0, 0) }]);
    assert!(w.step().is_empty());
}

#[test]
fn moves_coalesce_for_seat_zero_with_pinned_depth() {
    let mut w = world_with_three();
    w.add_move_to_queue(10, UNIT, 0, 0);
    w.add_move_to_queue(10, 2 * UNIT, 0, 0);
    w.add_move_to_queue(10, 3 * UNIT, 0, 0);
    let moves = w.step();
    assert_eq!(moves.len(), 1);
    assert_eq!(moves[0].target, Vec3::new(3 * UNIT, 0, SIDE_DEPTH));
}

#[test]
fn step_lists_players_in_order_of_joining() {
    let mut w = world_with_three();
    w.add_move_to_queue(12, 5, 6, 7);
    w.add_move_to_queue(10, 1, 2, 3);
    let moves = w.step();
    assert_eq!(moves.len(), 2);
    assert_eq!(moves[0].player_id, 10);
    assert_eq!(moves[1].player_id, 12);
    assert_eq!(moves[1].target, Vec3::new(5, 6, 7));
}

#[test]
fn move_of_unknown_player_is_ignored() {
    let mut w = world_with_three();
    w.add_move_to_queue(99, 1, 1, 1);
    assert!(w.step().is_empty());
}

#[test]
fn seat_zero_is_pinned_to_the_positive_depth() {
    assert_eq!(pin_to_side(0, Vec3::new(1, 2, -5)), Vec3::new(1, 2, SIDE_DEPTH));
    assert_eq!(pin_to_side(0, Vec3::new(1, 2, SIDE_DEPTH)), Vec3::new(1, 2, SIDE_DEPTH));
}

#[test]
fn seat_one_is_pinned_to_the_negative_depth() {
    assert_eq!(pin_to_side(1, Vec3::new(1, 2, 0)), Vec3::new(1, 2, -SIDE_DEPTH));
    assert_eq!(pin_to_side(1, Vec3::new(1, 2, SIDE_DEPTH)), Vec3::new(1, 2, -SIDE_DEPTH));
    assert_eq!(pin_to_side(1, Vec3::new(1, 2, -SIDE_DEPTH + 500)), Vec3::new(1, 2, -SIDE_DEPTH + 500));
    assert_eq!(pin_to_side(1, Vec3::new(1, 2, -SIDE_DEPTH - 999)), Vec3::new(1, 2, -SIDE_DEPTH - 999));
    assert_eq!(
        pin_to_side(1, Vec3::new(1, 2, -SIDE_DEPTH - SIDE_TOLERANCE)),
        Vec3::new(1, 2, -SIDE_DEPTH)
    );
    assert_eq!(
        pin_to_side(1, Vec3::new(1, 2, -SIDE_DEPTH + SIDE_TOLERANCE)),
        Vec3::new(1, 2, -SIDE_DEPTH)
    );
}

#[test]
fn later_seats_are_not_pinned() {
    assert_eq!(pin_to_side(2, Vec3::new(1, 2, 3)), Vec3::new(1, 2, 3));
}

#[test]
fn queued_move_of_seat_one_is_pinned() {
    let mut w = world_with_three();
    w.add_move_to_queue(11, 4, 5, 6);
    let moves = w.step();
    assert_eq!(moves[0].target, Vec3::new(4, 5, -SIDE_DEPTH));
}

#[test]
fn removal_is_idempotent() {
    let mut w = world_with_three();
    w.player_hit(11);
    assert!(w.remove_player(11));
    assert_eq!(w.players().len(), 2);
    assert!(w.armed_timer(11).is_none());
    assert_eq!(w.get_player_number(11), -1);
    let before: Vec<_> = w.players().clone();
    assert!(!w.remove_player(11));
    assert_eq!(*w.players(), before);
    assert!(!w.remove_player(77));
    assert_eq!(*w.players(), before);
}

#[test]
fn removal_keeps_the_others() {
    let mut w = world_with_three();
    w.add_move_to_queue(12, 1, 1, 1);
    assert!(w.remove_player(10));
    assert_eq!(w.get_player_number(11), 1);
    assert_eq!(w.get_player_number(12), 2);
    assert_eq!(w.step().len(), 1);
}

#[test]
fn seat_after_a_removal_is_the_count() {
    let mut w = world_with_three();
    assert!(w.remove_player(10));
    assert_eq!(w.add_player(13, body(4), collider(4)), Some(2));
}

#[test]
fn hit_timer_is_replaced() {
    let mut w = world_with_three();
    assert!(w.arm_timer(10, Timer::new(5)));
    assert!(w.arm_timer(10, Timer::new(7)));
    let t = w.armed_timer(10).unwrap();
    assert_eq!(t.remaining_after(0), 7 * NANOS_PER_SEC);
    let report = w.player_hit_exec(10, &Vec3::new(0, 0, 0), &Vec3::new(0, 0, 0)).unwrap();
    assert!(report.elapsed_nanos.is_some());
    assert!(w.armed_timer(10).is_none());
}

#[test]
fn begin_hit_twice_leaves_one_timer() {
    let mut w = world_with_three();
    w.player_hit(11);
    w.player_hit(11);
    assert_eq!(w.armed_timer(11).unwrap().remaining_after(0), HIT_WINDOW_SECS as u128 * NANOS_PER_SEC);
    assert!(w.player_hit_exec(11, &Vec3::new(0, 0, 0), &Vec3::new(0, 0, 0)).unwrap().elapsed_nanos.is_some());
    assert!(w.player_hit_exec(11, &Vec3::new(0, 0, 0), &Vec3::new(0, 0, 0)).unwrap().elapsed_nanos.is_none());
}

#[test]
fn hit_of_unknown_player_arms_nothing() {
    let mut w = world_with_three();
    w.player_hit(99);
    assert!(w.armed_timer(99).is_none());
    assert!(!w.arm_timer(99, Timer::new(1)));
    assert_eq!(w.player_hit_exec(99, &Vec3::new(0, 0, 0), &Vec3::new(0, 0, 0)), None);
}

#[test]
fn hit_reports_the_paddle_to_ball_distance() {
    let mut w = world_with_three();
    w.player_hit(12);
    let report = w.player_hit_exec(12, &Vec3::new(0, 0, 0), &Vec3::new(3 * UNIT, 4 * UNIT, 0)).unwrap();
    assert_eq!(report.distance, 5 * UNIT as u64);
    assert!(report.elapsed_nanos.unwrap() < HIT_WINDOW_SECS as u128 * NANOS_PER_SEC);
}

#[test]
fn hit_without_timer_still_reports_distance() {
    let mut w = world_with_three();
    let report = w.player_hit_exec(10, &Vec3::new(UNIT, 0, 0), &Vec3::new(UNIT, 0, 2 * UNIT)).unwrap();
    assert_eq!(report.elapsed_nanos, None);
    assert_eq!(report.distance, 2 * UNIT as u64);
}
