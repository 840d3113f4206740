//! Messages between the server and its clients, as values; turning them
//! into and out of text is left to the transport.
use vstd::prelude::*;

use crate::geometry::Vec3;
use crate::physics::{PhysicsWorld, PlayerRecord};
use crate::player::Player;

verus! {

/// What a client asks for.
#[derive(Debug)]
pub enum PlayerMessage {
    JoinRoom { player_data: Player },
    /// Move the sender's paddle to `(dx, dy, dz)` (millionths of a unit).
    Move { dx: i64, dy: i64, dz: i64 },
    HitBegin,
    HitEnd,
}

/// What the server tells its clients.
#[derive(Clone, Copy, Debug, PartialEq, Eq, Structural)]
pub enum ServerMessage {
    /// To a newly connected player only: its id and seat.
    Init { player_id: u128, player_index: i32 },
    /// Every tick: the ball's position and velocity.
    BallState { pos: Vec3, vel: Vec3 },
    /// Every tick, once per player: its id, seat and paddle position.
    PlayerState { player_id: u128, player_num: i32, pos: Vec3 },
    /// A player left.
    Remove { player_id: u128 },
}

/// The snapshot of one tick: the ball's state, then the state of each player
/// of `recs`, in order, with the paddle positions `positions`.
pub open spec fn snapshot_spec(
    recs: Seq<PlayerRecord>,
    ball_pos: Vec3,
    ball_vel: Vec3,
    positions: Seq<Vec3>,
) -> Seq<ServerMessage> {
    seq![ServerMessage::BallState { pos: ball_pos, vel: ball_vel }] + Seq::new(
        recs.len(),
        |k: int|
            ServerMessage::PlayerState {
                player_id: recs[k].id,
                player_num: recs[k].order,
                pos: positions[k],
            },
    )
}

/// The welcome of player `player_id`: its id and seat, if the world tracks it.
pub fn init_message(world: &PhysicsWorld, player_id: u128) -> (r: Option<ServerMessage>)
    requires
        world.wf(),
    ensures
        r == if world.has_player(player_id) {
            Some(ServerMessage::Init { player_id, player_index: world.record(player_id).order })
        } else {
            None
        },
{
    match world.find_player(player_id) {
        Some(i) => Some(ServerMessage::Init { player_id, player_index: world.players()[i].order }),
        None => None,
    }
}

/// The snapshot of a tick of `world`: the ball at `ball_pos` moving at
/// `ball_vel`, then each player, in order of joining, its paddle at the
/// matching entry of `positions`.
pub fn snapshot(world: &PhysicsWorld, ball_pos: Vec3, ball_vel: Vec3, positions: &Vec<Vec3>) -> (r: Vec<ServerMessage>)
    requires
        positions@.len() == world.records().len(),
    ensures
        r@ == snapshot_spec(world.records(), ball_pos, ball_vel, positions@),
{
    let players = world.players();
    let mut out: Vec<ServerMessage> = Vec::new();
    out.push(ServerMessage::BallState { pos: ball_pos, vel: ball_vel });
    let mut i: usize = 0;
    while i < players.len()
        invariant
            players@ == world.records(),
            positions@.len() == players@.len(),
            i <= players@.len(),
            out@ == snapshot_spec(players@.take(i as int), ball_pos, ball_vel, positions@),
        decreases players@.len() - i,
    {
        let rec = players[i];
        out.push(ServerMessage::PlayerState { player_id: rec.id, player_num: rec.order, pos: positions[i] });
        proof {
            assert(out@ =~= snapshot_spec(players@.take(i as int + 1), ball_pos, ball_vel, positions@));
        }
        i = i + 1;
    }
    proof {
        assert(players@.take(players@.len() as int) =~= players@);
    }
    out
}

} // verus!
