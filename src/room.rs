//! A room: one isolated match with its capacity, lifecycle state, members
//! and simulation world.
use vstd::prelude::*;

use crate::geometry::Vec3;
use crate::physics::{pending_moves, BodyKey, ColliderKey, HitReport, Move, PhysicsWorld, PlayerRecord};
use crate::player::{fresh_id, Player};

verus! {

/// Seats in a room.
pub const ROOM_CAPACITY: i32 = 2;

#[derive(Clone, Copy, Debug, PartialEq, Eq, Structural)]
pub enum RoomState {
    NotStarted,
    Started,
    Ended,
}

pub struct Room {
    id: u128,
    capacity: i32,
    pop: i32,
    state: RoomState,
    players_in_room: Vec<Player>,
    physics_world: PhysicsWorld,
}

impl Room {
    pub closed spec fn id(&self) -> u128 {
        self.id
    }

    pub closed spec fn capacity(&self) -> int {
        self.capacity as int
    }

    /// Number of members.
    pub closed spec fn pop(&self) -> int {
        self.pop as int
    }

    pub closed spec fn state(&self) -> RoomState {
        self.state
    }

    /// Ids of the members, in order of joining.
    pub closed spec fn members(&self) -> Seq<u128> {
        self.players_in_room@.map_values(|p: Player| p.id)
    }

    pub closed spec fn world(&self) -> PhysicsWorld {
        self.physics_world
    }

    /// Well-formed: capacity `ROOM_CAPACITY`, population within it and
    /// equal to the number of members, and the members are exactly the
    /// players of the world, in the same order.
    pub open spec fn wf(&self) -> bool {
        &&& self.capacity() == ROOM_CAPACITY
        &&& 0 <= self.pop() <= self.capacity()
        &&& self.pop() == self.members().len()
        &&& self.world().wf()
        &&& self.members().len() == self.world().records().len()
        &&& forall|i: int|
            0 <= i < self.members().len() ==> #[trigger] self.members()[i]
                == self.world().records()[i].id
    }

    /// Open for a new player: not started and a seat is free.
    pub open spec fn is_open(&self) -> bool {
        self.state() == RoomState::NotStarted && self.pop() < self.capacity()
    }

    pub open spec fn has_member(&self, id: u128) -> bool {
        self.members().contains(id)
    }

    /// `new` is `old` after player `id` asked to join with paddle `body` and
    /// `collider`: accepted exactly when the room is open and the world can
    /// take the player, and then the player is the last member.
    pub open spec fn joined(
        old: Room,
        id: u128,
        body: BodyKey,
        collider: ColliderKey,
        new: Room,
        r: Option<i32>,
    ) -> bool {
        &&& new.id() == old.id()
        &&& new.capacity() == old.capacity()
        &&& new.state() == old.state()
        &&& new.world().ball() == old.world().ball()
        &&& new.world().timers() == old.world().timers()
        &&& if old.is_open() && old.world().can_add(id, body, collider) {
            &&& r == Some(old.pop() as i32)
            &&& new.pop() == old.pop() + 1
            &&& new.members() == old.members().push(id)
            &&& new.world().records() == old.world().records().push(
                PlayerRecord { id, body, collider, order: old.pop() as i32, intent: None },
            )
        } else {
            &&& r is None
            &&& new.pop() == old.pop()
            &&& new.members() == old.members()
            &&& new.world().records() == old.world().records()
        }
    }

    /// An empty room, not started, whose world's ball is the body `ball`.
    pub fn new(ball: BodyKey) -> (r: Room)
        ensures
            r.wf(),
            r.state() == RoomState::NotStarted,
            r.pop() == 0,
            r.members() == Seq::<u128>::empty(),
            r.world().records() == Seq::<PlayerRecord>::empty(),
            r.world().timers() == Map::<u128, crate::timer::Timer>::empty(),
            r.world().ball() == ball,
    {
        let r = Room {
            id: fresh_id(),
            capacity: ROOM_CAPACITY,
            pop: 0,
            state: RoomState::NotStarted,
            players_in_room: Vec::new(),
            physics_world: PhysicsWorld::new(ball),
        };
        assert(r.members() =~= Seq::<u128>::empty());
        r
    }

    pub fn get_room_id(&self) -> (r: u128)
        ensures
            r == self.id(),
    {
        self.id
    }

    pub fn is_open_for_join(&self) -> (r: bool)
        ensures
            r == self.is_open(),
    {
        self.state == RoomState::NotStarted && self.pop < self.capacity
    }

    /// Seats `player` with paddle `body` and `collider`, and returns its
    /// seat. Refused, with nothing changed, unless the room is open and the
    /// world can take the player.
    pub fn add_player(&mut self, player: Player, body: BodyKey, collider: ColliderKey) -> (r: Option<i32>)
        requires
            old(self).wf(),
        ensures
            final(self).wf(),
            Self::joined(*old(self), player.id, body, collider, *final(self), r),
    {
        if !self.is_open_for_join() {
            return None;
        }
        let id = player.id;
        let seat = self.physics_world.add_player(id, body, collider);
        match seat {
            Some(_) => {
                self.players_in_room.push(player);
                self.pop = self.pop + 1;
                proof {
                    assert(self.members() =~= old(self).members().push(id));
                }
            },
            None => {},
        }
        seat
    }

    /// Removes player `player_id` from the room and its world; a player that
    /// is not a member is left alone. Returns whether it was a member.
    pub fn remove_player(&mut self, player_id: u128) -> (r: bool)
        requires
            old(self).wf(),
        ensures
            final(self).wf(),
            r == old(self).has_member(player_id),
            final(self).id() == old(self).id(),
            final(self).state() == old(self).state(),
            PhysicsWorld::removal(old(self).world(), player_id, final(self).world()),
            r ==> {
                &&& final(self).pop() == old(self).pop() - 1
                &&& final(self).members() == old(self).members().remove(
                    old(self).world().slot(player_id),
                )
            },
            !r ==> final(self).pop() == old(self).pop() && final(self).members() == old(self).members(),
    {
        proof {
            self.lemma_member_is_player(player_id);
        }
        match self.physics_world.find_player(player_id) {
            Some(i) => {
                self.physics_world.remove_player(player_id);
                self.players_in_room.remove(i);
                self.pop = self.pop - 1;
                proof {
                    assert(self.members() =~= old(self).members().remove(i as int));
                }
                true
            },
            None => false,
        }
    }

    pub proof fn lemma_member_is_player(&self, id: u128)
        requires
            self.wf(),
        ensures
            self.has_member(id) == self.world().has_player(id),
    {
        if self.has_member(id) {
            let i = self.members().index_of(id);
            assert(self.world().records()[i].id == id);
        }
        if self.world().has_player(id) {
            let i = choose|i: int|
                0 <= i < self.world().records().len() && (#[trigger] self.world().records()[i]).id == id;
            assert(self.members()[i] == id);
        }
    }

    /// Starts the match of a room that has not started; otherwise nothing
    /// changes.
    pub fn start_room(&mut self)
        requires
            old(self).wf(),
        ensures
            final(self).wf(),
            final(self).state() == if old(self).state() == RoomState::NotStarted {
                RoomState::Started
            } else {
                old(self).state()
            },
            final(self).id() == old(self).id(),
            final(self).pop() == old(self).pop(),
            final(self).members() == old(self).members(),
            final(self).world() == old(self).world(),
    {
        if self.state == RoomState::NotStarted {
            self.state = RoomState::Started;
        }
    }

    /// Ends the match; a room that has ended takes no new players.
    pub fn end_room(&mut self)
        requires
            old(self).wf(),
        ensures
            final(self).wf(),
            final(self).state() == RoomState::Ended,
            final(self).id() == old(self).id(),
            final(self).pop() == old(self).pop(),
            final(self).members() == old(self).members(),
            final(self).world() == old(self).world(),
    {
        self.state = RoomState::Ended;
    }

    /// Advances the room by one tick: drains its players' pending moves, in
    /// order of joining, for the solver to apply.
    pub fn tick_room(&mut self) -> (r: Vec<Move>)
        requires
            old(self).wf(),
        ensures
            final(self).wf(),
            r@ == pending_moves(old(self).world().records()),
            final(self).world().records() == old(self).world().records().map_values(
                |p: PlayerRecord| crate::physics::cleared(p),
            ),
            final(self).world().timers() == old(self).world().timers(),
            final(self).world().ball() == old(self).world().ball(),
            final(self).id() == old(self).id(),
            final(self).state() == old(self).state(),
            final(self).pop() == old(self).pop(),
            final(self).members() == old(self).members(),
    {
        self.physics_world.step()
    }

    /// Queues a move of member `player_id`; a player that is not a member is
    /// refused. Returns whether it was queued.
    pub fn player_move(&mut self, player_id: u128, dx: i64, dy: i64, dz: i64) -> (r: bool)
        requires
            old(self).wf(),
        ensures
            final(self).wf(),
            r == old(self).has_member(player_id),
            PhysicsWorld::enqueued(old(self).world(), player_id, Vec3 { x: dx, y: dy, z: dz }, final(self).world()),
            final(self).id() == old(self).id(),
            final(self).state() == old(self).state(),
            final(self).pop() == old(self).pop(),
            final(self).members() == old(self).members(),
    {
        proof {
            self.lemma_member_is_player(player_id);
        }
        let member = self.physics_world.find_player(player_id).is_some();
        self.physics_world.add_move_to_queue(player_id, dx, dy, dz);
        member
    }

    /// Begins a hit of member `player_id`: arms its timer of the hit window.
    /// Returns whether it is a member.
    pub fn player_hit(&mut self, player_id: u128) -> (r: bool)
        requires
            old(self).wf(),
        ensures
            final(self).wf(),
            r == old(self).has_member(player_id),
            final(self).world().records() == old(self).world().records(),
            final(self).world().ball() == old(self).world().ball(),
            r ==> exists|t: crate::timer::Timer|
                t.duration() == crate::physics::HIT_WINDOW_SECS * crate::timer::NANOS_PER_SEC
                    && final(self).world().timers() == old(self).world().timers().insert(player_id, t),
            !r ==> final(self).world().timers() == old(self).world().timers(),
            final(self).id() == old(self).id(),
            final(self).state() == old(self).state(),
            final(self).pop() == old(self).pop(),
            final(self).members() == old(self).members(),
    {
        proof {
            self.lemma_member_is_player(player_id);
        }
        let member = self.physics_world.find_player(player_id).is_some();
        self.physics_world.player_hit(player_id);
        member
    }

    /// Ends a hit of member `player_id`, its paddle at `paddle` and the ball
    /// at `ball`: see `PhysicsWorld::player_hit_exec`. `None` for a player
    /// that is not a member.
    pub fn player_hit_end(&mut self, player_id: u128, paddle: &Vec3, ball: &Vec3) -> (r: Option<HitReport>)
        requires
            old(self).wf(),
            paddle.in_range(),
            ball.in_range(),
        ensures
            final(self).wf(),
            final(self).world().records() == old(self).world().records(),
            final(self).world().ball() == old(self).world().ball(),
            old(self).has_member(player_id) ==> {
                &&& r is Some
                &&& r->0.elapsed_nanos is Some <==> old(self).world().timers().contains_key(player_id)
                &&& crate::geometry::is_isqrt(crate::geometry::sq_dist(*paddle, *ball), r->0.distance as int)
                &&& final(self).world().timers() == old(self).world().timers().remove(player_id)
            },
            !old(self).has_member(player_id) ==> {
                &&& r is None
                &&& final(self).world().timers() == old(self).world().timers()
            },
            final(self).id() == old(self).id(),
            final(self).state() == old(self).state(),
            final(self).pop() == old(self).pop(),
            final(self).members() == old(self).members(),
    {
        proof {
            self.lemma_member_is_player(player_id);
        }
        self.physics_world.player_hit_exec(player_id, paddle, ball)
    }

    /// Whether `player_id` is a member.
    pub fn contains_player(&self, player_id: u128) -> (r: bool)
        requires
            self.wf(),
        ensures
            r == self.has_member(player_id),
    {
        proof {
            self.lemma_member_is_player(player_id);
        }
        self.physics_world.find_player(player_id).is_some()
    }

    pub fn population(&self) -> (r: i32)
        ensures
            r == self.pop(),
    {
        self.pop
    }

    pub fn room_capacity(&self) -> (r: i32)
        ensures
            r == self.capacity(),
    {
        self.capacity
    }

    pub fn room_state(&self) -> (r: RoomState)
        ensures
            r == self.state(),
    {
        self.state
    }

    /// The room's simulation world.
    pub fn physics_world(&self) -> (r: &PhysicsWorld)
        ensures
            *r == self.world(),
    {
        &self.physics_world
    }
}

/// A full room takes no one: a join once the population equals the capacity
/// is refused and leaves the population, members and world as they were; and
/// the population of a well-formed room never exceeds its capacity.
pub proof fn lemma_capacity(
    r0: Room,
    r1: Room,
    id: u128,
    body: BodyKey,
    collider: ColliderKey,
    seat: Option<i32>,
)
    requires
        r0.wf(),
        r0.pop() == r0.capacity(),
        Room::joined(r0, id, body, collider, r1, seat),
    ensures
        seat is None,
        r1.pop() == r0.pop(),
        r1.members() == r0.members(),
        r1.world().records() == r0.world().records(),
        r1.pop() <= ROOM_CAPACITY,
{
}

} // verus!
