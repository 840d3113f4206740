//! The room controller: owns every room, places joining players first-fit,
//! routes a player's operations to its room and ticks all rooms.
use vstd::prelude::*;

use crate::geometry::Vec3;
use crate::physics::{pending_moves, BodyKey, ColliderKey, HitReport, Move, PhysicsWorld, PlayerRecord};
use crate::player::Player;
use crate::room::{Room, RoomState};

verus! {

/// What one room's tick hands to the solver.
pub struct RoomTick {
    pub room_id: u128,
    pub moves: Vec<Move>,
}

/// Where a joining player was seated.
#[derive(Clone, Copy, Debug, PartialEq, Eq, Structural)]
pub struct Placement {
    pub room_id: u128,
    pub seat: i32,
}

/// The seat of a placement, if any.
pub open spec fn seat_of(p: Option<Placement>) -> Option<i32> {
    match p {
        Some(q) => Some(q.seat),
        None => None,
    }
}

/// `t` reports the tick that took room `r0` to `r1`: the room's id and the
/// moves it drained; the room keeps its members, id, state and timers, and
/// its players have no move pending.
pub open spec fn ticked(r0: Room, r1: Room, t: RoomTick) -> bool {
    &&& t.room_id == r0.id()
    &&& t.moves@ == pending_moves(r0.world().records())
    &&& r1.members() == r0.members()
    &&& r1.world().records() == r0.world().records().map_values(|p: PlayerRecord| crate::physics::cleared(p))
    &&& r1.world().timers() == r0.world().timers()
    &&& r1.world().ball() == r0.world().ball()
    &&& r1.id() == r0.id()
    &&& r1.state() == r0.state()
    &&& r1.pop() == r0.pop()
}

/// One player's input, with what the solver knows that it needs: the
/// positions of the paddle and ball when a hit ends.
#[derive(Clone, Copy, Debug, PartialEq, Eq, Structural)]
pub enum PlayerInput {
    Move { dx: i64, dy: i64, dz: i64 },
    HitBegin,
    HitEnd { paddle: Vec3, ball: Vec3 },
}

/// What became of a player's input.
#[derive(Clone, Copy, Debug, PartialEq, Eq, Structural)]
pub enum InputOutcome {
    /// The player is in no room; nothing changed.
    UnknownPlayer,
    /// A position lies outside the range distances are computed on; nothing
    /// changed.
    OutOfRange,
    Moved,
    HitBegun,
    HitEnded(HitReport),
}

pub struct RoomController {
    rooms_list: Vec<Room>,
}

impl RoomController {
    /// The rooms, in order of creation.
    pub closed spec fn rooms(&self) -> Seq<Room> {
        self.rooms_list@
    }

    /// Player `id` is a member of some room.
    pub open spec fn placed(&self, id: u128) -> bool {
        exists|i: int| 0 <= i < self.rooms().len() && (#[trigger] self.rooms()[i]).has_member(id)
    }

    /// The room of a placed player (meaningful where `placed(id)`).
    pub open spec fn room_of(&self, id: u128) -> int {
        choose|i: int| 0 <= i < self.rooms().len() && (#[trigger] self.rooms()[i]).has_member(id)
    }

    /// `i` is the first open room.
    pub open spec fn first_open(&self, i: int) -> bool {
        &&& 0 <= i < self.rooms().len()
        &&& self.rooms()[i].is_open()
        &&& forall|k: int| 0 <= k < i ==> !(#[trigger] self.rooms()[k]).is_open()
    }

    /// No room is open.
    pub open spec fn none_open(&self) -> bool {
        forall|k: int| 0 <= k < self.rooms().len() ==> !(#[trigger] self.rooms()[k]).is_open()
    }

    /// Well-formed: every room is, and no player is a member of two rooms.
    pub open spec fn wf(&self) -> bool {
        &&& forall|i: int| 0 <= i < self.rooms().len() ==> (#[trigger] self.rooms()[i]).wf()
        &&& forall|i: int, j: int, id: u128|
            #![trigger self.rooms()[i].has_member(id), self.rooms()[j].has_member(id)]
            0 <= i < j < self.rooms().len() ==> !(self.rooms()[i].has_member(id)
                && self.rooms()[j].has_member(id))
    }

    /// `new` has the rooms of `old`, but for room `i`, whose members are
    /// unchanged.
    pub open spec fn same_but_room(old: RoomController, new: RoomController, i: int) -> bool {
        &&& new.rooms().len() == old.rooms().len()
        &&& forall|k: int| 0 <= k < old.rooms().len() && k != i ==> #[trigger] new.rooms()[k] == old.rooms()[k]
    }

    /// `new` is `old` after a move `v` of player `id`: queued in its room's
    /// world, or nothing changes where the player is not placed.
    pub open spec fn moved(old: RoomController, id: u128, v: Vec3, new: RoomController) -> bool {
        if old.placed(id) {
            let i = old.room_of(id);
            &&& Self::same_but_room(old, new, i)
            &&& new.rooms()[i].members() == old.rooms()[i].members()
            &&& new.rooms()[i].pop() == old.rooms()[i].pop()
            &&& new.rooms()[i].state() == old.rooms()[i].state()
            &&& PhysicsWorld::enqueued(old.rooms()[i].world(), id, v, new.rooms()[i].world())
        } else {
            new.rooms() == old.rooms()
        }
    }

    /// `new` is `old` after player `id` began a hit: a timer of the hit
    /// window is armed for it in its room's world, replacing any other, or
    /// nothing changes where the player is not placed.
    pub open spec fn hit_begun(old: RoomController, id: u128, new: RoomController) -> bool {
        if old.placed(id) {
            let i = old.room_of(id);
            &&& Self::same_but_room(old, new, i)
            &&& new.rooms()[i].members() == old.rooms()[i].members()
            &&& new.rooms()[i].world().records() == old.rooms()[i].world().records()
            &&& exists|t: crate::timer::Timer|
                t.duration() == crate::physics::HIT_WINDOW_SECS * crate::timer::NANOS_PER_SEC
                    && new.rooms()[i].world().timers() == old.rooms()[i].world().timers().insert(id, t)
        } else {
            new.rooms() == old.rooms()
        }
    }

    /// `new` is `old` after player `id` ended a hit with its paddle at
    /// `paddle` and the ball at `ball`, and `r` is the report: the time since
    /// the hit began exactly where a timer was armed, and the distance
    /// between paddle and ball; the timer is gone. `None`, with nothing
    /// changed, where the player is not placed.
    pub open spec fn hit_ended(
        old: RoomController,
        id: u128,
        paddle: Vec3,
        ball: Vec3,
        new: RoomController,
        r: Option<HitReport>,
    ) -> bool {
        if old.placed(id) {
            let i = old.room_of(id);
            &&& r is Some
            &&& r->0.elapsed_nanos is Some <==> old.rooms()[i].world().timers().contains_key(id)
            &&& crate::geometry::is_isqrt(crate::geometry::sq_dist(paddle, ball), r->0.distance as int)
            &&& Self::same_but_room(old, new, i)
            &&& new.rooms()[i].members() == old.rooms()[i].members()
            &&& new.rooms()[i].world().records() == old.rooms()[i].world().records()
            &&& new.rooms()[i].world().timers() == old.rooms()[i].world().timers().remove(id)
        } else {
            &&& r is None
            &&& new.rooms() == old.rooms()
        }
    }

    /// A controller with no rooms.
    pub fn new() -> (r: RoomController)
        ensures
            r.wf(),
            r.rooms() == Seq::<Room>::empty(),
    {
        RoomController { rooms_list: Vec::new() }
    }

    pub fn room_count(&self) -> (r: usize)
        ensures
            r == self.rooms().len(),
    {
        self.rooms_list.len()
    }

    /// The room at position `i`.
    pub fn room(&self, i: usize) -> (r: &Room)
        requires
            i < self.rooms().len(),
        ensures
            *r == self.rooms()[i as int],
    {
        &self.rooms_list[i]
    }

    /// Creates an empty room, not started, whose world's ball is the body
    /// `ball`, after the existing ones, and returns its id.
    pub fn create_room(&mut self, ball: BodyKey) -> (r: u128)
        requires
            old(self).wf(),
        ensures
            final(self).wf(),
            final(self).rooms().len() == old(self).rooms().len() + 1,
            final(self).rooms().drop_last() == old(self).rooms(),
            ({
                let room = final(self).rooms().last();
                &&& room.id() == r
                &&& room.state() == RoomState::NotStarted
                &&& room.pop() == 0
                &&& room.members() == Seq::<u128>::empty()
                &&& room.world().records() == Seq::<PlayerRecord>::empty()
                &&& room.world().ball() == ball
            }),
    {
        let room = Room::new(ball);
        let id = room.get_room_id();
        self.rooms_list.push(room);
        proof {
            assert(self.rooms().drop_last() =~= old(self).rooms());
            assert forall|i: int, j: int, pid: u128|
                #![trigger self.rooms()[i].has_member(pid), self.rooms()[j].has_member(pid)]
                0 <= i < j < self.rooms().len() implies !(self.rooms()[i].has_member(pid)
                    && self.rooms()[j].has_member(pid)) by {
                if j == self.rooms().len() - 1 {
                    assert(!self.rooms()[j].members().contains(pid));
                } else {
                    assert(old(self).rooms()[i] == self.rooms()[i]);
                    assert(old(self).rooms()[j] == self.rooms()[j]);
                }
            }
        }
        id
    }

    /// Position of the first open room, if any.
    pub fn open_room(&self) -> (r: Option<usize>)
        ensures
            match r {
                Some(i) => self.first_open(i as int),
                None => self.none_open(),
            },
    {
        let mut i: usize = 0;
        while i < self.rooms_list.len()
            invariant
                i <= self.rooms().len(),
                forall|k: int| 0 <= k < i ==> !(#[trigger] self.rooms()[k]).is_open(),
            decreases self.rooms().len() - i,
        {
            if self.rooms_list[i].is_open_for_join() {
                return Some(i);
            }
            i = i + 1;
        }
        None
    }

    /// Position of the room that player `player_id` is a member of, if any.
    pub fn find_room_by_player(&self, player_id: u128) -> (r: Option<usize>)
        requires
            self.wf(),
        ensures
            match r {
                Some(i) => self.placed(player_id) && i == self.room_of(player_id),
                None => !self.placed(player_id),
            },
    {
        let mut i: usize = 0;
        while i < self.rooms_list.len()
            invariant
                self.wf(),
                i <= self.rooms().len(),
                forall|k: int| 0 <= k < i ==> !(#[trigger] self.rooms()[k]).has_member(player_id),
            decreases self.rooms().len() - i,
        {
            if self.rooms_list[i].contains_player(player_id) {
                proof {
                    assert(self.placed(player_id));
                    let s = self.room_of(player_id);
                    if s > i as int {
                        assert(!(self.rooms()[i as int].has_member(player_id) && self.rooms()[s].has_member(
                            player_id,
                        )));
                    }
                }
                return Some(i);
            }
            i = i + 1;
        }
        None
    }

    proof fn lemma_wf_room_change(old: RoomController, new: RoomController, i: int)
        requires
            old.wf(),
            0 <= i < old.rooms().len(),
            Self::same_but_room(old, new, i),
            new.rooms()[i].wf(),
            forall|id: u128|
                #[trigger] new.rooms()[i].has_member(id) ==> old.rooms()[i].has_member(id) || !old.placed(id),
        ensures
            new.wf(),
    {
        assert forall|a: int| 0 <= a < new.rooms().len() implies (#[trigger] new.rooms()[a]).wf() by {
            if a != i {
                assert(old.rooms()[a].wf());
            }
        }
        assert forall|a: int, b: int, id: u128|
            #![trigger new.rooms()[a].has_member(id), new.rooms()[b].has_member(id)]
            0 <= a < b < new.rooms().len() implies !(new.rooms()[a].has_member(id) && new.rooms()[b].has_member(id)) by {
            if new.rooms()[a].has_member(id) && new.rooms()[b].has_member(id) {
                if a == i {
                    assert(old.rooms()[b] == new.rooms()[b]);
                    if !old.rooms()[i].has_member(id) {
                        assert(old.placed(id));
                    }
                } else if b == i {
                    assert(old.rooms()[a] == new.rooms()[a]);
                    if !old.rooms()[i].has_member(id) {
                        assert(old.placed(id));
                    }
                } else {
                    assert(old.rooms()[a] == new.rooms()[a]);
                    assert(old.rooms()[b] == new.rooms()[b]);
                }
            }
        }
    }

    /// Places `player`, with paddle `body` and `collider`, in the first open
    /// room, and returns where it sits. Refused, with nothing changed, for a
    /// player already placed, when no room is open, or when that room's
    /// world refuses the player.
    pub fn add_player_to_room(&mut self, player: Player, body: BodyKey, collider: ColliderKey) -> (r: Option<Placement>)
        requires
            old(self).wf(),
        ensures
            final(self).wf(),
            old(self).placed(player.id) || old(self).none_open() ==> {
                &&& r is None
                &&& final(self).rooms() == old(self).rooms()
            },
            forall|i: int|
                !old(self).placed(player.id) && #[trigger] old(self).first_open(i) ==> {
                    &&& Self::same_but_room(*old(self), *final(self), i)
                    &&& Room::joined(old(self).rooms()[i], player.id, body, collider, final(self).rooms()[i], seat_of(r))
                    &&& r is Some ==> r->0.room_id == old(self).rooms()[i].id()
                },
    {
        let pid = player.id;
        if self.find_room_by_player(pid).is_some() {
            return None;
        }
        match self.open_room() {
            None => None,
            Some(i) => {
                let ghost before = *self;
                let room_id = self.rooms_list[i].get_room_id();
                let seat = self.rooms_list[i].add_player(player, body, collider);
                proof {
                    assert(Self::same_but_room(before, *self, i as int));
                    assert forall|id: u128| #[trigger] self.rooms()[i as int].has_member(id) implies
                        before.rooms()[i as int].has_member(id) || !before.placed(id) by {
                        if id != pid {
                            let m = self.rooms()[i as int].members();
                            let k = m.index_of(id);
                            if seat is Some {
                                assert(m == before.rooms()[i as int].members().push(pid));
                                assert(before.rooms()[i as int].members()[k] == id);
                            }
                        }
                    }
                    Self::lemma_wf_room_change(before, *self, i as int);
                    assert forall|k: int| !before.placed(pid) && #[trigger] before.first_open(k) implies k == i as int by {
                        if k < i as int {
                            assert(!before.rooms()[k].is_open());
                        } else if k > i as int {
                            assert(!before.rooms()[i as int].is_open());
                        }
                    }
                }
                match seat {
                    Some(s) => Some(Placement { room_id, seat: s }),
                    None => None,
                }
            },
        }
    }

    proof fn lemma_placed_in(&self, id: u128, i: int)
        requires
            self.wf(),
            0 <= i < self.rooms().len(),
            self.rooms()[i].has_member(id),
        ensures
            self.placed(id),
            self.room_of(id) == i,
    {
        assert(self.placed(id));
        let s = self.room_of(id);
        if s < i {
            assert(!(self.rooms()[s].has_member(id) && self.rooms()[i].has_member(id)));
        } else if s > i {
            assert(!(self.rooms()[i].has_member(id) && self.rooms()[s].has_member(id)));
        }
    }

    /// Removes player `player_id` from its room and that room's world, and
    /// returns the room's id; a player that is not placed is left alone.
    /// Afterwards the player is placed nowhere.
    pub fn remove_player(&mut self, player_id: u128) -> (r: Option<u128>)
        requires
            old(self).wf(),
        ensures
            final(self).wf(),
            !final(self).placed(player_id),
            !old(self).placed(player_id) ==> {
                &&& r is None
                &&& final(self).rooms() == old(self).rooms()
            },
            old(self).placed(player_id) ==> {
                let i = old(self).room_of(player_id);
                &&& r == Some(old(self).rooms()[i].id())
                &&& Self::same_but_room(*old(self), *final(self), i)
                &&& final(self).rooms()[i].id() == old(self).rooms()[i].id()
                &&& final(self).rooms()[i].state() == old(self).rooms()[i].state()
                &&& final(self).rooms()[i].pop() == old(self).rooms()[i].pop() - 1
                &&& final(self).rooms()[i].members() == old(self).rooms()[i].members().remove(
                    old(self).rooms()[i].world().slot(player_id),
                )
                &&& PhysicsWorld::removal(old(self).rooms()[i].world(), player_id, final(self).rooms()[i].world())
            },
    {
        match self.find_room_by_player(player_id) {
            None => None,
            Some(i) => {
                let ghost before = *self;
                let room_id = self.rooms_list[i].get_room_id();
                self.rooms_list[i].remove_player(player_id);
                proof {
                    let r0 = before.rooms()[i as int];
                    let r1 = self.rooms()[i as int];
                    r0.lemma_member_is_player(player_id);
                    r1.lemma_member_is_player(player_id);
                    crate::physics::lemma_remove_twice(r0.world(), r1.world(), r1.world(), player_id);
                    assert forall|id: u128| #[trigger] r1.has_member(id) implies r0.has_member(id) || !before.placed(id) by {
                        let k = r1.members().index_of(id);
                        let s = r0.world().slot(player_id);
                        let k0 = if k < s { k } else { k + 1 };
                        assert(r0.members()[k0] == id);
                    }
                    Self::lemma_wf_room_change(before, *self, i as int);
                    if self.placed(player_id) {
                        let j = self.room_of(player_id);
                        if j != i as int {
                            assert(before.rooms()[j] == self.rooms()[j]);
                            before.lemma_placed_in(player_id, j);
                        }
                    }
                }
                Some(room_id)
            },
        }
    }

    /// Queues a move of player `player_id` in its room; refused for a player
    /// that is not placed. Returns whether it was queued.
    pub fn player_move(&mut self, player_id: u128, dx: i64, dy: i64, dz: i64) -> (r: bool)
        requires
            old(self).wf(),
        ensures
            final(self).wf(),
            r == old(self).placed(player_id),
            Self::moved(*old(self), player_id, Vec3 { x: dx, y: dy, z: dz }, *final(self)),
    {
        match self.find_room_by_player(player_id) {
            None => false,
            Some(i) => {
                let ghost before = *self;
                self.rooms_list[i].player_move(player_id, dx, dy, dz);
                proof {
                    Self::lemma_wf_room_change(before, *self, i as int);
                }
                true
            },
        }
    }

    /// Begins a hit of player `player_id` in its room; refused for a player
    /// that is not placed. Returns whether it was placed.
    pub fn player_hit(&mut self, player_id: u128) -> (r: bool)
        requires
            old(self).wf(),
        ensures
            final(self).wf(),
            r == old(self).placed(player_id),
            Self::hit_begun(*old(self), player_id, *final(self)),
    {
        match self.find_room_by_player(player_id) {
            None => false,
            Some(i) => {
                let ghost before = *self;
                self.rooms_list[i].player_hit(player_id);
                proof {
                    Self::lemma_wf_room_change(before, *self, i as int);
                }
                true
            },
        }
    }

    /// Ends a hit of player `player_id` in its room, its paddle at `paddle`
    /// and the ball at `ball`; `None` for a player that is not placed.
    pub fn player_hit_end(&mut self, player_id: u128, paddle: &Vec3, ball: &Vec3) -> (r: Option<HitReport>)
        requires
            old(self).wf(),
            paddle.in_range(),
            ball.in_range(),
        ensures
            final(self).wf(),
            Self::hit_ended(*old(self), player_id, *paddle, *ball, *final(self), r),
    {
        match self.find_room_by_player(player_id) {
            None => None,
            Some(i) => {
                let ghost before = *self;
                let r = self.rooms_list[i].player_hit_end(player_id, paddle, ball);
                proof {
                    Self::lemma_wf_room_change(before, *self, i as int);
                }
                r
            },
        }
    }

    /// Ticks every room, in order of creation, whatever its population or
    /// state: drains each room's pending moves for the solver.
    pub fn process_rooms(&mut self) -> (r: Vec<RoomTick>)
        requires
            old(self).wf(),
        ensures
            final(self).wf(),
            r@.len() == old(self).rooms().len(),
            final(self).rooms().len() == old(self).rooms().len(),
            forall|i: int|
                0 <= i < old(self).rooms().len() ==> ticked(old(self).rooms()[i], final(self).rooms()[i], #[trigger] r@[i]),
    {
        let ghost before = *self;
        let mut out: Vec<RoomTick> = Vec::new();
        let n: usize = self.rooms_list.len();
        let mut i: usize = 0;
        while i < n
            invariant
                n == before.rooms().len(),
                i <= n,
                self.wf(),
                self.rooms().len() == n,
                out@.len() == i,
                forall|k: int| i <= k < n ==> #[trigger] self.rooms()[k] == before.rooms()[k],
                forall|k: int| 0 <= k < i ==> ticked(before.rooms()[k], self.rooms()[k], #[trigger] out@[k]),
            decreases n - i,
        {
            let ghost mid = *self;
            let room_id = self.rooms_list[i].get_room_id();
            let moves = self.rooms_list[i].tick_room();
            proof {
                assert(mid.rooms()[i as int].wf());
                Self::lemma_wf_room_change(mid, *self, i as int);
            }
            out.push(RoomTick { room_id, moves });
            proof {
                assert forall|k: int| 0 <= k < i + 1 implies ticked(before.rooms()[k], self.rooms()[k], #[trigger] out@[k]) by {
                    if k < i as int {
                        assert(self.rooms()[k] == mid.rooms()[k]);
                    }
                }
            }
            i = i + 1;
        }
        out
    }

    /// Deletes the first room with id `room_id` if it has no members; a
    /// room with members is kept. Returns whether a room was deleted.
    pub fn delete_room(&mut self, room_id: u128) -> (r: bool)
        requires
            old(self).wf(),
        ensures
            final(self).wf(),
            r ==> exists|i: int|
                0 <= i < old(self).rooms().len() && (#[trigger] old(self).rooms()[i]).id() == room_id
                    && old(self).rooms()[i].pop() == 0 && final(self).rooms() == old(self).rooms().remove(i),
            !r ==> final(self).rooms() == old(self).rooms(),
    {
        let mut i: usize = 0;
        while i < self.rooms_list.len()
            invariant
                i <= self.rooms().len(),
                self.wf(),
                self.rooms() == old(self).rooms(),
            decreases self.rooms().len() - i,
        {
            if self.rooms_list[i].get_room_id() == room_id {
                if self.rooms_list[i].population() != 0 {
                    return false;
                }
                let ghost before = *self;
                self.rooms_list.remove(i);
                proof {
                    assert forall|a: int| 0 <= a < self.rooms().len() implies (#[trigger] self.rooms()[a]).wf() by {
                        let a0 = if a < i as int { a } else { a + 1 };
                        assert(before.rooms()[a0] == self.rooms()[a]);
                    }
                    assert forall|a: int, b: int, id: u128|
                        #![trigger self.rooms()[a].has_member(id), self.rooms()[b].has_member(id)]
                        0 <= a < b < self.rooms().len() implies !(self.rooms()[a].has_member(id)
                            && self.rooms()[b].has_member(id)) by {
                        let a0 = if a < i as int { a } else { a + 1 };
                        let b0 = if b < i as int { b } else { b + 1 };
                        assert(before.rooms()[a0] == self.rooms()[a]);
                        assert(before.rooms()[b0] == self.rooms()[b]);
                    }
                }
                return true;
            }
            i = i + 1;
        }
        false
    }

    /// Routes the input of player `player_id` to its room and applies it.
    pub fn handle_input(&mut self, player_id: u128, input: PlayerInput) -> (r: InputOutcome)
        requires
            old(self).wf(),
        ensures
            final(self).wf(),
            !old(self).placed(player_id) ==> r == InputOutcome::UnknownPlayer && final(self).rooms()
                == old(self).rooms(),
            match input {
                PlayerInput::Move { dx, dy, dz } => {
                    &&& Self::moved(*old(self), player_id, Vec3 { x: dx, y: dy, z: dz }, *final(self))
                    &&& old(self).placed(player_id) ==> r == InputOutcome::Moved
                },
                PlayerInput::HitBegin => {
                    &&& Self::hit_begun(*old(self), player_id, *final(self))
                    &&& old(self).placed(player_id) ==> r == InputOutcome::HitBegun
                },
                PlayerInput::HitEnd { paddle, ball } => {
                    if paddle.in_range() && ball.in_range() {
                        Self::hit_ended(
                            *old(self),
                            player_id,
                            paddle,
                            ball,
                            *final(self),
                            match r {
                                InputOutcome::HitEnded(h) => Some(h),
                                _ => None,
                            },
                        )
                    } else {
                        &&& old(self).placed(player_id) ==> r == InputOutcome::OutOfRange
                        &&& final(self).rooms() == old(self).rooms()
                    }
                },
            },
    {
        match input {
            PlayerInput::Move { dx, dy, dz } => {
                if self.player_move(player_id, dx, dy, dz) {
                    InputOutcome::Moved
                } else {
                    InputOutcome::UnknownPlayer
                }
            },
            PlayerInput::HitBegin => {
                if self.player_hit(player_id) {
                    InputOutcome::HitBegun
                } else {
                    InputOutcome::UnknownPlayer
                }
            },
            PlayerInput::HitEnd { paddle, ball } => {
                if self.find_room_by_player(player_id).is_none() {
                    InputOutcome::UnknownPlayer
                } else if !paddle.is_in_range() || !ball.is_in_range() {
                    InputOutcome::OutOfRange
                } else {
                    match self.player_hit_end(player_id, &paddle, &ball) {
                        Some(h) => InputOutcome::HitEnded(h),
                        None => InputOutcome::UnknownPlayer,
                    }
                }
            },
        }
    }
}

} // verus!
