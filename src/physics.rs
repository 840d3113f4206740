//! One room's simulation bookkeeping: the player records that tie a player
//! to its paddle body and collider in the solver, the coalesced move intents
//! waiting for the next tick, and the armed hit timers.
//!
//! The rigid-body solver runs outside this type; bodies and colliders are
//! named here by the raw parts of their solver handles.
use std::collections::HashMap;
use vstd::prelude::*;

use crate::geometry::{distance, is_isqrt, sq_dist, Vec3};
use crate::timer::{Timer, NANOS_PER_SEC};

verus! {

broadcast use vstd::std_specs::hash::group_hash_axioms;

/// Depth (z) of the side of seat 0; seat 1 plays at its negation.
pub const SIDE_DEPTH: i64 = 9_000_000;

/// A seat-1 depth closer than this to `-SIDE_DEPTH` is kept as it is.
pub const SIDE_TOLERANCE: i64 = 1_000;

/// Window of a hit timer, in seconds.
pub const HIT_WINDOW_SECS: u64 = 3;

/// Depth that a move to depth `z` gets for a player of seat `order`.
pub open spec fn pinned_z(order: int, z: int) -> int {
    if order == 0 {
        SIDE_DEPTH as int
    } else if order == 1 {
        if -SIDE_DEPTH - SIDE_TOLERANCE < z < -SIDE_DEPTH + SIDE_TOLERANCE {
            z
        } else {
            -SIDE_DEPTH
        }
    } else {
        z
    }
}

/// The move `v` of a player of seat `order`, with its depth pinned to the
/// seat's side.
pub open spec fn pinned(order: int, v: Vec3) -> Vec3 {
    Vec3 { x: v.x, y: v.y, z: pinned_z(order, v.z as int) as i64 }
}

/// Pins the depth of a move to the side of the player's seat.
pub fn pin_to_side(order: i32, v: Vec3) -> (r: Vec3)
    ensures
        r == pinned(order as int, v),
{
    if order == 0 {
        Vec3 { x: v.x, y: v.y, z: SIDE_DEPTH }
    } else if order == 1 {
        if -SIDE_DEPTH - SIDE_TOLERANCE < v.z && v.z < -SIDE_DEPTH + SIDE_TOLERANCE {
            v
        } else {
            Vec3 { x: v.x, y: v.y, z: -SIDE_DEPTH }
        }
    } else {
        v
    }
}

/// A rigid body of the solver, by the raw parts of its handle.
#[derive(Clone, Copy, Debug, PartialEq, Eq, Structural)]
pub struct BodyKey {
    pub index: u32,
    pub generation: u32,
}

/// A collider of the solver, by the raw parts of its handle.
#[derive(Clone, Copy, Debug, PartialEq, Eq, Structural)]
pub struct ColliderKey {
    pub index: u32,
    pub generation: u32,
}

/// Everything the world tracks of one player.
#[derive(Clone, Copy, Debug, PartialEq, Eq, Structural)]
pub struct PlayerRecord {
    pub id: u128,
    /// Kinematic paddle body.
    pub body: BodyKey,
    /// Paddle collider, attached to `body`.
    pub collider: ColliderKey,
    /// Seat, from the number of players present when it joined.
    pub order: i32,
    /// Target of the next tick, if a move came since the last one.
    pub intent: Option<Vec3>,
}

/// A kinematic target for the solver, drained from the intents at a tick.
#[derive(Clone, Copy, Debug, PartialEq, Eq, Structural)]
pub struct Move {
    pub player_id: u128,
    pub body: BodyKey,
    pub target: Vec3,
}

/// Raw signals of a finished hit.
#[derive(Clone, Copy, Debug, PartialEq, Eq, Structural)]
pub struct HitReport {
    /// Nanoseconds since the hit began, if a timer was armed.
    pub elapsed_nanos: Option<u128>,
    /// Paddle-to-ball distance, in millionths of a unit.
    pub distance: u64,
}

/// The moves that the intents of `recs` give, in record order.
pub open spec fn pending_moves(recs: Seq<PlayerRecord>) -> Seq<Move>
    decreases recs.len(),
{
    if recs.len() == 0 {
        Seq::empty()
    } else {
        let rest = pending_moves(recs.drop_last());
        let r = recs.last();
        match r.intent {
            Some(t) => rest.push(Move { player_id: r.id, body: r.body, target: t }),
            None => rest,
        }
    }
}

/// The record `r` with no pending intent.
pub open spec fn cleared(r: PlayerRecord) -> PlayerRecord {
    PlayerRecord { intent: None, ..r }
}

/// The bookkeeping of one room's world: its player records in order of
/// joining, its ball, and the armed hit timers by player.
pub struct PhysicsWorld {
    players: Vec<PlayerRecord>,
    ball_handle: BodyKey,
    player_shot_timer: HashMap<u128, Timer>,
}

impl PhysicsWorld {
    /// The player records, in order of joining.
    pub closed spec fn records(&self) -> Seq<PlayerRecord> {
        self.players@
    }

    /// The armed hit timers, by player.
    pub closed spec fn timers(&self) -> Map<u128, Timer> {
        self.player_shot_timer@
    }

    /// The ball's body.
    pub closed spec fn ball(&self) -> BodyKey {
        self.ball_handle
    }

    pub open spec fn has_player(&self, id: u128) -> bool {
        exists|i: int| 0 <= i < self.records().len() && (#[trigger] self.records()[i]).id == id
    }

    /// Position of the record of `id` (meaningful where `has_player(id)`).
    pub open spec fn slot(&self, id: u128) -> int {
        choose|i: int| 0 <= i < self.records().len() && (#[trigger] self.records()[i]).id == id
    }

    pub open spec fn record(&self, id: u128) -> PlayerRecord {
        self.records()[self.slot(id)]
    }

    pub open spec fn body_in_use(&self, b: BodyKey) -> bool {
        b == self.ball() || exists|i: int|
            0 <= i < self.records().len() && (#[trigger] self.records()[i]).body == b
    }

    pub open spec fn collider_in_use(&self, c: ColliderKey) -> bool {
        exists|i: int| 0 <= i < self.records().len() && (#[trigger] self.records()[i]).collider == c
    }

    /// Well-formed: one record per player, body and collider; no body shared
    /// with the ball; a timer only for a tracked player.
    pub open spec fn wf(&self) -> bool {
        let recs = self.records();
        &&& recs.len() < i32::MAX
        &&& forall|i: int, j: int|
            0 <= i < j < recs.len() ==> {
                &&& (#[trigger] recs[i]).id != (#[trigger] recs[j]).id
                &&& recs[i].body != recs[j].body
                &&& recs[i].collider != recs[j].collider
            }
        &&& forall|i: int| 0 <= i < recs.len() ==> (#[trigger] recs[i]).body != self.ball()
        &&& forall|id: u128| #[trigger] self.timers().contains_key(id) ==> self.has_player(id)
    }

    /// An empty world whose ball is the body `ball`.
    pub fn new(ball: BodyKey) -> (r: PhysicsWorld)
        ensures
            r.wf(),
            r.records() == Seq::<PlayerRecord>::empty(),
            r.timers() == Map::<u128, Timer>::empty(),
            r.ball() == ball,
    {
        PhysicsWorld { players: Vec::new(), ball_handle: ball, player_shot_timer: HashMap::new() }
    }

    pub fn ball_handle(&self) -> (r: BodyKey)
        ensures
            r == self.ball(),
    {
        self.ball_handle
    }

    /// The player records, in order of joining.
    pub fn players(&self) -> (r: &Vec<PlayerRecord>)
        ensures
            r@ == self.records(),
    {
        &self.players
    }

    /// A player `id` with paddle `body` and `collider` can join: the id, the
    /// body and the collider are all new to the world, and a seat is left.
    pub open spec fn can_add(&self, id: u128, body: BodyKey, collider: ColliderKey) -> bool {
        &&& !self.has_player(id)
        &&& !self.body_in_use(body)
        &&& !self.collider_in_use(collider)
        &&& self.records().len() + 1 < i32::MAX
    }

    /// `new` is `old` after removing player `id`: its record and its timer
    /// are gone, or nothing changes where `id` is not tracked.
    pub open spec fn removal(old: PhysicsWorld, id: u128, new: PhysicsWorld) -> bool {
        &&& new.ball() == old.ball()
        &&& if old.has_player(id) {
            &&& new.records() == old.records().remove(old.slot(id))
            &&& new.timers() == old.timers().remove(id)
        } else {
            &&& new.records() == old.records()
            &&& new.timers() == old.timers()
        }
    }

    /// `new` is `old` after a move `v` of player `id`: the player's pending
    /// intent is `v` pinned to its side, whatever was pending before.
    pub open spec fn enqueued(old: PhysicsWorld, id: u128, v: Vec3, new: PhysicsWorld) -> bool {
        &&& new.ball() == old.ball()
        &&& new.timers() == old.timers()
        &&& if old.has_player(id) {
            new.records() == old.records().update(
                old.slot(id),
                PlayerRecord { intent: Some(pinned(old.record(id).order as int, v)), ..old.record(id) },
            )
        } else {
            new.records() == old.records()
        }
    }

    /// `new` is `old` after arming `timer` for player `id`.
    pub open spec fn armed(old: PhysicsWorld, id: u128, timer: Timer, new: PhysicsWorld) -> bool {
        &&& new.ball() == old.ball()
        &&& new.records() == old.records()
        &&& if old.has_player(id) {
            new.timers() == old.timers().insert(id, timer)
        } else {
            new.timers() == old.timers()
        }
    }

    /// The armed hit timer of player `player_id`, if any.
    pub fn armed_timer(&self, player_id: u128) -> (r: Option<&Timer>)
        ensures
            match r {
                Some(t) => self.timers().contains_key(player_id) && *t == self.timers()[player_id],
                None => !self.timers().contains_key(player_id),
            },
    {
        self.player_shot_timer.get(&player_id)
    }

    /// Position of the record of `id`, if any.
    pub fn find_player(&self, id: u128) -> (r: Option<usize>)
        requires
            self.wf(),
        ensures
            match r {
                Some(i) => self.has_player(id) && i == self.slot(id),
                None => !self.has_player(id),
            },
    {
        let mut i: usize = 0;
        while i < self.players.len()
            invariant
                self.wf(),
                i <= self.players@.len(),
                forall|k: int| 0 <= k < i ==> (#[trigger] self.players@[k]).id != id,
            decreases self.players@.len() - i,
        {
            if self.players[i].id == id {
                proof {
                    assert(self.records()[i as int].id == id);
                    assert(self.has_player(id));
                    let s = self.slot(id);
                    assert(self.records()[s].id == id);
                    if s != i as int {
                        if s < i as int {
                            assert(self.records()[s].id != self.records()[i as int].id);
                        } else {
                            assert(self.records()[i as int].id != self.records()[s].id);
                        }
                    }
                }
                return Some(i);
            }
            i = i + 1;
        }
        None
    }

    proof fn lemma_has_player_same_ids(a: PhysicsWorld, b: PhysicsWorld)
        requires
            a.records().len() == b.records().len(),
            forall|i: int| 0 <= i < a.records().len() ==> (#[trigger] a.records()[i]).id == b.records()[i].id,
        ensures
            forall|id: u128| a.has_player(id) == b.has_player(id),
    {
        assert forall|id: u128| a.has_player(id) implies b.has_player(id) by {
            let i = choose|i: int| 0 <= i < a.records().len() && (#[trigger] a.records()[i]).id == id;
            assert(b.records()[i].id == id);
        }
        assert forall|id: u128| b.has_player(id) implies a.has_player(id) by {
            let i = choose|i: int| 0 <= i < b.records().len() && (#[trigger] b.records()[i]).id == id;
            assert(a.records()[i].id == id);
        }
    }

    proof fn lemma_wf_same_keys(a: PhysicsWorld, b: PhysicsWorld)
        requires
            a.wf(),
            a.records().len() == b.records().len(),
            forall|i: int|
                0 <= i < a.records().len() ==> {
                    &&& (#[trigger] a.records()[i]).id == b.records()[i].id
                    &&& a.records()[i].body == b.records()[i].body
                    &&& a.records()[i].collider == b.records()[i].collider
                },
            b.ball() == a.ball(),
            forall|id: u128| #[trigger] b.timers().contains_key(id) ==> a.has_player(id),
        ensures
            b.wf(),
            forall|id: u128| a.has_player(id) == b.has_player(id),
    {
        Self::lemma_has_player_same_ids(a, b);
        let ra = a.records();
        let rb = b.records();
        assert forall|i: int, j: int| 0 <= i < j < rb.len() implies {
            &&& (#[trigger] rb[i]).id != (#[trigger] rb[j]).id
            &&& rb[i].body != rb[j].body
            &&& rb[i].collider != rb[j].collider
        } by {
            assert(ra[i].id != ra[j].id);
        }
        assert forall|i: int| 0 <= i < rb.len() implies (#[trigger] rb[i]).body != b.ball() by {
            assert(ra[i].body != a.ball());
        }
    }

    /// Adds player `player_id` with paddle `body` and `collider`, and
    /// returns its seat: the number of players before it. Refused, with
    /// nothing changed, unless `can_add` holds.
    pub fn add_player(&mut self, player_id: u128, body: BodyKey, collider: ColliderKey) -> (r: Option<i32>)
        requires
            old(self).wf(),
        ensures
            final(self).wf(),
            final(self).ball() == old(self).ball(),
            final(self).timers() == old(self).timers(),
            old(self).can_add(player_id, body, collider) ==> {
                &&& r == Some(old(self).records().len() as i32)
                &&& final(self).records() == old(self).records().push(
                    PlayerRecord {
                        id: player_id,
                        body,
                        collider,
                        order: old(self).records().len() as i32,
                        intent: None,
                    },
                )
            },
            !old(self).can_add(player_id, body, collider) ==> {
                &&& r is None
                &&& final(self).records() == old(self).records()
            },
    {
        let n: usize = self.players.len();
        if n + 1 >= i32::MAX as usize || body == self.ball_handle {
            return None;
        }
        let mut i: usize = 0;
        while i < n
            invariant
                self.wf(),
                n == self.players@.len(),
                i <= n,
                forall|k: int|
                    0 <= k < i ==> {
                        &&& (#[trigger] self.players@[k]).id != player_id
                        &&& self.players@[k].body != body
                        &&& self.players@[k].collider != collider
                    },
            decreases n - i,
        {
            let rec = self.players[i];
            if rec.id == player_id || rec.body == body || rec.collider == collider {
                proof {
                    assert(self.records()[i as int] == rec);
                }
                return None;
            }
            i = i + 1;
        }
        let ghost before = *self;
        let order: i32 = n as i32;
        self.players.push(PlayerRecord { id: player_id, body, collider, order, intent: None });
        proof {
            assert(!before.has_player(player_id));
            assert(!before.body_in_use(body));
            assert(!before.collider_in_use(collider));
            assert forall|id: u128| #[trigger] self.timers().contains_key(id) implies self.has_player(id) by {
                assert(before.timers().contains_key(id));
                assert(before.has_player(id));
                let k = choose|k: int| 0 <= k < before.records().len() && (#[trigger] before.records()[k]).id == id;
                assert(self.records()[k].id == id);
            }
        }
        Some(order)
    }

    /// Removes player `player_id`, its record and its armed timer; a player
    /// that is not tracked is left alone. Returns whether it was tracked.
    pub fn remove_player(&mut self, player_id: u128) -> (r: bool)
        requires
            old(self).wf(),
        ensures
            final(self).wf(),
            r == old(self).has_player(player_id),
            Self::removal(*old(self), player_id, *final(self)),
    {
        match self.find_player(player_id) {
            Some(i) => {
                let ghost before = *self;
                self.players.remove(i);
                self.player_shot_timer.remove(&player_id);
                proof {
                    let recs = before.records();
                    assert(recs[i as int].id == player_id);
                    assert forall|id: u128| #[trigger] self.timers().contains_key(id) implies self.has_player(id) by {
                        assert(before.timers().contains_key(id));
                        assert(id != player_id);
                        assert(before.has_player(id));
                        let k = choose|k: int| 0 <= k < recs.len() && (#[trigger] recs[k]).id == id;
                        if k < i as int {
                            assert(self.records()[k].id == id);
                        } else {
                            assert(k != i as int);
                            assert(self.records()[k - 1].id == id);
                        }
                    }
                    assert forall|a: int, b: int| 0 <= a < b < self.records().len() implies {
                        &&& (#[trigger] self.records()[a]).id != (#[trigger] self.records()[b]).id
                        &&& self.records()[a].body != self.records()[b].body
                        &&& self.records()[a].collider != self.records()[b].collider
                    } by {
                        let a0 = if a < i as int { a } else { a + 1 };
                        let b0 = if b < i as int { b } else { b + 1 };
                        assert(recs[a0] == self.records()[a]);
                        assert(recs[b0] == self.records()[b]);
                    }
                    assert forall|a: int| 0 <= a < self.records().len() implies (#[trigger] self.records()[a]).body != self.ball() by {
                        let a0 = if a < i as int { a } else { a + 1 };
                        assert(recs[a0] == self.records()[a]);
                    }
                }
                true
            },
            None => false,
        }
    }

    /// Queues the move `(dx, dy, dz)` of player `player_id` for the next
    /// tick, its depth pinned to the player's side; it replaces any move
    /// still pending. A player that is not tracked is ignored.
    pub fn add_move_to_queue(&mut self, player_id: u128, dx: i64, dy: i64, dz: i64)
        requires
            old(self).wf(),
        ensures
            final(self).wf(),
            Self::enqueued(*old(self), player_id, Vec3 { x: dx, y: dy, z: dz }, *final(self)),
    {
        match self.find_player(player_id) {
            Some(i) => {
                let ghost before = *self;
                let rec = self.players[i];
                let target = pin_to_side(rec.order, Vec3 { x: dx, y: dy, z: dz });
                self.players.set(i, PlayerRecord { intent: Some(target), ..rec });
                proof {
                    assert(self.timers() == before.timers());
                    Self::lemma_wf_same_keys(before, *self);
                }
            },
            None => {},
        }
    }

    /// The world's part of a tick: drains the pending intents, all at once,
    /// into kinematic targets for the solver, which then advances the bodies.
    /// Returns the move of every player that has one, in order of joining,
    /// and leaves none pending.
    pub fn step(&mut self) -> (r: Vec<Move>)
        requires
            old(self).wf(),
        ensures
            final(self).wf(),
            r@ == pending_moves(old(self).records()),
            final(self).records() == old(self).records().map_values(|p: PlayerRecord| cleared(p)),
            final(self).timers() == old(self).timers(),
            final(self).ball() == old(self).ball(),
    {
        let ghost before = *self;
        let ghost recs = self.players@;
        let mut out: Vec<Move> = Vec::new();
        let n: usize = self.players.len();
        let mut i: usize = 0;
        while i < n
            invariant
                n == recs.len(),
                i <= n,
                self.players@.len() == n,
                self.ball_handle == before.ball(),
                self.player_shot_timer@ == before.timers(),
                out@ == pending_moves(recs.take(i as int)),
                forall|k: int| 0 <= k < i ==> #[trigger] self.players@[k] == cleared(recs[k]),
                forall|k: int| i <= k < n ==> #[trigger] self.players@[k] == recs[k],
            decreases n - i,
        {
            let rec = self.players[i];
            proof {
                assert(recs.take(i as int + 1).drop_last() == recs.take(i as int));
                assert(recs.take(i as int + 1).last() == rec);
            }
            match rec.intent {
                Some(t) => {
                    out.push(Move { player_id: rec.id, body: rec.body, target: t });
                },
                None => {},
            }
            self.players.set(i, PlayerRecord { intent: None, ..rec });
            i = i + 1;
        }
        proof {
            assert(recs.take(n as int) == recs);
            assert(self.records() == recs.map_values(|p: PlayerRecord| cleared(p)));
            Self::lemma_wf_same_keys(before, *self);
        }
        out
    }

    /// Seat of player `player_id`, or -1 where it is not tracked.
    pub fn get_player_number(&self, player_id: u128) -> (r: i32)
        requires
            self.wf(),
        ensures
            r == if self.has_player(player_id) {
                self.record(player_id).order
            } else {
                -1i32
            },
    {
        match self.find_player(player_id) {
            Some(i) => self.players[i].order,
            None => -1,
        }
    }

    /// Paddle body of player `player_id`, if it is tracked.
    pub fn body_of(&self, player_id: u128) -> (r: Option<BodyKey>)
        requires
            self.wf(),
        ensures
            r == if self.has_player(player_id) {
                Some(self.record(player_id).body)
            } else {
                None
            },
    {
        match self.find_player(player_id) {
            Some(i) => Some(self.players[i].body),
            None => None,
        }
    }

    /// The player whose paddle collider is `collider`, if any.
    pub fn player_of_collider(&self, collider: ColliderKey) -> (r: Option<u128>)
        requires
            self.wf(),
        ensures
            match r {
                Some(id) => self.has_player(id) && self.record(id).collider == collider,
                None => !self.collider_in_use(collider),
            },
    {
        let mut i: usize = 0;
        while i < self.players.len()
            invariant
                self.wf(),
                i <= self.players@.len(),
                forall|k: int| 0 <= k < i ==> (#[trigger] self.players@[k]).collider != collider,
            decreases self.players@.len() - i,
        {
            if self.players[i].collider == collider {
                let id = self.players[i].id;
                proof {
                    assert(self.records()[i as int].id == id);
                    assert(self.has_player(id));
                    let s = self.slot(id);
                    if s != i as int {
                        if s < i as int {
                            assert(self.records()[s].id != self.records()[i as int].id);
                        } else {
                            assert(self.records()[i as int].id != self.records()[s].id);
                        }
                    }
                }
                return Some(id);
            }
            i = i + 1;
        }
        None
    }

    /// Arms `timer` as the hit timer of player `player_id`, replacing any
    /// armed one; a player that is not tracked is ignored. Returns whether it
    /// was armed.
    pub fn arm_timer(&mut self, player_id: u128, timer: Timer) -> (r: bool)
        requires
            old(self).wf(),
        ensures
            final(self).wf(),
            r == old(self).has_player(player_id),
            Self::armed(*old(self), player_id, timer, *final(self)),
    {
        match self.find_player(player_id) {
            Some(_) => {
                let ghost before = *self;
                self.player_shot_timer.insert(player_id, timer);
                proof {
                    assert(before.has_player(player_id));
                    assert forall|id: u128| #[trigger] self.timers().contains_key(id) implies before.has_player(id) by {
                        if id != player_id {
                            assert(before.timers().contains_key(id));
                        }
                    }
                    Self::lemma_wf_same_keys(before, *self);
                }
                true
            },
            None => false,
        }
    }

    /// Begins a hit of player `player_id`: arms a timer of the hit window
    /// that starts now, replacing any armed one. A player that is not
    /// tracked is ignored.
    pub fn player_hit(&mut self, player_id: u128)
        requires
            old(self).wf(),
        ensures
            final(self).wf(),
            final(self).records() == old(self).records(),
            final(self).ball() == old(self).ball(),
            old(self).has_player(player_id) ==> exists|t: Timer|
                t.duration() == HIT_WINDOW_SECS * NANOS_PER_SEC && final(self).timers()
                    == old(self).timers().insert(player_id, t),
            !old(self).has_player(player_id) ==> final(self).timers() == old(self).timers(),
    {
        if self.find_player(player_id).is_some() {
            let timer = Timer::new(HIT_WINDOW_SECS);
            let ghost t = timer;
            self.arm_timer(player_id, timer);
            assert(self.timers() == old(self).timers().insert(player_id, t));
        }
    }

    /// Ends a hit of player `player_id` whose paddle is at `paddle` and the
    /// ball at `ball`: disarms its timer and reports the time since the hit
    /// began, if a timer was armed, and the paddle-to-ball distance. `None`
    /// where the player is not tracked.
    pub fn player_hit_exec(&mut self, player_id: u128, paddle: &Vec3, ball: &Vec3) -> (r: Option<HitReport>)
        requires
            old(self).wf(),
            paddle.in_range(),
            ball.in_range(),
        ensures
            final(self).wf(),
            final(self).records() == old(self).records(),
            final(self).ball() == old(self).ball(),
            old(self).has_player(player_id) ==> {
                &&& r is Some
                &&& r->0.elapsed_nanos is Some <==> old(self).timers().contains_key(player_id)
                &&& is_isqrt(sq_dist(*paddle, *ball), r->0.distance as int)
                &&& final(self).timers() == old(self).timers().remove(player_id)
            },
            !old(self).has_player(player_id) ==> {
                &&& r is None
                &&& final(self).timers() == old(self).timers()
            },
    {
        if self.find_player(player_id).is_none() {
            return None;
        }
        let ghost before = *self;
        let elapsed_nanos = match self.player_shot_timer.remove(&player_id) {
            Some(timer) => Some(timer.timer_value()),
            None => None,
        };
        proof {
            assert forall|id: u128| #[trigger] self.timers().contains_key(id) implies before.has_player(id) by {
                assert(before.timers().contains_key(id));
            }
            Self::lemma_wf_same_keys(before, *self);
        }
        let d = distance(paddle, ball);
        Some(HitReport { elapsed_nanos, distance: d })
    }
}

/// A move of the player of seat 0 always lands at depth `SIDE_DEPTH`; one of
/// the player of seat 1 lands at `-SIDE_DEPTH` unless its depth is already
/// within `SIDE_TOLERANCE` of it, where it is kept. Pinning never touches x
/// or y.
pub proof fn lemma_side_pinning(order: int, v: Vec3)
    ensures
        pinned(order, v).x == v.x,
        pinned(order, v).y == v.y,
        order == 0 ==> pinned(order, v).z == SIDE_DEPTH,
        order == 1 ==> {
            ||| pinned(order, v).z == -SIDE_DEPTH
            ||| {
                &&& pinned(order, v).z == v.z
                &&& -SIDE_DEPTH - SIDE_TOLERANCE < v.z < -SIDE_DEPTH + SIDE_TOLERANCE
            }
        },
{
}

/// In a well-formed world, the record of a player is the one that holds its
/// id.
pub proof fn lemma_slot_unique(w: PhysicsWorld, id: u128, i: int)
    requires
        w.wf(),
        0 <= i < w.records().len(),
        w.records()[i].id == id,
    ensures
        w.has_player(id),
        w.slot(id) == i,
{
    assert(w.has_player(id));
    let s = w.slot(id);
    if s < i {
        assert(w.records()[s].id != w.records()[i].id);
    } else if s > i {
        assert(w.records()[i].id != w.records()[s].id);
    }
}

/// The moves of player `id` among those drained from `recs`.
pub open spec fn moves_of(recs: Seq<PlayerRecord>, id: u128) -> Seq<Move> {
    pending_moves(recs).filter(|m: Move| m.player_id == id)
}

proof fn lemma_moves_of(recs: Seq<PlayerRecord>, id: u128)
    requires
        forall|i: int, j: int| 0 <= i < j < recs.len() ==> (#[trigger] recs[i]).id != (#[trigger] recs[j]).id,
    ensures
        (forall|k: int| 0 <= k < recs.len() ==> (#[trigger] recs[k]).id != id) ==> moves_of(recs, id)
            == Seq::<Move>::empty(),
        forall|k: int|
            0 <= k < recs.len() && (#[trigger] recs[k]).id == id ==> moves_of(recs, id) == match recs[k].intent {
                Some(t) => seq![Move { player_id: id, body: recs[k].body, target: t }],
                None => Seq::<Move>::empty(),
            },
    decreases recs.len(),
{
    reveal(Seq::filter);
    if recs.len() > 0 {
        let rest = recs.drop_last();
        let last = recs.last();
        assert forall|i: int, j: int| 0 <= i < j < rest.len() implies (#[trigger] rest[i]).id != (#[trigger] rest[j]).id by {
            assert(recs[i] == rest[i] && recs[j] == rest[j]);
        }
        lemma_moves_of(rest, id);
        let pr = pending_moves(rest);
        let pm = pending_moves(recs);
        match last.intent {
            Some(t) => {
                let m = Move { player_id: last.id, body: last.body, target: t };
                assert(pm == pr.push(m));
                assert(pm.drop_last() =~= pr);
                assert(pm.last() == m);
            },
            None => {
                assert(pm == pr);
            },
        }
        if last.id == id {
            assert forall|k: int| 0 <= k < rest.len() implies (#[trigger] rest[k]).id != id by {
                assert(recs[k] == rest[k]);
                assert(recs[k].id != recs[recs.len() - 1].id);
            }
            assert forall|k: int| 0 <= k < recs.len() && (#[trigger] recs[k]).id == id implies k == recs.len() - 1 by {
                if k < recs.len() - 1 {
                    assert(recs[k].id != recs[recs.len() - 1].id);
                }
            }
            match last.intent {
                Some(t) => {
                    assert(moves_of(recs, id) =~= seq![Move { player_id: id, body: last.body, target: t }]);
                },
                None => {},
            }
        } else {
            assert(moves_of(recs, id) == moves_of(rest, id));
            assert forall|k: int| 0 <= k < recs.len() - 1 && (#[trigger] recs[k]).id == id implies rest[k].id == id by {
                assert(recs[k] == rest[k]);
            }
        }
    }
}

/// A tick drains exactly one move of a player that has a move pending, its
/// pending target, and none of a player that has not.
pub proof fn lemma_one_move_per_player(w: PhysicsWorld, id: u128)
    requires
        w.wf(),
        w.has_player(id),
    ensures
        moves_of(w.records(), id) == match w.record(id).intent {
            Some(t) => seq![Move { player_id: id, body: w.record(id).body, target: t }],
            None => Seq::<Move>::empty(),
        },
{
    lemma_moves_of(w.records(), id);
    let i = w.slot(id);
    assert(w.records()[i].id == id);
}

/// Moves coalesce: after two moves of one player before a tick, the world is
/// as if only the second had been made, and the tick drains exactly one move
/// of that player: the second, pinned to its side.
pub proof fn lemma_coalescing(
    w0: PhysicsWorld,
    w1: PhysicsWorld,
    w2: PhysicsWorld,
    id: u128,
    a: Vec3,
    b: Vec3,
)
    requires
        w0.wf(),
        PhysicsWorld::enqueued(w0, id, a, w1),
        PhysicsWorld::enqueued(w1, id, b, w2),
    ensures
        PhysicsWorld::enqueued(w0, id, b, w2),
        w0.has_player(id) ==> moves_of(w2.records(), id) == seq![
            Move { player_id: id, body: w0.record(id).body, target: pinned(w0.record(id).order as int, b) },
        ],
{
    if w0.has_player(id) {
        let i = w0.slot(id);
        lemma_slot_unique(w0, id, i);
        PhysicsWorld::lemma_wf_same_keys(w0, w1);
        lemma_slot_unique(w1, id, i);
        assert(w2.records() =~= w0.records().update(
            i,
            PlayerRecord { intent: Some(pinned(w0.record(id).order as int, b)), ..w0.record(id) },
        ));
        PhysicsWorld::lemma_wf_same_keys(w0, w2);
        lemma_slot_unique(w2, id, i);
        lemma_one_move_per_player(w2, id);
    } else {
        assert(!w1.has_player(id));
    }
}

/// Removal is idempotent: after removing a player it is no longer tracked,
/// so removing it again leaves the records, timers and ball as they are.
pub proof fn lemma_remove_twice(w0: PhysicsWorld, w1: PhysicsWorld, w2: PhysicsWorld, id: u128)
    requires
        w0.wf(),
        PhysicsWorld::removal(w0, id, w1),
        PhysicsWorld::removal(w1, id, w2),
    ensures
        !w1.has_player(id),
        w2.records() == w1.records(),
        w2.timers() == w1.timers(),
        w2.ball() == w1.ball(),
{
    if w0.has_player(id) {
        let s = w0.slot(id);
        lemma_slot_unique(w0, id, s);
        if w1.has_player(id) {
            let k = choose|k: int| 0 <= k < w1.records().len() && (#[trigger] w1.records()[k]).id == id;
            let k0 = if k < s { k } else { k + 1 };
            assert(w0.records()[k0] == w1.records()[k]);
            if k0 < s {
                assert(w0.records()[k0].id != w0.records()[s].id);
            } else {
                assert(w0.records()[s].id != w0.records()[k0].id);
            }
        }
    }
}

/// Arming twice before the hit ends leaves one timer for the player: the
/// second.
pub proof fn lemma_rearm(
    w0: PhysicsWorld,
    w1: PhysicsWorld,
    w2: PhysicsWorld,
    id: u128,
    first: Timer,
    second: Timer,
)
    requires
        w0.has_player(id),
        PhysicsWorld::armed(w0, id, first, w1),
        PhysicsWorld::armed(w1, id, second, w2),
    ensures
        w2.timers() == w0.timers().insert(id, second),
        w2.timers()[id] == second,
        w2.timers().dom() == w0.timers().dom().insert(id),
{
    assert(w1.has_player(id));
    assert(w2.timers() =~= w0.timers().insert(id, second));
}

} // verus!
