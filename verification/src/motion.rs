//! What a collision world is and how time changes it, as mathematics: the
//! model that the contracts of [`CollisionWorld`] speak of.
//!
//! Time passes in steps of a fixed length. A step moves every body that has
//! a velocity, each judged against the bodies as they stood before the
//! step: along the horizontal axis first, as far as its velocity takes it
//! or up to the side of a body in its way, then along the vertical axis in
//! the same manner. The bodies in a body's way push it back one after the
//! other, in the order of their slots.
//!
//! [`CollisionWorld`]: crate::collide::CollisionWorld

use crate::collide::Body;
use crate::collide::BodyHandle;
use crate::geom::P2;
use crate::pool_model::Held;
use crate::pool_model::PoolModel;
use crate::shape::Area;
use crate::shape::RectSide;
use vstd::prelude::*;

verus! {

/// The length of one step of time, in microseconds: a sixtieth of a second,
/// rounded down.
pub const TIME_STEP_MICROS: u64 = 16_666;

/// The length of one step of time, in nanoseconds.
pub const TIME_STEP_NANOS: u128 = 16_666_000;

/// The number of microseconds in a second.
pub const MICROS_PER_SECOND: u64 = 1_000_000;

/// How far a body with velocity `velocity` on an axis tries to go on that
/// axis in one step: the velocity times the step's length in seconds, less
/// the fraction of a sub-unit, whichever way it goes.
pub open spec fn step_shift(velocity: int) -> int {
    if velocity >= 0 {
        velocity * TIME_STEP_MICROS as int / MICROS_PER_SECOND as int
    } else {
        -((-velocity) * TIME_STEP_MICROS as int / MICROS_PER_SECOND as int)
    }
}

/// The coordinate nearest to `v` that a body can have.
pub open spec fn clamp_coord(v: int) -> int {
    if v < i64::MIN {
        i64::MIN as int
    } else if v > i64::MAX {
        i64::MAX as int
    } else {
        v
    }
}

/// `v` lies between `a` and `b`, whichever of them is the lesser.
pub open spec fn between(a: int, v: int, b: int) -> bool {
    a <= v <= b || b <= v <= a
}

/// How far `a` and `b` are apart.
pub open spec fn distance(a: int, b: int) -> int {
    if a <= b {
        b - a
    } else {
        a - b
    }
}

/// Where a rectangle comes to stand on the horizontal axis that stood at
/// `from`, was moved along that axis to `x`, and met `blocker`: flush with
/// the blocker's side that it crossed, if that was the left or the right
/// one; at `x`, if it does not overlap the blocker there.
pub open spec fn pushed_x(blocker: Area, from: Area, x: int) -> int {
    if blocker.overlaps(from.at_x(x)) {
        match blocker.crossed_side(from, from.at_x(x)) {
            RectSide::Left => blocker.left() - from.w,
            RectSide::Right => blocker.right(),
            _ => x,
        }
    } else {
        x
    }
}

/// Where a rectangle comes to stand on the vertical axis that stood at
/// `from`, was brought by the horizontal pass to `from.at_x(x)`, was moved
/// from there along the vertical axis to `y`, and met `blocker`: flush with
/// the blocker's top or bottom side, whichever it crossed on its way from
/// where the horizontal pass left it; at `y`, if it does not overlap the
/// blocker there.
pub open spec fn pushed_y(blocker: Area, from: Area, x: int, y: int) -> int {
    if blocker.overlaps(from.at_x(x).at_y(y)) {
        match blocker.crossed_side(from.at_x(x), from.at_x(x).at_y(y)) {
            RectSide::Top => blocker.top() - from.h,
            RectSide::Bottom => blocker.bottom(),
            _ => y,
        }
    } else {
        y
    }
}

/// What a collision world holds, as far as its users can tell. The size of
/// the cells by which a world sorts its bodies is no part of it.
pub struct WorldModel {
    /// The bodies, in their pool.
    pub pool: PoolModel<Body>,
    /// For each group that was registered, the groups it collides with.
    pub masks: Map<u32, u32>,
    /// The slots of the bodies that every step moves.
    pub moving: Set<usize>,
    /// The slots of the bodies that were handed out to be changed since the
    /// last refresh.
    pub pending: Set<usize>,
    /// The time that has passed and no step has used up, in nanoseconds.
    pub clock: nat,
}

impl WorldModel {
    /// The slot at `slot` holds a body.
    pub open spec fn live(self, slot: int) -> bool {
        0 <= slot < self.pool.slots.len() && self.pool.slots[slot] is Some
    }

    /// The body in the slot at `slot`.
    pub open spec fn body_at(self, slot: int) -> Body
        recommends
            self.live(slot),
    {
        self.pool.slots[slot].unwrap().value
    }

    /// The handle leads to a body of this world.
    pub open spec fn has(self, handle: BodyHandle) -> bool {
        self.pool.has(handle.inner())
    }

    /// The body that a handle leads to.
    pub open spec fn body(self, handle: BodyHandle) -> Body
        recommends
            self.has(handle),
    {
        self.pool.value(handle.inner())
    }

    /// The groups that a body of group `group` collides with: none, if the
    /// group was never registered.
    pub open spec fn mask(self, group: u32) -> u32 {
        if self.masks.contains_key(group) {
            self.masks[group]
        } else {
            0
        }
    }

    /// Of the bodies that are not waiting, those move that have a velocity,
    /// and no others.
    pub open spec fn moves_what_has_velocity(self) -> bool {
        forall|slot: usize|
            self.live(slot as int) && !self.pending.contains(slot) ==> (
            #[trigger] self.moving.contains(slot) <==> !self.body_at(slot as int).vel.is_zero())
    }

    /// What holds of the model of every world.
    pub open spec fn wf(self) -> bool {
        &&& self.pool.wf()
        &&& self.clock < TIME_STEP_NANOS
        &&& forall|slot: usize| #[trigger] self.moving.contains(slot) ==> self.live(slot as int)
        &&& forall|slot: usize| #[trigger] self.pending.contains(slot) ==> self.live(slot as int)
        &&& forall|slot: usize|
            #[trigger] self.moving.contains(slot) ==> !self.pending.contains(slot)
        &&& self.moves_what_has_velocity()
    }

    /// A world without bodies, with room for `capacity` of them.
    pub open spec fn empty(capacity: usize, masks: Map<u32, u32>) -> WorldModel {
        WorldModel {
            pool: PoolModel::empty(capacity),
            masks,
            moving: Set::empty(),
            pending: Set::empty(),
            clock: 0,
        }
    }

    /// The world after `body` was put into it. The body moves with the
    /// steps from now on if it has a velocity.
    pub open spec fn spawn(self, body: Body) -> WorldModel {
        WorldModel {
            pool: self.pool.push(body),
            moving: if body.vel.is_zero() {
                self.moving
            } else {
                self.moving.insert(self.pool.next_slot())
            },
            ..self
        }
    }

    /// The world after the body behind `handle` was taken out of it, if
    /// there was one.
    pub open spec fn despawn(self, handle: BodyHandle) -> WorldModel {
        if self.has(handle) {
            WorldModel {
                pool: self.pool.remove(handle.inner()),
                moving: self.moving.remove(handle.slot()),
                pending: self.pending.remove(handle.slot()),
                ..self
            }
        } else {
            self
        }
    }

    /// The world after the body behind `handle` was handed out to be
    /// changed and was left as `body`: it waits for the next refresh, and
    /// no step moves it before.
    pub open spec fn rewrite(self, handle: BodyHandle, body: Body) -> WorldModel {
        if self.has(handle) {
            WorldModel {
                pool: self.pool.with_value(handle.inner(), body),
                moving: self.moving.remove(handle.slot()),
                pending: self.pending.insert(handle.slot()),
                ..self
            }
        } else {
            self
        }
    }

    /// The world after all its bodies were handed out to be changed and
    /// were left as `bodies`, in the order of their slots.
    pub open spec fn rewrite_all(self, bodies: Seq<Body>) -> WorldModel {
        WorldModel {
            pool: self.pool.with_values(bodies),
            moving: Set::empty(),
            pending: Set::new(|slot: usize| self.live(slot as int)),
            ..self
        }
    }

    /// The world with the body in the slot at `slot` standing at `pos`.
    pub open spec fn placed(self, slot: int, pos: P2) -> WorldModel {
        WorldModel {
            pool: PoolModel {
                slots: self.pool.slots.update(
                    slot,
                    Some(
                        Held {
                            id: self.pool.slots[slot].unwrap().id,
                            value: Body { pos, ..self.body_at(slot) },
                        },
                    ),
                ),
                ..self.pool
            },
            ..self
        }
    }

    /// The world after the refresh that every advance of time begins with:
    /// of the bodies that were handed out to be changed, those that have a
    /// velocity now move with the steps, and none is waiting any more.
    pub open spec fn refreshed(self) -> WorldModel {
        WorldModel {
            moving: Set::new(
                |slot: usize|
                    self.moving.contains(slot) || (self.pending.contains(slot) && self.live(
                        slot as int,
                    ) && !self.body_at(slot as int).vel.is_zero()),
            ),
            pending: Set::empty(),
            ..self
        }
    }

    /// The body in slot `other` stands in the way of the body in slot `me`:
    /// it is another body, and its group is one of those that the group of
    /// the body in `me` collides with.
    pub open spec fn blocks(self, me: int, other: int) -> bool {
        &&& other != me
        &&& self.live(other)
        &&& self.body_at(other).group & self.mask(self.body_at(me).group) != 0
    }

    /// Where the left edge of the body in slot `me` stands after it was
    /// moved along the horizontal axis to `x` and pushed back in turn by
    /// each body in its way in the slots below `n`.
    pub open spec fn swept_x(self, me: int, n: int, x: int) -> int
        decreases n,
    {
        if n <= 0 {
            x
        } else if self.blocks(me, n - 1) {
            pushed_x(
                self.body_at(n - 1).area(),
                self.body_at(me).area(),
                self.swept_x(me, n - 1, x),
            )
        } else {
            self.swept_x(me, n - 1, x)
        }
    }

    /// Where the top edge of the body in slot `me` stands after it was
    /// moved along the vertical axis to `y`, with its left edge at `x`, and
    /// pushed back in turn by each body in its way in the slots below `n`.
    pub open spec fn swept_y(self, me: int, n: int, x: int, y: int) -> int
        decreases n,
    {
        if n <= 0 {
            y
        } else if self.blocks(me, n - 1) {
            pushed_y(
                self.body_at(n - 1).area(),
                self.body_at(me).area(),
                x,
                self.swept_y(me, n - 1, x, y),
            )
        } else {
            self.swept_y(me, n - 1, x, y)
        }
    }

    /// The bodies in the slots `me` and `other` overlap as they stand.
    pub open spec fn overlapping(self, me: int, other: int) -> bool {
        self.body_at(other).area().overlaps(self.body_at(me).area())
    }

    /// The body in slot `other` overlaps the body in slot `me` once that
    /// body has its left edge at `x`.
    pub open spec fn overlapping_at(self, me: int, other: int, x: int) -> bool {
        self.body_at(other).area().overlaps(self.body_at(me).area().at_x(x))
    }

    /// On its way along the horizontal axis to `x`, the body in slot `me`
    /// runs into the body in slot `other`: that body stands in its way, and
    /// the two overlap when it is that body's turn to push back.
    pub open spec fn runs_into_x(self, me: int, other: int, x: int) -> bool {
        &&& self.blocks(me, other)
        &&& self.body_at(other).area().overlaps(
            self.body_at(me).area().at_x(self.swept_x(me, other, x)),
        )
    }

    /// On its way along the vertical axis to `y`, with its left edge at
    /// `x`, the body in slot `me` runs into the body in slot `other`.
    pub open spec fn runs_into_y(self, me: int, other: int, x: int, y: int) -> bool {
        &&& self.blocks(me, other)
        &&& self.body_at(other).area().overlaps(
            self.body_at(me).area().at_x(x).at_y(self.swept_y(me, other, x, y)),
        )
    }

    /// On its way along the horizontal axis to `x`, the body in slot `me`
    /// runs into no body in the slots below `n` that it overlapped before
    /// it set out.
    pub open spec fn clear_x(self, me: int, n: int, x: int) -> bool {
        forall|other: int|
            0 <= other < n && #[trigger] self.runs_into_x(me, other, x) ==> !self.overlapping(
                me,
                other,
            )
    }

    /// On its way along the vertical axis to `y`, with its left edge at
    /// `x`, the body in slot `me` runs into no body in the slots below `n`
    /// that it overlapped where the horizontal pass left it.
    pub open spec fn clear_y(self, me: int, n: int, x: int, y: int) -> bool {
        forall|other: int|
            0 <= other < n && #[trigger] self.runs_into_y(me, other, x, y) ==> !self.overlapping_at(
                me,
                other,
                x,
            )
    }

    /// How far the body in slot `me` tries to go in one step, on each axis.
    pub open spec fn shift(self, me: int) -> (int, int) {
        (step_shift(self.body_at(me).vel.x as int), step_shift(self.body_at(me).vel.y as int))
    }

    /// Where the body in slot `me` would stand after one step if nothing
    /// were in its way.
    pub open spec fn aim(self, me: int) -> (int, int) {
        (
            clamp_coord(self.body_at(me).pos.x + self.shift(me).0),
            clamp_coord(self.body_at(me).pos.y + self.shift(me).1),
        )
    }

    /// The left edge of the body in slot `me` after one step.
    pub open spec fn moved_x(self, me: int) -> int {
        if self.shift(me).0 != 0 {
            self.swept_x(me, self.pool.slots.len() as int, self.aim(me).0)
        } else {
            self.body_at(me).pos.x as int
        }
    }

    /// The top edge of the body in slot `me` after one step.
    pub open spec fn moved_y(self, me: int) -> int {
        if self.shift(me).1 != 0 {
            self.swept_y(me, self.pool.slots.len() as int, self.moved_x(me), self.aim(me).1)
        } else {
            self.body_at(me).pos.y as int
        }
    }

    /// Where the body in slot `me` stands after one step: moved along the
    /// horizontal axis first and stopped by what is in its way there, then
    /// moved along the vertical axis from where that left it.
    pub open spec fn moved(self, me: int) -> P2 {
        P2 { x: self.moved_x(me) as i64, y: self.moved_y(me) as i64 }
    }

    /// The step finds the body in slot `me` free to move: on neither axis
    /// does it run into a body that it overlapped before it set out along
    /// that axis.
    pub open spec fn clear(self, me: int) -> bool {
        &&& self.shift(me).0 != 0 ==> self.clear_x(
            me,
            self.pool.slots.len() as int,
            self.aim(me).0,
        )
        &&& self.shift(me).1 != 0 ==> self.clear_y(
            me,
            self.pool.slots.len() as int,
            self.moved_x(me),
            self.aim(me).1,
        )
    }

    /// The body in the slot at `slot` has no velocity.
    pub open spec fn rests(self, slot: int) -> bool {
        self.body_at(slot).vel.is_zero()
    }

    /// A step is too short to carry the body in slot `me` over the body in
    /// slot `other`: on each axis it is shorter than the two bodies are wide
    /// (or high) together, as it is when it is shorter than the other body
    /// alone.
    pub open spec fn cannot_jump(self, me: int, other: int) -> bool {
        &&& distance(0, self.shift(me).0) < self.body_at(me).area().w + self.body_at(
            other,
        ).area().w
        &&& distance(0, self.shift(me).1) < self.body_at(me).area().h + self.body_at(
            other,
        ).area().h
    }

    /// No moving body overlaps a resting body that stands in its way.
    pub open spec fn stands_apart(self) -> bool {
        forall|me: usize, other: int|
            self.moving.contains(me) && #[trigger] self.blocks(me as int, other) && self.rests(
                other,
            ) ==> !self.overlapping(me as int, other)
    }

    /// No step is long enough to carry a moving body over a resting body
    /// that stands in its way.
    pub open spec fn steps_are_short(self) -> bool {
        forall|me: usize, other: int|
            self.moving.contains(me) && #[trigger] self.blocks(me as int, other) && self.rests(
                other,
            ) ==> self.cannot_jump(me as int, other)
    }

    /// Only resting bodies stand in the way of the moving ones.
    pub open spec fn only_resting_bodies_block(self) -> bool {
        forall|me: usize, other: int|
            self.moving.contains(me) && #[trigger] self.blocks(me as int, other) ==> self.rests(
                other,
            )
    }

    /// A step finds every moving body free to move.
    pub open spec fn step_clear(self) -> bool {
        forall|slot: usize| #[trigger] self.moving.contains(slot) ==> self.clear(slot as int)
    }

    /// The world one step later: every moving body stands where the step
    /// takes it, each judged against the bodies as they stood before the
    /// step.
    pub open spec fn stepped(self) -> WorldModel {
        WorldModel {
            pool: PoolModel {
                slots: Seq::new(
                    self.pool.slots.len(),
                    |slot: int|
                        if self.moving.contains(slot as usize) && self.live(slot) {
                            Some(
                                Held {
                                    id: self.pool.slots[slot].unwrap().id,
                                    value: Body { pos: self.moved(slot), ..self.body_at(slot) },
                                },
                            )
                        } else {
                            self.pool.slots[slot]
                        },
                ),
                ..self.pool
            },
            ..self
        }
    }

    /// The first `steps` steps from here each find every moving body free
    /// to move.
    pub open spec fn runs_clear(self, steps: nat) -> bool
        decreases steps,
    {
        steps == 0 || (self.step_clear() && self.stepped().runs_clear((steps - 1) as nat))
    }

    /// The world after as many of `steps` steps as find every moving body
    /// free to move: the first step that does not is not taken, nor any
    /// after it.
    pub open spec fn run(self, steps: nat) -> WorldModel
        decreases steps,
    {
        if steps == 0 || !self.step_clear() {
            self
        } else {
            self.stepped().run((steps - 1) as nat)
        }
    }

    /// The world after `steps` steps.
    pub open spec fn run_all(self, steps: nat) -> WorldModel
        decreases steps,
    {
        if steps == 0 {
            self
        } else {
            self.stepped().run_all((steps - 1) as nat)
        }
    }

    /// The world as the steps find it once `nanos` nanoseconds more have
    /// passed: refreshed, and with the time that is left after the steps
    /// due on its clock.
    pub open spec fn wound(self, nanos: nat) -> WorldModel {
        WorldModel {
            clock: ((self.clock + nanos) % (TIME_STEP_NANOS as nat)) as nat,
            ..self.refreshed()
        }
    }

    /// The number of steps that are due once `nanos` nanoseconds more have
    /// passed.
    pub open spec fn steps_due(self, nanos: nat) -> nat {
        ((self.clock + nanos) / (TIME_STEP_NANOS as nat)) as nat
    }

    /// Every step that is due once `nanos` nanoseconds more have passed
    /// finds every moving body free to move.
    pub open spec fn can_elapse(self, nanos: nat) -> bool {
        self.wound(nanos).runs_clear(self.steps_due(nanos))
    }

    /// The world after `nanos` nanoseconds more have passed.
    pub open spec fn elapsed(self, nanos: nat) -> WorldModel {
        self.wound(nanos).run(self.steps_due(nanos))
    }

    /// The bodies in the slots below `n` that stand still, are not the
    /// body in slot `me`, and touch it, in the order of their slots.
    pub open spec fn touching_below(self, me: int, n: int) -> Seq<Body>
        decreases n,
    {
        if n <= 0 {
            Seq::empty()
        } else if self.touches(me, n - 1) {
            self.touching_below(me, n - 1).push(self.body_at(n - 1))
        } else {
            self.touching_below(me, n - 1)
        }
    }

    /// The body in slot `other` stands still, is not the body in slot `me`,
    /// and touches it.
    pub open spec fn touches(self, me: int, other: int) -> bool {
        &&& other != me
        &&& self.live(other)
        &&& self.body_at(other).vel.is_zero()
        &&& self.body_at(me).area().touches(self.body_at(other).area())
    }

    /// The bodies that touch the body behind `handle`: none, if the handle
    /// leads to no body.
    pub open spec fn touching(self, handle: BodyHandle) -> Seq<Body> {
        if self.has(handle) {
            self.touching_below(handle.slot() as int, self.pool.slots.len() as int)
        } else {
            Seq::empty()
        }
    }

    /// The body in slot `me` may come to stand at `at` on its way to `to`:
    /// `at` is of its size, and lies between its place and `to` on both
    /// axes.
    pub open spec fn on_the_way(self, me: int, to: Area, at: Area) -> bool {
        &&& at.w == self.body_at(me).area().w
        &&& at.h == self.body_at(me).area().h
        &&& between(self.body_at(me).area().x, at.x, to.x)
        &&& between(self.body_at(me).area().y, at.y, to.y)
    }

    /// The body in slot `other` is out of the way of the body in slot `me`
    /// on its way to `to`: wherever on that way that body comes to stand,
    /// the two do not overlap.
    pub open spec fn out_of_way(self, me: int, other: int, to: Area) -> bool {
        forall|at: Area| #[trigger]
            self.on_the_way(me, to, at) ==> !self.body_at(other).area().overlaps(at)
    }
}

} // verus!
