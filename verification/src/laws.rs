//! What the users of a collision world can count on, proved of its model.

use crate::collide::Body;
use crate::collide::BodyHandle;
use crate::motion::WorldModel;
use crate::motion::TIME_STEP_NANOS;
use vstd::prelude::*;

verus! {

// What keeps a world in order.
impl WorldModel {
    /// A world in which the same bodies move and wait as in this one, and
    /// every body has the velocity that it has in this one, moves what has
    /// velocity if this one does.
    proof fn lemma_moves_the_same(self, other: WorldModel)
        requires
            self.moves_what_has_velocity(),
            other.moving == self.moving,
            other.pending == self.pending,
            forall|slot: int| #[trigger] other.live(slot) ==> self.live(slot),
            forall|slot: int|
                other.live(slot) ==> (#[trigger] other.body_at(slot)).vel == self.body_at(slot).vel,
        ensures
            other.moves_what_has_velocity(),
    {
        assert forall|slot: usize|
            other.live(slot as int) && !other.pending.contains(slot) implies (
        #[trigger] other.moving.contains(slot) <==> !other.body_at(slot as int).vel.is_zero()) by {
            assert(self.live(slot as int));
            assert(other.body_at(slot as int).vel == self.body_at(slot as int).vel);
        }
    }

    /// Putting a body into a world that has room for it leaves a world in
    /// order.
    pub proof fn lemma_spawn(self, body: Body)
        requires
            self.wf(),
            self.pool.can_push(),
        ensures
            self.spawn(body).wf(),
            self.spawn(body).live(self.pool.next_slot() as int),
            self.spawn(body).body_at(self.pool.next_slot() as int) == body,
            !self.live(self.pool.next_slot() as int),
            forall|slot: int|
                slot != self.pool.next_slot() ==> self.spawn(body).live(slot) == self.live(slot),
            forall|slot: int| #[trigger]
                self.live(slot) ==> self.spawn(body).body_at(slot) == self.body_at(slot),
    {
        self.pool.lemma_push(body);
        let room = self.pool.with_room();
        let after = self.spawn(body);
        let s = self.pool.next_slot();
        if self.pool.free.len() == 0 {
            self.pool.lemma_grown();
        }
        assert(room.slots[s as int] is None);
        assert(!self.live(s as int));
        assert forall|slot: usize|
            after.live(slot as int) && !after.pending.contains(slot) implies (
        #[trigger] after.moving.contains(slot) <==> !after.body_at(slot as int).vel.is_zero()) by {
            if slot != s {
                assert(self.live(slot as int));
            }
        }
    }

    /// Taking a body out of a world leaves a world in order.
    pub proof fn lemma_despawn(self, handle: BodyHandle)
        requires
            self.wf(),
        ensures
            self.despawn(handle).wf(),
    {
        self.pool.lemma_remove(handle.inner());
    }

    /// Changing a body leaves a world in order, whatever the body is
    /// changed to.
    pub proof fn lemma_rewrite(self, handle: BodyHandle, body: Body)
        requires
            self.wf(),
        ensures
            self.rewrite(handle, body).wf(),
    {
        self.pool.lemma_with_value(handle.inner(), body);
    }

    /// Changing all bodies leaves a world in order, whatever they are
    /// changed to.
    pub proof fn lemma_rewrite_all(self, bodies: Seq<Body>)
        requires
            self.wf(),
            bodies.len() == self.pool.used().len(),
        ensures
            self.rewrite_all(bodies).wf(),
            forall|slot: int| self.rewrite_all(bodies).live(slot) == self.live(slot),
    {
        self.pool.lemma_with_values(bodies);
    }

    /// Putting a body somewhere else leaves a world in order.
    pub proof fn lemma_placed(self, slot: int, pos: crate::geom::P2)
        requires
            self.wf(),
            self.live(slot),
        ensures
            self.placed(slot, pos).wf(),
            self.pool.alike(self.placed(slot, pos).pool),
            forall|other: int| self.placed(slot, pos).live(other) == self.live(other),
    {
        let after = self.placed(slot, pos);
        self.pool.lemma_alike(after.pool);
        self.lemma_moves_the_same(after);
    }

    /// The refresh leaves a world in order, and no body waiting.
    pub proof fn lemma_refreshed(self)
        requires
            self.wf(),
        ensures
            self.refreshed().wf(),
            self.refreshed().pending == Set::<usize>::empty(),
    {
    }

    /// Winding the clock on leaves a world in order, and no body waiting.
    pub proof fn lemma_wound(self, nanos: nat)
        requires
            self.wf(),
        ensures
            self.wound(nanos).wf(),
            self.wound(nanos).pending == Set::<usize>::empty(),
    {
        self.lemma_refreshed();
        vstd::arithmetic::div_mod::lemma_mod_bound(
            (self.clock + nanos) as int,
            TIME_STEP_NANOS as int,
        );
        self.refreshed().lemma_moves_the_same(self.wound(nanos));
    }

    /// A step leaves a world in order: it moves bodies and changes nothing
    /// else about them.
    pub proof fn lemma_stepped(self)
        requires
            self.wf(),
        ensures
            self.stepped().wf(),
            self.pool.alike(self.stepped().pool),
            self.stepped().pool.used() == self.pool.used(),
            forall|slot: int| self.stepped().live(slot) == self.live(slot),
    {
        let after = self.stepped();
        self.pool.lemma_alike(after.pool);
        self.lemma_moves_the_same(after);
    }

    /// However many steps are run, the world stays in order.
    pub proof fn lemma_run(self, steps: nat)
        requires
            self.wf(),
        ensures
            self.run(steps).wf(),
            self.runs_clear(steps) ==> self.run(steps) == self.run_all(steps),
        decreases steps,
    {
        if steps > 0 && self.step_clear() {
            self.lemma_stepped();
            self.stepped().lemma_run((steps - 1) as nat);
        }
    }
}

// What time and change do to the bodies.
impl WorldModel {
    /// Removal ends a handle: it leads to no body any more, a second
    /// removal through it changes nothing, and every other handle leads to
    /// the body it led to.
    pub proof fn lemma_despawned_is_gone(self, handle: BodyHandle, other: BodyHandle)
        requires
            self.wf(),
            self.has(handle),
        ensures
            !self.despawn(handle).has(handle),
            self.despawn(handle).despawn(handle) == self.despawn(handle),
            other.inner() != handle.inner() ==> self.despawn(handle).has(other) == self.has(other),
            other.inner() != handle.inner() && self.has(other) ==> self.despawn(handle).body(other)
                == self.body(other),
    {
        self.pool.lemma_removed_is_gone(handle.inner(), other.inner());
    }

    /// A body that is created moves with the steps exactly if it has a
    /// velocity.
    pub proof fn lemma_spawned_moves_if_fast(self, body: Body)
        requires
            self.wf(),
            self.pool.can_push(),
        ensures
            self.spawn(body).moving.contains(self.pool.next_slot()) <==> !body.vel.is_zero(),
    {
        self.lemma_spawn(body);
        assert(!self.live(self.pool.next_slot() as int));
    }

    /// A body that is created without a velocity does not move with the
    /// steps, and stands where it was put after any time has passed and
    /// after any time has passed again.
    pub proof fn lemma_spawned_at_rest_stays(self, body: Body, nanos: nat, more: nat)
        requires
            self.wf(),
            self.pool.can_push(),
            body.vel.is_zero(),
        ensures
            !self.spawn(body).moving.contains(self.pool.next_slot()),
            self.spawn(body).elapsed(nanos).live(self.pool.next_slot() as int),
            self.spawn(body).elapsed(nanos).body_at(self.pool.next_slot() as int) == body,
            self.spawn(body).elapsed(nanos).elapsed(more).live(self.pool.next_slot() as int),
            self.spawn(body).elapsed(nanos).elapsed(more).body_at(self.pool.next_slot() as int)
                == body,
    {
        let slot = self.pool.next_slot();
        let made = self.spawn(body);
        self.lemma_spawn(body);
        self.lemma_spawned_moves_if_fast(body);
        made.lemma_resting_stays(slot as int, nanos);
        made.elapsed(nanos).lemma_resting_stays(slot as int, more);
    }

    /// A body without a velocity stands where it stood after any time has
    /// passed, and has no velocity then either.
    pub proof fn lemma_resting_stays(self, slot: int, nanos: nat)
        requires
            self.wf(),
            self.live(slot),
            self.rests(slot),
        ensures
            self.elapsed(nanos).wf(),
            self.elapsed(nanos).live(slot),
            self.elapsed(nanos).body_at(slot) == self.body_at(slot),
    {
        self.lemma_wound(nanos);
        let wound = self.wound(nanos);
        wound.lemma_run_moves_only(self.steps_due(nanos));
        wound.lemma_run(self.steps_due(nanos));
        assert(wound.live(slot));
        assert(!wound.moving.contains(slot as usize)) by {
            assert(self.pool.slots.len() <= usize::MAX);
        }
    }

    /// Steps move bodies and leave everything else as it is: which bodies
    /// there are and under which handles, which of them move, the groups
    /// and the clock.
    pub proof fn lemma_run_moves_only(self, steps: nat)
        requires
            self.wf(),
        ensures
            self.run(steps).moving == self.moving,
            self.run(steps).pending == self.pending,
            self.run(steps).masks == self.masks,
            self.run(steps).clock == self.clock,
            self.run(steps).pool.free == self.pool.free,
            self.run(steps).pool.next_id == self.pool.next_id,
            self.run(steps).pool.slots.len() == self.pool.slots.len(),
            forall|slot: int| self.run(steps).live(slot) == self.live(slot),
            forall|slot: int|
                self.live(slot) ==> (#[trigger] self.run(steps).pool.slots[slot]).unwrap().id
                    == self.pool.slots[slot].unwrap().id,
            forall|slot: int|
                self.live(slot) ==> (#[trigger] self.run(steps).body_at(slot)).vel == self.body_at(
                    slot,
                ).vel && self.run(steps).body_at(slot).size == self.body_at(slot).size
                    && self.run(steps).body_at(slot).group == self.body_at(slot).group,
            forall|slot: int|
                self.live(slot) && !self.moving.contains(slot as usize) ==> #[trigger] self.run(
                    steps,
                ).body_at(slot) == self.body_at(slot),
        decreases steps,
    {
        if steps > 0 && self.step_clear() {
            self.lemma_stepped();
            self.stepped().lemma_run_moves_only((steps - 1) as nat);
            assert forall|slot: int| self.live(slot) implies (#[trigger] self.run(
                steps,
            ).pool.slots[slot]).unwrap().id == self.pool.slots[slot].unwrap().id by {
                assert(self.stepped().live(slot));
            }
            assert forall|slot: int| self.live(slot) implies (#[trigger] self.run(steps).body_at(
                slot,
            )).vel == self.body_at(slot).vel && self.run(steps).body_at(slot).size == self.body_at(
                slot,
            ).size && self.run(steps).body_at(slot).group == self.body_at(slot).group by {
                assert(self.stepped().live(slot));
            }
            assert forall|slot: int|
                self.live(slot) && !self.moving.contains(slot as usize) implies #[trigger] self.run(
                steps,
            ).body_at(slot) == self.body_at(slot) by {
                assert(self.stepped().live(slot));
            }
        }
    }

    /// Time moves bodies and leaves them what they are: every handle leads
    /// to a body after it exactly if it did before, the body has the group,
    /// the size and the velocity that it had, and it stands where it stood
    /// if it has no velocity.
    pub proof fn lemma_elapsed_moves_only(self, nanos: nat, handle: BodyHandle)
        requires
            self.wf(),
        ensures
            self.elapsed(nanos).wf(),
            self.elapsed(nanos).has(handle) == self.has(handle),
            self.has(handle) ==> self.elapsed(nanos).body(handle).group == self.body(handle).group
                && self.elapsed(nanos).body(handle).size == self.body(handle).size
                && self.elapsed(nanos).body(handle).vel == self.body(handle).vel,
            self.has(handle) && self.body(handle).vel.is_zero() ==> self.elapsed(nanos).body(handle)
                == self.body(handle),
    {
        self.lemma_wound(nanos);
        let wound = self.wound(nanos);
        let after = self.elapsed(nanos);
        wound.lemma_run_moves_only(self.steps_due(nanos));
        wound.lemma_run(self.steps_due(nanos));
        if self.has(handle) {
            let slot = handle.slot() as int;
            assert(wound.live(slot));
            assert(after.pool.slots[slot].unwrap().id == wound.pool.slots[slot].unwrap().id);
            if self.body(handle).vel.is_zero() {
                assert(!wound.moving.contains(handle.slot()));
            }
        } else if after.has(handle) {
            let slot = handle.slot() as int;
            assert(after.live(slot));
            assert(wound.live(slot));
            assert(after.pool.slots[slot].unwrap().id == wound.pool.slots[slot].unwrap().id);
        }
    }

    /// A body that was handed out and left with a velocity does not move
    /// before time is let pass again, and moves with the steps from then
    /// on; one that was left without a velocity does not move then either.
    pub proof fn lemma_rewritten_moves_after_refresh(
        self,
        handle: BodyHandle,
        body: Body,
        nanos: nat,
    )
        requires
            self.wf(),
            self.has(handle),
        ensures
            !self.rewrite(handle, body).moving.contains(handle.slot()),
            self.rewrite(handle, body).elapsed(nanos).moving.contains(handle.slot())
                <==> !body.vel.is_zero(),
    {
        let changed = self.rewrite(handle, body);
        self.lemma_rewrite(handle, body);
        changed.lemma_wound(nanos);
        changed.wound(nanos).lemma_run_moves_only(changed.steps_due(nanos));
        assert(changed.body_at(handle.slot() as int) == body);
    }

    /// A body of a group that collides with nothing is free to move and
    /// goes where it aims, whatever stands there.
    pub proof fn lemma_passes_through(self, me: int)
        requires
            self.mask(self.body_at(me).group) == 0,
        ensures
            self.clear(me),
            self.moved_x(me) == (if self.shift(me).0 != 0 {
                self.aim(me).0
            } else {
                self.body_at(me).pos.x as int
            }),
            self.moved_y(me) == (if self.shift(me).1 != 0 {
                self.aim(me).1
            } else {
                self.body_at(me).pos.y as int
            }),
    {
        assert forall|other: int| !self.blocks(me, other) by {
            let group = self.body_at(other).group;
            assert(group & 0 == 0) by (bit_vector);
        }
        let n = self.pool.slots.len() as int;
        self.lemma_unblocked_x(me, n, self.aim(me).0);
        self.lemma_unblocked_y(me, n, self.moved_x(me), self.aim(me).1);
    }

    /// Where the bodies that move are of groups that collide with nothing,
    /// every step finds them free to move, however many steps are taken.
    pub proof fn lemma_unhindered_runs_clear(self, steps: nat)
        requires
            self.wf(),
            forall|slot: usize| #[trigger]
                self.moving.contains(slot) ==> self.mask(self.body_at(slot as int).group) == 0,
        ensures
            self.runs_clear(steps),
        decreases steps,
    {
        if steps > 0 {
            assert forall|slot: usize| #[trigger] self.moving.contains(slot) implies self.clear(
                slot as int,
            ) by {
                self.lemma_passes_through(slot as int);
            }
            self.lemma_stepped();
            self.stepped().lemma_unhindered_runs_clear((steps - 1) as nat);
        }
    }

    /// Where the bodies that move, or may come to move with the refresh,
    /// are of groups that collide with nothing, any time can be let pass.
    pub proof fn lemma_unhindered_can_elapse(self, nanos: nat)
        requires
            self.wf(),
            forall|slot: usize|
                #![trigger self.moving.contains(slot)]
                #![trigger self.pending.contains(slot)]
                self.moving.contains(slot) || self.pending.contains(slot) ==> self.mask(
                    self.body_at(slot as int).group,
                ) == 0,
        ensures
            self.can_elapse(nanos),
    {
        self.lemma_wound(nanos);
        self.wound(nanos).lemma_unhindered_runs_clear(self.steps_due(nanos));
    }

    /// Where every step that is due finds every moving body free to move,
    /// all of them are taken.
    pub proof fn lemma_elapsed_takes_all_steps(self, nanos: nat)
        requires
            self.wf(),
            self.can_elapse(nanos),
        ensures
            self.elapsed(nanos) == self.wound(nanos).run_all(self.steps_due(nanos)),
    {
        self.lemma_wound(nanos);
        self.wound(nanos).lemma_run(self.steps_due(nanos));
    }
}

// What keeps bodies out of each other.
impl WorldModel {
    /// What a step leaves as it is: which bodies stand in whose way, which
    /// of them rest, which steps are short.
    proof fn lemma_stepped_is_alike(self)
        requires
            self.wf(),
        ensures
            forall|me: int, other: int|
                self.live(me) ==> self.stepped().blocks(me, other) == #[trigger] self.blocks(
                    me,
                    other,
                ),
            forall|slot: int|
                self.live(slot) ==> self.stepped().rests(slot) == #[trigger] self.rests(slot),
            forall|me: int, other: int|
                self.live(me) && self.live(other) ==> self.stepped().cannot_jump(me, other)
                    == #[trigger] self.cannot_jump(me, other),
            self.steps_are_short() ==> self.stepped().steps_are_short(),
            self.only_resting_bodies_block() ==> self.stepped().only_resting_bodies_block(),
    {
        let after = self.stepped();
        self.lemma_stepped();
        assert forall|me: int, other: int| self.live(me) implies after.blocks(me, other)
            == #[trigger] self.blocks(me, other) by {
            assert(after.body_at(me).group == self.body_at(me).group);
            if self.live(other) {
                assert(after.body_at(other).group == self.body_at(other).group);
            }
        }
        if self.steps_are_short() {
            assert forall|me: usize, other: int|
                after.moving.contains(me) && #[trigger] after.blocks(me as int, other)
                    && after.rests(other) implies after.cannot_jump(me as int, other) by {
                assert(self.blocks(me as int, other));
                assert(self.live(me as int));
                assert(self.cannot_jump(me as int, other));
            }
        }
        if self.only_resting_bodies_block() {
            assert forall|me: usize, other: int|
                after.moving.contains(me) && #[trigger] after.blocks(
                    me as int,
                    other,
                ) implies after.rests(other) by {
                assert(self.blocks(me as int, other));
            }
        }
    }

    /// A step does not move a body into a resting one: where no moving
    /// body overlaps a resting body in its way, and no step is long enough
    /// to jump one, a step that finds every moving body free to move
    /// leaves it so.
    pub proof fn lemma_step_keeps_apart(self)
        requires
            self.wf(),
            self.pending.is_empty(),
            self.step_clear(),
            self.stands_apart(),
            self.steps_are_short(),
        ensures
            self.stepped().stands_apart(),
            self.stepped().steps_are_short(),
    {
        let after = self.stepped();
        self.lemma_stepped();
        self.lemma_stepped_is_alike();
        assert forall|me: usize, other: int|
            after.moving.contains(me) && #[trigger] after.blocks(me as int, other) && after.rests(
                other,
            ) implies !after.overlapping(me as int, other) by {
            assert(self.blocks(me as int, other));
            assert(self.live(me as int) && self.live(other));
            assert(self.rests(other));
            assert(!self.moving.contains(other as usize));
            assert(self.clear(me as int));
            self.lemma_moved_in_range(me as int);
            self.lemma_moved_apart(me as int, other);
            assert(after.body_at(other) == self.body_at(other));
            assert(after.body_at(me as int).area() == self.body_at(me as int).area().at_x(
                self.moved_x(me as int),
            ).at_y(self.moved_y(me as int)));
        }
    }

    /// Steps do not move bodies into resting ones, however many are taken.
    pub proof fn lemma_run_keeps_apart(self, steps: nat)
        requires
            self.wf(),
            self.pending.is_empty(),
            self.stands_apart(),
            self.steps_are_short(),
        ensures
            self.run(steps).stands_apart(),
            self.run(steps).steps_are_short(),
        decreases steps,
    {
        if steps > 0 && self.step_clear() {
            self.lemma_stepped();
            self.lemma_step_keeps_apart();
            self.stepped().lemma_run_keeps_apart((steps - 1) as nat);
        }
    }

    /// Time does not move bodies into resting ones: in a world in which no
    /// body waits for the refresh, no moving body overlaps a resting body
    /// in its way, and no step is long enough to jump one, the same holds
    /// after any time has passed.
    pub proof fn lemma_elapsed_keeps_apart(self, nanos: nat)
        requires
            self.wf(),
            self.pending.is_empty(),
            self.stands_apart(),
            self.steps_are_short(),
        ensures
            self.elapsed(nanos).stands_apart(),
            self.elapsed(nanos).steps_are_short(),
    {
        let wound = self.wound(nanos);
        self.lemma_wound(nanos);
        assert(wound.moving =~= self.moving);
        assert(wound.pool == self.pool);
        assert(wound.stands_apart()) by {
            assert forall|me: usize, other: int|
                wound.moving.contains(me) && #[trigger] wound.blocks(me as int, other)
                    && wound.rests(other) implies !wound.overlapping(me as int, other) by {
                assert(self.blocks(me as int, other));
            }
        }
        assert(wound.steps_are_short()) by {
            assert forall|me: usize, other: int|
                wound.moving.contains(me) && #[trigger] wound.blocks(me as int, other)
                    && wound.rests(other) implies wound.cannot_jump(me as int, other) by {
                assert(self.blocks(me as int, other));
            }
        }
        wound.lemma_run_keeps_apart(self.steps_due(nanos));
    }

    /// Where only resting bodies stand in the way of the moving ones, no
    /// moving body overlaps one of them, and no step is long enough to
    /// jump one, a step finds every moving body free to move.
    pub proof fn lemma_apart_is_clear(self)
        requires
            self.wf(),
            self.pending.is_empty(),
            self.stands_apart(),
            self.steps_are_short(),
            self.only_resting_bodies_block(),
        ensures
            self.step_clear(),
    {
        assert forall|slot: usize| #[trigger] self.moving.contains(slot) implies self.clear(
            slot as int,
        ) by {
            let me = slot as int;
            let n = self.pool.slots.len() as int;
            assert forall|other: int| 0 <= other < n && #[trigger] self.runs_into_x(
                me,
                other,
                self.aim(me).0,
            ) implies !self.overlapping(me, other) by {
                assert(self.blocks(me, other));
            }
            assert(self.clear_x(me, n, self.aim(me).0));
            assert forall|other: int| 0 <= other < n && #[trigger] self.runs_into_y(
                me,
                other,
                self.moved_x(me),
                self.aim(me).1,
            ) implies !self.overlapping_at(me, other, self.moved_x(me)) by {
                assert(self.blocks(me, other));
                self.lemma_moved_x_apart(me, other);
            }
        }
    }

    /// Where only resting bodies stand in the way of the moving ones, no
    /// moving body overlaps one of them, and no step is long enough to
    /// jump one, every step finds every moving body free to move, however
    /// many are taken.
    pub proof fn lemma_apart_runs_clear(self, steps: nat)
        requires
            self.wf(),
            self.pending.is_empty(),
            self.stands_apart(),
            self.steps_are_short(),
            self.only_resting_bodies_block(),
        ensures
            self.runs_clear(steps),
        decreases steps,
    {
        if steps > 0 {
            self.lemma_apart_is_clear();
            self.lemma_stepped();
            self.lemma_stepped_is_alike();
            self.lemma_step_keeps_apart();
            self.stepped().lemma_apart_runs_clear((steps - 1) as nat);
        }
    }

    /// In a world in which no body waits for the refresh, only resting
    /// bodies stand in the way of the moving ones, no moving body overlaps
    /// one of them, and no step is long enough to jump one, any time can be
    /// let pass.
    pub proof fn lemma_apart_can_elapse(self, nanos: nat)
        requires
            self.wf(),
            self.pending.is_empty(),
            self.stands_apart(),
            self.steps_are_short(),
            self.only_resting_bodies_block(),
        ensures
            self.can_elapse(nanos),
    {
        let wound = self.wound(nanos);
        self.lemma_wound(nanos);
        assert(wound.moving =~= self.moving);
        assert(wound.pool == self.pool);
        assert(wound.stands_apart()) by {
            assert forall|me: usize, other: int|
                wound.moving.contains(me) && #[trigger] wound.blocks(me as int, other)
                    && wound.rests(other) implies !wound.overlapping(me as int, other) by {
                assert(self.blocks(me as int, other));
            }
        }
        assert(wound.steps_are_short()) by {
            assert forall|me: usize, other: int|
                wound.moving.contains(me) && #[trigger] wound.blocks(me as int, other)
                    && wound.rests(other) implies wound.cannot_jump(me as int, other) by {
                assert(self.blocks(me as int, other));
            }
        }
        assert(wound.only_resting_bodies_block()) by {
            assert forall|me: usize, other: int|
                wound.moving.contains(me) && #[trigger] wound.blocks(
                    me as int,
                    other,
                ) implies wound.rests(other) by {
                assert(self.blocks(me as int, other));
            }
        }
        wound.lemma_apart_runs_clear(self.steps_due(nanos));
    }
}

} // verus!
