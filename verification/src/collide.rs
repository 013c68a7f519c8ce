//! A world of rectangular bodies. Bodies are created in it, looked up,
//! changed and removed through handles; `elapse_time` moves those that have
//! a velocity, step by step, and stops each against the bodies of the
//! groups that its own group collides with.

use crate::geom::P2;
use crate::geom::V2;
use crate::grid::ascending;
use crate::grid::Grid;
use crate::grid::GridRegion;
use crate::masks::build_masks;
use crate::masks::mask_in;
use crate::masks::mask_of;
use crate::masks::mask_table;
use crate::motion::between;
use crate::motion::clamp_coord;
use crate::motion::step_shift;
use crate::motion::WorldModel;
use crate::motion::MICROS_PER_SECOND;
use crate::motion::TIME_STEP_MICROS;
use crate::motion::TIME_STEP_NANOS;
use crate::partition::region_for;
use crate::partition::region_of;
use crate::pool::Handle;
use crate::pool::Pool;
use crate::pool::DEFAULT_CAPACITY;
use crate::pool_model::Held;
use crate::pool_model::PoolModel;
use crate::shape::Area;
use crate::shape::Rect;
use crate::shape::RectSide;
use std::collections::HashMap;
use std::collections::HashSet;
use std::time::Duration;
use vstd::prelude::*;
use vstd::std_specs::iter::IteratorSpec;

verus! {

broadcast use vstd::std_specs::hash::group_hash_axioms;

/// The groups, each a single bit.
pub const GROUP_0: u32 = 0x0000_0001;

pub const GROUP_1: u32 = 0x0000_0002;

pub const GROUP_2: u32 = 0x0000_0004;

pub const GROUP_3: u32 = 0x0000_0008;

pub const GROUP_4: u32 = 0x0000_0010;

pub const GROUP_5: u32 = 0x0000_0020;

pub const GROUP_6: u32 = 0x0000_0040;

pub const GROUP_7: u32 = 0x0000_0080;

pub const GROUP_8: u32 = 0x0000_0100;

pub const GROUP_9: u32 = 0x0000_0200;

pub const GROUP_10: u32 = 0x0000_0400;

pub const GROUP_11: u32 = 0x0000_0800;

pub const GROUP_12: u32 = 0x0000_1000;

pub const GROUP_13: u32 = 0x0000_2000;

pub const GROUP_14: u32 = 0x0000_4000;

pub const GROUP_15: u32 = 0x0000_8000;

pub const GROUP_16: u32 = 0x0001_0000;

pub const GROUP_17: u32 = 0x0002_0000;

pub const GROUP_18: u32 = 0x0004_0000;

pub const GROUP_19: u32 = 0x0008_0000;

pub const GROUP_20: u32 = 0x0010_0000;

pub const GROUP_21: u32 = 0x0020_0000;

pub const GROUP_22: u32 = 0x0040_0000;

pub const GROUP_23: u32 = 0x0080_0000;

pub const GROUP_24: u32 = 0x0100_0000;

pub const GROUP_25: u32 = 0x0200_0000;

pub const GROUP_26: u32 = 0x0400_0000;

pub const GROUP_27: u32 = 0x0800_0000;

pub const GROUP_28: u32 = 0x1000_0000;

pub const GROUP_29: u32 = 0x2000_0000;

pub const GROUP_30: u32 = 0x4000_0000;

pub const GROUP_31: u32 = 0x8000_0000;

/// The group whose one bit is bit `i`.
pub fn group(i: u32) -> (g: u32)
    requires
        i < 32,
    ensures
        g == 1u32 << i,
{
    1u32 << i
}

/// An object in space that other objects run into. A body is the source of
/// truth for where a game object is, as the world moves it only as far as
/// the other bodies let it.
#[derive(Debug)]
pub struct Body {
    pub group: u32,
    pub pos: P2,
    pub size: V2,
    pub vel: V2,
}

impl Body {
    /// The part of the plane that the body covers.
    pub open spec fn area(self) -> Area {
        Area {
            x: self.pos.x as int,
            y: self.pos.y as int,
            w: self.size.x as int,
            h: self.size.y as int,
        }
    }

    /// The rectangle that the body covers.
    pub fn rect(&self) -> (r: Rect)
        ensures
            r@ == self.area(),
            r == (Rect { pos: self.pos, size: self.size }),
    {
        Rect::from(self)
    }
}

impl<'b> From<&'b Body> for Rect {
    /// The rectangle that the body covers.
    fn from(b: &'b Body) -> (r: Rect) {
        Rect::new(b.pos, b.size)
    }
}

impl<'b> vstd::std_specs::convert::FromSpecImpl<&'b Body> for Rect {
    open spec fn obeys_from_spec() -> bool {
        true
    }

    open spec fn from_spec(b: &'b Body) -> Rect {
        Rect { pos: b.pos, size: b.size }
    }
}

/// A handle to a [`Body`], made by the [`CollisionWorld`] that the body was
/// created in, by which the body is looked up and removed.
#[derive(Debug, Copy, Clone, Eq, PartialEq, Hash)]
pub struct BodyHandle {
    inner_handle: Handle,
}

impl BodyHandle {
    /// The pool's handle that this one stands for.
    pub closed spec fn inner(self) -> Handle {
        self.inner_handle
    }

    /// The index of the slot that the handle points at.
    pub open spec fn slot(self) -> usize {
        self.inner().slot()
    }

    /// The id of the body that the handle was made for.
    pub open spec fn id(self) -> u32 {
        self.inner().id()
    }
}

/// What a [`CollisionWorld`] is made with.
pub struct CollisionWorldParams {
    /// The pairs of groups that collide with each other. It works both
    /// ways: if `A` collides with `B`, then `B` collides with `A`.
    pub group_pairs: Vec<(u32, u32)>,
    /// The width and the height of the cells by which the world sorts its
    /// bodies, both above zero. A moving body is held against the bodies in
    /// the cells near it only, so smaller cells leave fewer bodies to look
    /// at and take more memory. Where the bodies end up does not depend on
    /// it. A size that cuts the screen into a dozen parts or so is a
    /// reasonable start.
    pub partition_size: (i64, i64),
}

/// An owner of bodies. After creating one and adding bodies to it,
/// `elapse_time` moves the world on frame by frame.
pub struct CollisionWorld {
    time_counter: u128,
    bodies: Pool<Body>,
    group_masks: HashMap<u32, u32>,
    partition_size: (i64, i64),
    grid: Grid,
    refresh_handles: HashSet<usize>,
    moving_handles: HashSet<usize>,
}

impl View for CollisionWorld {
    type V = WorldModel;

    closed spec fn view(&self) -> WorldModel {
        WorldModel {
            pool: self.bodies@,
            masks: self.group_masks@,
            moving: self.moving_handles@,
            pending: self.refresh_handles@,
            clock: self.time_counter as nat,
        }
    }
}

/// The number of nanoseconds that a duration holds: what
/// `Duration::as_nanos` gives for it.
pub uninterp spec fn duration_nanos(duration: Duration) -> u128;

/// The number of nanoseconds that `duration` holds, by
/// `Duration::as_nanos`. It is a matter of the duration alone; nothing else
/// is claimed of it.
#[verifier::external_body]
fn nanos_of(duration: Duration) -> (nanos: u128)
    ensures
        nanos == duration_nanos(duration),
{
    duration.as_nanos()
}

/// The members of `set`, each once, in no order that could be told
/// beforehand.
fn members(set: &HashSet<usize>) -> (list: Vec<usize>)
    ensures
        list@.to_set() == set@,
        list@.no_duplicates(),
{
    let mut list: Vec<usize> = Vec::new();
    let ghost all: Seq<usize> = set.iter().remaining().unref();
    for member in it: set.iter()
        invariant
            it.seq().unref() == all,
            list@ == all.take(it.index()),
    {
        list.push(*member);
    }
    proof {
        assert(list@ =~= all);
    }
    list
}

/// The world with the bodies in the slots of `done`, as far as a step moves
/// them, standing where the step takes them.
spec fn stepped_in(world: WorldModel, done: Set<usize>) -> WorldModel {
    WorldModel {
        pool: PoolModel {
            slots: Seq::new(
                world.pool.slots.len(),
                |slot: int|
                    if done.contains(slot as usize) && world.moving.contains(slot as usize)
                        && world.live(slot) {
                        Some(
                            Held {
                                id: world.pool.slots[slot].unwrap().id,
                                value: Body { pos: world.moved(slot), ..world.body_at(slot) },
                            },
                        )
                    } else {
                        world.pool.slots[slot]
                    },
            ),
            ..world.pool
        },
        ..world
    }
}

/// Exactly the bodies of `world` are registered in `grid`, and each that is
/// not waiting is registered over the cells that it belongs to, where cells
/// are of the size `cells`.
spec fn sorted_by(grid: Map<usize, GridRegion>, world: WorldModel, cells: (i64, i64)) -> bool {
    &&& forall|slot: usize| #[trigger] grid.contains_key(slot) <==> world.live(slot as int)
    &&& forall|slot: usize|
        world.live(slot as int) && !world.pending.contains(slot) ==> #[trigger] grid[slot]
            == region_for(world.body_at(slot as int).area(), cells)
}

/// A change to one slot of a world and to its registration, which is in
/// order itself, leaves the bodies sorted.
proof fn lemma_sorted_but(
    grid: Map<usize, GridRegion>,
    world: WorldModel,
    after_grid: Map<usize, GridRegion>,
    after: WorldModel,
    cells: (i64, i64),
    changed: usize,
)
    requires
        sorted_by(grid, world, cells),
        forall|slot: usize|
            slot != changed ==> #[trigger] after_grid.contains_key(slot) == grid.contains_key(slot),
        forall|slot: usize|
            slot != changed && grid.contains_key(slot) ==> #[trigger] after_grid[slot]
                == grid[slot],
        forall|slot: usize|
            slot != changed ==> #[trigger] after.live(slot as int) == world.live(slot as int),
        forall|slot: usize|
            slot != changed && world.live(slot as int) ==> #[trigger] after.body_at(slot as int)
                == world.body_at(slot as int),
        forall|slot: usize|
            slot != changed && #[trigger] world.pending.contains(slot) ==> after.pending.contains(
                slot,
            ),
        after_grid.contains_key(changed) <==> after.live(changed as int),
        after.live(changed as int) && !after.pending.contains(changed) ==> after_grid[changed]
            == region_for(after.body_at(changed as int).area(), cells),
    ensures
        sorted_by(after_grid, after, cells),
{
    assert forall|slot: usize| #[trigger]
        after_grid.contains_key(slot) <==> after.live(slot as int) by {
        if slot != changed {
            assert(grid.contains_key(slot) <==> world.live(slot as int));
        }
    }
    assert forall|slot: usize|
        after.live(slot as int) && !after.pending.contains(slot) implies #[trigger] after_grid[slot]
        == region_for(after.body_at(slot as int).area(), cells) by {
        if slot != changed {
            assert(world.live(slot as int));
            assert(!world.pending.contains(slot));
            assert(grid[slot] == region_for(world.body_at(slot as int).area(), cells));
        }
    }
}

/// What the first `k + 1` of a list hold is what the first `k` hold and the
/// one at `k`.
proof fn lemma_take_one_more(list: Seq<usize>, k: int)
    requires
        0 <= k < list.len(),
    ensures
        forall|member: usize| #[trigger]
            list.take(k + 1).contains(member) <==> list.take(k).contains(member) || member
                == list[k],
        list.take(k + 1).to_set() == list.take(k).to_set().insert(list[k]),
{
    let earlier = list.take(k);
    let later = list.take(k + 1);
    assert(later =~= earlier.push(list[k]));
    assert forall|member: usize| #[trigger]
        later.contains(member) <==> earlier.contains(member) || member == list[k] by {
        if earlier.contains(member) {
            let i = choose|i: int| 0 <= i < earlier.len() && earlier[i] == member;
            assert(later[i] == member);
        }
        if member == list[k] {
            assert(later[k] == member);
        }
        if later.contains(member) {
            let i = choose|i: int| 0 <= i < later.len() && later[i] == member;
            if i < k {
                assert(earlier[i] == member);
            }
        }
    }
    assert(later.to_set() =~= earlier.to_set().insert(list[k]));
}

/// How far a body with velocity `velocity` on an axis tries to go on that
/// axis in one step.
fn shift_of(velocity: i64) -> (shift: i64)
    ensures
        shift == step_shift(velocity as int),
{
    assert(-0x8000_0000_0000_0000 * 16_666 <= velocity * TIME_STEP_MICROS
        <= 0x8000_0000_0000_0000 * 16_666) by (nonlinear_arith)
        requires
            -0x8000_0000_0000_0000 <= velocity <= 0x8000_0000_0000_0000,
            TIME_STEP_MICROS == 16_666,
    ;
    let wide: i128 = velocity as i128 * (TIME_STEP_MICROS as i128);
    proof {
        let d = MICROS_PER_SECOND as int;
        let v = velocity as int;
        if v >= 0 {
            vstd::arithmetic::div_mod::lemma_div_is_ordered(v * 16_666, v * d, d);
            vstd::arithmetic::div_mod::lemma_div_multiples_vanish(v, d);
            vstd::arithmetic::div_mod::lemma_div_pos_is_pos(v * 16_666, d);
        } else {
            vstd::arithmetic::div_mod::lemma_div_is_ordered((-v) * 16_666, (-v) * d, d);
            vstd::arithmetic::div_mod::lemma_div_multiples_vanish(-v, d);
            vstd::arithmetic::div_mod::lemma_div_pos_is_pos((-v) * 16_666, d);
        }
    }
    (wide / (MICROS_PER_SECOND as i128)) as i64
}

/// The coordinate nearest to the sum of `a` and `shift`.
fn clamped_sum(a: i64, shift: i64) -> (sum: i64)
    ensures
        sum == clamp_coord(a + shift),
{
    let wide: i128 = a as i128 + shift as i128;
    if wide < i64::MIN as i128 {
        i64::MIN
    } else if wide > i64::MAX as i128 {
        i64::MAX
    } else {
        wide as i64
    }
}

impl CollisionWorld {
    /// The width and the height of the cells by which the world sorts its
    /// bodies.
    pub closed spec fn partition_size(&self) -> (i64, i64) {
        self.partition_size
    }

    /// The world is in order: what it shows of itself is the model of a
    /// world, and every body that is not waiting for a refresh is
    /// registered in the grid over the cells that it belongs to.
    pub closed spec fn wf(&self) -> bool {
        &&& self.bodies.wf()
        &&& self.grid.wf()
        &&& self@.wf()
        &&& self.partition_size.0 > 0
        &&& self.partition_size.1 > 0
        &&& self.time_counter < TIME_STEP_NANOS
        &&& self.moving_handles@.finite()
        &&& self.refresh_handles@.finite()
        &&& sorted_by(self.grid@, self@, self.partition_size)
    }

    /// The size of the cells makes no difference to what happens: two
    /// worlds that hold the same, sorted by cells of whatever sizes, hold
    /// the same after the same time has passed, and where the one finds
    /// every moving body free to move at every step, so does the other.
    pub proof fn lemma_partition_makes_no_difference(
        one: &CollisionWorld,
        other: &CollisionWorld,
        nanos: nat,
    )
        requires
            one.wf(),
            other.wf(),
            one@ == other@,
        ensures
            one@.elapsed(nanos) == other@.elapsed(nanos),
            one@.can_elapse(nanos) == other@.can_elapse(nanos),
    {
    }

    /// A world that is in order shows the model of a world, and has cells
    /// of a size above zero.
    pub proof fn lemma_model_wf(&self)
        requires
            self.wf(),
        ensures
            self@.wf(),
            self.partition_size().0 > 0,
            self.partition_size().1 > 0,
    {
    }

    /// A world without bodies, in which the groups of each pair of
    /// `params.group_pairs` collide and which sorts its bodies by cells of
    /// the size `params.partition_size`, which must be above zero both ways.
    pub fn new(params: CollisionWorldParams) -> (world: CollisionWorld)
        requires
            params.partition_size.0 > 0,
            params.partition_size.1 > 0,
        ensures
            world.wf(),
            world@ == WorldModel::empty(DEFAULT_CAPACITY, mask_table(params.group_pairs@)),
            world.partition_size() == params.partition_size,
            forall|group: u32| world@.mask(group) == mask_of(params.group_pairs@, group),
    {
        let group_masks = build_masks(&params.group_pairs);
        let world = CollisionWorld {
            time_counter: 0,
            group_masks,
            bodies: Pool::new(),
            partition_size: params.partition_size,
            grid: Grid::new(),
            refresh_handles: HashSet::new(),
            moving_handles: HashSet::new(),
        };
        proof {
            world.bodies.lemma_model_wf();
            assert forall|group: u32| world@.mask(group) == mask_of(params.group_pairs@, group) by {
                if !crate::masks::registered(params.group_pairs@, group) {
                    crate::masks::lemma_unregistered_group(params.group_pairs@, group);
                }
            }
        }
        world
    }

    /// Whether one more body fits the machine: whether an id is left for
    /// it and the world can still grow.
    pub fn can_add_body(&self) -> (r: bool)
        requires
            self.wf(),
        ensures
            r == self@.pool.can_push(),
    {
        self.bodies.can_push()
    }

    /// Creates a body that stands still.
    pub fn new_body(&mut self, group: u32, pos: P2, size: V2) -> (handle: BodyHandle)
        requires
            old(self).wf(),
            old(self)@.pool.can_push(),
        ensures
            final(self).wf(),
            final(self).partition_size() == old(self).partition_size(),
            final(self)@ == old(self)@.spawn(Body { group, pos, size, vel: V2 { x: 0, y: 0 } }),
            final(self)@.moving == old(self)@.moving,
            handle.slot() == old(self)@.pool.next_slot(),
            handle.id() == old(self)@.pool.next_id,
            final(self)@.has(handle),
    {
        self.new_moving_body(group, pos, size, V2::zero())
    }

    /// Creates a body with a velocity, in sub-units per second. If the
    /// velocity is not zero, the body moves with every step from now on.
    pub fn new_moving_body(&mut self, group: u32, pos: P2, size: V2, vel: V2) -> (handle:
        BodyHandle)
        requires
            old(self).wf(),
            old(self)@.pool.can_push(),
        ensures
            final(self).wf(),
            final(self).partition_size() == old(self).partition_size(),
            final(self)@ == old(self)@.spawn(Body { group, pos, size, vel }),
            handle.slot() == old(self)@.pool.next_slot(),
            handle.id() == old(self)@.pool.next_id,
            final(self)@.has(handle),
    {
        let ghost body = Body { group, pos, size, vel };
        proof {
            self@.lemma_spawn(body);
        }
        let inner_handle = self.bodies.push(Body { group, pos, size, vel });
        let handle = BodyHandle { inner_handle };
        let rect = Rect::new(pos, size);
        self.grid.insert(inner_handle.index(), region_of(&rect, self.partition_size));
        if !vel.is_zero() {
            self.moving_handles.insert(inner_handle.index());
        }
        proof {
            assert(self@.moving =~= old(self)@.spawn(body).moving);
            assert(self@ == old(self)@.spawn(body));
            lemma_sorted_but(
                old(self).grid@,
                old(self)@,
                self.grid@,
                self@,
                self.partition_size,
                handle.slot(),
            );
        }
        handle
    }

    /// Takes the body behind `handle` out of the world. A handle whose body
    /// is gone already takes nothing out.
    pub fn remove_body(&mut self, handle: BodyHandle)
        requires
            old(self).wf(),
        ensures
            final(self).wf(),
            final(self).partition_size() == old(self).partition_size(),
            final(self)@ == old(self)@.despawn(handle),
    {
        proof {
            self@.lemma_despawn(handle);
        }
        let removed = self.bodies.remove(handle.inner_handle);
        if removed.is_some() {
            let slot: usize = handle.inner_handle.index();
            self.grid.remove(slot);
            self.moving_handles.remove(&slot);
            self.refresh_handles.remove(&slot);
            proof {
                assert(self@.moving =~= old(self)@.despawn(handle).moving);
                assert(self@.pending =~= old(self)@.despawn(handle).pending);
                lemma_sorted_but(
                    old(self).grid@,
                    old(self)@,
                    self.grid@,
                    self@,
                    self.partition_size,
                    slot,
                );
            }
        }
    }

    /// The body behind `handle`, if it is still in the world.
    pub fn body(&self, handle: BodyHandle) -> (body: Option<&Body>)
        requires
            self.wf(),
        ensures
            body == (if self@.has(handle) {
                Some(&self@.body(handle))
            } else {
                None::<&Body>
            }),
    {
        self.bodies.get(handle.inner_handle)
    }

    /// The body behind `handle`, if it is still in the world, to be changed
    /// in place. The world takes note of the change when time is let pass
    /// the next time, before it takes a step.
    pub fn body_mut(&mut self, handle: BodyHandle) -> (body: Option<&mut Body>)
        requires
            old(self).wf(),
        ensures
            final(self).wf(),
            final(self).partition_size() == old(self).partition_size(),
            match body {
                Some(body) => old(self)@.has(handle) && *body == old(self)@.body(handle)
                    && final(self)@ == old(self)@.rewrite(handle, *final(body)),
                None => !old(self)@.has(handle) && final(self)@ == old(self)@,
            },
    {
        if self.bodies.get(handle.inner_handle).is_none() {
            return None;
        }
        let slot: usize = handle.inner_handle.index();
        self.refresh_handles.insert(slot);
        self.moving_handles.remove(&slot);
        let ghost start = *old(self);
        let ghost after = *final(self);
        let body = self.bodies.get_mut(handle.inner_handle);
        proof {
            let written: Body = *final(body->0);
            start@.lemma_rewrite(handle, written);
            assert(after@.moving =~= start@.rewrite(handle, written).moving);
            assert(after@.pending =~= start@.rewrite(handle, written).pending);
            assert(after@ == start@.rewrite(handle, written));
            lemma_sorted_but(start.grid@, start@, after.grid@, after@, start.partition_size, slot);
        }
        body
    }

    /// The bodies of the world, in the order of their slots.
    pub fn bodies(&self) -> (bodies: Vec<&Body>)
        requires
            self.wf(),
        ensures
            bodies@.len() == self@.pool.values().len(),
            forall|k: int|
                0 <= k < bodies@.len() ==> *(#[trigger] bodies@[k]) == self@.pool.values()[k],
    {
        self.bodies.iter()
    }

    /// The bodies of the world, in the order of their slots, each to be
    /// changed in place. The world takes note of the changes when time is
    /// let pass the next time, as it does after `body_mut`.
    pub fn bodies_mut(&mut self) -> (bodies: Vec<&mut Body>)
        requires
            old(self).wf(),
        ensures
            final(self).wf(),
            final(self).partition_size() == old(self).partition_size(),
            bodies@.len() == old(self)@.pool.values().len(),
            forall|k: int|
                0 <= k < bodies@.len() ==> *(#[trigger] bodies@[k]) == old(self)@.pool.values()[k],
            final(self)@ == old(self)@.rewrite_all(
                Seq::new(bodies@.len(), |k: int| *final(bodies@[k])),
            ),
    {
        let handles = self.bodies.handles();
        let mut i: usize = 0;
        proof {
            self@.pool.lemma_used_below(self@.pool.slots.len() as int);
        }
        while i < handles.len()
            invariant
                i <= handles@.len(),
                self.refresh_handles@.finite(),
                self.bodies == old(self).bodies,
                self.grid == old(self).grid,
                self.partition_size == old(self).partition_size,
                self.time_counter == old(self).time_counter,
                self.group_masks == old(self).group_masks,
                self.moving_handles == old(self).moving_handles,
                handles@.len() == self@.pool.used().len(),
                forall|k: int|
                    0 <= k < handles@.len() ==> (#[trigger] handles@[k]).slot()
                        == self@.pool.used()[k],
                forall|slot: usize|
                    self.refresh_handles@.contains(slot) <==> old(self).refresh_handles@.contains(
                        slot,
                    ) || exists|k: int| 0 <= k < i && (#[trigger] handles@[k]).slot() == slot,
            decreases handles@.len() - i,
        {
            let slot: usize = handles[i].index();
            self.refresh_handles.insert(slot);
            i += 1;
        }
        self.moving_handles.clear();
        let ghost start = *old(self);
        let ghost after = *final(self);
        let bodies = self.bodies.iter_mut();
        proof {
            let written = Seq::new(bodies@.len(), |k: int| *final(bodies@[k]));
            start@.lemma_rewrite_all(written);
            start@.pool.lemma_used_below(start@.pool.slots.len() as int);
            assert forall|slot: usize| after@.pending.contains(slot) <==> start@.live(
                slot as int,
            ) by {
                if start@.live(slot as int) {
                    let k = start@.pool.used_below(slot as int).len() as int;
                    assert(start@.pool.used()[k] == slot);
                    assert(handles@[k].slot() == slot);
                }
                if after@.pending.contains(slot) {
                    if start@.pending.contains(slot) {
                        assert(start@.live(slot as int));
                    } else {
                        let k = choose|k: int|
                            0 <= k < handles@.len() && (#[trigger] handles@[k]).slot() == slot;
                        assert(start@.pool.used()[k] == slot);
                        assert(start@.pool.slots[start@.pool.used()[k]] is Some);
                    }
                }
            }
            assert(after@.pending =~= start@.rewrite_all(written).pending);
            assert(after@.moving =~= start@.rewrite_all(written).moving);
            assert(after@ == start@.rewrite_all(written));
            assert forall|other: usize| #[trigger]
                after.grid@.contains_key(other) <==> after@.live(other as int) by {
                assert(start.grid@.contains_key(other) <==> start@.live(other as int));
            }
            assert(sorted_by(after.grid@, after@, after.partition_size));
        }
        bodies
    }

    /// The bodies that stand still, are not the body behind `handle`, and
    /// touch it, edge to edge at the least, in the order of their slots.
    /// Every body of the world is looked at.
    pub fn get_touching(&self, handle: BodyHandle) -> (touching: Vec<&Body>)
        requires
            self.wf(),
        ensures
            touching@.len() == self@.touching(handle).len(),
            forall|k: int|
                0 <= k < touching@.len() ==> *(#[trigger] touching@[k]) == self@.touching(
                    handle,
                )[k],
    {
        let mut touching: Vec<&Body> = Vec::with_capacity(0);
        if let Some(body) = self.body(handle) {
            let me: usize = handle.inner_handle.index();
            let rect_body = body.rect();
            let capacity: usize = self.bodies.capacity();
            let mut slot: usize = 0;
            while slot < capacity
                invariant
                    self.wf(),
                    self@.has(handle),
                    me == handle.slot(),
                    rect_body@ == self@.body_at(me as int).area(),
                    capacity == self@.pool.slots.len(),
                    slot <= capacity,
                    touching@.len() == self@.touching_below(me as int, slot as int).len(),
                    forall|k: int|
                        0 <= k < touching@.len() ==> *(#[trigger] touching@[k])
                            == self@.touching_below(me as int, slot as int)[k],
                decreases capacity - slot,
            {
                if slot != me {
                    if let Some(other_handle) = self.bodies.handle_at(slot) {
                        if let Some(other_body) = self.bodies.get(other_handle) {
                            if other_body.vel.is_zero() {
                                let rect_other = other_body.rect();
                                if rect_body.touches(&rect_other) {
                                    touching.push(other_body);
                                }
                            }
                        }
                    }
                }
                slot += 1;
            }
        }
        touching
    }

    /// Every body that would stand in the way of the body in slot `me` but
    /// is in none of the slots of `nearby` is out of its way to `to`.
    spec fn far(&self, me: int, nearby: Seq<usize>, to: Area) -> bool {
        forall|other: int| #[trigger]
            self@.blocks(me, other) && !nearby.contains(other as usize) ==> self@.out_of_way(
                me,
                other,
                to,
            )
    }

    /// The bodies that a query of the cells between a body's place and `to`
    /// does not find are out of the body's way to `to`.
    proof fn lemma_query_finds_blockers(
        &self,
        me: int,
        to: Area,
        region: GridRegion,
        nearby: Seq<usize>,
    )
        requires
            self.wf(),
            self@.pending.is_empty(),
            self@.live(me),
            to.w == self@.body_at(me).area().w,
            to.h == self@.body_at(me).area().h,
            region == GridRegion::enclosing(
                region_for(self@.body_at(me).area(), self.partition_size),
                region_for(to, self.partition_size),
            ),
            nearby.to_set() == Grid::near(self.grid@, region),
        ensures
            self.far(me, nearby, to),
    {
        let world = self@;
        let from = world.body_at(me).area();
        assert forall|other: int| #[trigger]
            world.blocks(me, other) && !nearby.contains(other as usize) implies world.out_of_way(
            me,
            other,
            to,
        ) by {
            let blocker = world.body_at(other).area();
            assert forall|at: Area| #[trigger]
                world.on_the_way(me, to, at) implies !blocker.overlaps(at) by {
                if blocker.overlaps(at) {
                    crate::partition::lemma_overlap_shares_cell(
                        blocker,
                        from,
                        to,
                        at,
                        self.partition_size,
                    );
                    assert(self.grid@.contains_key(other as usize));
                    assert(self.grid@[other as usize] == region_for(blocker, self.partition_size));
                    assert(Grid::near(self.grid@, region).contains(other as usize));
                    assert(nearby.to_set().contains(other as usize));
                }
            }
        }
    }

    /// The bodies in the slots from `n` up to `m`, none of which is among
    /// `nearby`, are out of the way.
    proof fn lemma_far_between(&self, me: int, nearby: Seq<usize>, to: Area, n: int, m: int)
        requires
            self.wf(),
            0 <= n,
            self.far(me, nearby, to),
            forall|i: int| 0 <= i < nearby.len() ==> nearby[i] < n || nearby[i] >= m,
        ensures
            forall|other: int|
                n <= other < m && #[trigger] self@.blocks(me, other) ==> self@.out_of_way(
                    me,
                    other,
                    to,
                ),
    {
        assert forall|other: int| n <= other < m && #[trigger] self@.blocks(
            me,
            other,
        ) implies self@.out_of_way(me, other, to) by {
            if nearby.contains(other as usize) {
                let i = choose|i: int| 0 <= i < nearby.len() && nearby[i] == other as usize;
                assert(nearby[i] < n || nearby[i] >= m);
            }
        }
    }

    /// The rectangle of the body in the slot at `other`, if that body
    /// stands in the way of the body in slot `me`, whose group collides
    /// with the groups of `mask`.
    fn blocker(&self, me: usize, other: usize, mask: u32) -> (rect: Option<Rect>)
        requires
            self.wf(),
            mask == self@.mask(self@.body_at(me as int).group),
        ensures
            match rect {
                Some(rect) => self@.blocks(me as int, other as int) && rect@ == self@.body_at(
                    other as int,
                ).area(),
                None => !self@.blocks(me as int, other as int),
            },
    {
        if other == me {
            return None;
        }
        let handle = match self.bodies.handle_at(other) {
            Some(handle) => handle,
            None => {
                return None;
            },
        };
        match self.bodies.get(handle) {
            Some(body) => {
                if body.group & mask == 0 {
                    None
                } else {
                    Some(body.rect())
                }
            },
            None => None,
        }
    }

    /// Moves the body in slot `me` along the horizontal axis to `to.x` and
    /// lets the bodies in its way push it back, one after the other. Gives
    /// nothing if it runs into a body that it overlapped before it set out.
    fn sweep_x(
        &self,
        me: usize,
        nearby: &Vec<usize>,
        mask: u32,
        rect_t0: &Rect,
        aim: i64,
        Ghost(to): Ghost<Area>,
    ) -> (swept: Option<i64>)
        requires
            self.wf(),
            self@.live(me as int),
            rect_t0@ == self@.body_at(me as int).area(),
            mask == self@.mask(self@.body_at(me as int).group),
            ascending(nearby@),
            to.x == aim,
            self.far(me as int, nearby@, to),
        ensures
            match swept {
                Some(x) => self@.clear_x(me as int, self@.pool.slots.len() as int, aim as int) && x
                    == self@.swept_x(me as int, self@.pool.slots.len() as int, aim as int),
                None => !self@.clear_x(me as int, self@.pool.slots.len() as int, aim as int),
            },
    {
        let ghost world = self@;
        let ghost len = world.pool.slots.len() as int;
        let mut x: i64 = aim;
        let mut k: usize = 0;
        // The slots below `n` have had their turn.
        let ghost mut n: int = 0;
        while k < nearby.len()
            invariant
                self.wf(),
                world == self@,
                len == world.pool.slots.len(),
                world.live(me as int),
                rect_t0@ == world.body_at(me as int).area(),
                mask == world.mask(world.body_at(me as int).group),
                ascending(nearby@),
                to.x == aim,
                self.far(me as int, nearby@, to),
                k <= nearby@.len(),
                0 <= n,
                forall|i: int| k <= i < nearby@.len() ==> nearby@[i] >= n,
                forall|i: int| 0 <= i < k ==> nearby@[i] < n,
                world.clear_x(me as int, n, aim as int),
                x == world.swept_x(me as int, n, aim as int),
            decreases nearby@.len() - k,
        {
            let other: usize = nearby[k];
            proof {
                self.lemma_far_between(me as int, nearby@, to, n, other as int);
                world.lemma_skip_x(me as int, to, n, other as int);
                world.lemma_swept_x_between(me as int, other as int, aim as int);
            }
            if let Some(rect_curr) = self.blocker(me, other, mask) {
                let rect_t1 = Rect { pos: P2 { x, y: rect_t0.pos.y }, size: rect_t0.size };
                assert(rect_t1@ == rect_t0@.at_x(x as int));
                if rect_curr.overlaps(&rect_t1) {
                    assert(world.runs_into_x(me as int, other as int, aim as int));
                    if rect_curr.overlaps(rect_t0) {
                        return None;
                    }
                    proof {
                        crate::sweep::lemma_pushed_x_between(rect_curr@, rect_t0@, x as int);
                    }
                    match rect_curr.collided_side(rect_t0, &rect_t1) {
                        RectSide::Left => {
                            x = (rect_curr.left() - rect_t1.size.x as i128) as i64;
                        },
                        RectSide::Right => {
                            x = rect_curr.right() as i64;
                        },
                        _ => {},
                    }
                }
            }
            proof {
                n = other + 1;
            }
            k += 1;
        }
        proof {
            if n < len {
                self.lemma_far_between(me as int, nearby@, to, n, len);
                world.lemma_skip_x(me as int, to, n, len);
            } else {
                world.lemma_clear_x_beyond(me as int, len, n, aim as int);
            }
        }
        Some(x)
    }

    /// Moves the body in slot `me`, with its left edge at `x` by now, along
    /// the vertical axis to `to.y` and lets the bodies in its way push it
    /// back, one after the other. Gives nothing if it runs into a body that
    /// it overlapped where the horizontal pass left it.
    fn sweep_y(
        &self,
        me: usize,
        nearby: &Vec<usize>,
        mask: u32,
        rect_t0: &Rect,
        x: i64,
        aim: i64,
        Ghost(to): Ghost<Area>,
    ) -> (swept: Option<i64>)
        requires
            self.wf(),
            self@.live(me as int),
            rect_t0@ == self@.body_at(me as int).area(),
            mask == self@.mask(self@.body_at(me as int).group),
            ascending(nearby@),
            to.y == aim,
            between(rect_t0@.x, x as int, to.x),
            self.far(me as int, nearby@, to),
        ensures
            match swept {
                Some(y) => self@.clear_y(
                    me as int,
                    self@.pool.slots.len() as int,
                    x as int,
                    aim as int,
                ) && y == self@.swept_y(
                    me as int,
                    self@.pool.slots.len() as int,
                    x as int,
                    aim as int,
                ),
                None => !self@.clear_y(
                    me as int,
                    self@.pool.slots.len() as int,
                    x as int,
                    aim as int,
                ),
            },
    {
        let ghost world = self@;
        let ghost len = world.pool.slots.len() as int;
        let mut y: i64 = aim;
        let mut k: usize = 0;
        // The slots below `n` have had their turn.
        let ghost mut n: int = 0;
        while k < nearby.len()
            invariant
                self.wf(),
                world == self@,
                len == world.pool.slots.len(),
                world.live(me as int),
                rect_t0@ == world.body_at(me as int).area(),
                mask == world.mask(world.body_at(me as int).group),
                ascending(nearby@),
                to.y == aim,
                between(rect_t0@.x, x as int, to.x),
                self.far(me as int, nearby@, to),
                k <= nearby@.len(),
                0 <= n,
                forall|i: int| k <= i < nearby@.len() ==> nearby@[i] >= n,
                forall|i: int| 0 <= i < k ==> nearby@[i] < n,
                world.clear_y(me as int, n, x as int, aim as int),
                y == world.swept_y(me as int, n, x as int, aim as int),
            decreases nearby@.len() - k,
        {
            let other: usize = nearby[k];
            proof {
                self.lemma_far_between(me as int, nearby@, to, n, other as int);
                world.lemma_skip_y(me as int, to, x as int, n, other as int);
                world.lemma_swept_y_between(me as int, other as int, x as int, aim as int);
            }
            if let Some(rect_curr) = self.blocker(me, other, mask) {
                // Where the horizontal pass left the body, and where the
                // vertical pass has brought it from there.
                let rect_across = Rect { pos: P2 { x, y: rect_t0.pos.y }, size: rect_t0.size };
                let rect_t1 = Rect { pos: P2 { x, y }, size: rect_t0.size };
                assert(rect_across@ == rect_t0@.at_x(x as int));
                assert(rect_t1@ == rect_t0@.at_x(x as int).at_y(y as int));
                if rect_curr.overlaps(&rect_t1) {
                    assert(world.runs_into_y(me as int, other as int, x as int, aim as int));
                    if rect_curr.overlaps(&rect_across) {
                        return None;
                    }
                    proof {
                        crate::sweep::lemma_pushed_y_between(
                            rect_curr@,
                            rect_t0@,
                            x as int,
                            y as int,
                        );
                    }
                    match rect_curr.collided_side(&rect_across, &rect_t1) {
                        RectSide::Top => {
                            y = (rect_curr.top() - rect_t1.size.y as i128) as i64;
                        },
                        RectSide::Bottom => {
                            y = rect_curr.bottom() as i64;
                        },
                        _ => {},
                    }
                }
            }
            proof {
                n = other + 1;
            }
            k += 1;
        }
        proof {
            if n < len {
                self.lemma_far_between(me as int, nearby@, to, n, len);
                world.lemma_skip_y(me as int, to, x as int, n, len);
            } else {
                world.lemma_clear_y_beyond(me as int, len, n, x as int, aim as int);
            }
        }
        Some(y)
    }

    /// Where one step takes the body in slot `me`, judged against the
    /// bodies as they stand. Gives nothing if the body runs into one that
    /// it overlaps already.
    fn resolve(&self, me: usize) -> (moved: Option<P2>)
        requires
            self.wf(),
            self@.pending.is_empty(),
            self@.live(me as int),
        ensures
            moved == (if self@.clear(me as int) {
                Some(self@.moved(me as int))
            } else {
                None
            }),
    {
        let handle = match self.bodies.handle_at(me) {
            Some(handle) => handle,
            None => {
                return None;
            },
        };
        let moving_body = match self.bodies.get(handle) {
            Some(body) => body,
            None => {
                return None;
            },
        };
        let mask: u32 = mask_in(&self.group_masks, moving_body.group);
        let rect_t0 = moving_body.rect();
        let shift_x: i64 = shift_of(moving_body.vel.x);
        let shift_y: i64 = shift_of(moving_body.vel.y);
        let aim = P2 {
            x: clamped_sum(rect_t0.pos.x, shift_x),
            y: clamped_sum(rect_t0.pos.y, shift_y),
        };
        let rect_aim = Rect { pos: aim, size: rect_t0.size };
        let dynamic_region = GridRegion::bounding(
            region_of(&rect_t0, self.partition_size),
            region_of(&rect_aim, self.partition_size),
        );
        let nearby = self.grid.query(dynamic_region);
        let ghost world = self@;
        let ghost to = rect_aim@;
        proof {
            self.lemma_query_finds_blockers(me as int, to, dynamic_region, nearby@);
        }
        let mut x: i64 = rect_t0.pos.x;
        if shift_x != 0 {
            match self.sweep_x(me, &nearby, mask, &rect_t0, aim.x, Ghost(to)) {
                Some(swept) => {
                    x = swept;
                },
                None => {
                    return None;
                },
            }
        }
        proof {
            if shift_x != 0 {
                world.lemma_swept_x_between(me as int, world.pool.slots.len() as int, aim.x as int);
            }
        }
        let mut y: i64 = rect_t0.pos.y;
        if shift_y != 0 {
            match self.sweep_y(me, &nearby, mask, &rect_t0, x, aim.y, Ghost(to)) {
                Some(swept) => {
                    y = swept;
                },
                None => {
                    return None;
                },
            }
        }
        Some(P2 { x, y })
    }

    /// Puts the body in the slot at `slot` at `pos`, and registers it over
    /// the cells that it belongs to there.
    fn commit(&mut self, slot: usize, pos: P2)
        requires
            old(self).wf(),
            old(self)@.live(slot as int),
        ensures
            final(self).wf(),
            final(self).partition_size() == old(self).partition_size(),
            final(self)@ == old(self)@.placed(slot as int, pos),
    {
        let ghost start = self@;
        proof {
            start.lemma_placed(slot as int, pos);
        }
        if let Some(handle) = self.bodies.handle_at(slot) {
            let mut rect = Rect::new(pos, V2::zero());
            if let Some(body) = self.bodies.get_mut(handle) {
                body.pos = pos;
                rect = Rect::new(body.pos, body.size);
            }
            self.grid.insert(slot, region_of(&rect, self.partition_size));
            proof {
                assert(self@.pool.slots =~= start.placed(slot as int, pos).pool.slots);
                lemma_sorted_but(
                    old(self).grid@,
                    start,
                    self.grid@,
                    self@,
                    self.partition_size,
                    slot,
                );
            }
        }
    }

    /// Takes one step, if it finds every moving body free to move.
    fn try_step(&mut self) -> (clear: bool)
        requires
            old(self).wf(),
            old(self)@.pending.is_empty(),
        ensures
            final(self).wf(),
            final(self).partition_size() == old(self).partition_size(),
            clear == old(self)@.step_clear(),
            final(self)@ == (if clear {
                old(self)@.stepped()
            } else {
                old(self)@
            }),
    {
        let ghost start = self@;
        let moving = members(&self.moving_handles);
        let mut targets: Vec<P2> = Vec::new();
        let mut k: usize = 0;
        while k < moving.len()
            invariant
                self.wf(),
                *self == *old(self),
                start == self@,
                start.pending.is_empty(),
                moving@.to_set() == start.moving,
                k <= moving@.len(),
                targets@.len() == k,
                forall|i: int| 0 <= i < k ==> start.clear(#[trigger] moving@[i] as int),
                forall|i: int|
                    0 <= i < k ==> (#[trigger] targets@[i]) == start.moved(moving@[i] as int),
            decreases moving@.len() - k,
        {
            assert(moving@.to_set().contains(moving@[k as int]));
            match self.resolve(moving[k]) {
                Some(target) => {
                    targets.push(target);
                },
                None => {
                    return false;
                },
            }
            k += 1;
        }
        proof {
            assert forall|slot: usize| #[trigger] start.moving.contains(slot) implies start.clear(
                slot as int,
            ) by {
                assert(moving@.to_set().contains(slot));
                let i = choose|i: int| 0 <= i < moving@.len() && moving@[i] == slot;
                assert(start.clear(moving@[i] as int));
            }
            assert(stepped_in(start, moving@.take(0).to_set()).pool.slots =~= start.pool.slots);
        }
        let mut k: usize = 0;
        while k < moving.len()
            invariant
                self.wf(),
                self.partition_size() == old(self).partition_size(),
                start.wf(),
                start.pending.is_empty(),
                moving@.to_set() == start.moving,
                k <= moving@.len(),
                targets@.len() == moving@.len(),
                forall|i: int|
                    0 <= i < moving@.len() ==> (#[trigger] targets@[i]) == start.moved(
                        moving@[i] as int,
                    ),
                self@ == stepped_in(start, moving@.take(k as int).to_set()),
            decreases moving@.len() - k,
        {
            let slot: usize = moving[k];
            assert(moving@.to_set().contains(slot));
            assert(start.live(slot as int));
            self.commit(slot, targets[k]);
            proof {
                lemma_take_one_more(moving@, k as int);
                let next = moving@.take(k + 1).to_set();
                assert(self@.pool.slots =~= stepped_in(start, next).pool.slots);
            }
            k += 1;
        }
        proof {
            assert(moving@.take(moving@.len() as int) =~= moving@);
            assert(stepped_in(start, start.moving).pool.slots =~= start.stepped().pool.slots);
        }
        true
    }

    /// Takes note of the bodies that were handed out to be changed:
    /// registers each over the cells that it belongs to now, and lets the
    /// steps move those that have a velocity.
    fn refresh(&mut self)
        requires
            old(self).wf(),
        ensures
            final(self).wf(),
            final(self).partition_size() == old(self).partition_size(),
            final(self)@ == old(self)@.refreshed(),
    {
        let ghost start = self@;
        if !self.refresh_handles.is_empty() {
            let pending = members(&self.refresh_handles);
            let mut k: usize = 0;
            while k < pending.len()
                invariant
                    start == old(self)@,
                    start.wf(),
                    self.bodies == old(self).bodies,
                    self.bodies.wf(),
                    self.grid.wf(),
                    self.partition_size == old(self).partition_size,
                    self.partition_size.0 > 0,
                    self.partition_size.1 > 0,
                    self.time_counter == old(self).time_counter,
                    self.group_masks == old(self).group_masks,
                    self.refresh_handles == old(self).refresh_handles,
                    self.refresh_handles@.finite(),
                    self.moving_handles@.finite(),
                    pending@.to_set() == start.pending,
                    k <= pending@.len(),
                    forall|slot: usize| #[trigger]
                        self.grid@.contains_key(slot) <==> start.live(slot as int),
                    forall|slot: usize|
                        start.live(slot as int) && (!start.pending.contains(slot)
                            || pending@.take(k as int).contains(slot))
                            ==> #[trigger] self.grid@[slot] == region_for(
                            start.body_at(slot as int).area(),
                            self.partition_size,
                        ),
                    forall|slot: usize| #[trigger]
                        self.moving_handles@.contains(slot) <==> start.moving.contains(slot) || (
                        pending@.take(k as int).contains(slot) && !start.body_at(
                            slot as int,
                        ).vel.is_zero()),
                decreases pending@.len() - k,
            {
                let slot: usize = pending[k];
                proof {
                    lemma_take_one_more(pending@, k as int);
                    assert(pending@.to_set().contains(slot));
                    assert(start.live(slot as int));
                }
                if let Some(handle) = self.bodies.handle_at(slot) {
                    if let Some(body) = self.bodies.get(handle) {
                        let region = region_of(&body.rect(), self.partition_size);
                        let moves: bool = !body.vel.is_zero();
                        self.grid.insert(slot, region);
                        if moves {
                            self.moving_handles.insert(slot);
                        }
                    }
                }
                k += 1;
            }
            self.refresh_handles.clear();
            proof {
                assert(pending@.take(pending@.len() as int) =~= pending@);
                assert forall|slot: usize| pending@.contains(slot) <==> start.pending.contains(
                    slot,
                ) by {
                    assert(pending@.to_set().contains(slot) == pending@.contains(slot));
                }
                assert(self@.moving =~= start.refreshed().moving);
                assert(self@.pending =~= start.refreshed().pending);
                start.lemma_refreshed();
            }
        } else {
            proof {
                assert(self@.moving =~= start.refreshed().moving);
                assert(self@.pending =~= start.refreshed().pending);
            }
        }
    }

    /// Lets `nanos` nanoseconds pass, as `elapse_time` does, as long as
    /// every step finds every moving body free to move. The first step that
    /// finds a moving body run into one that it overlaps already is not
    /// taken, nor any after it, and the answer is `false`.
    pub fn try_elapse_nanos(&mut self, nanos: u128) -> (clear: bool)
        requires
            old(self).wf(),
        ensures
            final(self).wf(),
            final(self).partition_size() == old(self).partition_size(),
            clear == old(self)@.can_elapse(nanos as nat),
            final(self)@ == old(self)@.elapsed(nanos as nat),
    {
        self.refresh();
        let whole: u128 = nanos / TIME_STEP_NANOS;
        let rest: u128 = nanos % TIME_STEP_NANOS;
        let mut due: u128 = whole;
        let mut clock: u128 = self.time_counter + rest;
        if clock >= TIME_STEP_NANOS {
            clock -= TIME_STEP_NANOS;
            due += 1;
        }
        proof {
            let step = TIME_STEP_NANOS as int;
            let unspent = old(self)@.clock as int;
            let total = unspent + nanos;
            vstd::arithmetic::div_mod::lemma_fundamental_div_mod(nanos as int, step);
            assert(total == due * step + clock) by (nonlinear_arith)
                requires
                    nanos == step * whole + rest,
                    total == unspent + nanos,
                    (clock == unspent + rest && due == whole) || (clock == unspent + rest - step
                        && due == whole + 1),
            ;
            vstd::arithmetic::div_mod::lemma_fundamental_div_mod_converse(
                total,
                step,
                due as int,
                clock as int,
            );
        }
        self.time_counter = clock;
        let ghost start = self@;
        assert(start == old(self)@.wound(nanos as nat));
        assert(due == old(self)@.steps_due(nanos as nat));
        let mut done: u128 = 0;
        while done < due
            invariant
                start == old(self)@.wound(nanos as nat),
                due == old(self)@.steps_due(nanos as nat),
                self.wf(),
                self.partition_size() == old(self).partition_size(),
                self@.pending.is_empty(),
                done <= due,
                self@.run((due - done) as nat) == start.run(due as nat),
                self@.runs_clear((due - done) as nat) == start.runs_clear(due as nat),
            decreases due - done,
        {
            proof {
                self@.lemma_stepped();
            }
            if !self.try_step() {
                return false;
            }
            done += 1;
        }
        true
    }

    /// Lets `duration` pass, as `elapse_time` does, as long as every step
    /// finds every moving body free to move. The first step that finds a
    /// moving body run into one that it overlaps already is not taken, nor
    /// any after it, and the answer is `false`.
    pub fn try_elapse_time(&mut self, duration: Duration) -> (clear: bool)
        requires
            old(self).wf(),
        ensures
            final(self).wf(),
            final(self).partition_size() == old(self).partition_size(),
            clear == old(self)@.can_elapse(duration_nanos(duration) as nat),
            final(self)@ == old(self)@.elapsed(duration_nanos(duration) as nat),
    {
        self.try_elapse_nanos(nanos_of(duration))
    }

    /// Lets `duration` pass. The world first takes note of the bodies that
    /// were handed out to be changed. Then the time is added to what was
    /// left over last time, and for every whole step of time in the sum
    /// each moving body is moved one step: along the horizontal axis first,
    /// as far as its velocity takes it or up to the side of a body in its
    /// way, then along the vertical axis in the same manner.
    ///
    /// Every step must find every moving body free to move: a body that
    /// runs into one that it overlaps already has no side to be stopped at.
    /// How large the cells are by which the world sorts its bodies makes no
    /// difference to where the bodies end up.
    pub fn elapse_time(&mut self, duration: Duration)
        requires
            old(self).wf(),
            old(self)@.can_elapse(duration_nanos(duration) as nat),
        ensures
            final(self).wf(),
            final(self).partition_size() == old(self).partition_size(),
            final(self)@ == old(self)@.elapsed(duration_nanos(duration) as nat),
    {
        self.try_elapse_nanos(nanos_of(duration));
    }
}

} // verus!
