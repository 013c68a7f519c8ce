use game2d::collide::group;
use game2d::collide::Body;
use game2d::collide::BodyHandle;
use game2d::collide::CollisionWorld;
use game2d::collide::CollisionWorldParams;
use game2d::collide::GROUP_0;
use game2d::collide::GROUP_1;
use game2d::collide::GROUP_2;
use game2d::collide::GROUP_24;
use game2d::collide::GROUP_3;
use game2d::collide::GROUP_31;
use game2d::geom::P2;
use game2d::geom::V2;
use game2d::shape::Rect;
use std::collections::HashSet;
use std::time::Duration;

const WALL: u32 = GROUP_0;
const ACTOR: u32 = GROUP_1;
const GHOST: u32 = GROUP_2;

/// One step of time.
const STEP: Duration = Duration::from_nanos(16_666_000);

/// The shortest time there is.
const TICK: Duration = Duration::from_nanos(1);

fn world_of(pairs: Vec<(u32, u32)>) -> CollisionWorld {
    CollisionWorld::new(CollisionWorldParams {
        group_pairs: pairs,
        partition_size: (16, 16),
    })
}

fn pos_of(world: &CollisionWorld, handle: BodyHandle) -> (i64, i64) {
    let body = world.body(handle).unwrap();
    (body.pos.x, body.pos.y)
}

#[test]
fn groups_are_single_bits() {
    assert_eq!(GROUP_0, 1);
    assert_eq!(GROUP_1, 2);
    assert_eq!(GROUP_3, 8);
    assert_eq!(GROUP_24, 1 << 24);
    assert_eq!(GROUP_31, 0x8000_0000);
    for i in 0..32 {
        assert_eq!(group(i), 1u32 << i);
        assert_eq!(group(i).count_ones(), 1);
    }
}

#[test]
fn a_step_moves_a_body_by_its_velocity_times_the_step_rounded_toward_zero() {
    let mut world = world_of(vec![]);
    let fast = world.new_moving_body(ACTOR, P2::new(0, 0), V2::new(1, 1), V2::new(1_000_000, -1_000_000));
    let slow = world.new_moving_body(ACTOR, P2::new(0, 0), V2::new(1, 1), V2::new(100, -100));
    let slower = world.new_moving_body(ACTOR, P2::new(0, 0), V2::new(1, 1), V2::new(61, -61));
    let too_slow = world.new_moving_body(ACTOR, P2::new(0, 0), V2::new(1, 1), V2::new(59, -59));

    world.elapse_time(STEP);

    assert_eq!(pos_of(&world, fast), (16_666, -16_666));
    assert_eq!(pos_of(&world, slow), (1, -1));
    assert_eq!(pos_of(&world, slower), (1, -1));
    assert_eq!(pos_of(&world, too_slow), (0, 0));

    world.elapse_time(3 * STEP);

    assert_eq!(pos_of(&world, fast), (66_664, -66_664));
    assert_eq!(pos_of(&world, slow), (4, -4));
    assert_eq!(pos_of(&world, too_slow), (0, 0));
}

#[test]
fn time_that_does_not_fill_a_step_is_kept_for_later() {
    let mut world = world_of(vec![]);
    let body = world.new_moving_body(ACTOR, P2::new(0, 0), V2::new(1, 1), V2::new(1_000_000, 0));

    world.elapse_time(Duration::ZERO);
    assert_eq!(pos_of(&world, body), (0, 0));

    world.elapse_time(STEP - TICK);
    assert_eq!(pos_of(&world, body), (0, 0));

    world.elapse_time(TICK);
    assert_eq!(pos_of(&world, body), (16_666, 0));

    world.elapse_time(2 * STEP + 5 * TICK);
    assert_eq!(pos_of(&world, body), (3 * 16_666, 0));

    world.elapse_time(STEP - 6 * TICK);
    assert_eq!(pos_of(&world, body), (3 * 16_666, 0));

    world.elapse_time(TICK);
    assert_eq!(pos_of(&world, body), (4 * 16_666, 0));
}

#[test]
fn a_body_without_velocity_stays_and_one_given_a_velocity_moves_after_the_refresh() {
    let mut world = world_of(vec![]);
    let still = world.new_body(ACTOR, P2::new(5, 5), V2::new(1, 1));
    let zero = world.new_moving_body(ACTOR, P2::new(7, 7), V2::new(1, 1), V2::zero());

    world.elapse_time(10 * STEP);
    assert_eq!(pos_of(&world, still), (5, 5));
    assert_eq!(pos_of(&world, zero), (7, 7));

    world.body_mut(still).unwrap().vel = V2::new(1_000_000, 0);
    assert_eq!(pos_of(&world, still), (5, 5));

    world.elapse_time(STEP);
    assert_eq!(pos_of(&world, still), (5 + 16_666, 5));

    // Taking the velocity away again stops it.
    world.body_mut(still).unwrap().vel = V2::zero();
    world.elapse_time(10 * STEP);
    assert_eq!(pos_of(&world, still), (5 + 16_666, 5));
}

#[test]
fn all_bodies_can_be_given_a_velocity_at_once() {
    let mut world = world_of(vec![]);
    let a = world.new_body(ACTOR, P2::new(0, 0), V2::new(1, 1));
    let b = world.new_moving_body(ACTOR, P2::new(10, 0), V2::new(1, 1), V2::new(0, 600));

    for body in world.bodies_mut() {
        body.vel = V2::new(600, 0);
    }
    world.elapse_time(STEP);

    assert_eq!(pos_of(&world, a), (9, 0));
    assert_eq!(pos_of(&world, b), (19, 0));
}

#[test]
fn a_body_is_stopped_flush_with_the_side_it_ran_into() {
    let mut world = world_of(vec![(WALL, ACTOR)]);
    world.new_body(WALL, P2::new(95, 0), V2::new(10, 10));
    let actor = world.new_moving_body(ACTOR, P2::new(0, 0), V2::new(10, 10), V2::new(600, 0));
    // 600 * 16666 / 1000000 = 9.9996, so 9 a step.

    world.elapse_time(9 * STEP);
    assert_eq!(pos_of(&world, actor), (81, 0));

    world.elapse_time(STEP);
    assert_eq!(pos_of(&world, actor), (85, 0));

    world.elapse_time(5 * STEP);
    assert_eq!(pos_of(&world, actor), (85, 0));
}

#[test]
fn a_body_that_is_fast_enough_jumps_a_thin_obstacle() {
    let mut world = world_of(vec![(WALL, ACTOR)]);
    world.new_body(WALL, P2::new(100, 0), V2::new(10, 10));
    let actor = world.new_moving_body(ACTOR, P2::new(0, 0), V2::new(10, 10), V2::new(6_000, 0));
    // 6000 * 16666 / 1000000 = 99.996, so 99 a step.

    world.elapse_time(STEP);
    assert_eq!(pos_of(&world, actor), (90, 0));

    // Flush with the wall, the next step takes it to the far side.
    world.elapse_time(STEP);
    assert_eq!(pos_of(&world, actor), (189, 0));
}

#[test]
fn a_body_of_an_unregistered_group_goes_the_whole_way() {
    let mut world = world_of(vec![(WALL, ACTOR)]);
    world.new_body(WALL, P2::new(100, 0), V2::new(10, 10));
    let ghost = world.new_moving_body(GHOST, P2::new(0, 0), V2::new(10, 10), V2::new(6_000, 0));

    world.elapse_time(STEP);
    assert_eq!(pos_of(&world, ghost), (99, 0));
    world.elapse_time(STEP);
    assert_eq!(pos_of(&world, ghost), (198, 0));
}

#[test]
fn a_pair_of_groups_collides_both_ways() {
    let mut world = world_of(vec![(WALL, ACTOR)]);
    let actor = world.new_body(ACTOR, P2::new(100, 0), V2::new(10, 10));
    let wall = world.new_moving_body(WALL, P2::new(0, 0), V2::new(10, 10), V2::new(6_000, 0));

    world.elapse_time(STEP);
    assert_eq!(pos_of(&world, wall), (90, 0));
    assert_eq!(pos_of(&world, actor), (100, 0));
}

#[test]
fn bodies_of_one_group_pass_through_each_other_unless_the_group_is_paired_with_itself() {
    let mut apart = world_of(vec![(WALL, ACTOR)]);
    apart.new_body(ACTOR, P2::new(100, 0), V2::new(10, 10));
    let mover = apart.new_moving_body(ACTOR, P2::new(0, 0), V2::new(10, 10), V2::new(6_000, 0));
    apart.elapse_time(STEP);
    assert_eq!(pos_of(&apart, mover), (99, 0));

    let mut paired = world_of(vec![(ACTOR, ACTOR)]);
    paired.new_body(ACTOR, P2::new(100, 0), V2::new(10, 10));
    let mover = paired.new_moving_body(ACTOR, P2::new(0, 0), V2::new(10, 10), V2::new(6_000, 0));
    paired.elapse_time(STEP);
    assert_eq!(pos_of(&paired, mover), (90, 0));
}

#[test]
fn a_group_of_several_bits_is_looked_up_as_it_is_written() {
    let mut world = world_of(vec![(WALL, ACTOR)]);
    // As an obstacle it is taken for every group that it shares a bit with.
    world.new_body(WALL | GHOST, P2::new(100, 0), V2::new(10, 10));
    let actor = world.new_moving_body(ACTOR, P2::new(0, 0), V2::new(10, 10), V2::new(6_000, 0));
    // As a mover it collides with nothing: only `ACTOR` itself was registered.
    let both = world.new_moving_body(ACTOR | GHOST, P2::new(0, 50), V2::new(10, 10), V2::new(6_000, 0));
    world.new_body(WALL, P2::new(100, 50), V2::new(10, 10));

    world.elapse_time(STEP);
    assert_eq!(pos_of(&world, actor), (90, 0));
    assert_eq!(pos_of(&world, both), (99, 50));
}

#[test]
fn every_moving_body_is_judged_against_the_bodies_as_they_stood_before_the_step() {
    let mut world = world_of(vec![(ACTOR, ACTOR)]);
    // 361 * 16666 / 1000000 = 6.016, so 6 a step.
    let a = world.new_moving_body(ACTOR, P2::new(0, 0), V2::new(10, 10), V2::new(361, 0));
    let b = world.new_moving_body(ACTOR, P2::new(20, 0), V2::new(10, 10), V2::new(-361, 0));

    assert_eq!(world.try_elapse_time(STEP), true);

    // Neither was in the other's way where the other stood before the step.
    assert_eq!(pos_of(&world, a), (6, 0));
    assert_eq!(pos_of(&world, b), (14, 0));

    // Now they overlap, and the next step finds each run into the other.
    assert_eq!(world.try_elapse_time(STEP), false);
    assert_eq!(pos_of(&world, a), (6, 0));
    assert_eq!(pos_of(&world, b), (14, 0));
}

#[test]
fn a_step_that_finds_a_body_run_into_one_it_overlaps_is_not_taken() {
    let mut world = world_of(vec![(WALL, ACTOR)]);
    let wall = world.new_body(WALL, P2::new(5, 0), V2::new(10, 10));
    let stuck = world.new_moving_body(ACTOR, P2::new(0, 0), V2::new(10, 10), V2::new(61, 0));
    let free = world.new_moving_body(ACTOR, P2::new(0, 100), V2::new(10, 10), V2::new(61, 0));

    assert_eq!(world.try_elapse_time(3 * STEP), false);
    assert_eq!(pos_of(&world, stuck), (0, 0));
    assert_eq!(pos_of(&world, free), (0, 100));

    // The steps that were not taken are not made up for later.
    world.remove_body(wall);
    assert_eq!(world.try_elapse_time(STEP), true);
    assert_eq!(pos_of(&world, stuck), (1, 0));
    assert_eq!(pos_of(&world, free), (1, 100));
}

#[test]
fn a_body_that_leaves_a_body_it_overlaps_is_free_to_move() {
    let mut world = world_of(vec![(WALL, ACTOR)]);
    world.new_body(WALL, P2::new(9, 0), V2::new(10, 10));
    // 121 * 16666 / 1000000 = 2.016, so 2 a step to the left.
    let actor = world.new_moving_body(ACTOR, P2::new(0, 0), V2::new(10, 10), V2::new(-121, 0));

    assert_eq!(world.try_elapse_time(STEP), true);
    assert_eq!(pos_of(&world, actor), (-2, 0));
}

#[test]
fn blockers_push_back_in_the_order_of_their_slots() {
    // 901 * 16666 / 1000000 = 15.016, so 15 a step.
    let mut thin_first = world_of(vec![(WALL, ACTOR)]);
    thin_first.new_body(WALL, P2::new(12, 0), V2::new(2, 10));
    thin_first.new_body(WALL, P2::new(20, 0), V2::new(10, 10));
    let actor = thin_first.new_moving_body(ACTOR, P2::new(0, 0), V2::new(10, 10), V2::new(901, 0));
    thin_first.elapse_time(STEP);
    // The thin wall was jumped when its turn came; the wide one pushed back.
    assert_eq!(pos_of(&thin_first, actor), (10, 0));

    let mut thin_last = world_of(vec![(WALL, ACTOR)]);
    thin_last.new_body(WALL, P2::new(20, 0), V2::new(10, 10));
    thin_last.new_body(WALL, P2::new(12, 0), V2::new(2, 10));
    let actor = thin_last.new_moving_body(ACTOR, P2::new(0, 0), V2::new(10, 10), V2::new(901, 0));
    thin_last.elapse_time(STEP);
    // The wide wall pushed back first, into the reach of the thin one.
    assert_eq!(pos_of(&thin_last, actor), (2, 0));
}

#[test]
fn the_vertical_pass_starts_from_where_the_horizontal_pass_left_the_body() {
    let mut world = world_of(vec![(WALL, ACTOR)]);
    world.new_body(WALL, P2::new(12, 12), V2::new(10, 10));
    // 301 * 16666 / 1000000 = 5.016, so 5 a step on both axes.
    let actor = world.new_moving_body(ACTOR, P2::new(0, 0), V2::new(10, 10), V2::new(301, 301));

    world.elapse_time(STEP);

    // Moved right unhindered, which brought it above the wall, then down
    // onto the wall's top side.
    assert_eq!(pos_of(&world, actor), (5, 2));

    // It slides along the top side from there.
    assert_eq!(world.try_elapse_time(STEP), true);
    assert_eq!(pos_of(&world, actor), (10, 2));
}

#[test]
fn a_body_that_passes_a_corner_sideways_is_stopped_by_the_side_it_comes_to_face() {
    let unit: i64 = 1_000_000;
    let mut world = CollisionWorld::new(CollisionWorldParams {
        group_pairs: vec![(WALL, ACTOR)],
        partition_size: (20 * unit, 20 * unit),
    });
    let wall = world.new_body(WALL, P2::new(0, 0), V2::new(20 * unit, 20 * unit));
    // The body touches the wall at the corner point only.
    let actor = world.new_moving_body(
        ACTOR,
        P2::new(20 * unit, 20 * unit),
        V2::new(20 * unit, 20 * unit),
        V2::new(-unit, -unit),
    );

    // One step: free to the left, and up no further than the wall's bottom.
    assert_eq!(world.try_elapse_time(Duration::from_millis(17)), true);
    assert_eq!(pos_of(&world, actor), (19_983_334, 20 * unit));
    let wall_rect = world.body(wall).unwrap().rect();
    assert_eq!(world.body(actor).unwrap().rect().overlaps(&wall_rect), false);

    // It goes on along the wall's bottom side, and time can go on.
    assert_eq!(world.try_elapse_time(Duration::from_secs(1)), true);
    assert_eq!(pos_of(&world, actor), (20 * unit - 61 * 16_666, 20 * unit));
    assert_eq!(world.body(actor).unwrap().rect().overlaps(&wall_rect), false);
}

#[test]
fn a_body_that_the_horizontal_pass_left_inside_another_is_not_moved_into_it() {
    let mut world = world_of(vec![(WALL, ACTOR)]);
    // 901 * 16666 / 1000000 = 15.016 and 301 * 16666 / 1000000 = 5.016.
    world.new_body(WALL, P2::new(12, 0), V2::new(2, 30));
    world.new_body(WALL, P2::new(20, 0), V2::new(10, 30));
    let actor = world.new_moving_body(ACTOR, P2::new(0, 0), V2::new(10, 10), V2::new(901, 301));

    // The thin wall was jumped, the wide one pushed the body back into the
    // thin one, and the step down would keep it there.
    assert_eq!(world.try_elapse_time(STEP), false);
    assert_eq!(pos_of(&world, actor), (0, 0));
}

#[test]
fn a_body_slides_along_a_wall_that_stops_it_on_one_axis() {
    let mut world = world_of(vec![(WALL, ACTOR)]);
    world.new_body(WALL, P2::new(20, 0), V2::new(10, 100));
    let actor = world.new_moving_body(ACTOR, P2::new(0, 0), V2::new(10, 10), V2::new(901, 301));

    world.elapse_time(STEP);
    assert_eq!(pos_of(&world, actor), (10, 5));
    world.elapse_time(STEP);
    assert_eq!(pos_of(&world, actor), (10, 10));
}

#[test]
fn a_body_stops_at_the_end_of_the_coordinate_range() {
    let mut world = world_of(vec![]);
    let right = world.new_moving_body(
        ACTOR,
        P2::new(i64::MAX - 3, i64::MIN + 3),
        V2::new(10, 10),
        V2::new(6_000, -6_000),
    );

    world.elapse_time(STEP);
    assert_eq!(pos_of(&world, right), (i64::MAX, i64::MIN));
    world.elapse_time(STEP);
    assert_eq!(pos_of(&world, right), (i64::MAX, i64::MIN));
}

#[test]
fn the_largest_velocity_is_taken_without_overflow() {
    let mut world = CollisionWorld::new(CollisionWorldParams {
        group_pairs: vec![],
        partition_size: (i64::MAX, i64::MAX),
    });
    let body = world.new_moving_body(ACTOR, P2::new(0, 0), V2::new(1, 1), V2::new(i64::MAX, i64::MIN));
    world.elapse_time(STEP);
    // 9223372036854775807 * 16666 / 1000000 and 9223372036854775808 * 16666 / 1000000.
    assert_eq!(pos_of(&world, body), (153_716_718_366_221_693, -153_716_718_366_221_693));
}

#[test]
fn removal_ends_a_handle_and_leaves_the_other_bodies_alone() {
    let mut world = world_of(vec![(WALL, ACTOR)]);
    let a = world.new_body(WALL, P2::new(0, 0), V2::new(1, 1));
    let b = world.new_moving_body(ACTOR, P2::new(10, 0), V2::new(1, 1), V2::new(600, 0));
    let c = world.new_body(WALL, P2::new(20, 0), V2::new(1, 1));

    world.remove_body(b);
    assert_eq!(world.body(b).is_none(), true);
    assert_eq!(world.body_mut(b).is_none(), true);
    world.remove_body(b);
    assert_eq!(world.body(b).is_none(), true);
    assert_eq!(pos_of(&world, a), (0, 0));
    assert_eq!(pos_of(&world, c), (20, 0));
    assert_eq!(world.bodies().len(), 2);

    // A body that takes the slot over is not reached by the old handle.
    let d = world.new_body(WALL, P2::new(30, 0), V2::new(1, 1));
    assert_eq!(d == b, false);
    assert_eq!(world.body(b).is_none(), true);
    world.remove_body(b);
    assert_eq!(pos_of(&world, d), (30, 0));

    // Time passes without the body that was removed while it moved.
    world.elapse_time(2 * STEP);
    assert_eq!(pos_of(&world, d), (30, 0));
    assert_eq!(world.bodies().len(), 3);
}

#[test]
fn a_removed_obstacle_no_longer_blocks() {
    let mut world = world_of(vec![(WALL, ACTOR)]);
    let wall = world.new_body(WALL, P2::new(95, 0), V2::new(10, 10));
    let actor = world.new_moving_body(ACTOR, P2::new(0, 0), V2::new(10, 10), V2::new(600, 0));

    world.elapse_time(12 * STEP);
    assert_eq!(pos_of(&world, actor), (85, 0));

    world.remove_body(wall);
    world.elapse_time(STEP);
    assert_eq!(pos_of(&world, actor), (94, 0));
}

#[test]
fn an_obstacle_moved_by_hand_blocks_where_it_stands_from_the_next_advance_on() {
    let mut world = world_of(vec![(WALL, ACTOR)]);
    let wall = world.new_body(WALL, P2::new(1_000, 0), V2::new(10, 10));
    let actor = world.new_moving_body(ACTOR, P2::new(0, 0), V2::new(10, 10), V2::new(600, 0));

    world.body_mut(wall).unwrap().pos = P2::new(50, 0);
    world.elapse_time(4 * STEP);
    assert_eq!(pos_of(&world, actor), (36, 0));
    world.elapse_time(STEP);
    assert_eq!(pos_of(&world, actor), (40, 0));
}

#[test]
fn touching_bodies_are_those_that_stand_still_and_share_an_edge_at_the_least() {
    let mut world = world_of(vec![]);
    let me = world.new_body(ACTOR, P2::new(0, 0), V2::new(10, 10));
    world.new_body(WALL, P2::new(10, 0), V2::new(10, 10));
    world.new_body(WALL, P2::new(11, 0), V2::new(10, 10));
    world.new_body(GHOST, P2::new(-5, 10), V2::new(5, 5));
    world.new_moving_body(WALL, P2::new(0, -10), V2::new(10, 10), V2::new(1, 0));
    world.new_body(WALL, P2::new(3, 3), V2::new(1, 1));

    let touching: Vec<(i64, i64)> = world
        .get_touching(me)
        .iter()
        .map(|body| (body.pos.x, body.pos.y))
        .collect();
    assert_eq!(touching, vec![(10, 0), (-5, 10), (3, 3)]);

    world.remove_body(me);
    assert_eq!(world.get_touching(me).len(), 0);
}

#[test]
fn touching_goes_by_the_bodies_as_they_are_right_now() {
    let mut world = world_of(vec![]);
    let me = world.new_body(ACTOR, P2::new(0, 0), V2::new(10, 10));
    let other = world.new_body(WALL, P2::new(50, 0), V2::new(10, 10));
    assert_eq!(world.get_touching(me).len(), 0);

    world.body_mut(other).unwrap().pos = P2::new(10, 10);
    assert_eq!(world.get_touching(me).len(), 1);

    world.body_mut(other).unwrap().vel = V2::new(0, 1);
    assert_eq!(world.get_touching(me).len(), 0);
}

#[test]
fn bodies_come_in_the_order_of_their_slots() {
    let mut world = world_of(vec![]);
    let a = world.new_body(1, P2::new(1, 0), V2::new(1, 1));
    world.new_body(2, P2::new(2, 0), V2::new(1, 1));
    world.new_body(3, P2::new(3, 0), V2::new(1, 1));
    world.remove_body(a);
    world.new_body(4, P2::new(4, 0), V2::new(1, 1));

    let groups: Vec<u32> = world.bodies().iter().map(|body| body.group).collect();
    assert_eq!(groups, vec![4, 2, 3]);
}

#[test]
fn the_world_grows_beyond_its_first_ten_bodies() {
    let mut world = world_of(vec![]);
    let mut handles: Vec<BodyHandle> = Vec::new();
    for i in 0..25 {
        assert_eq!(world.can_add_body(), true);
        handles.push(world.new_moving_body(ACTOR, P2::new(i, 0), V2::new(1, 1), V2::new(0, 61)));
    }
    world.elapse_time(STEP);
    for (i, handle) in handles.iter().enumerate() {
        assert_eq!(pos_of(&world, *handle), (i as i64, 1));
    }
}

#[test]
fn body_handles_are_equal_and_hash_alike_by_their_id() {
    let mut world = world_of(vec![]);
    let a = world.new_body(ACTOR, P2::new(0, 0), V2::new(1, 1));
    let b = world.new_body(ACTOR, P2::new(0, 0), V2::new(1, 1));
    let mut seen: HashSet<BodyHandle> = HashSet::new();
    assert_eq!(seen.insert(a), true);
    assert_eq!(seen.insert(b), true);
    assert_eq!(seen.insert(a), false);
    assert_eq!(a == b, false);
}

#[test]
fn a_body_covers_the_rect_of_its_position_and_size() {
    let body = Body {
        group: ACTOR,
        pos: P2::new(3, 4),
        size: V2::new(5, 6),
        vel: V2::zero(),
    };
    let rect = Rect::from(&body);
    assert_eq!((rect.pos, rect.size), (P2::new(3, 4), V2::new(5, 6)));
    assert_eq!(body.rect().right(), 8);
    assert_eq!(body.rect().bottom(), 10);
}

#[test]
fn the_size_of_the_cells_makes_no_difference() {
    let scene = |partition_size: (i64, i64)| -> Vec<(i64, i64)> {
        let mut world = CollisionWorld::new(CollisionWorldParams {
            group_pairs: vec![(WALL, ACTOR), (ACTOR, ACTOR)],
            partition_size,
        });
        world.new_body(WALL, P2::new(-40, -40), V2::new(10, 200));
        world.new_body(WALL, P2::new(120, -40), V2::new(10, 200));
        world.new_body(WALL, P2::new(-40, 120), V2::new(200, 10));
        world.new_body(WALL, P2::new(40, 17), V2::new(3, 3));
        world.new_moving_body(ACTOR, P2::new(0, 0), V2::new(10, 10), V2::new(901, 301));
        world.new_moving_body(ACTOR, P2::new(100, 100), V2::new(10, 10), V2::new(-301, -61));
        world.new_moving_body(GHOST, P2::new(50, 50), V2::new(10, 10), V2::new(-6_000, 6_000));
        world.try_elapse_time(40 * STEP);
        world.bodies().iter().map(|body| (body.pos.x, body.pos.y)).collect()
    };

    let expected = scene((1, 1));
    assert_eq!(scene((16, 16)), expected);
    assert_eq!(scene((7, 1_000)), expected);
    assert_eq!(scene((1_000_000, 3)), expected);
    assert_eq!(scene((i64::MAX, i64::MAX)), expected);
}

#[test]
fn a_body_run_into_a_corner_stands_flush_with_both_walls() {
    let unit: i64 = 1_000_000;
    let mut world = CollisionWorld::new(CollisionWorldParams {
        group_pairs: vec![(WALL, ACTOR)],
        partition_size: (20 * unit, 20 * unit),
    });
    world.new_body(WALL, P2::new(20 * unit, 0), V2::new(20 * unit, 20 * unit));
    world.new_body(WALL, P2::new(0, 20 * unit), V2::new(20 * unit, 20 * unit));
    let actor = world.new_moving_body(
        ACTOR,
        P2::new(40 * unit, 40 * unit),
        V2::new(20 * unit, 20 * unit),
        V2::new(-unit, -unit),
    );

    world.elapse_time(Duration::from_secs(100));

    assert_eq!(pos_of(&world, actor), (20 * unit, 20 * unit));
}

#[test]
fn a_body_run_into_a_wall_to_its_right_stands_flush_with_it() {
    let unit: i64 = 1_000_000;
    let mut world = CollisionWorld::new(CollisionWorldParams {
        group_pairs: vec![(WALL, ACTOR)],
        partition_size: (20 * unit, 20 * unit),
    });
    world.new_body(WALL, P2::new(30 * unit, 0), V2::new(20 * unit, 20 * unit));
    let actor = world.new_moving_body(
        ACTOR,
        P2::new(0, 0),
        V2::new(20 * unit, 20 * unit),
        V2::new(unit, 0),
    );

    // One step short of the wall: 599 steps of 16666 each.
    world.elapse_time(599 * STEP);
    assert_eq!(pos_of(&world, actor), (599 * 16_666, 0));

    // Two steps more, and it is stopped where the wall begins.
    world.elapse_time(2 * STEP);
    assert_eq!(pos_of(&world, actor), (10 * unit, 0));

    world.elapse_time(Duration::from_secs(100));
    assert_eq!(pos_of(&world, actor), (10 * unit, 0));
}

/// A world of bodies set out in rows by a fixed rule, none of them
/// overlapping another, some of them moving.
fn scattered_world(partition_size: (i64, i64), seed: u64) -> CollisionWorld {
    let mut state = seed;
    let mut next = move |below: i64| -> i64 {
        state = state
            .wrapping_mul(6_364_136_223_846_793_005)
            .wrapping_add(1_442_695_040_888_963_407);
        ((state >> 33) as i64) % below
    };
    let mut world = CollisionWorld::new(CollisionWorldParams {
        group_pairs: vec![(WALL, ACTOR), (GHOST, GROUP_3)],
        partition_size,
    });
    for row in 0..8 {
        for column in 0..8 {
            let group = [WALL, ACTOR, GHOST, GROUP_3][next(4) as usize];
            let pos = P2::new(column * 60 - 240 + next(20), row * 60 - 240 + next(20));
            let size = V2::new(1 + next(20), 1 + next(20));
            let vel = if next(3) == 0 {
                V2::new(next(1_200) - 600, next(1_200) - 600)
            } else {
                V2::zero()
            };
            world.new_moving_body(group, pos, size, vel);
        }
    }
    world
}

#[test]
fn scattered_worlds_end_up_alike_whatever_the_size_of_their_cells() {
    let mut moved = 0;
    let mut stopped = 0;
    for seed in 0..40 {
        let before: Vec<(i64, i64)> = scattered_world((16, 16), seed)
            .bodies()
            .iter()
            .map(|body| (body.pos.x, body.pos.y))
            .collect();
        let mut unhindered = scattered_world((16, 16), seed);
        for body in unhindered.bodies_mut() {
            body.group = GROUP_31;
        }
        unhindered.try_elapse_time(12 * STEP + 3 * TICK);
        let free: Vec<(i64, i64)> = unhindered
            .bodies()
            .iter()
            .map(|body| (body.pos.x, body.pos.y))
            .collect();

        let mut outcomes: Vec<(bool, Vec<(i64, i64)>)> = Vec::new();
        for partition_size in [(1, 1), (16, 16), (5, 300), (1_000, 7), (i64::MAX, i64::MAX)] {
            let mut world = scattered_world(partition_size, seed);
            let clear = world.try_elapse_time(12 * STEP + 3 * TICK);
            let places = world.bodies().iter().map(|body| (body.pos.x, body.pos.y)).collect();
            outcomes.push((clear, places));
        }
        for outcome in outcomes.iter() {
            assert_eq!(*outcome, outcomes[0], "seed {}", seed);
        }
        if outcomes[0].1 != before {
            moved += 1;
        }
        if outcomes[0].0 && outcomes[0].1 != free {
            stopped += 1;
        }
    }
    // The rule sets bodies moving, and lets some of them run into others.
    assert!(moved >= 30, "moved in {} worlds", moved);
    assert!(stopped >= 5, "stopped in {} worlds", stopped);
}

#[test]
fn time_is_taken_to_the_nanosecond_from_a_duration() {
    let mut world = world_of(vec![]);
    let body = world.new_moving_body(ACTOR, P2::new(0, 0), V2::new(1, 1), V2::new(1_000_000, 0));

    // 49_998_000 nanoseconds are three steps to the nanosecond.
    world.elapse_time(Duration::from_nanos(49_997_999));
    assert_eq!(pos_of(&world, body), (2 * 16_666, 0));
    world.elapse_time(Duration::from_nanos(1));
    assert_eq!(pos_of(&world, body), (3 * 16_666, 0));

    // A second is sixty steps, and 40 microseconds are left over.
    world.elapse_time(Duration::new(1, 0));
    assert_eq!(pos_of(&world, body), (63 * 16_666, 0));
    world.elapse_time(Duration::from_micros(16_626));
    assert_eq!(pos_of(&world, body), (64 * 16_666, 0));
}

#[test]
fn time_can_be_given_as_a_plain_number_of_nanoseconds() {
    let mut world = world_of(vec![(WALL, ACTOR)]);
    world.new_body(WALL, P2::new(5, 0), V2::new(10, 10));
    let stuck = world.new_moving_body(ACTOR, P2::new(0, 0), V2::new(10, 10), V2::new(61, 0));
    let free = world.new_moving_body(ACTOR, P2::new(0, 100), V2::new(10, 10), V2::new(61, 0));

    assert_eq!(world.try_elapse_nanos(16_665_999), true);
    assert_eq!(pos_of(&world, free), (0, 100));
    assert_eq!(world.try_elapse_nanos(1), false);
    assert_eq!(pos_of(&world, stuck), (0, 0));
    assert_eq!(pos_of(&world, free), (0, 100));
}

#[test]
fn no_step_moves_a_body_into_a_resting_body_in_its_way() {
    let mut steps_taken = 0;
    for seed in 0..40u64 {
        let mut state = seed.wrapping_mul(2_862_933_555_777_941_757).wrapping_add(3_037_000_493);
        let mut next = move |below: i64| -> i64 {
            state = state
                .wrapping_mul(6_364_136_223_846_793_005)
                .wrapping_add(1_442_695_040_888_963_407);
            ((state >> 33) as i64) % below
        };
        let mut world = world_of(vec![(WALL, ACTOR)]);
        let mut handles: Vec<BodyHandle> = Vec::new();
        for row in 0..6 {
            for column in 0..6 {
                let group = if next(2) == 0 { WALL } else { ACTOR };
                let pos = P2::new(column * 24 + next(4), row * 24 + next(4));
                let size = V2::new(10 + next(10), 10 + next(10));
                // Up to 9 a step, which is less than any body is wide or high.
                let vel = if next(3) == 0 {
                    V2::new(next(1_100) - 550, next(1_100) - 550)
                } else {
                    V2::zero()
                };
                handles.push(world.new_moving_body(group, pos, size, vel));
            }
        }
        for _ in 0..30 {
            if !world.try_elapse_time(STEP) {
                break;
            }
            steps_taken += 1;
            for mover in handles.iter() {
                let moving = world.body(*mover).unwrap();
                if moving.vel.is_zero() {
                    continue;
                }
                for other in handles.iter() {
                    let resting = world.body(*other).unwrap();
                    if resting.vel.is_zero() && resting.group != moving.group {
                        assert_eq!(
                            moving.rect().overlaps(&resting.rect()),
                            false,
                            "seed {}: {:?} is inside {:?}",
                            seed,
                            moving,
                            resting
                        );
                    }
                }
            }
        }
    }
    assert!(steps_taken >= 300, "{} steps were taken", steps_taken);
}
