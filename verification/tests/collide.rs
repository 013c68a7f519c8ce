use game2d::collide::CollisionWorld;
use game2d::collide::CollisionWorldParams;
use game2d::collide::GROUP_0;
use game2d::collide::GROUP_1;
use game2d::collide::GROUP_2;
use game2d::geom::P2;
use game2d::geom::V2;

use std::time::Duration;
use std::time::SystemTime;

const GROUP_WALL: u32 = GROUP_0;
const GROUP_ACTOR: u32 = GROUP_1;
const GROUP_PASSTHRU: u32 = GROUP_2;

/// The tests count in millionths of a unit.
const UNIT: f64 = 1_000_000.;

fn sub_units(v: f32) -> i64 {
    (v as f64 * UNIT).round() as i64
}

fn units(v: i64) -> f32 {
    (v as f64 / UNIT) as f32
}

fn pt(x: f32, y: f32) -> P2 {
    P2::new(sub_units(x), sub_units(y))
}

fn vc(x: f32, y: f32) -> V2 {
    V2::new(sub_units(x), sub_units(y))
}

fn cells(w: f32, h: f32) -> (i64, i64) {
    (sub_units(w), sub_units(h))
}

fn assert_eq_f32(actual: f32, expected: f32, epsilon: f32) {
    if (expected - actual).abs() > epsilon {
        panic!("{} is not within {} of {}", actual, epsilon, expected);
    }
}

fn new_default_world() -> CollisionWorld {
    CollisionWorld::new(CollisionWorldParams {
        group_pairs: vec![(GROUP_WALL, GROUP_ACTOR)],
        partition_size: cells(20., 20.),
    })
}

#[test]
fn can_create_world_with_bodies() {
    let mut world = new_default_world();
    world.new_body(GROUP_0, pt(0., 0.), vc(16., 16.));
    world.new_body(GROUP_0, pt(0., 50.), vc(16., 16.));
    world.new_moving_body(GROUP_0, pt(32., 32.), vc(16., 16.), vc(0., 0.));

    assert_eq!(world.bodies().iter().count(), 3);
    assert_eq!(world.bodies_mut().iter().count(), 3);
}

#[test]
fn can_remove_bodies() {
    let mut world = new_default_world();
    let body1 = world.new_body(GROUP_0, pt(0., 0.), vc(16., 16.));
    let body2 = world.new_body(GROUP_0, pt(0., 50.), vc(16., 16.));
    assert_eq!(world.bodies().iter().count(), 2);

    world.remove_body(body1);
    assert_eq!(world.bodies().iter().count(), 1);
    world.remove_body(body2);
    assert_eq!(world.bodies().iter().count(), 0);
}

#[test]
fn can_query_body_with_handle() {
    let mut world = new_default_world();
    let body1 = world.new_body(GROUP_0, pt(0., 0.), vc(16., 16.));
    let body2 = world.new_body(GROUP_0, pt(0., 50.), vc(16., 16.));

    assert_eq!(world.body(body1).unwrap().pos, pt(0., 0.));
    assert_eq!(world.body_mut(body1).unwrap().pos, pt(0., 0.));
    assert_eq!(world.body(body2).unwrap().pos, pt(0., 50.));
    assert_eq!(world.body_mut(body2).unwrap().pos, pt(0., 50.));

    world.remove_body(body1);
    assert_eq!(world.body(body1).is_none(), true); // Query returns none if item was deleted
    assert_eq!(world.body_mut(body1).is_none(), true);
}

#[test]
fn can_mutate_bodies() {
    let mut world = new_default_world();
    let body1 = world.new_body(GROUP_0, pt(0., 0.), vc(16., 16.));
    let body2 = world.new_body(GROUP_0, pt(0., 50.), vc(16., 16.));

    world.body_mut(body1).unwrap().pos.x = sub_units(100.);
    world.body_mut(body2).unwrap().pos.x = sub_units(100.);

    assert_eq!(world.body(body1).unwrap().pos, pt(100., 0.));
    assert_eq!(world.body(body2).unwrap().pos, pt(100., 50.));

    for body in world.bodies_mut() {
        body.size = vc(10., 20.);
    }

    assert_eq!(world.body(body1).unwrap().size, vc(10., 20.));
    assert_eq!(world.body(body2).unwrap().size, vc(10., 20.));
}

/// +-------+     +-------+           +-------+-------+
/// |       |     |       |           |       |       |
/// |       | ←←← |       |  ======>  |       |       |
/// |       |     |       |           |       |       |
/// +-------+     +-------+           +-------+-------+
#[test]
fn collide_dynamic_with_single_static_body_moving_left() {
    let mut world = new_default_world();

    let wall = world.new_body(GROUP_WALL, pt(0., 0.), vc(20., 20.));
    let actor = world.new_moving_body(GROUP_ACTOR, pt(30., 0.), vc(20., 20.), vc(-1., 0.));

    world.elapse_time(Duration::from_secs(100));

    // Player moved until it ran into the wall and got stuck
    assert_eq_f32(units(world.body(actor).unwrap().pos.x), 20., 0.1);

    // The wall didn't budge
    assert_eq_f32(units(world.body(wall).unwrap().pos.x), 0., 0.1);

    // Bodies can be removed between world updates
    world.remove_body(wall);
    world.elapse_time(Duration::from_secs(10));
    // Player could keep moving
    assert_eq_f32(units(world.body(actor).unwrap().pos.x), 10., 0.1);
}

/// +-------+     +-------+           +-------+-------+
/// |       |     |       |           |       |       |
/// |       | →→→ |       |  ======>  |       |       |
/// |       |     |       |           |       |       |
/// +-------+     +-------+           +-------+-------+
#[test]
fn collide_dynamic_with_single_static_body_moving_right() {
    let mut world = new_default_world();

    world.new_body(GROUP_WALL, pt(30., 0.), vc(20., 20.));
    let actor = world.new_moving_body(GROUP_ACTOR, pt(0., 0.), vc(20., 20.), vc(1., 0.));

    world.elapse_time(Duration::from_secs(100));

    // Player moved until it ran into the wall and got stuck
    assert_eq_f32(units(world.body(actor).unwrap().pos.x), 10., 0.1);
}

/// +-------+          +-------+
/// |       |          |       |
/// |       |          |       |
/// |       |          |       |
/// +-------+          +-------+
///     ↑              |       |
///     ↑     ======>  |       |
///     ↑              |       |
/// +-------+          +-------+
/// |       |
/// |       |
/// |       |
/// +-------+
#[test]
fn collide_dynamic_with_single_static_body_moving_up() {
    let mut world = new_default_world();

    world.new_body(GROUP_WALL, pt(0., 0.), vc(20., 20.));
    let actor = world.new_moving_body(GROUP_ACTOR, pt(0., 30.), vc(20., 20.), vc(0., -1.));

    world.elapse_time(Duration::from_secs(100));

    // Player moved until it ran into the wall and got stuck
    assert_eq_f32(units(world.body(actor).unwrap().pos.y), 20., 0.1);
}

/// +-------+
/// |       |
/// |       |
/// |       |
/// +-------+          +-------+
///     ↓              |       |
///     ↓     ======>  |       |
///     ↓              |       |
/// +-------+          +-------+
/// |       |          |       |
/// |       |          |       |
/// |       |          |       |
/// +-------+          +-------+
#[test]
fn collide_dynamic_with_single_static_body_moving_down() {
    let mut world = new_default_world();

    world.new_body(GROUP_WALL, pt(0., 30.), vc(20., 20.));
    let actor = world.new_moving_body(GROUP_ACTOR, pt(0., 0.), vc(20., 20.), vc(0., 1.));

    world.elapse_time(Duration::from_secs(100));

    // Player moved until it ran into the wall and got stuck
    assert_eq_f32(units(world.body(actor).unwrap().pos.y), 10., 0.1);
}

/// +-------+                         +------+
/// |       |                         |      |
/// |       |     +-------+           |      +-------+
/// |       |     |       |           |      |       |
/// +-------+ ←←← |       |  ======>  +------+       |
/// |       |     |       |           |      |       |
/// |       |     +-------+           |      +-------+
/// |       |                         |      |
/// +-------+                         +------+
///
/// Both bodies may contribute to pushing back on the moving body, so make
/// sure we don't apply too much back pressure.
#[test]
fn collide_dynamic_with_two_static_bodies() {
    let mut world = new_default_world();

    world.new_body(GROUP_WALL, pt(0., 0.), vc(20., 20.));
    world.new_body(GROUP_WALL, pt(0., 20.), vc(20., 20.));
    let actor = world.new_moving_body(GROUP_ACTOR, pt(30., 10.), vc(20., 20.), vc(-1., 0.));

    world.elapse_time(Duration::from_secs(100));

    // Player moved until it ran into the walls and got stuck
    assert_eq_f32(units(world.body(actor).unwrap().pos.x), 20., 0.1);
}

///         +-------+                          +-------+
///         |       |                          |       |
///         |       |                          |       |
///         |       |                          |       |
/// +-------+-------+                  +-------+-------+
/// |       |                          |       |       |
/// |       |   ↖                      |       |       |
/// |       |    ↖            ======>  |       |       |
/// +-------+     ↖                    +-------+-------+
///                +-------+
///                |       |
///                |       |
///                |       |
///                +-------+
#[test]
fn collide_dynamic_into_corner() {
    let mut world = new_default_world();

    world.new_body(GROUP_WALL, pt(20., 0.), vc(20., 20.));
    world.new_body(GROUP_WALL, pt(0., 20.), vc(20., 20.));
    let actor = world.new_moving_body(GROUP_ACTOR, pt(40., 40.), vc(20., 20.), vc(-1., -1.));

    world.elapse_time(Duration::from_secs(100));

    // Player moved until it ran into the walls and got stuck
    assert_eq_f32(units(world.body(actor).unwrap().pos.x), 20., 0.1);
    assert_eq_f32(units(world.body(actor).unwrap().pos.y), 20., 0.1);
}

/// +-------+                   +-------+
/// |       |                   |       |
/// |       |                   |       +-------+
/// |       | ↖                 |       |       |
/// +-------+ ↖        ======>  +-------+       |
/// |       | ↖                 |       |       |
/// |       +-------+           |       +-------+
/// |       |       |           |       |
/// +-------+       |           +-------+
///         |       |
///         +-------+
///
/// Some collision systems get stuck or hiccup on corners
#[test]
fn dynamic_body_slides_across_static_bodies() {
    let mut world = new_default_world();

    world.new_body(GROUP_WALL, pt(0., 0.), vc(20., 20.));
    world.new_body(GROUP_WALL, pt(0., 20.), vc(20., 20.));
    let actor = world.new_moving_body(GROUP_ACTOR, pt(20., 30.), vc(20., 20.), vc(-1., -1.));

    world.elapse_time(Duration::from_secs(20));

    assert_eq_f32(units(world.body(actor).unwrap().pos.x), 20., 0.1);
    assert_eq_f32(units(world.body(actor).unwrap().pos.y), 10., 0.1);
}

/// +-------+     +-------+           +-------+-------+               +-------+     +-------+
/// |       |     |       |           |       |       |  move A       |       |     |       |
/// |   A   | ←←← |   B   |  ======>  |   A   |   B   |  ======>  ←←← |   B   |     |   A   |
/// |       |     |       |           |       |       |               |       |     |       |
/// +-------+     +-------+           +-------+-------+               +-------+     +-------+
#[test]
fn can_mutate_body_to_move_it() {
    let mut world = new_default_world();

    let wall = world.new_body(GROUP_WALL, pt(0., 0.), vc(20., 20.));
    let actor = world.new_moving_body(GROUP_ACTOR, pt(30., 0.), vc(20., 20.), vc(-1., 0.));

    world.elapse_time(Duration::from_secs(100));

    // Player moved until it ran into the wall and got stuck
    assert_eq_f32(units(world.body(actor).unwrap().pos.x), 20., 0.1);

    // Bodies can be moved between world updates
    world.body_mut(wall).unwrap().pos = pt(100., 0.);
    world.elapse_time(Duration::from_secs(10));
    // Player could keep moving
    assert_eq_f32(units(world.body(actor).unwrap().pos.x), 10., 0.1);

    // Let's mutate the player to make sure they can run into the wall in its new position
    world.body_mut(actor).unwrap().vel = vc(1., 0.);
    world.elapse_time(Duration::from_secs(200));

    // Player moved until it ran into the wall and got stuck
    assert_eq_f32(units(world.body(actor).unwrap().pos.x), 80., 0.1);
}

/// +-------+     +-------+           +-----+-------+
/// |       |     |       |           |     |       |
/// |       | ←←← |       |  ======>  | ←←← |       |
/// |       |     |       |           |     |       |
/// +-------+     +-------+           +-----+-------+
#[test]
fn bodies_only_collide_if_groups_are_registered_to_collide() {
    let mut world = CollisionWorld::new(CollisionWorldParams {
        group_pairs: vec![],
        partition_size: cells(40., 40.),
    });

    let wall = world.new_body(GROUP_WALL, pt(0., 0.), vc(20., 20.));
    let actor = world.new_moving_body(GROUP_ACTOR, pt(30., 0.), vc(20., 20.), vc(-1., 0.));

    world.elapse_time(Duration::from_secs(20));

    // Player passed through the wall
    assert_eq_f32(units(world.body(actor).unwrap().pos.x), 10., 0.1);

    // The wall didn't budge
    assert_eq_f32(units(world.body(wall).unwrap().pos.x), 0., 0.1);
}

/// Populates a world by surrounding it with walls and sprinkling walls
/// throughout, and then putting an actor at the top left moving to the
/// bottom right.
fn create_crowded_world(partition_size: (i64, i64)) -> CollisionWorld {
    let mut world = CollisionWorld::new(CollisionWorldParams {
        partition_size,
        group_pairs: vec![(GROUP_WALL, GROUP_ACTOR)],
    });

    let x_squares = 100;
    let y_squares = 50;
    let body_size = (20., 20.);
    let actor_vel = vc(10., 5.);

    for x in 0..=x_squares {
        let x = x as f32;
        world.new_body(GROUP_WALL, pt(x * body_size.0, 0.), vc(body_size.0, body_size.1));
    }

    for y in 1..y_squares {
        let y = y as f32;
        world.new_body(GROUP_WALL, pt(0., y * body_size.1), vc(body_size.0, body_size.1));
    }

    for y in 1..y_squares {
        let y = y as f32;
        let x_squares = x_squares as f32;
        world.new_body(
            GROUP_WALL,
            pt(x_squares * body_size.0, y * body_size.1),
            vc(body_size.0, body_size.1),
        );
    }

    for x in 0..=x_squares {
        let x = x as f32;
        let y_squares = y_squares as f32;
        world.new_body(
            GROUP_WALL,
            pt(x * body_size.0, y_squares * body_size.1),
            vc(body_size.0, body_size.1),
        );
    }

    for x in (10..=x_squares - 10).step_by(10) {
        for y in (5..y_squares - 5).step_by(5) {
            let x = x as f32;
            let y = y as f32;
            world.new_body(
                GROUP_WALL,
                pt(x * body_size.0, y * body_size.1),
                vc(body_size.0, body_size.1),
            );
        }
    }

    // Throw in some objects that should be ignored
    for x in (20..=x_squares - 20).step_by(20) {
        for y in (10..y_squares - 10).step_by(10) {
            let x = x as f32;
            let y = y as f32;
            world.new_body(
                GROUP_PASSTHRU,
                pt(x * body_size.0, y * body_size.1),
                vc(body_size.0, body_size.1),
            );
        }
    }

    world.new_moving_body(
        GROUP_ACTOR,
        pt(body_size.0, body_size.1),
        vc(body_size.0, body_size.1),
        actor_vel,
    );

    world
}

#[test]
fn partitioning_the_board_optimizes_collision_performance() {
    // Small partition uses more memory but should be much faster.
    let small_partition_elapsed = {
        let mut world = create_crowded_world(cells(40., 40.));

        let small_partition_start = SystemTime::now();
        world.elapse_time(Duration::new(20, 0));
        small_partition_start.elapsed().unwrap()
    };

    let large_partition_elapsed = {
        let mut world = create_crowded_world((i64::MAX, i64::MAX));

        let large_partition_start = SystemTime::now();
        world.elapse_time(Duration::new(20, 0));
        large_partition_start.elapsed().unwrap()
    };

    println!("small_partition_elapsed = {:?}", small_partition_elapsed);
    println!("large_partition_elapsed = {:?}", large_partition_elapsed);
    assert!(small_partition_elapsed < large_partition_elapsed);
}

#[test]
fn partitioning_the_board_does_not_change_where_bodies_end_up() {
    let mut small = create_crowded_world(cells(40., 40.));
    let mut odd = create_crowded_world(cells(7., 13.));
    let mut large = create_crowded_world((i64::MAX, i64::MAX));

    small.elapse_time(Duration::new(20, 0));
    odd.elapse_time(Duration::new(20, 0));
    large.elapse_time(Duration::new(20, 0));

    let in_small: Vec<(P2, V2)> = small.bodies().iter().map(|b| (b.pos, b.size)).collect();
    let in_odd: Vec<(P2, V2)> = odd.bodies().iter().map(|b| (b.pos, b.size)).collect();
    let in_large: Vec<(P2, V2)> = large.bodies().iter().map(|b| (b.pos, b.size)).collect();
    assert_eq!(in_small, in_large);
    assert_eq!(in_odd, in_large);

    // The actor came last, ran into the wall at (200, 100) and slid down it.
    let actor = in_large.last().unwrap().0;
    assert_eq!(actor, P2::new(180_000_000, 119_996_000));
}
