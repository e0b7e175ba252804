use orbit_arena::collision::check_collisions;
use orbit_arena::collision::COORD_LIMIT;
use orbit_arena::collision::Collider;
use orbit_arena::collision::CollisionGroups;
use orbit_arena::collision::CollisionPair;
use orbit_arena::collision::overlaps;
use orbit_arena::collision::Vec3i;
use orbit_arena::collision::GROUP_ALL;
use orbit_arena::collision::GROUP_ENEMY;
use orbit_arena::collision::GROUP_PLAYER;
use orbit_arena::collision::GROUP_PROJECTILE;
use orbit_arena::world::Body;
use orbit_arena::world::World;

fn bare_body(id: u64, x: i64, collider: Collider, groups: CollisionGroups) -> Body {
    Body {
        id,
        position: Vec3i::new(x, 0, 0),
        collider,
        groups,
        health: None,
        is_player: false,
        is_point: false,
        is_enemy: false,
        projectile: None,
        orb: None,
        removed: false,
        health_changed: false,
    }
}

#[test]
fn collision_groups_work() {
    struct TestCase {
        a: CollisionGroups,
        b: CollisionGroups,
        expected: bool,
    }
    let test_cases = [
        // Player projectiles and enenies should collide
        TestCase {
            a: CollisionGroups::new(GROUP_PROJECTILE, GROUP_ENEMY),
            b: CollisionGroups::new(GROUP_ENEMY, GROUP_PROJECTILE | GROUP_PLAYER),
            expected: true,
        },
        // Player projectiles and players should not collide
        TestCase {
            a: CollisionGroups::new(GROUP_PROJECTILE, GROUP_ENEMY),
            b: CollisionGroups::new(GROUP_PLAYER, GROUP_ENEMY),
            expected: false,
        },
        // Player projectiles should not collide with each other
        TestCase {
            a: CollisionGroups::new(GROUP_PROJECTILE, GROUP_ENEMY),
            b: CollisionGroups::new(GROUP_PROJECTILE, GROUP_ENEMY),
            expected: false,
        },
        // Player should collide with enemy
        TestCase {
            a: CollisionGroups::new(GROUP_PLAYER, GROUP_ENEMY),
            b: CollisionGroups::new(GROUP_ENEMY, GROUP_PROJECTILE | GROUP_PLAYER),
            expected: true,
        },
        // Enemies should not collide with each other
        TestCase {
            a: CollisionGroups::new(GROUP_ENEMY, GROUP_PROJECTILE | GROUP_PLAYER),
            b: CollisionGroups::new(GROUP_ENEMY, GROUP_PROJECTILE | GROUP_PLAYER),
            expected: false,
        },
    ];
    for test in test_cases {
        // test a with b
        let r1 = test.a.intersects(&test.b);
        assert_eq!(r1, test.expected);
        // test b with a gives same result
        let r2 = test.b.intersects(&test.a);
        assert_eq!(r2, test.expected);
    }
}

#[test]
fn collision_pairs_work() {
    struct TestCase {
        name: String,
        a: CollisionPair,
        b: CollisionPair,
        equal: bool,
    }
    let test_cases = [
        TestCase {
            name: "same entities, same order".to_string(),
            a: CollisionPair::new(1, 2),
            b: CollisionPair::new(1, 2),
            equal: true,
        },
        TestCase {
            name: "same entities, different order".to_string(),
            a: CollisionPair::new(1, 2),
            b: CollisionPair::new(2, 1),
            equal: true,
        },
        TestCase {
            name: "totally different entities".to_string(),
            a: CollisionPair::new(1, 2),
            b: CollisionPair::new(3, 4),
            equal: false,
        },
        TestCase {
            name: "partially different entities".to_string(),
            a: CollisionPair::new(1, 2),
            b: CollisionPair::new(1, 4),
            equal: false,
        },
    ];
    for test in test_cases {
        let result = test.a == test.b;
        assert_eq!(result, test.equal, "{}", test.name);
    }
}

#[test]
fn sphere_box_boundary() {
    let origin = Vec3i::new(0, 0, 0);
    let sphere = Collider::Sphere(10);
    // a box of half-extent 10 (full edge 20) centered exactly 2r away
    let cube = Collider::Cuboid(Vec3i::new(20, 20, 20));
    let at_exact = Vec3i::new(20, 0, 0);
    let a_bit_closer = Vec3i::new(19, 0, 0);
    assert!(!overlaps(&sphere, &origin, &cube, &at_exact));
    assert!(overlaps(&sphere, &origin, &cube, &a_bit_closer));
    // the test is symmetric in the two bodies
    assert!(!overlaps(&cube, &at_exact, &sphere, &origin));
    assert!(overlaps(&cube, &a_bit_closer, &sphere, &origin));
}

#[test]
fn spheres_touching_overlap() {
    let origin = Vec3i::new(0, 0, 0);
    // touching spheres count as overlapping
    assert!(overlaps(
        &Collider::Sphere(5),
        &origin,
        &Collider::Sphere(5),
        &Vec3i::new(10, 0, 0)
    ));
    // one unit apart, they do not
    assert!(!overlaps(
        &Collider::Sphere(5),
        &origin,
        &Collider::Sphere(5),
        &Vec3i::new(11, 0, 0)
    ));
}

#[test]
fn boxes_touching_do_not_overlap() {
    let origin = Vec3i::new(0, 0, 0);
    let cube = Collider::Cuboid(Vec3i::new(10, 10, 10));
    // faces flush against each other: no overlap
    assert!(!overlaps(&cube, &origin, &cube, &Vec3i::new(10, 0, 0)));
    // one unit of interpenetration: overlap
    assert!(overlaps(&cube, &origin, &cube, &Vec3i::new(9, 0, 0)));
}

#[test]
fn detector_emits_each_pair_once() {
    let mut world = World::new();
    let open = CollisionGroups::new(GROUP_ALL, GROUP_ALL);
    // three mutually overlapping spheres with fully open groups
    assert!(world.spawn(bare_body(1, 0, Collider::Sphere(5), open)));
    assert!(world.spawn(bare_body(2, 1, Collider::Sphere(5), open)));
    assert!(world.spawn(bare_body(3, 2, Collider::Sphere(5), open)));
    let events = check_collisions(&world);
    // exactly n * (n - 1) / 2 events, never more
    assert_eq!(events.len(), 3);
    let pairs: Vec<CollisionPair> =
        events.iter().map(|ev| CollisionPair::new(ev.e1, ev.e2)).collect();
    assert_eq!(pairs[0], CollisionPair::new(1, 2));
    assert_eq!(pairs[1], CollisionPair::new(1, 3));
    assert_eq!(pairs[2], CollisionPair::new(2, 3));
}

#[test]
fn detector_applies_group_filters() {
    let mut world = World::new();
    // two projectiles and one enemy, all overlapping: projectiles do not
    // hit each other, so only the projectile/enemy pairs report
    let proj = CollisionGroups::new(GROUP_PROJECTILE, GROUP_ENEMY);
    let enemy = CollisionGroups::new(GROUP_ENEMY, GROUP_PROJECTILE | GROUP_PLAYER);
    assert!(world.spawn(bare_body(1, 0, Collider::Sphere(5), proj)));
    assert!(world.spawn(bare_body(2, 1, Collider::Sphere(5), proj)));
    assert!(world.spawn(bare_body(3, 2, Collider::Sphere(5), enemy)));
    let events = check_collisions(&world);
    assert_eq!(events.len(), 2);
    assert_eq!((events[0].e1, events[0].e2), (1, 3));
    assert_eq!((events[1].e1, events[1].e2), (2, 3));
}

#[test]
fn detector_ignores_lone_body() {
    let empty = World::new();
    assert_eq!(check_collisions(&empty).len(), 0);
    let mut world = World::new();
    assert!(world.spawn(bare_body(
        1,
        0,
        Collider::Sphere(5),
        CollisionGroups::new(GROUP_ALL, GROUP_ALL)
    )));
    let events = check_collisions(&world);
    assert_eq!(events.len(), 0);
}

#[test]
fn extreme_coordinates_stay_exact() {
    let far_left = Vec3i::new(-COORD_LIMIT, -COORD_LIMIT, -COORD_LIMIT);
    let far_right = Vec3i::new(COORD_LIMIT, COORD_LIMIT, COORD_LIMIT);
    let big = Collider::Sphere(COORD_LIMIT);
    // the largest admissible shapes at opposite corners of the grid
    assert!(!overlaps(&big, &far_left, &big, &far_right));
    assert!(overlaps(&big, &far_right, &big, &far_right));
    let huge_box = Collider::Cuboid(Vec3i::new(COORD_LIMIT, COORD_LIMIT, COORD_LIMIT));
    assert!(!overlaps(&big, &far_left, &huge_box, &far_right));
    assert!(overlaps(&huge_box, &far_left, &huge_box, &far_left));
}

#[test]
fn spawn_rejects_malformed_shapes() {
    let mut world = World::new();
    // a negative radius is a programming error, rejected at construction
    let bad = bare_body(
        1,
        0,
        Collider::Sphere(-1),
        CollisionGroups::new(GROUP_ALL, GROUP_ALL),
    );
    assert!(!world.spawn(bad));
    assert_eq!(world.len(), 0);
    // a duplicate identifier is rejected too
    let open = CollisionGroups::new(GROUP_ALL, GROUP_ALL);
    assert!(world.spawn(bare_body(7, 0, Collider::Sphere(1), open)));
    assert!(!world.spawn(bare_body(7, 3, Collider::Sphere(1), open)));
    assert_eq!(world.len(), 1);
}
