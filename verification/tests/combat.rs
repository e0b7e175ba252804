use orbit_arena::collision::Collider;
use orbit_arena::collision::CollisionGroups;
use orbit_arena::collision::Vec3i;
use orbit_arena::collision::GROUP_ENEMY;
use orbit_arena::collision::GROUP_PLAYER;
use orbit_arena::collision::GROUP_POINT;
use orbit_arena::collision::GROUP_PROJECTILE;
use orbit_arena::enemy::{attack_players, Enemy};
use orbit_arena::health::Health;
use orbit_arena::orb::Orb;
use orbit_arena::projectile::Projectile;
use orbit_arena::score::PlayerScore;
use orbit_arena::world::run_tick;
use orbit_arena::world::Body;
use orbit_arena::world::World;

fn bare_body(id: u64, x: i64, collider: Collider, groups: CollisionGroups) -> Body {
    Body {
        id,
        position: Vec3i::new(x, 0, 0),
        collider,
        groups,
        health: None,
        is_player: false,
        is_point: false,
        is_enemy: false,
        projectile: None,
        orb: None,
        removed: false,
        health_changed: false,
    }
}

fn player_body(id: u64, x: i64, health: i64) -> Body {
    let mut b = bare_body(
        id,
        x,
        Collider::Cuboid(Vec3i::new(2, 2, 2)),
        CollisionGroups::new(GROUP_PLAYER, GROUP_ENEMY | GROUP_POINT),
    );
    b.is_player = true;
    b.health = Some(Health::new(health));
    b
}

fn point_body(id: u64, x: i64) -> Body {
    let mut b = bare_body(
        id,
        x,
        Collider::Sphere(1),
        CollisionGroups::new(GROUP_POINT, GROUP_PLAYER),
    );
    b.is_point = true;
    b
}

fn enemy_body(id: u64, x: i64, health: i64) -> Body {
    let mut b = bare_body(
        id,
        x,
        Collider::Cuboid(Vec3i::new(2, 2, 2)),
        CollisionGroups::new(GROUP_ENEMY, GROUP_PROJECTILE | GROUP_PLAYER),
    );
    b.is_enemy = true;
    b.health = Some(Health::new(health));
    b
}

fn projectile_body(id: u64, x: i64, damage: i64, max_passthrough: u32) -> Body {
    let mut b = bare_body(
        id,
        x,
        Collider::Sphere(2),
        CollisionGroups::new(GROUP_PROJECTILE, GROUP_ENEMY),
    );
    b.projectile = Some(Projectile::new(damage, 2, max_passthrough));
    b
}

fn orb_body(id: u64, x: i64, damage: i64, cooldown: u64, filters: u16) -> Body {
    let mut b = bare_body(
        id,
        x,
        Collider::Sphere(2),
        CollisionGroups::new(GROUP_PROJECTILE, filters),
    );
    b.orb = Some(Orb::new(damage, cooldown));
    b
}

fn health_of(world: &World, id: u64) -> i64 {
    let i = world.find_index(id).expect("body present");
    world.bodies[i].health.as_ref().expect("has health").current
}

#[test]
fn pickup_awards_once_and_removes_point() {
    let mut world = World::new();
    let mut score = PlayerScore::default();
    assert!(world.spawn(player_body(1, 0, 100)));
    assert!(world.spawn(point_body(2, 1)));
    let outcome = run_tick(&mut world, &mut score, 100);
    assert_eq!(score.total_points, 1);
    assert_eq!(score.current_points, 1);
    assert_eq!(outcome.removed, vec![2]);
    assert_eq!(world.len(), 1);
    assert!(world.find_index(2).is_none());
    // the next tick finds nothing left to award
    let outcome2 = run_tick(&mut world, &mut score, 100);
    assert_eq!(score.total_points, 1);
    assert_eq!(outcome2.events.len(), 0);
}

#[test]
fn pickup_shared_by_two_players_pays_once() {
    let mut world = World::new();
    let mut score = PlayerScore::default();
    assert!(world.spawn(player_body(1, 0, 100)));
    assert!(world.spawn(player_body(2, 1, 100)));
    assert!(world.spawn(point_body(3, 0)));
    let outcome = run_tick(&mut world, &mut score, 100);
    // both players overlap the pickup, but only the first processed event
    // grants points and despawn; the second reference is a no-op
    assert_eq!(score.total_points, 1);
    assert_eq!(outcome.removed, vec![3]);
}

#[test]
fn passthrough_limit_stops_after_one_target() {
    let mut world = World::new();
    let mut score = PlayerScore::default();
    assert!(world.spawn(projectile_body(10, 0, 3, 1)));
    assert!(world.spawn(enemy_body(20, 1, 10)));
    assert!(world.spawn(enemy_body(21, 2, 10)));
    let outcome = run_tick(&mut world, &mut score, 100);
    // the projectile overlapped both targets, but with max_hits = 1 only
    // the first encountered takes damage, and the projectile is removed
    // before the next tick's detection runs
    assert_eq!(health_of(&world, 20), 7);
    assert_eq!(health_of(&world, 21), 10);
    assert_eq!(outcome.removed, vec![10]);
    assert!(world.find_index(10).is_none());
    let _ = run_tick(&mut world, &mut score, 100);
    assert_eq!(health_of(&world, 20), 7);
    assert_eq!(health_of(&world, 21), 10);
}

#[test]
fn passthrough_two_hits_then_despawn() {
    let mut world = World::new();
    let mut score = PlayerScore::default();
    assert!(world.spawn(projectile_body(10, 0, 3, 2)));
    assert!(world.spawn(enemy_body(20, 1, 10)));
    assert!(world.spawn(enemy_body(21, 2, 10)));
    let outcome = run_tick(&mut world, &mut score, 100);
    // both targets take damage within the tick, then the projectile is
    // removed having consumed its passthrough budget
    assert_eq!(health_of(&world, 20), 7);
    assert_eq!(health_of(&world, 21), 7);
    assert_eq!(outcome.removed, vec![10]);
}

#[test]
fn projectile_damages_same_target_once() {
    let mut world = World::new();
    let mut score = PlayerScore::default();
    assert!(world.spawn(projectile_body(10, 0, 3, 5)));
    assert!(world.spawn(enemy_body(20, 1, 100)));
    let _ = run_tick(&mut world, &mut score, 100);
    assert_eq!(health_of(&world, 20), 97);
    // sustained overlap: the target is already in the projectile's hit
    // set, so no further damage
    let _ = run_tick(&mut world, &mut score, 100);
    assert_eq!(health_of(&world, 20), 97);
}

#[test]
fn cooldown_retriggers_at_bounded_rate() {
    let mut world = World::new();
    let mut score = PlayerScore::default();
    // field with damage 4 and cooldown 500, continuously overlapping one
    // target, ticked at 100 per tick for 1000 total (twice the cooldown)
    assert!(world.spawn(orb_body(30, 0, 4, 500, GROUP_ENEMY)));
    assert!(world.spawn(enemy_body(40, 1, 100)));
    for _ in 0..10 {
        let _ = run_tick(&mut world, &mut score, 100);
    }
    // damage applied exactly twice, not once per tick
    assert_eq!(health_of(&world, 40), 100 - 2 * 4);
}

#[test]
fn death_reported_once_for_two_damage_sources() {
    let mut world = World::new();
    let mut score = PlayerScore::default();
    assert!(world.spawn(enemy_body(50, 0, 5)));
    assert!(world.spawn(projectile_body(60, 1, 10, 2)));
    assert!(world.spawn(projectile_body(61, 2, 10, 2)));
    let outcome = run_tick(&mut world, &mut score, 100);
    // both projectiles drove the enemy's health below zero this tick,
    // yet exactly one death event is emitted for it
    assert_eq!(outcome.deaths.len(), 1);
    assert_eq!(outcome.deaths[0].0, 50);
    assert_eq!(score.enemies_killed, 1);
    // the dying enemy left one pickup spawn request at its position
    assert_eq!(outcome.point_spawns.len(), 1);
    assert_eq!(outcome.point_spawns[0], Vec3i::new(0, 0, 0));
    assert!(world.find_index(50).is_none());
    assert!(!outcome.player_died);
}

#[test]
fn player_death_ends_the_run() {
    let mut world = World::new();
    let mut score = PlayerScore::default();
    let mut player = player_body(1, 0, 5);
    // the player must be willing to collide with the field for the event
    // to be reported
    player.groups = CollisionGroups::new(GROUP_PLAYER, GROUP_ENEMY | GROUP_PROJECTILE);
    assert!(world.spawn(player));
    assert!(world.spawn(orb_body(70, 1, 10, 500, GROUP_PLAYER)));
    let outcome = run_tick(&mut world, &mut score, 100);
    assert_eq!(outcome.deaths.len(), 1);
    assert_eq!(outcome.deaths[0].0, 1);
    assert!(outcome.player_died);
    // the player is not an enemy: no pickup spawn, no kill counted
    assert_eq!(outcome.point_spawns.len(), 0);
    assert_eq!(score.enemies_killed, 0);
}

#[test]
fn melee_strikes_gate_on_cooldown() {
    let mut enemy = Enemy::default();
    // out of range: the cooldown runs but nothing lands
    assert_eq!(attack_players(&mut enemy, false, 100), None);
    // first contact strikes at once
    assert_eq!(attack_players(&mut enemy, true, 100), Some(10));
    // still in range while the cooldown runs: no strike
    assert_eq!(attack_players(&mut enemy, true, 500), None);
    assert_eq!(attack_players(&mut enemy, true, 400), None);
    // the cooldown has run out: strike again
    assert_eq!(attack_players(&mut enemy, true, 100), Some(10));
}

#[test]
fn external_damage_feeds_death_pipeline() {
    let mut world = World::new();
    let mut score = PlayerScore::default();
    assert!(world.spawn(player_body(1, 0, 5)));
    // a stale identifier is tolerated by skipping, not a fault
    world.apply_external_damage(99, 3);
    assert_eq!(health_of(&world, 1), 5);
    // a melee strike from outside the collision pipeline
    world.apply_external_damage(1, 10);
    assert_eq!(health_of(&world, 1), -5);
    let outcome = run_tick(&mut world, &mut score, 100);
    assert_eq!(outcome.deaths.len(), 1);
    assert_eq!(outcome.deaths[0].0, 1);
    assert!(outcome.player_died);
}

#[test]
fn over_damage_does_not_clamp_health() {
    let mut world = World::new();
    let mut score = PlayerScore::default();
    assert!(world.spawn(enemy_body(50, 0, 5)));
    assert!(world.spawn(projectile_body(60, 1, 30, 2)));
    let outcome = run_tick(&mut world, &mut score, 100);
    assert_eq!(outcome.deaths.len(), 1);
    // the enemy record is swept this tick; health went to 5 - 30 with no
    // clamping at zero before the death check observed it
    assert!(world.find_index(50).is_none());
}
