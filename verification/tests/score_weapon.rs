use orbit_arena::class_builder::ClassBuilder;
use orbit_arena::game_state::{in_game, in_game_not_paused, not_paused, AppState, GameState};
use orbit_arena::game_timer::GameTimer;
use orbit_arena::health::apply_damage;
use orbit_arena::health::Health;
use orbit_arena::orb::Orb;
use orbit_arena::projectile::Projectile;
use orbit_arena::score::PlayerScore;
use orbit_arena::timer::Countdown;
use orbit_arena::weapon::fire_weapons;
use orbit_arena::weapon::Weapon;
use orbit_arena::weapon::WeaponState;

#[test]
fn score_accumulates_points() {
    let mut score = PlayerScore::default();
    assert_eq!(score.level, 1);
    assert_eq!(score.next_level, 1);
    score.add_points(3);
    score.add_points(2);
    assert_eq!(score.total_points, 5);
    assert_eq!(score.current_points, 5);
    score.add_enemy_killed();
    score.add_enemy_killed();
    assert_eq!(score.enemies_killed, 2);
}

#[test]
fn level_up_consumes_threshold_and_doubles_it() {
    let mut score = PlayerScore::default();
    score.add_points(3);
    assert!(score.get_level_up());
    assert_eq!(score.level, 2);
    assert_eq!(score.next_level, 2);
    assert_eq!(score.current_points, 2);
    assert!(score.get_level_up());
    assert_eq!(score.level, 3);
    assert_eq!(score.next_level, 4);
    assert_eq!(score.current_points, 0);
    assert!(!score.get_level_up());
    assert_eq!(score.level, 3);
}

#[test]
fn countdown_ticks_and_resets() {
    let mut timer = Countdown::new(500);
    assert!(!timer.finished());
    timer.tick(200);
    assert_eq!(timer.remaining, 300);
    timer.tick(400);
    assert_eq!(timer.remaining, 0);
    assert!(timer.finished());
    timer.reset();
    assert_eq!(timer.remaining, 500);
    timer.set_duration(100);
    timer.reset();
    assert_eq!(timer.remaining, 100);
}

#[test]
fn weapon_fires_a_burst_then_cools_down() {
    let mut weapon = Weapon::new(300);
    assert_eq!(weapon.state, WeaponState::Cooldown);
    // cooldown runs out after 300 time units
    assert!(!fire_weapons(&mut weapon, 200, 3));
    assert_eq!(weapon.state, WeaponState::Cooldown);
    assert!(!fire_weapons(&mut weapon, 100, 3));
    assert_eq!(weapon.state, WeaponState::Attack);
    // the first shot of the burst fires at once
    assert!(fire_weapons(&mut weapon, 100, 3));
    assert_eq!(weapon.fire_count, 1);
    // the next shot waits out the fire interval of 100
    assert!(!fire_weapons(&mut weapon, 100, 3));
    assert!(fire_weapons(&mut weapon, 100, 3));
    assert_eq!(weapon.fire_count, 2);
    // the burst's last shot sends the weapon back to cooldown
    assert!(!fire_weapons(&mut weapon, 100, 3));
    assert!(fire_weapons(&mut weapon, 100, 3));
    assert_eq!(weapon.state, WeaponState::Cooldown);
    assert_eq!(weapon.fire_count, 0);
}

#[test]
fn damage_saturates_instead_of_wrapping() {
    assert_eq!(apply_damage(10, 3), 7);
    assert_eq!(apply_damage(0, 5), -5);
    assert_eq!(apply_damage(i64::MIN + 2, 5), i64::MIN);
}

#[test]
fn health_constructor_fills_both_fields() {
    let h = Health::new(40);
    assert_eq!(h.current, 40);
    assert_eq!(h.max_health, 40);
    let d = Health::default();
    assert_eq!(d.current, 100);
    assert_eq!(d.max_health, 100);
}

#[test]
fn projectile_tracks_distinct_hits() {
    let mut p = Projectile::new(5, 2, 3);
    assert!(!p.has_hit(9));
    p.record_hit(9);
    assert!(p.has_hit(9));
    assert_eq!(p.passthrough_count, 1);
    p.record_hit(11);
    assert_eq!(p.passthrough_count, 2);
    assert!(p.has_hit(11));
    assert!(!p.has_hit(10));
}

#[test]
fn orb_cooldown_expires_exactly_on_time() {
    let mut orb = Orb::new(4, 500);
    assert!(!orb.on_cooldown(9));
    orb.record_hit(9);
    assert!(orb.on_cooldown(9));
    orb.tick_cooldowns(499);
    assert!(orb.on_cooldown(9));
    orb.tick_cooldowns(1);
    // the entry that just ran out is purged, freeing the target
    assert!(!orb.on_cooldown(9));
    // an arbitrarily long pause clears everything without wrapping
    orb.record_hit(9);
    orb.record_hit(11);
    orb.tick_cooldowns(u64::MAX);
    assert!(!orb.on_cooldown(9));
    assert!(!orb.on_cooldown(11));
}

#[test]
fn game_timer_formats_elapsed_time() {
    let mut timer = GameTimer::default();
    timer.tick(65_000);
    assert_eq!(timer.to_time_string(), "01:05");
    let mut later = GameTimer::default();
    later.tick(3_723_000);
    assert_eq!(later.to_time_string(), "01:02:03");
    let ten_hours = GameTimer { elapsed_millis: 36_000_000 };
    assert_eq!(ten_hours.to_time_string(), "10:00:00");
    let start = GameTimer::default();
    assert_eq!(start.to_time_string(), "00:00");
}

#[test]
fn game_runs_only_in_live_play() {
    assert!(in_game(&AppState::Game));
    assert!(!in_game(&AppState::Menu));
    assert!(!in_game(&AppState::GameOver));
    assert!(not_paused(&GameState::Play));
    assert!(!not_paused(&GameState::Paused));
    assert!(!not_paused(&GameState::PowerUp));
    assert!(in_game_not_paused(&AppState::Game, &GameState::Play));
    assert!(!in_game_not_paused(&AppState::Game, &GameState::Paused));
    assert!(!in_game_not_paused(&AppState::Menu, &GameState::Play));
}

struct AddOne;

impl ClassBuilder<u32> for AddOne {
    fn apply(&self, bundle: &mut u32) {
        *bundle += 1;
    }
}

struct Double;

impl ClassBuilder<u32> for Double {
    fn apply(&self, bundle: &mut u32) {
        *bundle *= 2;
    }
}

#[test]
fn class_builders_compose_in_order() {
    let mut value: u32 = 3;
    ().apply(&mut value);
    assert_eq!(value, 3);
    (AddOne, Double).apply(&mut value);
    assert_eq!(value, 8);
    (AddOne, Double, AddOne).apply(&mut value);
    assert_eq!(value, 19);
}
