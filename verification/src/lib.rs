//! Core of a tick-based combat simulation on a spherical playfield.
//!
//! Many small bodies (player, enemies, projectiles, orbiting damage fields,
//! score pickups) move under external control; each tick this library detects
//! which pairs of bodies overlap, filters the pairs through collision-group
//! masks, deduplicates unordered pairs, and feeds the resulting events to the
//! combat resolvers: one-shot pickup collection, passthrough-limited
//! projectile damage, and cooldown-gated persistent-field damage. Health
//! changes are then folded into death events, exactly one per dying body per
//! tick.
//!
//! All quantities are plain integers: body identifiers are `u64`, positions
//! and shape sizes live on a fixed-point grid, durations are integral time
//! units. The surrounding application converts its own units at the boundary.

pub mod class_builder;
pub mod collision;
pub mod enemy;
pub mod game_state;
pub mod game_timer;
pub mod health;
pub mod orb;
pub mod player;
pub mod point;
pub mod projectile;
pub mod score;
pub mod timer;
pub mod weapon;
pub mod world;
