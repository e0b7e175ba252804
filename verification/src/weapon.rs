//! The weapon fire cycle: bursts of shots separated by a cooldown.

use vstd::prelude::*;

use crate::timer::Countdown;
use crate::timer::spec_ticked;

verus! {

/// Time between the shots of one burst, in milliseconds.
pub const WEAPON_FIRE_INTERVAL_MILLIS: u64 = 100;

/// Default cooldown between bursts, in milliseconds.
pub const WEAPON_COOLDOWN_MILLIS: u64 = 1000;

/// Phase of the weapon's fire cycle.
#[derive(Default, Debug, Copy, Clone, Eq, PartialEq, Structural, Hash)]
pub enum WeaponState {
    /// Emitting a burst of shots.
    Attack,
    /// Waiting out the cooldown between bursts.
    #[default]
    Cooldown,
}

/// A weapon cycling between attack bursts and cooldown: in the attack
/// phase it fires one shot per fire interval until the burst size is
/// reached, then waits out the cooldown.
#[derive(PartialEq, Eq, Structural, Clone, Copy, Debug)]
pub struct Weapon {
    /// Current phase of the fire cycle.
    pub state: WeaponState,
    /// Countdown between bursts.
    pub cooldown_timer: Countdown,
    /// Countdown between the shots of one burst.
    pub fire_timer: Countdown,
    /// Shots fired in the current burst.
    pub fire_count: u32,
}

impl Weapon {
    /// A fresh weapon, waiting out its first cooldown.
    pub fn new(cooldown: u64) -> (weapon: Self)
        ensures
            weapon == (Weapon {
                state: WeaponState::Cooldown,
                cooldown_timer: Countdown { remaining: cooldown, duration: cooldown },
                fire_timer: Countdown {
                    remaining: WEAPON_FIRE_INTERVAL_MILLIS,
                    duration: WEAPON_FIRE_INTERVAL_MILLIS,
                },
                fire_count: 0,
            }),
    {
        Self {
            state: WeaponState::Cooldown,
            cooldown_timer: Countdown::new(cooldown),
            fire_timer: Countdown::new(WEAPON_FIRE_INTERVAL_MILLIS),
            fire_count: 0,
        }
    }
}

/// One tick of the fire cycle: in the attack phase, the first shot of a
/// burst fires at once and each further shot fires when the fire interval
/// runs out, with the phase falling back to cooldown once the burst size
/// is reached; in the cooldown phase, the countdown runs and the attack
/// phase begins when it finishes. The returned flag says whether a shot
/// was fired.
pub open spec fn spec_weapon_step(w: Weapon, delta: u64, attack_amount: u32) -> (Weapon, bool) {
    match w.state {
        WeaponState::Attack => {
            if w.fire_count == 0 || w.fire_timer.remaining == 0 {
                let count = (w.fire_count + 1) as u32;
                if count >= attack_amount {
                    (
                        Weapon {
                            state: WeaponState::Cooldown,
                            fire_timer: Countdown {
                                remaining: w.fire_timer.duration,
                                ..w.fire_timer
                            },
                            fire_count: 0,
                            ..w
                        },
                        true,
                    )
                } else {
                    (
                        Weapon {
                            fire_timer: Countdown {
                                remaining: w.fire_timer.duration,
                                ..w.fire_timer
                            },
                            fire_count: count,
                            ..w
                        },
                        true,
                    )
                }
            } else {
                (
                    Weapon {
                        fire_timer: Countdown {
                            remaining: spec_ticked(w.fire_timer.remaining, delta),
                            ..w.fire_timer
                        },
                        ..w
                    },
                    false,
                )
            }
        },
        WeaponState::Cooldown => {
            let ticked = Countdown {
                remaining: spec_ticked(w.cooldown_timer.remaining, delta),
                ..w.cooldown_timer
            };
            if ticked.remaining == 0 {
                (Weapon { state: WeaponState::Attack, cooldown_timer: ticked, ..w }, false)
            } else {
                (Weapon { cooldown_timer: ticked, ..w }, false)
            }
        },
    }
}

/// Advances one weapon's fire cycle by one tick and reports whether it
/// fires a shot this tick.
pub fn fire_weapons(weapon: &mut Weapon, delta: u64, attack_amount: u32) -> (fired: bool)
    requires
        old(weapon).fire_count < u32::MAX,
    ensures
        *final(weapon) == spec_weapon_step(*old(weapon), delta, attack_amount).0,
        fired == spec_weapon_step(*old(weapon), delta, attack_amount).1,
{
    match weapon.state {
        WeaponState::Attack => {
            if weapon.fire_count == 0 || weapon.fire_timer.finished() {
                weapon.fire_count = weapon.fire_count + 1;
                weapon.fire_timer.reset();
                if weapon.fire_count >= attack_amount {
                    weapon.state = WeaponState::Cooldown;
                    weapon.fire_timer.reset();
                    weapon.fire_count = 0;
                }
                true
            } else {
                weapon.fire_timer.tick(delta);
                false
            }
        },
        WeaponState::Cooldown => {
            weapon.cooldown_timer.tick(delta);
            if weapon.cooldown_timer.finished() {
                weapon.state = WeaponState::Attack;
            }
            false
        },
    }
}

} // verus!
