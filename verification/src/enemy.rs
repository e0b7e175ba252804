//! Enemy death handling: a dying enemy leaves a score pickup behind and
//! counts toward the kill tally.

use vstd::prelude::*;

use crate::collision::Vec3i;
use crate::health::DeathEvent;
use crate::score::PlayerScore;
use crate::timer::Countdown;
use crate::timer::spec_ticked;
use crate::world::BodyView;
use crate::world::World;
use crate::world::lemma_world_view_update;
use crate::world::spec_find;

verus! {

/// Melee state of one enemy: a first strike lands at once, further
/// strikes wait out the cooldown.
#[derive(PartialEq, Eq, Structural, Clone, Copy, Debug)]
pub struct Enemy {
    /// Damage dealt to the player per landed strike.
    pub damage: i64,
    /// Countdown between strikes.
    pub cooldown_timer: Countdown,
    /// Whether this enemy has struck at least once.
    pub has_attacked: bool,
}

impl Default for Enemy {
    fn default() -> (enemy: Self)
        ensures
            enemy == (Enemy {
                damage: 10,
                cooldown_timer: Countdown { remaining: 1000, duration: 1000 },
                has_attacked: false,
            }),
    {
        Self { damage: 10, cooldown_timer: Countdown::new(1000), has_attacked: false }
    }
}

/// One tick of the melee decision: the cooldown runs, and an enemy in
/// range of the player strikes on its first contact and again whenever
/// the cooldown has run out. Whether the enemy is in range is decided by
/// the caller from the two bodies' positions.
pub open spec fn spec_attack_step(enemy: Enemy, in_range: bool, delta: u64) -> (Enemy, Option<
    i64,
>) {
    let ticked = Enemy {
        cooldown_timer: Countdown {
            remaining: spec_ticked(enemy.cooldown_timer.remaining, delta),
            ..enemy.cooldown_timer
        },
        ..enemy
    };
    if in_range && (!ticked.has_attacked || ticked.cooldown_timer.remaining == 0) {
        (
            Enemy {
                has_attacked: true,
                cooldown_timer: Countdown {
                    remaining: ticked.cooldown_timer.duration,
                    ..ticked.cooldown_timer
                },
                ..ticked
            },
            Some(enemy.damage),
        )
    } else {
        (ticked, None)
    }
}

/// Advances one enemy's melee state by one tick; returns the damage to
/// deal to the player if the enemy strikes this tick.
pub fn attack_players(enemy: &mut Enemy, in_range: bool, delta: u64) -> (strike: Option<i64>)
    ensures
        *final(enemy) == spec_attack_step(*old(enemy), in_range, delta).0,
        strike == spec_attack_step(*old(enemy), in_range, delta).1,
{
    enemy.cooldown_timer.tick(delta);
    if in_range && (!enemy.has_attacked || enemy.cooldown_timer.finished()) {
        enemy.has_attacked = true;
        enemy.cooldown_timer.reset();
        Some(enemy.damage)
    } else {
        None
    }
}

/// Whether a death event despawns an enemy: the named body is still in
/// play and is an enemy.
pub open spec fn enemy_death_applies(s: Seq<BodyView>, ev: DeathEvent) -> bool {
    let i = spec_find(s, ev.0);
    &&& i >= 0
    &&& !s[i].removed
    &&& s[i].is_enemy
}

/// One death event: a dying enemy is removed, leaves a pickup spawn
/// request at its position, and counts one kill. Death events naming
/// bodies already removed, or bodies that are not enemies, are no-ops.
pub open spec fn spec_enemy_death(s: Seq<BodyView>, ev: DeathEvent) -> (
    Seq<BodyView>,
    Seq<Vec3i>,
    int,
) {
    if enemy_death_applies(s, ev) {
        let i = spec_find(s, ev.0);
        (s.update(i, BodyView { removed: true, ..s[i] }), seq![s[i].position], 1)
    } else {
        (s, Seq::empty(), 0)
    }
}

/// The whole enemy death pass over one tick's death events, in order.
pub open spec fn spec_enemy_deaths(s: Seq<BodyView>, deaths: Seq<DeathEvent>) -> (
    Seq<BodyView>,
    Seq<Vec3i>,
    int,
)
    decreases deaths.len(),
{
    if deaths.len() == 0 {
        (s, Seq::empty(), 0)
    } else {
        let first = spec_enemy_death(s, deaths[0]);
        let rest = spec_enemy_deaths(first.0, deaths.drop_first());
        (rest.0, first.1 + rest.1, first.2 + rest.2)
    }
}

/// The enemy death pass counts at most one kill per death event.
pub proof fn lemma_enemy_deaths_kill_bound(s: Seq<BodyView>, deaths: Seq<DeathEvent>)
    ensures
        0 <= spec_enemy_deaths(s, deaths).2 <= deaths.len(),
    decreases deaths.len(),
{
    if deaths.len() > 0 {
        lemma_enemy_deaths_kill_bound(spec_enemy_death(s, deaths[0]).0, deaths.drop_first());
    }
}

/// The enemy death handler: for each death event naming an enemy still in
/// play, spawns a pickup request at the enemy's position, counts the kill,
/// and despawns the enemy.
pub fn handle_death_events(world: &mut World, deaths: &Vec<DeathEvent>, score: &mut PlayerScore)
    -> (spawns: Vec<Vec3i>)
    requires
        old(world).wf(),
        old(score).enemies_killed + deaths@.len() <= u32::MAX,
    ensures
        final(world)@ == spec_enemy_deaths(old(world)@, deaths@).0,
        spawns@ == spec_enemy_deaths(old(world)@, deaths@).1,
        final(world).wf(),
        *final(score) == (PlayerScore {
            enemies_killed: (old(score).enemies_killed + spec_enemy_deaths(
                old(world)@,
                deaths@,
            ).2) as u32,
            ..*old(score)
        }),
{
    let ghost s0 = world@;
    let ghost score0 = *score;
    let ghost total = spec_enemy_deaths(s0, deaths@);
    let mut spawns: Vec<Vec3i> = Vec::new();
    let n = deaths.len();
    let mut e: usize = 0;
    let ghost mut kills: int = 0;
    proof {
        assert(deaths@.skip(0) =~= deaths@);
        assert(spawns@ + total.1 =~= total.1);
        lemma_enemy_deaths_kill_bound(s0, deaths@);
    }
    while e < n
        invariant
            n == deaths@.len(),
            e <= n,
            world.wf(),
            0 <= kills <= e,
            spec_enemy_deaths(world@, deaths@.skip(e as int)).0 == total.0,
            spawns@ + spec_enemy_deaths(world@, deaths@.skip(e as int)).1 == total.1,
            kills + spec_enemy_deaths(world@, deaths@.skip(e as int)).2 == total.2,
            score0.enemies_killed + n <= u32::MAX,
            *score == (PlayerScore {
                enemies_killed: (score0.enemies_killed + kills) as u32,
                ..score0
            }),
        decreases n - e,
    {
        let ghost w0 = world@;
        let ghost spawns0 = spawns@;
        let ghost suffix = deaths@.skip(e as int);
        proof {
            assert(suffix[0] == deaths@[e as int]);
            assert(suffix.drop_first() =~= deaths@.skip(e as int + 1));
        }
        let ev = deaths[e];
        match world.find_index(ev.0) {
            Some(i) => {
                proof {
                    assert(world@[i as int] == world.bodies@[i as int]@);
                }
                if !world.bodies[i].removed && world.bodies[i].is_enemy {
                    assert(enemy_death_applies(w0, deaths@[e as int]));
                    let position = world.bodies[i].position;
                    spawns.push(position);
                    score.add_enemy_killed();
                    let ghost b0 = world.bodies@;
                    {
                        let body = &mut world.bodies[i];
                        body.mark_removed();
                    }
                    proof {
                        let bnew = world.bodies@[i as int];
                        assert(world.bodies@ == b0.update(i as int, bnew));
                        lemma_world_view_update(b0, i as int, bnew);
                        assert(world@ =~= w0.update(
                            i as int,
                            BodyView { removed: true, ..w0[i as int] },
                        ));
                        assert forall|i2: int, j2: int|
                            0 <= i2 < j2 < world@.len() implies world@[i2].id != world@[j2].id by {
                            assert(w0[i2].id == world@[i2].id);
                            assert(w0[j2].id == world@[j2].id);
                        }
                        assert forall|k: int|
                            0 <= k < world@.len() implies (#[trigger] world@[k]).wf() by {
                            assert(w0[k].wf());
                        }
                        assert forall|k: int|
                            0 <= k < world@.len() implies crate::world::budget_ok(
                            #[trigger] world@[k],
                        ) by {
                            assert(crate::world::budget_ok(w0[k]));
                        }
                        assert(spawns@ =~= spawns0 + seq![w0[i as int].position]);
                        assert((spawns0 + seq![w0[i as int].position]) + spec_enemy_deaths(
                            world@,
                            deaths@.skip(e as int + 1),
                        ).1 =~= spawns0 + spec_enemy_deaths(w0, suffix).1);
                        kills = kills + 1;
                    }
                } else {
                    proof {
                        assert(!enemy_death_applies(w0, deaths@[e as int]));
                        assert(spawns@ + spec_enemy_deaths(w0, suffix).1 =~= spawns@
                            + spec_enemy_deaths(world@, deaths@.skip(e as int + 1)).1);
                    }
                }
            },
            None => {
                proof {
                    assert(!enemy_death_applies(w0, deaths@[e as int]));
                    assert(spawns@ + spec_enemy_deaths(w0, suffix).1 =~= spawns@
                        + spec_enemy_deaths(world@, deaths@.skip(e as int + 1)).1);
                }
            },
        }
        e = e + 1;
    }
    proof {
        assert(deaths@.skip(n as int) =~= Seq::<DeathEvent>::empty());
        assert(spawns@ + Seq::<Vec3i>::empty() =~= spawns@);
    }
    spawns
}

} // verus!
