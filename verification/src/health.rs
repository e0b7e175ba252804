//! Health values, damage application, and death events.

use vstd::prelude::*;

use crate::world::BodyView;
use crate::world::World;
use crate::world::ids_distinct;

verus! {

/// Emitted exactly once per body per tick in which its health is observed
/// at or below zero.
#[derive(PartialEq, Eq, Structural, Clone, Copy, Debug)]
pub struct DeathEvent(pub u64);

/// Hit points of a damageable body. `current` may go negative under
/// over-damage and is only ever used to trigger the death check;
/// `max_health` is externally adjustable but never negative.
#[derive(PartialEq, Eq, Structural, Clone, Copy, Debug)]
pub struct Health {
    pub current: i64,
    pub max_health: i64,
}

impl Health {
    /// The ceiling never drops below zero.
    pub open spec fn wf(self) -> bool {
        self.max_health >= 0
    }

    /// A fresh body at full health.
    pub fn new(health: i64) -> (fresh: Self)
        requires
            health >= 0,
        ensures
            fresh.current == health,
            fresh.max_health == health,
    {
        Self { current: health, max_health: health }
    }
}

impl Default for Health {
    /// The standard hit points of a newly spawned body.
    fn default() -> (fresh: Self)
        ensures
            fresh.current == 100,
            fresh.max_health == 100,
    {
        Self { current: 100, max_health: 100 }
    }
}

/// `value` lowered by `damage`, saturating at the bottom of the range
/// instead of wrapping: over-damage drives health arbitrarily negative,
/// which only ever feeds the death check, so no clamping at zero happens
/// at this layer.
pub open spec fn spec_damaged(value: i64, damage: i64) -> i64 {
    if value - damage >= i64::MIN {
        (value - damage) as i64
    } else {
        i64::MIN
    }
}

/// Subtracts a non-negative damage value from a health value.
pub fn apply_damage(value: i64, damage: i64) -> (lowered: i64)
    requires
        damage >= 0,
    ensures
        lowered == spec_damaged(value, damage),
        lowered <= value,
{
    if value >= i64::MIN + damage {
        value - damage
    } else {
        i64::MIN
    }
}

/// Whether the death check fires for a body this tick: the body is still
/// in play, its health was mutated during the tick, and the observed
/// value is at or below zero. Death is a condition derived from health,
/// not a stored state.
pub open spec fn dying(b: BodyView) -> bool {
    &&& !b.removed
    &&& b.health_changed
    &&& b.health.is_some()
    &&& b.health.unwrap().current <= 0
}

/// The death events of one tick, one per dying body, in arena order.
pub open spec fn spec_death_events(s: Seq<BodyView>) -> Seq<DeathEvent>
    decreases s.len(),
{
    if s.len() == 0 {
        Seq::empty()
    } else {
        let head: Seq<DeathEvent> = if dying(s[0]) {
            seq![DeathEvent(s[0].id)]
        } else {
            Seq::empty()
        };
        head + spec_death_events(s.drop_first())
    }
}

/// Observes the health values mutated during the tick and emits exactly
/// one death event per body whose health is at or below zero, however
/// many times the health was mutated.
pub fn handle_health_changed(world: &World) -> (deaths: Vec<DeathEvent>)
    ensures
        deaths@ == spec_death_events(world@),
{
    let ghost s = world@;
    let n = world.bodies.len();
    let mut deaths: Vec<DeathEvent> = Vec::new();
    let mut i: usize = 0;
    proof {
        assert(s.skip(0) =~= s);
        assert(deaths@ + spec_death_events(s) =~= spec_death_events(s));
    }
    while i < n
        invariant
            s == world@,
            n == world.bodies@.len(),
            s.len() == n,
            i <= n,
            deaths@ + spec_death_events(s.skip(i as int)) == spec_death_events(s),
        decreases n - i,
    {
        let ghost deaths0 = deaths@;
        let ghost suffix = s.skip(i as int);
        proof {
            assert(world@[i as int] == world.bodies@[i as int]@);
            assert(suffix[0] == s[i as int]);
            assert(suffix.drop_first() =~= s.skip(i as int + 1));
        }
        let b = &world.bodies[i];
        let low = match &b.health {
            Some(h) => h.current <= 0,
            None => false,
        };
        if !b.removed && b.health_changed && low {
            assert(dying(s[i as int]));
            deaths.push(DeathEvent(b.id));
            proof {
                let ev = DeathEvent(s[i as int].id);
                assert(deaths@ =~= deaths0 + seq![ev]);
                assert((deaths0 + seq![ev]) + spec_death_events(s.skip(i as int + 1)) =~= deaths0
                    + spec_death_events(suffix));
            }
        } else {
            assert(!dying(s[i as int]));
        }
        i = i + 1;
    }
    proof {
        assert(s.skip(n as int) =~= Seq::<BodyView>::empty());
        assert(deaths@ + spec_death_events(s.skip(n as int)) =~= deaths@);
    }
    deaths
}

/// One tick emits no more death events than there are bodies.
pub proof fn lemma_death_events_len(s: Seq<BodyView>)
    ensures
        spec_death_events(s).len() <= s.len(),
    decreases s.len(),
{
    if s.len() > 0 {
        lemma_death_events_len(s.drop_first());
    }
}

proof fn lemma_death_contains_left(a: Seq<DeathEvent>, b: Seq<DeathEvent>, x: DeathEvent)
    requires
        a.contains(x),
    ensures
        (a + b).contains(x),
{
    let k = choose|k: int| 0 <= k < a.len() && a[k] == x;
    assert((a + b)[k] == x);
}

proof fn lemma_death_contains_right(a: Seq<DeathEvent>, b: Seq<DeathEvent>, x: DeathEvent)
    requires
        b.contains(x),
    ensures
        (a + b).contains(x),
{
    let k = choose|k: int| 0 <= k < b.len() && b[k] == x;
    assert((a + b)[a.len() + k] == x);
}

/// Soundness of the death check: every death event of a tick names a
/// body that is dying this tick.
pub proof fn lemma_death_events_sound(s: Seq<BodyView>)
    ensures
        forall|ev: DeathEvent| #[trigger] spec_death_events(s).contains(ev) ==> exists|k: int|
            0 <= k < s.len() && (#[trigger] s[k]).id == ev.0 && dying(s[k]),
    decreases s.len(),
{
    if s.len() > 0 {
        let rest = s.drop_first();
        lemma_death_events_sound(rest);
        let evs = spec_death_events(s);
        let rest_evs = spec_death_events(rest);
        assert forall|ev: DeathEvent| #[trigger] evs.contains(ev) implies exists|k: int|
            0 <= k < s.len() && (#[trigger] s[k]).id == ev.0 && dying(s[k]) by {
            let k = choose|k: int| 0 <= k < evs.len() && evs[k] == ev;
            if dying(s[0]) && k == 0 {
                assert(s[0].id == ev.0 && dying(s[0]));
            } else {
                if dying(s[0]) {
                    assert(rest_evs[k - 1] == ev);
                } else {
                    assert(rest_evs[k] == ev);
                }
                assert(rest_evs.contains(ev));
                let k2 = choose|k2: int|
                    0 <= k2 < rest.len() && (#[trigger] rest[k2]).id == ev.0 && dying(rest[k2]);
                assert(s[k2 + 1].id == ev.0 && dying(s[k2 + 1]));
            }
        }
    }
}

/// Death idempotence: with distinct identifiers, no two death events of
/// one tick name the same body, so a body driven to death by several
/// damage sources within one tick still yields exactly one death event.
pub proof fn lemma_death_events_unique(s: Seq<BodyView>)
    requires
        ids_distinct(s),
    ensures
        forall|k1: int, k2: int|
            0 <= k1 < k2 < spec_death_events(s).len() ==> (#[trigger] spec_death_events(
                s,
            )[k1]).0 != (#[trigger] spec_death_events(s)[k2]).0,
    decreases s.len(),
{
    if s.len() > 0 {
        let rest = s.drop_first();
        assert(forall|k: int| 0 <= k < rest.len() ==> rest[k] == s[k + 1]);
        lemma_death_events_unique(rest);
        lemma_death_events_sound(rest);
        let evs = spec_death_events(s);
        let rest_evs = spec_death_events(rest);
        assert forall|k1: int, k2: int|
            0 <= k1 < k2 < evs.len() implies (#[trigger] evs[k1]).0 != (#[trigger] evs[k2]).0 by {
            if dying(s[0]) {
                if k1 == 0 {
                    assert(evs[k2] == rest_evs[k2 - 1]);
                    assert(rest_evs.contains(rest_evs[k2 - 1]));
                    let kb = choose|kb: int|
                        0 <= kb < rest.len() && (#[trigger] rest[kb]).id == rest_evs[k2 - 1].0
                            && dying(rest[kb]);
                    assert(s[kb + 1].id == evs[k2].0);
                    assert(s[0].id != s[kb + 1].id);
                } else {
                    assert(evs[k1] == rest_evs[k1 - 1]);
                    assert(evs[k2] == rest_evs[k2 - 1]);
                }
            } else {
                assert(evs[k1] == rest_evs[k1]);
                assert(evs[k2] == rest_evs[k2]);
            }
        }
    }
}

/// Completeness of the death check: every dying body has its death event
/// emitted this tick.
pub proof fn lemma_death_events_complete(s: Seq<BodyView>, k: int)
    requires
        0 <= k < s.len(),
        dying(s[k]),
    ensures
        spec_death_events(s).contains(DeathEvent(s[k].id)),
    decreases s.len(),
{
    let rest = s.drop_first();
    let head: Seq<DeathEvent> = if dying(s[0]) {
        seq![DeathEvent(s[0].id)]
    } else {
        Seq::empty()
    };
    if k == 0 {
        assert(dying(s[0]));
        assert(head[0] == DeathEvent(s[0].id));
        assert(head.contains(DeathEvent(s[0].id)));
        lemma_death_contains_left(head, spec_death_events(rest), DeathEvent(s[0].id));
    } else {
        assert(rest[k - 1] == s[k]);
        lemma_death_events_complete(rest, k - 1);
        lemma_death_contains_right(head, spec_death_events(rest), DeathEvent(s[k].id));
    }
}

} // verus!
