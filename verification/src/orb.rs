//! Persistent-field (orb) damage state with per-target re-trigger
//! cooldowns, and the field damage resolver.

use vstd::prelude::*;

use crate::collision::CollisionEvent;
use crate::health::Health;
use crate::health::spec_damaged;
use crate::world::BodyView;
use crate::world::World;
use crate::world::lemma_world_view_update;
use crate::world::spec_find;

verus! {

/// Re-trigger interval of an orbiting damage field, in milliseconds.
pub const ORB_COOLDOWN_MILLIS: u64 = 500;

/// Whether some cooldown entry is held for `target`.
pub open spec fn cm_contains(entries: Seq<(u64, u64)>, target: u64) -> bool {
    exists|k: int| 0 <= k < entries.len() && entries[k].0 == target
}

/// No target holds two cooldown entries at once.
pub open spec fn cm_keys_distinct(entries: Seq<(u64, u64)>) -> bool {
    forall|i: int, j: int|
        0 <= i < j < entries.len() ==> entries[i].0 != entries[j].0
}

/// Every entry has time left on it; expired entries are purged.
pub open spec fn cm_live(entries: Seq<(u64, u64)>) -> bool {
    forall|k: int| 0 <= k < entries.len() ==> (#[trigger] entries[k]).1 >= 1
}

/// The cooldown entries after `delta` time units pass: each timer counts
/// down, and entries that run out are removed, freeing the target for
/// re-damage.
pub open spec fn cm_ticked(entries: Seq<(u64, u64)>, delta: u64) -> Seq<(u64, u64)>
    decreases entries.len(),
{
    if entries.len() == 0 {
        Seq::empty()
    } else {
        let rest = cm_ticked(entries.drop_first(), delta);
        if entries[0].1 > delta {
            seq![(entries[0].0, (entries[0].1 - delta) as u64)] + rest
        } else {
            rest
        }
    }
}

/// Mathematical model of a persistent damage field.
#[verifier::ext_equal]
pub ghost struct OrbView {
    pub damage: i64,
    pub cooldown: u64,
    pub hits: Seq<(u64, u64)>,
}

impl OrbView {
    /// Damage is non-negative, the re-trigger interval is positive, and the
    /// cooldown entries hold each target at most once with time left.
    pub open spec fn wf(self) -> bool {
        &&& self.damage >= 0
        &&& self.cooldown >= 1
        &&& cm_keys_distinct(self.hits)
        &&& cm_live(self.hits)
    }

    /// Whether `target` may not be damaged again yet by this field.
    pub open spec fn on_cooldown(self, target: u64) -> bool {
        cm_contains(self.hits, target)
    }

    /// The state after damaging `target`: a fresh cooldown entry is held
    /// for it with the field's full re-trigger interval.
    pub open spec fn after_hit(self, target: u64) -> OrbView {
        OrbView { hits: self.hits.push((target, self.cooldown)), ..self }
    }

    /// The state after `delta` time units pass.
    pub open spec fn after_tick(self, delta: u64) -> OrbView {
        OrbView { hits: cm_ticked(self.hits, delta), ..self }
    }
}

/// A persistent damage field (an orbiting body that stays alive and is
/// re-tested every tick): it damages a target at most once per re-trigger
/// interval, tracked by a per-target countdown.
#[derive(Debug)]
pub struct Orb {
    /// Damage subtracted from a target's health on each triggered hit.
    pub damage: i64,
    /// Re-trigger interval in time units; each hit starts a countdown of
    /// this length for the target hit.
    pub cooldown: u64,
    /// Per-target countdowns: targets listed here may not be damaged again
    /// until their timer runs out.
    pub hits: Vec<(u64, u64)>,
}

impl View for Orb {
    type V = OrbView;

    open spec fn view(&self) -> OrbView {
        OrbView { damage: self.damage, cooldown: self.cooldown, hits: self.hits@ }
    }
}

impl Orb {
    pub fn new(damage: i64, cooldown: u64) -> (orb: Self)
        requires
            damage >= 0,
            cooldown >= 1,
        ensures
            orb@ == (OrbView { damage, cooldown, hits: Seq::<(u64, u64)>::empty() }),
            orb@.wf(),
    {
        Self { damage, cooldown, hits: Vec::new() }
    }

    /// Whether `target` still has a live cooldown entry for this field.
    pub fn on_cooldown(&self, target: u64) -> (held: bool)
        ensures
            held == self@.on_cooldown(target),
    {
        let n = self.hits.len();
        let mut i: usize = 0;
        while i < n
            invariant
                n == self.hits@.len(),
                i <= n,
                forall|k: int| 0 <= k < i ==> self.hits@[k].0 != target,
            decreases n - i,
        {
            if self.hits[i].0 == target {
                return true;
            }
            i = i + 1;
        }
        false
    }

    /// Records a triggered hit on a target that is not on cooldown: the
    /// target is put on cooldown for the full re-trigger interval.
    pub fn record_hit(&mut self, target: u64)
        requires
            old(self)@.wf(),
            !old(self)@.on_cooldown(target),
        ensures
            final(self)@ == old(self)@.after_hit(target),
            final(self)@.wf(),
    {
        let cooldown = self.cooldown;
        self.hits.push((target, cooldown));
        proof {
            let hits = self.hits@;
            assert forall|i: int, j: int| 0 <= i < j < hits.len() implies hits[i].0 != hits[j].0 by {
                if j == hits.len() - 1 {
                    assert(!cm_contains(old(self).hits@, target));
                }
            }
        }
    }

    /// Advances every cooldown entry by `delta` elapsed time units and
    /// purges the entries that run out.
    pub fn tick_cooldowns(&mut self, delta: u64)
        requires
            old(self)@.wf(),
        ensures
            final(self)@ == old(self)@.after_tick(delta),
            final(self)@.wf(),
    {
        let n = self.hits.len();
        let mut kept: Vec<(u64, u64)> = Vec::new();
        let mut i: usize = 0;
        proof {
            assert(self.hits@.skip(0) =~= self.hits@);
            assert(kept@ + cm_ticked(self.hits@, delta) =~= cm_ticked(self.hits@, delta));
        }
        while i < n
            invariant
                n == self.hits@.len(),
                i <= n,
                kept@ + cm_ticked(self.hits@.skip(i as int), delta) == cm_ticked(self.hits@, delta),
            decreases n - i,
        {
            let ghost kept0 = kept@;
            let ghost suffix = self.hits@.skip(i as int);
            let entry = self.hits[i];
            if entry.1 > delta {
                kept.push((entry.0, entry.1 - delta));
            }
            proof {
                assert(suffix[0] == self.hits@[i as int]);
                assert(suffix.drop_first() =~= self.hits@.skip(i as int + 1));
                if entry.1 > delta {
                    let pair = (entry.0, (entry.1 - delta) as u64);
                    assert(kept@ =~= kept0 + seq![pair]);
                    assert((kept0 + seq![pair]) + cm_ticked(self.hits@.skip(i as int + 1), delta)
                        =~= kept0 + cm_ticked(suffix, delta));
                }
            }
            i = i + 1;
        }
        proof {
            assert(self.hits@.skip(n as int) =~= Seq::<(u64, u64)>::empty());
            assert(kept@ + cm_ticked(self.hits@.skip(n as int), delta) =~= kept@);
            lemma_cm_ticked_wf(self.hits@, delta);
        }
        self.hits = kept;
    }
}

/// Ticking preserves the cooldown-map invariants: keys stay distinct,
/// every surviving entry still has time left, and no fresh target appears.
proof fn lemma_cm_ticked_wf(entries: Seq<(u64, u64)>, delta: u64)
    requires
        cm_keys_distinct(entries),
        cm_live(entries),
    ensures
        cm_keys_distinct(cm_ticked(entries, delta)),
        cm_live(cm_ticked(entries, delta)),
        forall|t: u64| cm_contains(cm_ticked(entries, delta), t) ==> cm_contains(entries, t),
    decreases entries.len(),
{
    if entries.len() > 0 {
        let rest = entries.drop_first();
        lemma_cm_ticked_wf(rest, delta);
        let tr = cm_ticked(rest, delta);
        let ticked = cm_ticked(entries, delta);
        assert(forall|k: int| 0 <= k < rest.len() ==> rest[k] == entries[k + 1]);
        if entries[0].1 > delta {
            let head = seq![(entries[0].0, (entries[0].1 - delta) as u64)];
            assert(ticked == head + tr);
            assert(ticked[0].0 == entries[0].0);
            assert(forall|j: int| 1 <= j < ticked.len() ==> ticked[j] == tr[j - 1]);
            assert forall|t: u64| cm_contains(ticked, t) implies cm_contains(entries, t) by {
                let k = choose|k: int| 0 <= k < ticked.len() && ticked[k].0 == t;
                if k == 0 {
                    assert(entries[0].0 == t);
                } else {
                    assert(tr[k - 1].0 == t);
                    assert(cm_contains(tr, t));
                    lemma_cm_contains_lift(entries, t);
                }
            }
            assert forall|i: int, j: int| 0 <= i < j < ticked.len() implies ticked[i].0
                != ticked[j].0 by {
                if i == 0 {
                    assert(ticked[j] == tr[j - 1]);
                    assert(cm_contains(tr, ticked[j].0));
                    assert(cm_contains(rest, ticked[j].0));
                    let k = choose|k: int| 0 <= k < rest.len() && rest[k].0 == ticked[j].0;
                    assert(entries[k + 1].0 == ticked[j].0);
                    assert(entries[0].0 != entries[k + 1].0);
                } else {
                    assert(ticked[i] == tr[i - 1]);
                    assert(ticked[j] == tr[j - 1]);
                }
            }
            assert forall|k: int| 0 <= k < ticked.len() implies (#[trigger] ticked[k]).1 >= 1 by {
                if k >= 1 {
                    assert(ticked[k] == tr[k - 1]);
                }
            }
        } else {
            assert(ticked == tr);
            assert forall|t: u64| cm_contains(ticked, t) implies cm_contains(entries, t) by {
                lemma_cm_contains_lift(entries, t);
            }
        }
    }
}

/// A target held in the tail of the entry list is held in the whole list.
proof fn lemma_cm_contains_lift(entries: Seq<(u64, u64)>, target: u64)
    requires
        entries.len() > 0,
        cm_contains(entries.drop_first(), target),
    ensures
        cm_contains(entries, target),
{
    let k = choose|k: int|
        0 <= k < entries.drop_first().len() && entries.drop_first()[k].0 == target;
    assert(entries[k + 1].0 == target);
}

/// Whether an event orientation triggers field damage: the first body is
/// a damageable target, the second a persistent damage field, both still
/// in play, and the target has no live cooldown entry for this field.
pub open spec fn field_applies(s: Seq<BodyView>, target_id: u64, orb_id: u64) -> bool {
    let ti = spec_find(s, target_id);
    let oi = spec_find(s, orb_id);
    &&& ti >= 0
    &&& !s[ti].removed
    &&& s[ti].health.is_some()
    &&& oi >= 0
    &&& !s[oi].removed
    &&& s[oi].orb.is_some()
    &&& !s[oi].orb.unwrap().on_cooldown(target_id)
}

/// One orientation of one event: on a qualifying target/field pair the
/// field's damage is subtracted from the target's health and the target
/// is put on cooldown for the field's full re-trigger interval, so
/// continuous overlap damages at a bounded rate rather than every tick.
pub open spec fn spec_field_orient(s: Seq<BodyView>, target_id: u64, orb_id: u64) -> Seq<
    BodyView,
> {
    if field_applies(s, target_id, orb_id) {
        let ti = spec_find(s, target_id);
        let oi = spec_find(s, orb_id);
        let damage = s[oi].orb.unwrap().damage;
        let h = s[ti].health.unwrap();
        let s1 = s.update(
            ti,
            BodyView {
                health: Some(
                    Health { current: spec_damaged(h.current, damage), max_health: h.max_health },
                ),
                health_changed: true,
                ..s[ti]
            },
        );
        s1.update(oi, BodyView { orb: Some(s1[oi].orb.unwrap().after_hit(target_id)), ..s1[oi] })
    } else {
        s
    }
}

/// Both orientations of one event, in order: the field may stand on
/// either side of the event.
pub open spec fn spec_field_event(s: Seq<BodyView>, ev: CollisionEvent) -> Seq<BodyView> {
    spec_field_orient(spec_field_orient(s, ev.e1, ev.e2), ev.e2, ev.e1)
}

/// The whole field damage pass over one tick's events, in order.
pub open spec fn spec_field_hits(s: Seq<BodyView>, events: Seq<CollisionEvent>) -> Seq<BodyView>
    decreases events.len(),
{
    if events.len() == 0 {
        s
    } else {
        spec_field_hits(spec_field_event(s, events[0]), events.drop_first())
    }
}

/// One body after a tick's worth of cooldown bookkeeping: a field's
/// per-target countdowns advance and expired entries are purged; other
/// bodies are untouched.
pub open spec fn spec_ticked_body(b: BodyView, delta: u64) -> BodyView {
    if b.orb.is_some() {
        BodyView { orb: Some(b.orb.unwrap().after_tick(delta)), ..b }
    } else {
        b
    }
}

/// The whole arena after a tick's worth of cooldown bookkeeping.
pub open spec fn spec_tick_fields(s: Seq<BodyView>, delta: u64) -> Seq<BodyView> {
    s.map_values(|b: BodyView| spec_ticked_body(b, delta))
}

/// The field damage pass never changes the number of body records.
pub proof fn lemma_field_hits_len(s: Seq<BodyView>, events: Seq<CollisionEvent>)
    ensures
        spec_field_hits(s, events).len() == s.len(),
    decreases events.len(),
{
    if events.len() > 0 {
        let ev = events[0];
        crate::world::lemma_spec_find(s, ev.e1);
        crate::world::lemma_spec_find(s, ev.e2);
        let first = spec_field_orient(s, ev.e1, ev.e2);
        assert(first.len() == s.len());
        crate::world::lemma_spec_find(first, ev.e1);
        crate::world::lemma_spec_find(first, ev.e2);
        let second = spec_field_orient(first, ev.e2, ev.e1);
        assert(second.len() == s.len());
        lemma_field_hits_len(spec_field_event(s, ev), events.drop_first());
    }
}

fn field_orient(world: &mut World, target_id: u64, orb_id: u64)
    requires
        old(world).wf(),
    ensures
        final(world)@ == spec_field_orient(old(world)@, target_id, orb_id),
        final(world).wf(),
        final(world)@.len() == old(world)@.len(),
{
    let ghost s0 = world@;
    match (world.find_index(target_id), world.find_index(orb_id)) {
        (Some(ti), Some(oi)) => {
            proof {
                assert(world@[ti as int] == world.bodies@[ti as int]@);
                assert(world@[oi as int] == world.bodies@[oi as int]@);
            }
            let target_ok = !world.bodies[ti].removed && world.bodies[ti].health.is_some();
            let orb_ok = !world.bodies[oi].removed && world.bodies[oi].orb.is_some();
            let cooling = match &world.bodies[oi].orb {
                Some(o) => o.on_cooldown(target_id),
                None => false,
            };
            if target_ok && orb_ok && !cooling {
                assert(field_applies(s0, target_id, orb_id));
                let damage = match &world.bodies[oi].orb {
                    Some(o) => o.damage,
                    None => 0,
                };
                assert(damage >= 0) by {
                    assert(s0[oi as int].wf());
                }
                let ghost b0 = world.bodies@;
                {
                    let body = &mut world.bodies[ti];
                    body.damage_health(damage);
                }
                let ghost h0 = s0[ti as int].health.unwrap();
                let ghost mid = s0.update(
                    ti as int,
                    BodyView {
                        health: Some(
                            Health {
                                current: spec_damaged(h0.current, damage),
                                max_health: h0.max_health,
                            },
                        ),
                        health_changed: true,
                        ..s0[ti as int]
                    },
                );
                proof {
                    let bnew = world.bodies@[ti as int];
                    assert(world.bodies@ == b0.update(ti as int, bnew));
                    lemma_world_view_update(b0, ti as int, bnew);
                    assert(world@ =~= mid);
                    assert(world@[oi as int].orb == s0[oi as int].orb);
                    assert(s0[oi as int].orb.unwrap().wf()) by {
                        assert(s0[oi as int].wf());
                    }
                }
                let ghost b1 = world.bodies@;
                {
                    let body = &mut world.bodies[oi];
                    body.orb_record_hit(target_id);
                }
                proof {
                    let bnew = world.bodies@[oi as int];
                    assert(world.bodies@ == b1.update(oi as int, bnew));
                    lemma_world_view_update(b1, oi as int, bnew);
                    assert(world@ =~= mid.update(
                        oi as int,
                        BodyView {
                            orb: Some(mid[oi as int].orb.unwrap().after_hit(target_id)),
                            ..mid[oi as int]
                        },
                    ));
                    assert forall|i: int, j: int|
                        0 <= i < j < world@.len() implies world@[i].id != world@[j].id by {
                        assert(s0[i].id == world@[i].id);
                        assert(s0[j].id == world@[j].id);
                    }
                    assert forall|k: int| 0 <= k < world@.len() implies (#[trigger] world@[k]).wf()
                        by {
                        assert(s0[k].wf());
                        if k == oi as int {
                            assert(world@[k].orb.unwrap().wf());
                        }
                    }
                    assert forall|k: int|
                        0 <= k < world@.len() implies crate::world::budget_ok(
                        #[trigger] world@[k],
                    ) by {
                        assert(crate::world::budget_ok(s0[k]));
                        assert(world@[k].projectile == s0[k].projectile);
                        assert(world@[k].removed == s0[k].removed);
                        assert(world@[k].id == s0[k].id);
                    }
                }
            } else {
                assert(!field_applies(s0, target_id, orb_id));
            }
        },
        _ => {
            assert(!field_applies(s0, target_id, orb_id));
        },
    }
}

/// The persistent-field damage resolver: consumes the tick's collision
/// events in order; a target with a live cooldown entry for the field is
/// ignored, any other qualifying target takes the field's damage and is
/// put on cooldown for the full re-trigger interval.
pub fn resolve_orb_hits(world: &mut World, events: &Vec<CollisionEvent>)
    requires
        old(world).wf(),
    ensures
        final(world)@ == spec_field_hits(old(world)@, events@),
        final(world).wf(),
{
    let ghost s0 = world@;
    let ghost total = spec_field_hits(s0, events@);
    let n = events.len();
    let mut e: usize = 0;
    proof {
        assert(events@.skip(0) =~= events@);
    }
    while e < n
        invariant
            n == events@.len(),
            e <= n,
            world.wf(),
            spec_field_hits(world@, events@.skip(e as int)) == total,
        decreases n - e,
    {
        proof {
            let suffix = events@.skip(e as int);
            assert(suffix[0] == events@[e as int]);
            assert(suffix.drop_first() =~= events@.skip(e as int + 1));
        }
        let ev = events[e];
        field_orient(world, ev.e1, ev.e2);
        field_orient(world, ev.e2, ev.e1);
        e = e + 1;
    }
    proof {
        assert(events@.skip(n as int) =~= Seq::<CollisionEvent>::empty());
    }
}

/// Advances every field's cooldown map by the elapsed tick duration and
/// purges expired entries, freeing those targets for re-damage. Runs
/// before the tick's collision resolution, so a target whose cooldown
/// exactly expires this tick is eligible again.
pub fn tick_orb_hits(world: &mut World, delta: u64)
    requires
        old(world).wf(),
    ensures
        final(world)@ == spec_tick_fields(old(world)@, delta),
        final(world).wf(),
{
    let ghost s0 = world@;
    let n = world.bodies.len();
    let mut i: usize = 0;
    while i < n
        invariant
            n == world.bodies@.len(),
            world@.len() == n,
            s0.len() == n,
            i <= n,
            forall|k: int| 0 <= k < i ==> world@[k] == spec_ticked_body(s0[k], delta),
            forall|k: int| i <= k < n ==> world@[k] == s0[k],
            world.wf(),
        decreases n - i,
    {
        let ghost w0 = world@;
        proof {
            assert(world@[i as int] == world.bodies@[i as int]@);
        }
        let has_orb = world.bodies[i].orb.is_some();
        if has_orb {
            proof {
                assert(s0[i as int].wf());
            }
            let ghost b0 = world.bodies@;
            {
                let body = &mut world.bodies[i];
                body.orb_tick_cooldowns(delta);
            }
            proof {
                let bnew = world.bodies@[i as int];
                assert(world.bodies@ == b0.update(i as int, bnew));
                lemma_world_view_update(b0, i as int, bnew);
                assert(world@ =~= w0.update(i as int, spec_ticked_body(s0[i as int], delta)));
                assert forall|i2: int, j2: int|
                    0 <= i2 < j2 < world@.len() implies world@[i2].id != world@[j2].id by {
                    assert(w0[i2].id == world@[i2].id);
                    assert(w0[j2].id == world@[j2].id);
                }
                assert forall|k: int| 0 <= k < world@.len() implies (#[trigger] world@[k]).wf() by {
                    assert(w0[k].wf());
                    if k == i as int {
                        assert(world@[k].orb.unwrap().wf());
                    }
                }
                assert forall|k: int|
                    0 <= k < world@.len() implies crate::world::budget_ok(#[trigger] world@[k]) by {
                    assert(crate::world::budget_ok(w0[k]));
                    assert(world@[k].projectile == w0[k].projectile);
                    assert(world@[k].removed == w0[k].removed);
                    assert(world@[k].id == w0[k].id);
                }
            }
        }
        i = i + 1;
    }
    proof {
        assert(world@ =~= spec_tick_fields(s0, delta));
    }
}

} // verus!
