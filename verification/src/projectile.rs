//! Passthrough-limited projectile state and the projectile damage
//! resolver.

use vstd::prelude::*;

use crate::collision::CollisionEvent;
use crate::health::Health;
use crate::health::spec_damaged;
use crate::world::BodyView;
use crate::world::World;
use crate::world::bodies_wf;
use crate::world::budget_ok;
use crate::world::ids_contain;
use crate::world::ids_distinct;
use crate::world::lemma_spec_find_same_ids;
use crate::world::lemma_spec_find_unique;
use crate::world::lemma_world_view_update;
use crate::world::spec_find;

verus! {

/// Mathematical model of a projectile's passthrough bookkeeping.
#[verifier::ext_equal]
pub ghost struct ProjectileView {
    pub damage: i64,
    pub radius: i64,
    pub passthrough_count: u32,
    pub max_passthrough: u32,
    pub hits: Seq<u64>,
}

impl ProjectileView {
    /// Damage and radius are non-negative; a target appears in `hits` at
    /// most once for the projectile's lifetime, and the hit counter always
    /// equals the number of distinct targets hit.
    pub open spec fn wf(self) -> bool {
        &&& self.damage >= 0
        &&& self.radius >= 0
        &&& self.hits.no_duplicates()
        &&& self.passthrough_count == self.hits.len()
    }

    /// Whether this projectile has already damaged the given target.
    pub open spec fn has_hit(self, target: u64) -> bool {
        self.hits.contains(target)
    }

    /// Whether the projectile has consumed its passthrough budget and is
    /// due for removal.
    pub open spec fn exhausted(self) -> bool {
        self.passthrough_count >= self.max_passthrough
    }

    /// The bookkeeping after damaging one more distinct target.
    pub open spec fn after_hit(self, target: u64) -> ProjectileView {
        ProjectileView {
            passthrough_count: (self.passthrough_count + 1) as u32,
            hits: self.hits.push(target),
            ..self
        }
    }
}

/// A damage-dealing projectile: each instance tracks which targets it has
/// already damaged and how many distinct targets it has hit, and is
/// scheduled for removal once the configured passthrough limit is reached.
#[derive(Debug)]
pub struct Projectile {
    /// Damage subtracted from a target's health on each new hit.
    pub damage: i64,
    /// Radius of the projectile body, on the fixed-point grid.
    pub radius: i64,
    /// How many distinct targets have been hit so far.
    pub passthrough_count: u32,
    /// How many distinct targets this projectile may damage before removal.
    pub max_passthrough: u32,
    /// The targets already damaged, each at most once.
    pub hits: Vec<u64>,
}

impl View for Projectile {
    type V = ProjectileView;

    open spec fn view(&self) -> ProjectileView {
        ProjectileView {
            damage: self.damage,
            radius: self.radius,
            passthrough_count: self.passthrough_count,
            max_passthrough: self.max_passthrough,
            hits: self.hits@,
        }
    }
}

impl Projectile {
    pub fn new(damage: i64, radius: i64, max_passthrough: u32) -> (projectile: Self)
        requires
            damage >= 0,
            radius >= 0,
        ensures
            projectile@ == (ProjectileView {
                damage,
                radius,
                passthrough_count: 0,
                max_passthrough,
                hits: Seq::<u64>::empty(),
            }),
            projectile@.wf(),
    {
        Self { damage, radius, max_passthrough, passthrough_count: 0, hits: Vec::new() }
    }

    /// Whether this projectile has already damaged the given target.
    pub fn has_hit(&self, target: u64) -> (hit: bool)
        ensures
            hit == self@.has_hit(target),
    {
        let n = self.hits.len();
        let mut i: usize = 0;
        while i < n
            invariant
                n == self.hits@.len(),
                i <= n,
                forall|k: int| 0 <= k < i ==> self.hits@[k] != target,
            decreases n - i,
        {
            if self.hits[i] == target {
                return true;
            }
            i = i + 1;
        }
        false
    }

    /// Records a hit on a target this projectile has not damaged before.
    pub fn record_hit(&mut self, target: u64)
        requires
            old(self)@.wf(),
            !old(self)@.has_hit(target),
            old(self).passthrough_count < u32::MAX,
        ensures
            final(self)@ == old(self)@.after_hit(target),
            final(self)@.wf(),
    {
        self.passthrough_count = self.passthrough_count + 1;
        self.hits.push(target);
    }
}

/// Mid-pass form of the passthrough budget: a projectile body still in
/// play either respects its budget or is already scheduled for removal.
pub open spec fn budget_ok_unless(b: BodyView, despawn: Seq<u64>) -> bool {
    (!b.removed && b.projectile.is_some() && !despawn.contains(b.id)) ==> {
        let p = b.projectile.unwrap();
        p.passthrough_count < p.max_passthrough || p.passthrough_count == 0
    }
}

/// `budget_ok_unless` over a whole body list.
pub open spec fn budgets_ok_unless(s: Seq<BodyView>, despawn: Seq<u64>) -> bool {
    forall|k: int| 0 <= k < s.len() ==> budget_ok_unless(#[trigger] s[k], despawn)
}

/// Whether an event orientation deals passthrough damage: the first body
/// is a damageable target, the second a projectile, both still in play,
/// the projectile is not yet scheduled for removal, and it has not
/// damaged this target before.
pub open spec fn passthrough_applies(
    s: Seq<BodyView>,
    despawn: Seq<u64>,
    target_id: u64,
    projectile_id: u64,
) -> bool {
    let ti = spec_find(s, target_id);
    let pi = spec_find(s, projectile_id);
    &&& ti >= 0
    &&& !s[ti].removed
    &&& s[ti].health.is_some()
    &&& pi >= 0
    &&& !s[pi].removed
    &&& s[pi].projectile.is_some()
    &&& !despawn.contains(projectile_id)
    &&& !s[pi].projectile.unwrap().has_hit(target_id)
}

/// One orientation of one event: on a qualifying target/projectile pair
/// the projectile's damage is subtracted from the target's health, the
/// target joins the projectile's hit set, and a projectile that reaches
/// its passthrough limit is scheduled for removal — deferred to the end
/// of the pass, so it is still evaluated against the rest of this tick's
/// events, but processes no further pairs once scheduled.
pub open spec fn spec_passthrough_orient(
    s: Seq<BodyView>,
    despawn: Seq<u64>,
    target_id: u64,
    projectile_id: u64,
) -> (Seq<BodyView>, Seq<u64>) {
    if passthrough_applies(s, despawn, target_id, projectile_id) {
        let ti = spec_find(s, target_id);
        let pi = spec_find(s, projectile_id);
        let damage = s[pi].projectile.unwrap().damage;
        let h = s[ti].health.unwrap();
        let s1 = s.update(
            ti,
            BodyView {
                health: Some(
                    Health { current: spec_damaged(h.current, damage), max_health: h.max_health },
                ),
                health_changed: true,
                ..s[ti]
            },
        );
        let p1 = s1[pi].projectile.unwrap().after_hit(target_id);
        let s2 = s1.update(pi, BodyView { projectile: Some(p1), ..s1[pi] });
        let despawn2 = if p1.passthrough_count >= p1.max_passthrough {
            despawn.push(projectile_id)
        } else {
            despawn
        };
        (s2, despawn2)
    } else {
        (s, despawn)
    }
}

/// Both orientations of one event, in order: the projectile may stand on
/// either side of the event.
pub open spec fn spec_passthrough_event(
    s: Seq<BodyView>,
    despawn: Seq<u64>,
    ev: CollisionEvent,
) -> (Seq<BodyView>, Seq<u64>) {
    let first = spec_passthrough_orient(s, despawn, ev.e1, ev.e2);
    spec_passthrough_orient(first.0, first.1, ev.e2, ev.e1)
}

/// The whole passthrough pass over one tick's events, in order.
pub open spec fn spec_passthrough_fold(
    s: Seq<BodyView>,
    despawn: Seq<u64>,
    events: Seq<CollisionEvent>,
) -> (Seq<BodyView>, Seq<u64>)
    decreases events.len(),
{
    if events.len() == 0 {
        (s, despawn)
    } else {
        let first = spec_passthrough_event(s, despawn, events[0]);
        spec_passthrough_fold(first.0, first.1, events.drop_first())
    }
}

/// The body list after the scheduled projectiles are despawned at the end
/// of the pass.
pub open spec fn spec_mark_removed(s: Seq<BodyView>, ids: Seq<u64>) -> Seq<BodyView>
    decreases ids.len(),
{
    if ids.len() == 0 {
        s
    } else {
        let i = spec_find(s, ids[0]);
        let s1 = if i >= 0 {
            s.update(i, BodyView { removed: true, ..s[i] })
        } else {
            s
        };
        spec_mark_removed(s1, ids.drop_first())
    }
}

/// The passthrough pass never changes the number of body records.
pub proof fn lemma_passthrough_len(s: Seq<BodyView>, despawn: Seq<u64>, events: Seq<CollisionEvent>)
    ensures
        spec_passthrough_fold(s, despawn, events).0.len() == s.len(),
    decreases events.len(),
{
    if events.len() > 0 {
        let ev = events[0];
        crate::world::lemma_spec_find(s, ev.e1);
        crate::world::lemma_spec_find(s, ev.e2);
        let first = spec_passthrough_orient(s, despawn, ev.e1, ev.e2);
        assert(first.0.len() == s.len());
        crate::world::lemma_spec_find(first.0, ev.e1);
        crate::world::lemma_spec_find(first.0, ev.e2);
        let second = spec_passthrough_orient(first.0, first.1, ev.e2, ev.e1);
        assert(second.0.len() == s.len());
        lemma_passthrough_len(second.0, second.1, events.drop_first());
    }
}

/// Despawning the scheduled projectiles never changes the number of body
/// records.
pub proof fn lemma_mark_removed_len(s: Seq<BodyView>, ids: Seq<u64>)
    ensures
        spec_mark_removed(s, ids).len() == s.len(),
    decreases ids.len(),
{
    if ids.len() > 0 {
        crate::world::lemma_spec_find(s, ids[0]);
        let i = spec_find(s, ids[0]);
        let s1 = if i >= 0 {
            s.update(i, BodyView { removed: true, ..s[i] })
        } else {
            s
        };
        lemma_mark_removed_len(s1, ids.drop_first());
    }
}

fn passthrough_orient(world: &mut World, despawn: &mut Vec<u64>, target_id: u64, projectile_id: u64)
    requires
        ids_distinct(old(world)@),
        bodies_wf(old(world)@),
        budgets_ok_unless(old(world)@, old(despawn)@),
        forall|x: u64| old(despawn)@.contains(x) ==> spec_find(old(world)@, x) >= 0,
    ensures
        final(world)@ == spec_passthrough_orient(
            old(world)@,
            old(despawn)@,
            target_id,
            projectile_id,
        ).0,
        final(despawn)@ == spec_passthrough_orient(
            old(world)@,
            old(despawn)@,
            target_id,
            projectile_id,
        ).1,
        final(world)@.len() == old(world)@.len(),
        forall|k: int|
            0 <= k < old(world)@.len() ==> (#[trigger] final(world)@[k]).id == old(world)@[k].id,
        ids_distinct(final(world)@),
        bodies_wf(final(world)@),
        budgets_ok_unless(final(world)@, final(despawn)@),
        forall|x: u64| final(despawn)@.contains(x) ==> spec_find(final(world)@, x) >= 0,
{
    let ghost s0 = world@;
    let ghost d0 = despawn@;
    match (world.find_index(target_id), world.find_index(projectile_id)) {
        (Some(ti), Some(pi)) => {
            proof {
                assert(world@[ti as int] == world.bodies@[ti as int]@);
                assert(world@[pi as int] == world.bodies@[pi as int]@);
            }
            let target_ok = !world.bodies[ti].removed && world.bodies[ti].health.is_some();
            let proj_ok = !world.bodies[pi].removed && world.bodies[pi].projectile.is_some();
            let pending = ids_contain(despawn, projectile_id);
            let already = match &world.bodies[pi].projectile {
                Some(p) => p.has_hit(target_id),
                None => false,
            };
            if target_ok && proj_ok && !pending && !already {
                assert(passthrough_applies(s0, d0, target_id, projectile_id));
                let damage = match &world.bodies[pi].projectile {
                    Some(p) => p.damage,
                    None => 0,
                };
                assert(damage == s0[pi as int].projectile.unwrap().damage);
                assert(damage >= 0) by {
                    assert(s0[pi as int].wf());
                }
                let ghost b0 = world.bodies@;
                {
                    let body = &mut world.bodies[ti];
                    body.damage_health(damage);
                }
                let ghost s1 = spec_passthrough_orient(s0, d0, target_id, projectile_id).0;
                let ghost h0 = s0[ti as int].health.unwrap();
                let ghost mid = s0.update(
                    ti as int,
                    BodyView {
                        health: Some(
                            Health {
                                current: spec_damaged(h0.current, damage),
                                max_health: h0.max_health,
                            },
                        ),
                        health_changed: true,
                        ..s0[ti as int]
                    },
                );
                proof {
                    let bnew = world.bodies@[ti as int];
                    assert(world.bodies@ == b0.update(ti as int, bnew));
                    lemma_world_view_update(b0, ti as int, bnew);
                    assert(world@ =~= mid);
                }
                proof {
                    assert(world@[pi as int].projectile == s0[pi as int].projectile);
                    assert(s0[pi as int].projectile.unwrap().wf()) by {
                        assert(s0[pi as int].wf());
                    }
                    assert(budget_ok_unless(s0[pi as int], d0));
                    assert(world@[pi as int].projectile.unwrap().passthrough_count < u32::MAX);
                }
                let ghost b1 = world.bodies@;
                {
                    let body = &mut world.bodies[pi];
                    body.projectile_record_hit(target_id);
                }
                proof {
                    let bnew = world.bodies@[pi as int];
                    assert(world.bodies@ == b1.update(pi as int, bnew));
                    lemma_world_view_update(b1, pi as int, bnew);
                    assert(world@ =~= mid.update(
                        pi as int,
                        BodyView {
                            projectile: Some(mid[pi as int].projectile.unwrap().after_hit(target_id)),
                            ..mid[pi as int]
                        },
                    ));
                    assert(world@ == s1);
                }
                let exhausted = match &world.bodies[pi].projectile {
                    Some(p) => p.passthrough_count >= p.max_passthrough,
                    None => false,
                };
                proof {
                    assert(world@[pi as int] == world.bodies@[pi as int]@);
                }
                if exhausted {
                    despawn.push(projectile_id);
                    proof {
                        assert(despawn@ =~= d0.push(projectile_id));
                    }
                }
                proof {
                    let p1 = s1[pi as int].projectile.unwrap();
                    assert(despawn@ == spec_passthrough_orient(s0, d0, target_id, projectile_id).1);
                    assert forall|k: int|
                        0 <= k < s1.len() implies (#[trigger] s1[k]).id == s0[k].id by {}
                    assert forall|i: int, j: int|
                        0 <= i < j < world@.len() implies world@[i].id != world@[j].id by {
                        assert(s0[i].id == world@[i].id);
                        assert(s0[j].id == world@[j].id);
                    }
                    assert forall|k: int| 0 <= k < world@.len() implies (#[trigger] world@[k]).wf()
                        by {
                        assert(s0[k].wf());
                        if k == pi as int {
                            assert(world@[k].projectile.unwrap().wf());
                        }
                    }
                    assert forall|x: u64|
                        despawn@.contains(x) implies spec_find(world@, x) >= 0 by {
                        lemma_spec_find_same_ids(world@, s0, x);
                        if !d0.contains(x) {
                            let k = choose|k: int| 0 <= k < despawn@.len() && despawn@[k] == x;
                            assert(despawn@[k] == x);
                            if k < d0.len() {
                                assert(d0[k] == x);
                                assert(d0.contains(x));
                            } else {
                                assert(x == projectile_id);
                            }
                        }
                    }
                    assert forall|k: int|
                        0 <= k < world@.len() implies budget_ok_unless(
                        #[trigger] world@[k],
                        despawn@,
                    ) by {
                        let b = world@[k];
                        if !b.removed && b.projectile.is_some() && !despawn@.contains(b.id) {
                            assert(!d0.contains(b.id)) by {
                                if d0.contains(b.id) {
                                    let m = choose|m: int| 0 <= m < d0.len() && d0[m] == b.id;
                                    assert(despawn@[m] == b.id);
                                    assert(despawn@.contains(b.id));
                                }
                            }
                            if k == pi as int {
                                assert(b.id == projectile_id) by {
                                    assert(s0[pi as int].id == projectile_id);
                                }
                                assert(!(p1.passthrough_count >= p1.max_passthrough)) by {
                                    if p1.passthrough_count >= p1.max_passthrough {
                                        assert(despawn@ == d0.push(projectile_id));
                                        assert(despawn@[d0.len() as int] == projectile_id);
                                        assert(despawn@.contains(projectile_id));
                                    }
                                }
                            } else {
                                assert(b.projectile == s0[k].projectile);
                                assert(budget_ok_unless(s0[k], d0));
                            }
                        }
                    }
                }
            } else {
                assert(!passthrough_applies(s0, d0, target_id, projectile_id));
            }
        },
        _ => {
            assert(!passthrough_applies(s0, d0, target_id, projectile_id));
        },
    }
}

fn passthrough_event(world: &mut World, despawn: &mut Vec<u64>, ev: &CollisionEvent)
    requires
        ids_distinct(old(world)@),
        bodies_wf(old(world)@),
        budgets_ok_unless(old(world)@, old(despawn)@),
        forall|x: u64| old(despawn)@.contains(x) ==> spec_find(old(world)@, x) >= 0,
    ensures
        final(world)@ == spec_passthrough_event(old(world)@, old(despawn)@, *ev).0,
        final(despawn)@ == spec_passthrough_event(old(world)@, old(despawn)@, *ev).1,
        final(world)@.len() == old(world)@.len(),
        forall|k: int|
            0 <= k < old(world)@.len() ==> (#[trigger] final(world)@[k]).id == old(world)@[k].id,
        ids_distinct(final(world)@),
        bodies_wf(final(world)@),
        budgets_ok_unless(final(world)@, final(despawn)@),
        forall|x: u64| final(despawn)@.contains(x) ==> spec_find(final(world)@, x) >= 0,
{
    passthrough_orient(world, despawn, ev.e1, ev.e2);
    passthrough_orient(world, despawn, ev.e2, ev.e1);
}

/// The passthrough damage resolver: consumes the tick's collision events
/// in order; for each qualifying target/projectile contact not seen
/// before by that projectile, subtracts the projectile's damage from the
/// target's health and counts the hit; projectiles that reach their
/// passthrough limit are despawned at the end of the pass and returned.
pub fn resolve_projectile_hits(world: &mut World, events: &Vec<CollisionEvent>) -> (despawned: Vec<
    u64,
>)
    requires
        old(world).wf(),
    ensures
        despawned@ == spec_passthrough_fold(old(world)@, Seq::<u64>::empty(), events@).1,
        final(world)@ == spec_mark_removed(
            spec_passthrough_fold(old(world)@, Seq::<u64>::empty(), events@).0,
            spec_passthrough_fold(old(world)@, Seq::<u64>::empty(), events@).1,
        ),
        final(world).wf(),
{
    let ghost s0 = world@;
    let ghost total = spec_passthrough_fold(s0, Seq::<u64>::empty(), events@);
    let mut despawn: Vec<u64> = Vec::new();
    let n = events.len();
    let mut e: usize = 0;
    proof {
        assert(events@.skip(0) =~= events@);
        assert forall|k: int|
            0 <= k < world@.len() implies budget_ok_unless(#[trigger] world@[k], despawn@) by {
            assert(budget_ok(world@[k]));
            assert(!despawn@.contains(world@[k].id));
        }
    }
    while e < n
        invariant
            n == events@.len(),
            e <= n,
            ids_distinct(world@),
            bodies_wf(world@),
            budgets_ok_unless(world@, despawn@),
            forall|x: u64| despawn@.contains(x) ==> spec_find(world@, x) >= 0,
            world@.len() == s0.len(),
            forall|k: int| 0 <= k < s0.len() ==> (#[trigger] world@[k]).id == s0[k].id,
            spec_passthrough_fold(world@, despawn@, events@.skip(e as int)) == total,
        decreases n - e,
    {
        proof {
            let suffix = events@.skip(e as int);
            assert(suffix[0] == events@[e as int]);
            assert(suffix.drop_first() =~= events@.skip(e as int + 1));
        }
        passthrough_event(world, &mut despawn, &events[e]);
        e = e + 1;
    }
    proof {
        assert(events@.skip(n as int) =~= Seq::<CollisionEvent>::empty());
    }
    let ghost s_pass = world@;
    let m_total = despawn.len();
    let mut m: usize = 0;
    proof {
        assert(despawn@.skip(0) =~= despawn@);
        assert(despawn@.take(0) =~= Seq::<u64>::empty());
    }
    while m < m_total
        invariant
            m_total == despawn@.len(),
            m <= m_total,
            ids_distinct(world@),
            bodies_wf(world@),
            world@.len() == s_pass.len(),
            forall|k: int| 0 <= k < s_pass.len() ==> (#[trigger] world@[k]).id == s_pass[k].id,
            budgets_ok_unless(world@, despawn@),
            spec_mark_removed(world@, despawn@.skip(m as int)) == spec_mark_removed(
                s_pass,
                despawn@,
            ),
            forall|x: u64|
                despawn@.take(m as int).contains(x) && spec_find(world@, x) >= 0 ==> world@[
                    spec_find(world@, x)
                ].removed,
        decreases m_total - m,
    {
        let ghost w0 = world@;
        let id = despawn[m];
        proof {
            let suffix = despawn@.skip(m as int);
            assert(suffix[0] == despawn@[m as int]);
            assert(suffix.drop_first() =~= despawn@.skip(m as int + 1));
            assert(despawn@.take(m as int + 1) =~= despawn@.take(m as int).push(id));
        }
        match world.find_index(id) {
            Some(f) => {
                let ghost b0 = world.bodies@;
                {
                    let body = &mut world.bodies[f];
                    body.mark_removed();
                }
                proof {
                    let bnew = world.bodies@[f as int];
                    assert(world.bodies@ == b0.update(f as int, bnew));
                    lemma_world_view_update(b0, f as int, bnew);
                    assert(world@ =~= w0.update(
                        f as int,
                        BodyView { removed: true, ..w0[f as int] },
                    ));
                    assert forall|i: int, j: int|
                        0 <= i < j < world@.len() implies world@[i].id != world@[j].id by {
                        assert(w0[i].id == world@[i].id);
                        assert(w0[j].id == world@[j].id);
                    }
                    assert forall|k: int| 0 <= k < world@.len() implies (#[trigger] world@[k]).wf()
                        by {
                        assert(w0[k].wf());
                    }
                    assert forall|k: int|
                        0 <= k < world@.len() implies budget_ok_unless(
                        #[trigger] world@[k],
                        despawn@,
                    ) by {
                        if k != f as int {
                            assert(budget_ok_unless(w0[k], despawn@));
                        }
                    }
                    assert forall|x: u64|
                        despawn@.take(m as int + 1).contains(x) && spec_find(world@, x)
                            >= 0 implies world@[spec_find(world@, x)].removed by {
                        lemma_spec_find_same_ids(world@, w0, x);
                        crate::world::lemma_spec_find(w0, x);
                        let fx = spec_find(w0, x);
                        if despawn@.take(m as int).contains(x) {
                            assert(w0[fx].removed);
                            if fx != f as int {
                                assert(world@[fx] == w0[fx]);
                            }
                        } else {
                            let prefix = despawn@.take(m as int + 1);
                            let kx = choose|kx: int| 0 <= kx < prefix.len() && prefix[kx] == x;
                            if kx < m as int {
                                assert(despawn@.take(m as int)[kx] == x);
                                assert(despawn@.take(m as int).contains(x));
                                assert(w0[fx].removed);
                                if fx != f as int {
                                    assert(world@[fx] == w0[fx]);
                                }
                            } else {
                                assert(x == id);
                                assert(fx == f as int);
                            }
                        }
                    }
                }
            },
            None => {
                proof {
                    assert forall|x: u64|
                        despawn@.take(m as int + 1).contains(x) && spec_find(world@, x)
                            >= 0 implies world@[spec_find(world@, x)].removed by {
                        if despawn@.take(m as int).contains(x) {
                        } else {
                            let prefix = despawn@.take(m as int + 1);
                            let kx = choose|kx: int| 0 <= kx < prefix.len() && prefix[kx] == x;
                            if kx < m as int {
                                assert(despawn@.take(m as int)[kx] == x);
                                assert(despawn@.take(m as int).contains(x));
                            } else {
                                assert(x == id);
                            }
                        }
                    }
                }
            },
        }
        m = m + 1;
    }
    proof {
        assert(despawn@.skip(m_total as int) =~= Seq::<u64>::empty());
        assert(despawn@.take(m_total as int) =~= despawn@);
        assert forall|k: int| 0 <= k < world@.len() implies budget_ok(#[trigger] world@[k]) by {
            let b = world@[k];
            if !b.removed && b.projectile.is_some() {
                if despawn@.contains(b.id) {
                    lemma_spec_find_unique(world@, b.id, k);
                } else {
                    assert(budget_ok_unless(b, despawn@));
                }
            }
        }
    }
    despawn
}

} // verus!
