//! The arena of body records: every collidable body of the simulation,
//! indexed by stable identifier, each owning its private combat state.

use vstd::prelude::*;

use crate::collision::CollisionEvent;
use crate::collision::{Collider, CollisionGroups, Vec3i};
use crate::health::DeathEvent;
use crate::health::Health;
use crate::orb::{Orb, OrbView};
use crate::projectile::{Projectile, ProjectileView};
use crate::score::PlayerScore;

verus! {

/// Mathematical model of one body record.
#[verifier::ext_equal]
pub ghost struct BodyView {
    pub id: u64,
    pub position: Vec3i,
    pub collider: Collider,
    pub groups: CollisionGroups,
    pub health: Option<Health>,
    pub is_player: bool,
    pub is_point: bool,
    pub is_enemy: bool,
    pub projectile: Option<ProjectileView>,
    pub orb: Option<OrbView>,
    pub removed: bool,
    pub health_changed: bool,
}

impl BodyView {
    /// Position, shape, and every piece of owned combat state are well
    /// formed.
    pub open spec fn wf(self) -> bool {
        &&& self.position.wf()
        &&& self.collider.wf()
        &&& (self.health.is_some() ==> self.health.unwrap().wf())
        &&& (self.projectile.is_some() ==> self.projectile.unwrap().wf())
        &&& (self.orb.is_some() ==> self.orb.unwrap().wf())
    }
}

/// A projectile still in play has either hit nothing yet or still has
/// passthrough budget left: a projectile that reaches its limit is
/// scheduled for removal in the same tick, so it never lingers exhausted.
pub open spec fn budget_ok(b: BodyView) -> bool {
    (!b.removed && b.projectile.is_some()) ==> {
        let p = b.projectile.unwrap();
        p.passthrough_count < p.max_passthrough || p.passthrough_count == 0
    }
}

/// No two body records share an identifier.
pub open spec fn ids_distinct(s: Seq<BodyView>) -> bool {
    forall|i: int, j: int| 0 <= i < j < s.len() ==> s[i].id != s[j].id
}

/// Every body record is well formed.
pub open spec fn bodies_wf(s: Seq<BodyView>) -> bool {
    forall|k: int| 0 <= k < s.len() ==> (#[trigger] s[k]).wf()
}

/// Every projectile still in play respects its passthrough budget.
pub open spec fn budgets_ok(s: Seq<BodyView>) -> bool {
    forall|k: int| 0 <= k < s.len() ==> budget_ok(#[trigger] s[k])
}

/// One collidable body with its owned combat state. Which resolvers react
/// to the body is decided by which state it carries: a health value makes
/// it damageable, projectile state makes it deal passthrough damage, orb
/// state makes it a persistent damage field, the marker flags make it the
/// player, a score pickup, or an enemy.
#[derive(Debug)]
pub struct Body {
    /// Stable identifier, unique within the arena.
    pub id: u64,
    /// World position (translation only; rotation is ignored).
    pub position: Vec3i,
    /// Collision shape.
    pub collider: Collider,
    /// Group membership and filter masks.
    pub groups: CollisionGroups,
    /// Hit points, for damageable bodies.
    pub health: Option<Health>,
    /// Whether this body is the player.
    pub is_player: bool,
    /// Whether this body is a score pickup.
    pub is_point: bool,
    /// Whether this body is an enemy.
    pub is_enemy: bool,
    /// Passthrough-damage state, for projectile bodies.
    pub projectile: Option<Projectile>,
    /// Persistent-field damage state, for orbiting damage fields.
    pub orb: Option<Orb>,
    /// Whether the body has been despawned this tick; removed bodies are
    /// skipped by every consumer and swept out at the tick boundary.
    pub removed: bool,
    /// Whether the body's health was mutated this tick; feeds the death
    /// check and is cleared at the tick boundary.
    pub health_changed: bool,
}

impl View for Body {
    type V = BodyView;

    open spec fn view(&self) -> BodyView {
        BodyView {
            id: self.id,
            position: self.position,
            collider: self.collider,
            groups: self.groups,
            health: self.health,
            is_player: self.is_player,
            is_point: self.is_point,
            is_enemy: self.is_enemy,
            projectile: match self.projectile {
                Some(p) => Some(p@),
                None => None,
            },
            orb: match self.orb {
                Some(o) => Some(o@),
                None => None,
            },
            removed: self.removed,
            health_changed: self.health_changed,
        }
    }
}

impl Body {
    /// Subtracts a non-negative damage value from this body's health and
    /// marks the health as changed for the death check.
    pub fn damage_health(&mut self, damage: i64)
        requires
            old(self)@.health.is_some(),
            damage >= 0,
        ensures
            final(self)@ == (BodyView {
                health: Some(Health {
                    current: crate::health::spec_damaged(
                        old(self)@.health.unwrap().current,
                        damage,
                    ),
                    max_health: old(self)@.health.unwrap().max_health,
                }),
                health_changed: true,
                ..old(self)@
            }),
    {
        let h = self.health.unwrap();
        self.health = Some(
            Health {
                current: crate::health::apply_damage(h.current, damage),
                max_health: h.max_health,
            },
        );
        self.health_changed = true;
    }

    /// Records a passthrough hit on a fresh target in this body's
    /// projectile state.
    pub fn projectile_record_hit(&mut self, target: u64)
        requires
            old(self)@.projectile.is_some(),
            old(self)@.projectile.unwrap().wf(),
            !old(self)@.projectile.unwrap().has_hit(target),
            old(self)@.projectile.unwrap().passthrough_count < u32::MAX,
        ensures
            final(self)@ == (BodyView {
                projectile: Some(old(self)@.projectile.unwrap().after_hit(target)),
                ..old(self)@
            }),
            final(self)@.projectile.unwrap().wf(),
    {
        let proj = self.projectile.take();
        match proj {
            Some(mut p) => {
                p.record_hit(target);
                self.projectile = Some(p);
            },
            None => {},
        }
    }

    /// Records a triggered field hit on a target not on cooldown in this
    /// body's orb state.
    pub fn orb_record_hit(&mut self, target: u64)
        requires
            old(self)@.orb.is_some(),
            old(self)@.orb.unwrap().wf(),
            !old(self)@.orb.unwrap().on_cooldown(target),
        ensures
            final(self)@ == (BodyView {
                orb: Some(old(self)@.orb.unwrap().after_hit(target)),
                ..old(self)@
            }),
            final(self)@.orb.unwrap().wf(),
    {
        let orb = self.orb.take();
        match orb {
            Some(mut o) => {
                o.record_hit(target);
                self.orb = Some(o);
            },
            None => {},
        }
    }

    /// Advances this body's orb cooldowns by the elapsed time and purges
    /// the expired entries.
    pub fn orb_tick_cooldowns(&mut self, delta: u64)
        requires
            old(self)@.orb.is_some(),
            old(self)@.orb.unwrap().wf(),
        ensures
            final(self)@ == (BodyView {
                orb: Some(old(self)@.orb.unwrap().after_tick(delta)),
                ..old(self)@
            }),
            final(self)@.orb.unwrap().wf(),
    {
        let orb = self.orb.take();
        match orb {
            Some(mut o) => {
                o.tick_cooldowns(delta);
                self.orb = Some(o);
            },
            None => {},
        }
    }

    /// Despawns this body: every later consumer skips it, and the sweep at
    /// the tick boundary drops the record with all the state it owns.
    pub fn mark_removed(&mut self)
        ensures
            final(self)@ == (BodyView { removed: true, ..old(self)@ }),
    {
        self.removed = true;
    }

    /// Clears the change mark once the tick's death check has observed it.
    pub fn clear_health_changed(&mut self)
        ensures
            final(self)@ == (BodyView { health_changed: false, ..old(self)@ }),
    {
        self.health_changed = false;
    }
}

/// The view of a whole body list.
pub open spec fn world_view(bodies: Seq<Body>) -> Seq<BodyView> {
    bodies.map_values(|b: Body| b@)
}

/// Replacing one body record replaces one entry of the view.
pub proof fn lemma_world_view_update(bodies: Seq<Body>, i: int, b: Body)
    requires
        0 <= i < bodies.len(),
    ensures
        world_view(bodies.update(i, b)) == world_view(bodies).update(i, b@),
{
    assert(world_view(bodies.update(i, b)) =~= world_view(bodies).update(i, b@));
}

/// Index of the first body record carrying `id`, or `-1` if there is none.
pub open spec fn spec_find(s: Seq<BodyView>, id: u64) -> int
    decreases s.len(),
{
    if s.len() == 0 {
        -1
    } else if s[0].id == id {
        0
    } else {
        let rest = spec_find(s.drop_first(), id);
        if rest == -1 {
            -1
        } else {
            rest + 1
        }
    }
}

/// What `spec_find` returns: a valid index carrying the identifier when
/// one exists, `-1` otherwise, and the unique such index when identifiers
/// are distinct.
pub proof fn lemma_spec_find(s: Seq<BodyView>, id: u64)
    ensures
        -1 <= spec_find(s, id) < s.len(),
        spec_find(s, id) >= 0 ==> s[spec_find(s, id)].id == id,
        spec_find(s, id) == -1 ==> forall|k: int| 0 <= k < s.len() ==> (#[trigger] s[k]).id != id,
        forall|k: int| 0 <= k < spec_find(s, id) ==> (#[trigger] s[k]).id != id,
        forall|k: int|
            0 <= k < s.len() && (#[trigger] s[k]).id == id ==> spec_find(s, id) >= 0,
    decreases s.len(),
{
    if s.len() > 0 && s[0].id != id {
        let rest = s.drop_first();
        lemma_spec_find(rest, id);
        assert(forall|k: int| 1 <= k < s.len() ==> (#[trigger] s[k]) == rest[k - 1]);
    }
}

/// Lookup goes by identifiers alone: two body lists whose records carry
/// the same identifiers position for position agree on every lookup.
pub proof fn lemma_spec_find_same_ids(s1: Seq<BodyView>, s2: Seq<BodyView>, id: u64)
    requires
        s1.len() == s2.len(),
        forall|k: int| 0 <= k < s1.len() ==> (#[trigger] s1[k]).id == s2[k].id,
    ensures
        spec_find(s1, id) == spec_find(s2, id),
    decreases s1.len(),
{
    if s1.len() > 0 {
        let r1 = s1.drop_first();
        let r2 = s2.drop_first();
        assert(forall|k: int| 0 <= k < r1.len() ==> (#[trigger] r1[k]).id == r2[k].id);
        lemma_spec_find_same_ids(r1, r2, id);
    }
}

/// Whether the given identifier list holds `id`.
pub fn ids_contain(list: &Vec<u64>, id: u64) -> (present: bool)
    ensures
        present == list@.contains(id),
{
    let n = list.len();
    let mut i: usize = 0;
    while i < n
        invariant
            n == list@.len(),
            i <= n,
            forall|k: int| 0 <= k < i ==> list@[k] != id,
        decreases n - i,
    {
        if list[i] == id {
            return true;
        }
        i = i + 1;
    }
    false
}

/// With distinct identifiers, any index carrying `id` is the one found.
pub proof fn lemma_spec_find_unique(s: Seq<BodyView>, id: u64, k: int)
    requires
        ids_distinct(s),
        0 <= k < s.len(),
        s[k].id == id,
    ensures
        spec_find(s, id) == k,
{
    lemma_spec_find(s, id);
    let found = spec_find(s, id);
    if found < k {
        assert(s[found].id == id);
    } else if found > k {
        assert(s[k].id != id);
    }
}

/// The arena: the full set of currently alive bodies, owned exclusively by
/// the tick driver.
#[derive(Debug)]
pub struct World {
    pub bodies: Vec<Body>,
}

impl View for World {
    type V = Seq<BodyView>;

    open spec fn view(&self) -> Seq<BodyView> {
        world_view(self.bodies@)
    }
}

impl World {
    /// Identifiers are unique, every record is well formed, and every
    /// projectile respects its passthrough budget.
    pub open spec fn wf(self) -> bool {
        &&& ids_distinct(self@)
        &&& bodies_wf(self@)
        &&& budgets_ok(self@)
    }

    pub fn new() -> (world: Self)
        ensures
            world@ == Seq::<BodyView>::empty(),
            world.wf(),
    {
        let world = Self { bodies: Vec::new() };
        proof {
            assert(world@ =~= Seq::<BodyView>::empty());
        }
        world
    }

    /// How many body records the arena holds, removed ones included until
    /// the next sweep.
    pub fn len(&self) -> (n: usize)
        ensures
            n == self@.len(),
    {
        self.bodies.len()
    }

    /// Index of the body carrying `id`, if any.
    pub fn find_index(&self, id: u64) -> (found: Option<usize>)
        ensures
            match found {
                Some(i) => i as int == spec_find(self@, id) && i < self@.len() && self@[i as int].id
                    == id,
                None => spec_find(self@, id) == -1,
            },
    {
        proof {
            lemma_spec_find(self@, id);
        }
        let n = self.bodies.len();
        let mut i: usize = 0;
        while i < n
            invariant
                n == self.bodies@.len(),
                self@.len() == n,
                i <= n,
                forall|k: int| 0 <= k < i ==> (#[trigger] self@[k]).id != id,
                forall|k: int|
                    0 <= k < self@.len() && (#[trigger] self@[k]).id == id ==> spec_find(self@, id)
                        >= 0,
                forall|k: int| 0 <= k < spec_find(self@, id) ==> (#[trigger] self@[k]).id != id,
                spec_find(self@, id) >= 0 ==> self@[spec_find(self@, id)].id == id,
                spec_find(self@, id) < self@.len(),
            decreases n - i,
        {
            if self.bodies[i].id == id {
                proof {
                    assert(self@[i as int].id == id);
                }
                return Some(i);
            }
            proof {
                assert(self@[i as int].id != id);
            }
            i = i + 1;
        }
        None
    }

    /// Admits a new body into the arena: the body is accepted when its
    /// shape and position lie on the grid, its health ceiling is not
    /// negative, its passthrough budget is open, and its identifier is not
    /// already taken; a malformed or duplicate body is rejected unchanged,
    /// so wrong overlap results can never be produced for it.
    pub fn spawn(&mut self, body: Body) -> (accepted: bool)
        requires
            old(self).wf(),
            body.projectile.is_some() ==> body.projectile.unwrap()@.wf(),
            body.orb.is_some() ==> body.orb.unwrap()@.wf(),
        ensures
            accepted == (body@.wf() && budget_ok(body@) && spec_find(old(self)@, body.id) == -1),
            accepted ==> final(self)@ == old(self)@.push(body@),
            !accepted ==> final(self)@ == old(self)@,
            final(self).wf(),
    {
        let shape_ok = body.position.is_valid() && body.collider.is_valid();
        let health_ok = match &body.health {
            Some(h) => h.max_health >= 0,
            None => true,
        };
        let budget_open = body.removed || match &body.projectile {
            Some(p) => p.passthrough_count < p.max_passthrough || p.passthrough_count == 0,
            None => true,
        };
        let free = match self.find_index(body.id) {
            Some(_) => false,
            None => true,
        };
        if shape_ok && health_ok && budget_open && free {
            proof {
                lemma_spec_find(self@, body.id);
            }
            let ghost old_view = self@;
            let ghost new_view = body@;
            self.bodies.push(body);
            proof {
                assert(self@ =~= old_view.push(new_view));
                assert forall|i: int, j: int|
                    0 <= i < j < self@.len() implies self@[i].id != self@[j].id by {
                    if j == self@.len() - 1 {
                        assert(old_view[i].id != new_view.id);
                    }
                }
            }
            true
        } else {
            false
        }
    }
}

/// The arena after a damage source outside the collision pipeline (such
/// as an enemy's melee strike) hits one body: a stale or healthless
/// reference is tolerated by leaving the arena unchanged.
pub open spec fn spec_external_damage(s: Seq<BodyView>, id: u64, damage: i64) -> Seq<BodyView> {
    let i = spec_find(s, id);
    if i >= 0 && !s[i].removed && s[i].health.is_some() {
        let h = s[i].health.unwrap();
        s.update(
            i,
            BodyView {
                health: Some(
                    Health {
                        current: crate::health::spec_damaged(h.current, damage),
                        max_health: h.max_health,
                    },
                ),
                health_changed: true,
                ..s[i]
            },
        )
    } else {
        s
    }
}

impl World {
    /// Applies damage from a source outside the collision pipeline (such
    /// as an enemy's melee strike) to the body carrying `id`. A stale
    /// identifier, or one whose body carries no health, is skipped, never
    /// a fault.
    pub fn apply_external_damage(&mut self, id: u64, damage: i64)
        requires
            old(self).wf(),
            damage >= 0,
        ensures
            final(self)@ == spec_external_damage(old(self)@, id, damage),
            final(self).wf(),
    {
        let ghost s0 = self@;
        match self.find_index(id) {
            Some(i) => {
                proof {
                    assert(self@[i as int] == self.bodies@[i as int]@);
                }
                if !self.bodies[i].removed && self.bodies[i].health.is_some() {
                    let ghost b0 = self.bodies@;
                    {
                        let body = &mut self.bodies[i];
                        body.damage_health(damage);
                    }
                    proof {
                        let bnew = self.bodies@[i as int];
                        assert(self.bodies@ == b0.update(i as int, bnew));
                        lemma_world_view_update(b0, i as int, bnew);
                        assert(self@ =~= spec_external_damage(s0, id, damage));
                        assert forall|i2: int, j2: int|
                            0 <= i2 < j2 < self@.len() implies self@[i2].id != self@[j2].id by {
                            assert(s0[i2].id == self@[i2].id);
                            assert(s0[j2].id == self@[j2].id);
                        }
                        assert forall|k: int|
                            0 <= k < self@.len() implies (#[trigger] self@[k]).wf() by {
                            assert(s0[k].wf());
                        }
                        assert forall|k: int|
                            0 <= k < self@.len() implies budget_ok(#[trigger] self@[k]) by {
                            assert(budget_ok(s0[k]));
                            assert(self@[k].projectile == s0[k].projectile);
                            assert(self@[k].removed == s0[k].removed);
                        }
                    }
                }
            },
            None => {
            },
        }
    }
}

/// One body with its change mark cleared for the next tick.
pub open spec fn spec_cleared_body(b: BodyView) -> BodyView {
    BodyView { health_changed: false, ..b }
}

/// The whole arena with every change mark cleared for the next tick.
pub open spec fn spec_clear_marks(s: Seq<BodyView>) -> Seq<BodyView> {
    s.map_values(|b: BodyView| spec_cleared_body(b))
}

/// The body records that survive the tick's sweep, in arena order.
pub open spec fn spec_survivors(s: Seq<BodyView>) -> Seq<BodyView>
    decreases s.len(),
{
    if s.len() == 0 {
        Seq::empty()
    } else if s[0].removed {
        spec_survivors(s.drop_first())
    } else {
        seq![s[0]] + spec_survivors(s.drop_first())
    }
}

/// The identifiers of the body records the tick's sweep drops.
pub open spec fn spec_removed_ids(s: Seq<BodyView>) -> Seq<u64>
    decreases s.len(),
{
    if s.len() == 0 {
        Seq::empty()
    } else if s[0].removed {
        seq![s[0].id] + spec_removed_ids(s.drop_first())
    } else {
        spec_removed_ids(s.drop_first())
    }
}

impl World {
    /// Clears every body's health change mark: the next tick's death
    /// check observes only the next tick's mutations.
    pub fn clear_health_marks(&mut self)
        requires
            old(self).wf(),
        ensures
            final(self)@ == spec_clear_marks(old(self)@),
            final(self).wf(),
    {
        let ghost s0 = self@;
        let n = self.bodies.len();
        let mut i: usize = 0;
        while i < n
            invariant
                n == self.bodies@.len(),
                self@.len() == n,
                s0.len() == n,
                i <= n,
                forall|k: int| 0 <= k < i ==> self@[k] == spec_cleared_body(s0[k]),
                forall|k: int| i <= k < n ==> self@[k] == s0[k],
                self.wf(),
            decreases n - i,
        {
            let ghost w0 = self@;
            let ghost b0 = self.bodies@;
            {
                let body = &mut self.bodies[i];
                body.clear_health_changed();
            }
            proof {
                let bnew = self.bodies@[i as int];
                assert(self.bodies@ == b0.update(i as int, bnew));
                lemma_world_view_update(b0, i as int, bnew);
                assert(self@ =~= w0.update(i as int, spec_cleared_body(s0[i as int])));
                assert forall|i2: int, j2: int|
                    0 <= i2 < j2 < self@.len() implies self@[i2].id != self@[j2].id by {
                    assert(w0[i2].id == self@[i2].id);
                    assert(w0[j2].id == self@[j2].id);
                }
                assert forall|k: int| 0 <= k < self@.len() implies (#[trigger] self@[k]).wf() by {
                    assert(w0[k].wf());
                }
                assert forall|k: int| 0 <= k < self@.len() implies budget_ok(#[trigger] self@[k])
                    by {
                    assert(budget_ok(w0[k]));
                }
            }
            i = i + 1;
        }
        proof {
            assert(self@ =~= spec_clear_marks(s0));
        }
    }

    /// Sweeps the despawned body records out of the arena at the tick
    /// boundary, after every consumer that might reference them has run.
    /// Each record is dropped as a unit, with all the combat state it
    /// owns; the dropped identifiers are returned as removal requests for
    /// the entity owner.
    pub fn sweep_removed(&mut self) -> (removed: Vec<u64>)
        requires
            old(self).wf(),
        ensures
            final(self)@ == spec_survivors(old(self)@),
            removed@ == spec_removed_ids(old(self)@),
            final(self).wf(),
    {
        let ghost s0 = self@;
        let mut taken: Vec<Body> = Vec::new();
        std::mem::swap(&mut taken, &mut self.bodies);
        let mut removed: Vec<u64> = Vec::new();
        proof {
            assert(self@ =~= Seq::<BodyView>::empty());
            assert(world_view(taken@) =~= s0);
            assert(self@ + world_view(taken@) =~= s0);
            assert(self@ + spec_survivors(world_view(taken@)) =~= spec_survivors(s0));
            assert(removed@ + spec_removed_ids(world_view(taken@)) =~= spec_removed_ids(s0));
        }
        while taken.len() > 0
            invariant
                self@ + spec_survivors(world_view(taken@)) == spec_survivors(s0),
                removed@ + spec_removed_ids(world_view(taken@)) == spec_removed_ids(s0),
                ids_distinct(self@ + world_view(taken@)),
                bodies_wf(self@ + world_view(taken@)),
                budgets_ok(self@ + world_view(taken@)),
            decreases taken.len(),
        {
            let ghost kept0 = self@;
            let ghost t0 = world_view(taken@);
            let ghost all0 = kept0 + t0;
            let ghost removed0 = removed@;
            let body = taken.remove(0);
            proof {
                assert(body@ == t0[0]);
                assert(world_view(taken@) =~= t0.drop_first());
            }
            let ghost t1 = world_view(taken@);
            if body.removed {
                removed.push(body.id);
                proof {
                    assert(removed@ =~= removed0 + seq![t0[0].id]);
                    assert((removed0 + seq![t0[0].id]) + spec_removed_ids(t1) =~= removed0
                        + spec_removed_ids(t0));
                    assert(kept0 + spec_survivors(t1) =~= kept0 + spec_survivors(t0));
                    let all1 = kept0 + t1;
                    assert forall|i2: int, j2: int|
                        0 <= i2 < j2 < all1.len() implies all1[i2].id != all1[j2].id by {
                        let i3: int = if i2 < kept0.len() {
                            i2
                        } else {
                            i2 + 1
                        };
                        let j3: int = if j2 < kept0.len() {
                            j2
                        } else {
                            j2 + 1
                        };
                        assert(all1[i2] == all0[i3]);
                        assert(all1[j2] == all0[j3]);
                    }
                    assert forall|k: int| 0 <= k < all1.len() implies (#[trigger] all1[k]).wf()
                        by {
                        let k3: int = if k < kept0.len() {
                            k
                        } else {
                            k + 1
                        };
                        assert(all1[k] == all0[k3]);
                        assert(all0[k3].wf());
                    }
                    assert forall|k: int| 0 <= k < all1.len() implies budget_ok(
                        #[trigger] all1[k],
                    ) by {
                        let k3: int = if k < kept0.len() {
                            k
                        } else {
                            k + 1
                        };
                        assert(all1[k] == all0[k3]);
                        assert(budget_ok(all0[k3]));
                    }
                }
            } else {
                let ghost b0 = self.bodies@;
                self.bodies.push(body);
                proof {
                    assert(self@ =~= kept0.push(t0[0]));
                    assert((kept0 + seq![t0[0]]) + spec_survivors(t1) =~= kept0 + spec_survivors(
                        t0,
                    ));
                    assert(self@ =~= kept0 + seq![t0[0]]);
                    assert(removed0 + spec_removed_ids(t1) =~= removed0 + spec_removed_ids(t0));
                    assert(self@ + t1 =~= all0);
                }
            }
        }
        proof {
            assert(world_view(taken@) =~= Seq::<BodyView>::empty());
            assert(self@ + spec_survivors(world_view(taken@)) =~= self@);
            assert(removed@ + spec_removed_ids(world_view(taken@)) =~= removed@);
            assert(self@ + world_view(taken@) =~= self@);
        }
        removed
    }
}

/// Everything one tick computes, at the specification level.
#[verifier::ext_equal]
pub ghost struct TickView {
    /// The arena after the tick: cooldowns advanced, damage applied,
    /// change marks cleared, despawned records swept out.
    pub bodies: Seq<BodyView>,
    /// The tick's collision events, one per qualifying overlapping pair.
    pub events: Seq<CollisionEvent>,
    /// The tick's death events, one per dying body.
    pub deaths: Seq<DeathEvent>,
    /// Pickup spawn requests left behind by dying enemies.
    pub point_spawns: Seq<Vec3i>,
    /// Identifiers of the body records the sweep dropped.
    pub removed: Seq<u64>,
    /// Points awarded by the pickup resolver.
    pub awards: int,
    /// Kills counted by the enemy death handler.
    pub kills: int,
    /// Whether the tick's death events kill the player.
    pub player_died: bool,
}

/// One whole tick over the arena: cooldown purge first, then detection,
/// then the resolvers in fixed order — pickups, passthrough damage,
/// persistent-field damage — then the death check and its consumers, and
/// the sweep last, so no consumer ever observes a partially processed
/// tick and removals apply only at the tick boundary.
pub open spec fn spec_tick(s0: Seq<BodyView>, delta: u64) -> TickView {
    let ticked = crate::orb::spec_tick_fields(s0, delta);
    let events = crate::collision::spec_collisions(ticked);
    let picked = crate::point::spec_pickups(ticked, events);
    let pierced = crate::projectile::spec_passthrough_fold(picked.0, Seq::<u64>::empty(), events);
    let shot = crate::projectile::spec_mark_removed(pierced.0, pierced.1);
    let burned = crate::orb::spec_field_hits(shot, events);
    let deaths = crate::health::spec_death_events(burned);
    let after_deaths = crate::enemy::spec_enemy_deaths(burned, deaths);
    let cleared = spec_clear_marks(after_deaths.0);
    TickView {
        bodies: spec_survivors(cleared),
        events,
        deaths,
        point_spawns: after_deaths.1,
        removed: spec_removed_ids(cleared),
        awards: picked.1,
        kills: after_deaths.2,
        player_died: crate::player::spec_player_death(burned, deaths),
    }
}

/// What one tick hands back to the surrounding application.
#[derive(Debug)]
pub struct TickOutcome {
    /// The tick's collision events, for effects and analytics.
    pub events: Vec<CollisionEvent>,
    /// The tick's death events.
    pub deaths: Vec<DeathEvent>,
    /// Positions at which dying enemies left pickups to spawn.
    pub point_spawns: Vec<Vec3i>,
    /// Identifiers of the bodies despawned this tick.
    pub removed: Vec<u64>,
    /// Whether the player died this tick.
    pub player_died: bool,
}

/// Runs one tick of the simulation: advances the field cooldowns, scans
/// for collisions, feeds the same event list to the pickup, passthrough
/// and persistent-field resolvers in fixed order, evaluates deaths
/// exactly once per dying body, lets the death consumers run, and sweeps
/// despawned records at the boundary. Always runs to completion.
pub fn run_tick(world: &mut World, score: &mut PlayerScore, delta: u64) -> (outcome: TickOutcome)
    requires
        old(world).wf(),
        old(score).total_points + old(world)@.len() * old(world)@.len() <= u32::MAX,
        old(score).current_points + old(world)@.len() * old(world)@.len() <= u32::MAX,
        old(score).enemies_killed + old(world)@.len() <= u32::MAX,
    ensures
        final(world)@ == spec_tick(old(world)@, delta).bodies,
        final(world).wf(),
        outcome.events@ == spec_tick(old(world)@, delta).events,
        outcome.deaths@ == spec_tick(old(world)@, delta).deaths,
        outcome.point_spawns@ == spec_tick(old(world)@, delta).point_spawns,
        outcome.removed@ == spec_tick(old(world)@, delta).removed,
        outcome.player_died == spec_tick(old(world)@, delta).player_died,
        *final(score) == (PlayerScore {
            total_points: (old(score).total_points + spec_tick(old(world)@, delta).awards) as u32,
            current_points: (old(score).current_points + spec_tick(
                old(world)@,
                delta,
            ).awards) as u32,
            enemies_killed: (old(score).enemies_killed + spec_tick(
                old(world)@,
                delta,
            ).kills) as u32,
            ..*old(score)
        }),
{
    let ghost s0 = world@;
    let ghost n = s0.len();
    crate::orb::tick_orb_hits(world, delta);
    let events = crate::collision::check_collisions(world);
    proof {
        crate::collision::lemma_collisions_len_bound(world@);
        assert(world@.len() == n);
        assert(n * (n - 1) <= n * n) by (nonlinear_arith)
            requires
                n >= 0,
        ;
        assert(2 * events@.len() <= n * n);
    }
    crate::point::resolve_pickups(world, &events, score);
    proof {
        crate::point::lemma_pickups_len(crate::orb::spec_tick_fields(s0, delta), events@);
    }
    // the despawn list is folded into the sweep at the tick boundary
    let _scheduled = crate::projectile::resolve_projectile_hits(world, &events);
    proof {
        let picked = crate::point::spec_pickups(crate::orb::spec_tick_fields(s0, delta), events@);
        let pierced = crate::projectile::spec_passthrough_fold(
            picked.0,
            Seq::<u64>::empty(),
            events@,
        );
        crate::projectile::lemma_passthrough_len(picked.0, Seq::<u64>::empty(), events@);
        crate::projectile::lemma_mark_removed_len(pierced.0, pierced.1);
    }
    crate::orb::resolve_orb_hits(world, &events);
    proof {
        let picked = crate::point::spec_pickups(crate::orb::spec_tick_fields(s0, delta), events@);
        let pierced = crate::projectile::spec_passthrough_fold(
            picked.0,
            Seq::<u64>::empty(),
            events@,
        );
        let shot = crate::projectile::spec_mark_removed(pierced.0, pierced.1);
        crate::orb::lemma_field_hits_len(shot, events@);
        assert(world@.len() == n);
    }
    let deaths = crate::health::handle_health_changed(world);
    proof {
        crate::health::lemma_death_events_len(world@);
        assert(deaths@.len() <= n);
    }
    let player_died = crate::player::handle_death(world, &deaths);
    let point_spawns = crate::enemy::handle_death_events(world, &deaths, score);
    world.clear_health_marks();
    let removed = world.sweep_removed();
    TickOutcome { events, deaths, point_spawns, removed, player_died }
}

} // verus!
