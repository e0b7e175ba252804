//! Collision groups, canonical pairs, shape overlap tests, and the
//! all-pairs collision scan.

use vstd::prelude::*;

use crate::world::BodyView;
use crate::world::World;
use crate::world::bodies_wf;
use crate::world::ids_distinct;

verus! {

/// Collision-group bit for the player body.
pub const GROUP_PLAYER: u16 = 1 << 0;
/// Collision-group bit for projectiles and orbiting damage fields.
pub const GROUP_PROJECTILE: u16 = 1 << 1;
/// Collision-group bit for enemies.
pub const GROUP_ENEMY: u16 = 1 << 2;
/// Collision-group bit for score pickups.
pub const GROUP_POINT: u16 = 1 << 3;

/// All of the groups.
pub const GROUP_ALL: u16 = u16::MAX;

/// None of the groups.
pub const GROUP_NONE: u16 = 0;

/// A bitmask pair deciding which bodies may report collisions with each
/// other: `memberships` says which groups the body belongs to, `filters`
/// which groups it is willing to collide with.
#[derive(PartialEq, Eq, Structural, Clone, Copy, Debug)]
pub struct CollisionGroups {
    pub memberships: u16,
    pub filters: u16,
}

impl CollisionGroups {
    /// Whether two group assignments allow a collision to be reported:
    /// each body must be a member of some group the other one filters for.
    pub open spec fn spec_intersects(self, rhs: CollisionGroups) -> bool {
        (self.memberships & rhs.filters) != 0 && (rhs.memberships & self.filters) != 0
    }

    pub fn new(memberships: u16, filters: u16) -> (groups: Self)
        ensures
            groups.memberships == memberships,
            groups.filters == filters,
    {
        Self { memberships, filters }
    }

    pub fn intersects(&self, rhs: &Self) -> (permitted: bool)
        ensures
            permitted == self.spec_intersects(*rhs),
    {
        (self.memberships & rhs.filters) != 0 && (rhs.memberships & self.filters) != 0
    }
}

/// Group filtering is symmetric: whether two bodies may collide does not
/// depend on which of the two asks.
pub proof fn lemma_intersects_symmetric(a: CollisionGroups, b: CollisionGroups)
    ensures
        a.spec_intersects(b) == b.spec_intersects(a),
{
}

/// Canonical unordered pair of body identifiers: constructing from `(x, y)`
/// and from `(y, x)` yields equal values, because the smaller identifier is
/// always stored first.
#[derive(PartialEq, Eq, Structural, Clone, Copy, Debug, Hash)]
pub struct CollisionPair {
    pub e1: u64,
    pub e2: u64,
}

impl CollisionPair {
    /// The canonical form of the unordered pair `{e1, e2}`.
    pub open spec fn spec_new(e1: u64, e2: u64) -> CollisionPair {
        if e1 < e2 {
            CollisionPair { e1, e2 }
        } else {
            CollisionPair { e1: e2, e2: e1 }
        }
    }

    pub fn new(e1: u64, e2: u64) -> (pair: Self)
        ensures
            pair == Self::spec_new(e1, e2),
    {
        if e1 < e2 {
            Self { e1, e2 }
        } else {
            Self { e1: e2, e2: e1 }
        }
    }
}

/// Pair canonicalization: the order of the two identifiers does not matter.
pub proof fn lemma_pair_symmetric(x: u64, y: u64)
    ensures
        CollisionPair::spec_new(x, y) == CollisionPair::spec_new(y, x),
{
}

/// Distinct unordered pairs have distinct canonical forms: changing one
/// endpoint to a fresh identifier changes the pair.
pub proof fn lemma_pair_distinct(x: u64, y: u64, z: u64)
    requires
        y != z,
    ensures
        CollisionPair::spec_new(x, y) != CollisionPair::spec_new(x, z),
{
}

/// Largest magnitude allowed for a coordinate or a shape size on the
/// fixed-point grid. The bound keeps every intermediate of the overlap
/// arithmetic far inside `i128`.
pub const COORD_LIMIT: i64 = 0x8000_0000;

/// A position or size on the fixed-point world grid.
#[derive(PartialEq, Eq, Structural, Clone, Copy, Debug)]
pub struct Vec3i {
    pub x: i64,
    pub y: i64,
    pub z: i64,
}

impl Vec3i {
    /// All three components stay on the grid.
    pub open spec fn wf(self) -> bool {
        &&& -COORD_LIMIT <= self.x <= COORD_LIMIT
        &&& -COORD_LIMIT <= self.y <= COORD_LIMIT
        &&& -COORD_LIMIT <= self.z <= COORD_LIMIT
    }

    pub fn new(x: i64, y: i64, z: i64) -> (v: Self)
        ensures
            v == (Vec3i { x, y, z }),
    {
        Self { x, y, z }
    }

    /// Whether all three components stay on the grid.
    pub fn is_valid(&self) -> (ok: bool)
        ensures
            ok == self.wf(),
    {
        self.x >= -COORD_LIMIT && self.x <= COORD_LIMIT && self.y >= -COORD_LIMIT && self.y
            <= COORD_LIMIT && self.z >= -COORD_LIMIT && self.z <= COORD_LIMIT
    }
}

/// The shape of a collidable body. Rotation is ignored for collision
/// purposes: a cuboid is always axis-aligned, described by its full edge
/// lengths, which the overlap tests halve internally into extents.
#[derive(PartialEq, Eq, Structural, Clone, Copy, Debug)]
pub enum Collider {
    /// Sphere with the given radius.
    Sphere(i64),
    /// Axis-aligned box with the given full edge lengths.
    Cuboid(Vec3i),
}

impl Collider {
    /// Shape parameters are non-negative and stay on the grid. Negative
    /// radii or edge lengths are a programming error and are rejected
    /// before a body enters the arena.
    pub open spec fn wf(self) -> bool {
        match self {
            Collider::Sphere(radius) => 0 <= radius <= COORD_LIMIT,
            Collider::Cuboid(size) => {
                &&& 0 <= size.x <= COORD_LIMIT
                &&& 0 <= size.y <= COORD_LIMIT
                &&& 0 <= size.z <= COORD_LIMIT
            },
        }
    }

    /// Whether the shape parameters are non-negative and stay on the grid.
    pub fn is_valid(&self) -> (ok: bool)
        ensures
            ok == self.wf(),
    {
        match self {
            Collider::Sphere(radius) => *radius >= 0 && *radius <= COORD_LIMIT,
            Collider::Cuboid(size) => {
                size.x >= 0 && size.x <= COORD_LIMIT && size.y >= 0 && size.y <= COORD_LIMIT
                    && size.z >= 0 && size.z <= COORD_LIMIT
            },
        }
    }
}

/// The square of a coordinate difference.
pub open spec fn sq(v: int) -> int {
    v * v
}

/// `v` forced into the interval `[lo, hi]`.
pub open spec fn clamp(v: int, lo: int, hi: int) -> int {
    if v < lo {
        lo
    } else if v > hi {
        hi
    } else {
        v
    }
}

/// Two spheres overlap when the distance between their centers is at most
/// the sum of their radii; touching counts as overlap.
pub open spec fn spec_spheres_overlap(p1: Vec3i, r1: i64, p2: Vec3i, r2: i64) -> bool {
    sq(p1.x - p2.x) + sq(p1.y - p2.y) + sq(p1.z - p2.z) <= sq(r1 + r2)
}

/// Per-axis distance, in doubled coordinates, from the sphere center to the
/// box interval on that axis: the doubled offset of the centers minus its
/// clamp to the box's full edge length (which equals the doubled half
/// extent), so the arithmetic stays exact on the integer grid.
pub open spec fn axis_gap(sphere_c: i64, box_c: i64, size: i64) -> int {
    let offset = 2 * (sphere_c - box_c);
    offset - clamp(offset, -size, size as int)
}

/// A sphere and a box overlap when the point of the box closest to the
/// sphere center lies strictly inside the sphere; mere touching is not
/// overlap. Stated in doubled coordinates against the doubled radius.
pub open spec fn spec_sphere_box_overlap(p1: Vec3i, r1: i64, p2: Vec3i, s2: Vec3i) -> bool {
    sq(axis_gap(p1.x, p2.x, s2.x)) + sq(axis_gap(p1.y, p2.y, s2.y)) + sq(
        axis_gap(p1.z, p2.z, s2.z),
    ) < sq(2 * r1)
}

/// Two axis-aligned boxes overlap when their intervals overlap strictly on
/// all three axes, in doubled coordinates so that halving the edge lengths
/// stays exact.
pub open spec fn spec_boxes_overlap(p1: Vec3i, s1: Vec3i, p2: Vec3i, s2: Vec3i) -> bool {
    &&& -(s1.x + s2.x) < 2 * (p1.x - p2.x) < s1.x + s2.x
    &&& -(s1.y + s2.y) < 2 * (p1.y - p2.y) < s1.y + s2.y
    &&& -(s1.z + s2.z) < 2 * (p1.z - p2.z) < s1.z + s2.z
}

/// Shape-dispatched overlap: one case per unordered pairing of shape kinds.
pub open spec fn spec_overlaps(c1: Collider, p1: Vec3i, c2: Collider, p2: Vec3i) -> bool {
    match (c1, c2) {
        (Collider::Sphere(r1), Collider::Sphere(r2)) => spec_spheres_overlap(p1, r1, p2, r2),
        (Collider::Sphere(r1), Collider::Cuboid(s2)) => spec_sphere_box_overlap(p1, r1, p2, s2),
        (Collider::Cuboid(s1), Collider::Sphere(r2)) => spec_sphere_box_overlap(p2, r2, p1, s1),
        (Collider::Cuboid(s1), Collider::Cuboid(s2)) => spec_boxes_overlap(p1, s1, p2, s2),
    }
}

/// The square of `v`, computed in `i128`.
fn sq_exec(v: i128) -> (r: i128)
    requires
        -0x10_0000_0000 <= v <= 0x10_0000_0000,
    ensures
        r == sq(v as int),
        0 <= r <= 0x100_0000_0000_0000_0000,
{
    proof {
        assert(0 <= v * v <= 0x100_0000_0000_0000_0000 as i128) by (nonlinear_arith)
            requires
                -0x10_0000_0000 <= v <= 0x10_0000_0000,
        ;
    }
    v * v
}

/// `v` forced into the interval `[lo, hi]`.
fn clamp_exec(v: i128, lo: i128, hi: i128) -> (r: i128)
    requires
        lo <= hi,
    ensures
        r == clamp(v as int, lo as int, hi as int),
{
    if v < lo {
        lo
    } else if v > hi {
        hi
    } else {
        v
    }
}

fn spheres_overlap(p1: &Vec3i, r1: i64, p2: &Vec3i, r2: i64) -> (overlap: bool)
    requires
        p1.wf(),
        p2.wf(),
        0 <= r1 <= COORD_LIMIT,
        0 <= r2 <= COORD_LIMIT,
    ensures
        overlap == spec_spheres_overlap(*p1, r1, *p2, r2),
{
    let dx = p1.x as i128 - p2.x as i128;
    let dy = p1.y as i128 - p2.y as i128;
    let dz = p1.z as i128 - p2.z as i128;
    let rr = r1 as i128 + r2 as i128;
    sq_exec(dx) + sq_exec(dy) + sq_exec(dz) <= sq_exec(rr)
}

fn axis_gap_exec(sphere_c: i64, box_c: i64, size: i64) -> (gap: i128)
    requires
        -COORD_LIMIT <= sphere_c <= COORD_LIMIT,
        -COORD_LIMIT <= box_c <= COORD_LIMIT,
        0 <= size <= COORD_LIMIT,
    ensures
        gap == axis_gap(sphere_c, box_c, size),
        -0x10_0000_0000 <= gap <= 0x10_0000_0000,
{
    let offset = 2 * (sphere_c as i128 - box_c as i128);
    offset - clamp_exec(offset, -(size as i128), size as i128)
}

fn sphere_box_overlap(p1: &Vec3i, r1: i64, p2: &Vec3i, s2: &Vec3i) -> (overlap: bool)
    requires
        p1.wf(),
        p2.wf(),
        0 <= r1 <= COORD_LIMIT,
        0 <= s2.x <= COORD_LIMIT,
        0 <= s2.y <= COORD_LIMIT,
        0 <= s2.z <= COORD_LIMIT,
    ensures
        overlap == spec_sphere_box_overlap(*p1, r1, *p2, *s2),
{
    let gx = axis_gap_exec(p1.x, p2.x, s2.x);
    let gy = axis_gap_exec(p1.y, p2.y, s2.y);
    let gz = axis_gap_exec(p1.z, p2.z, s2.z);
    sq_exec(gx) + sq_exec(gy) + sq_exec(gz) < sq_exec(2 * (r1 as i128))
}

fn boxes_overlap(p1: &Vec3i, s1: &Vec3i, p2: &Vec3i, s2: &Vec3i) -> (overlap: bool)
    requires
        p1.wf(),
        p2.wf(),
        0 <= s1.x <= COORD_LIMIT,
        0 <= s1.y <= COORD_LIMIT,
        0 <= s1.z <= COORD_LIMIT,
        0 <= s2.x <= COORD_LIMIT,
        0 <= s2.y <= COORD_LIMIT,
        0 <= s2.z <= COORD_LIMIT,
    ensures
        overlap == spec_boxes_overlap(*p1, *s1, *p2, *s2),
{
    let sx = s1.x as i128 + s2.x as i128;
    let sy = s1.y as i128 + s2.y as i128;
    let sz = s1.z as i128 + s2.z as i128;
    let dx = 2 * (p1.x as i128 - p2.x as i128);
    let dy = 2 * (p1.y as i128 - p2.y as i128);
    let dz = 2 * (p1.z as i128 - p2.z as i128);
    -sx < dx && dx < sx && -sy < dy && dy < sy && -sz < dz && dz < sz
}

/// Shape-appropriate overlap test between two bodies given their shapes and
/// world positions.
pub fn overlaps(c1: &Collider, p1: &Vec3i, c2: &Collider, p2: &Vec3i) -> (overlap: bool)
    requires
        c1.wf(),
        c2.wf(),
        p1.wf(),
        p2.wf(),
    ensures
        overlap == spec_overlaps(*c1, *p1, *c2, *p2),
{
    match (c1, c2) {
        (Collider::Sphere(r1), Collider::Sphere(r2)) => spheres_overlap(p1, *r1, p2, *r2),
        (Collider::Sphere(r1), Collider::Cuboid(s2)) => sphere_box_overlap(p1, *r1, p2, s2),
        (Collider::Cuboid(s1), Collider::Sphere(r2)) => sphere_box_overlap(p2, *r2, p1, s1),
        (Collider::Cuboid(s1), Collider::Cuboid(s2)) => boxes_overlap(p1, s1, p2, s2),
    }
}

/// Squaring ignores sign.
proof fn lemma_sq_neg(a: int)
    ensures
        sq(a) == sq(-a),
{
    assert(a * a == (-a) * (-a)) by (nonlinear_arith);
}

/// Overlap testing is symmetric in the two bodies.
pub proof fn lemma_overlaps_symmetric(c1: Collider, p1: Vec3i, c2: Collider, p2: Vec3i)
    ensures
        spec_overlaps(c1, p1, c2, p2) == spec_overlaps(c2, p2, c1, p1),
{
    match (c1, c2) {
        (Collider::Sphere(_), Collider::Sphere(_)) => {
            lemma_sq_neg(p1.x - p2.x);
            lemma_sq_neg(p1.y - p2.y);
            lemma_sq_neg(p1.z - p2.z);
        },
        (Collider::Cuboid(_), Collider::Cuboid(_)) => {
        },
        _ => {
        },
    }
}

/// Sphere/box overlap boundary: a sphere of radius `r` centered at the
/// origin and a box of half-extent `r` (full edge length `2r`) centered
/// exactly `2r` away along one axis do not overlap; one grid step closer,
/// they do.
pub proof fn lemma_sphere_box_boundary(r: i64)
    requires
        1 <= r <= COORD_LIMIT / 2,
    ensures
        !spec_sphere_box_overlap(
            Vec3i { x: 0, y: 0, z: 0 },
            r,
            Vec3i { x: (2 * r) as i64, y: 0, z: 0 },
            Vec3i { x: (2 * r) as i64, y: (2 * r) as i64, z: (2 * r) as i64 },
        ),
        spec_sphere_box_overlap(
            Vec3i { x: 0, y: 0, z: 0 },
            r,
            Vec3i { x: (2 * r - 1) as i64, y: 0, z: 0 },
            Vec3i { x: (2 * r) as i64, y: (2 * r) as i64, z: (2 * r) as i64 },
        ),
{
    let g_far = axis_gap(0, (2 * r) as i64, (2 * r) as i64);
    assert(g_far == -2 * r);
    let g_near = axis_gap(0, (2 * r - 1) as i64, (2 * r) as i64);
    assert(g_near == -2 * r + 2);
    assert(axis_gap(0, 0, (2 * r) as i64) == 0);
    assert(sq(0) == 0);
    assert(sq(-2 * r) == sq(2 * r)) by {
        lemma_sq_neg(2 * r);
    }
    assert(sq(-2 * r + 2) < sq(2 * r)) by (nonlinear_arith)
        requires
            r >= 1,
    ;
}

/// One qualifying, deduplicated overlap discovered in the current tick:
/// the identifiers of the two overlapping bodies, in scan order. Events
/// are consumed within the tick and never persisted.
#[derive(PartialEq, Eq, Structural, Clone, Copy, Debug)]
pub struct CollisionEvent {
    pub e1: u64,
    pub e2: u64,
}

/// Whether a pair of bodies produces a collision event this tick: both
/// still in play, groups mutually permitted, and shapes overlapping.
pub open spec fn pair_qualifies(a: BodyView, b: BodyView) -> bool {
    &&& !a.removed
    &&& !b.removed
    &&& a.groups.spec_intersects(b.groups)
    &&& spec_overlaps(a.collider, a.position, b.collider, b.position)
}

/// Whether `ev` is the event the scan emits for the body pair `(i, j)`.
pub open spec fn is_pair_event(s: Seq<BodyView>, i: int, j: int, ev: CollisionEvent) -> bool {
    &&& 0 <= i < j < s.len()
    &&& pair_qualifies(s[i], s[j])
    &&& ev == (CollisionEvent { e1: s[i].id, e2: s[j].id })
}

/// The events body `i` contributes with partners `j` and beyond.
pub open spec fn row_events(s: Seq<BodyView>, i: int, j: int) -> Seq<CollisionEvent>
    decreases s.len() - j,
{
    if j < 0 || j >= s.len() {
        Seq::empty()
    } else if pair_qualifies(s[i], s[j]) {
        seq![CollisionEvent { e1: s[i].id, e2: s[j].id }] + row_events(s, i, j + 1)
    } else {
        row_events(s, i, j + 1)
    }
}

/// The events the scan emits for rows `i` and beyond: each unordered pair
/// of distinct bodies is visited exactly once, in index order.
pub open spec fn scan_events(s: Seq<BodyView>, i: int) -> Seq<CollisionEvent>
    decreases s.len() - i,
{
    if i < 0 || i >= s.len() {
        Seq::empty()
    } else {
        row_events(s, i, i + 1) + scan_events(s, i + 1)
    }
}

/// The full event list of one tick for the given body list.
pub open spec fn spec_collisions(s: Seq<BodyView>) -> Seq<CollisionEvent> {
    scan_events(s, 0)
}

proof fn lemma_add_assoc(a: Seq<CollisionEvent>, b: Seq<CollisionEvent>, c: Seq<CollisionEvent>)
    ensures
        (a + b) + c == a + (b + c),
{
    assert((a + b) + c =~= a + (b + c));
}

/// Scans all currently alive bodies and emits one collision event per
/// true, group-permitted, first-seen-this-tick overlapping pair: exactly
/// the event list `spec_collisions` assigns to the arena's bodies.
pub fn check_collisions(world: &World) -> (events: Vec<CollisionEvent>)
    requires
        bodies_wf(world@),
    ensures
        events@ == spec_collisions(world@),
{
    let ghost s = world@;
    let n = world.bodies.len();
    let mut events: Vec<CollisionEvent> = Vec::new();
    let mut i: usize = 0;
    proof {
        assert(events@ + scan_events(s, 0) =~= scan_events(s, 0));
    }
    while i < n
        invariant
            s == world@,
            bodies_wf(s),
            n == world.bodies@.len(),
            s.len() == n,
            i <= n,
            events@ + scan_events(s, i as int) == spec_collisions(s),
        decreases n - i,
    {
        let mut j: usize = i + 1;
        proof {
            lemma_add_assoc(events@, row_events(s, i as int, i as int + 1), scan_events(s, i as int + 1));
        }
        while j < n
            invariant
                s == world@,
                bodies_wf(s),
                n == world.bodies@.len(),
                s.len() == n,
                i < n,
                i < j <= n,
                events@ + row_events(s, i as int, j as int) + scan_events(s, i as int + 1)
                    == spec_collisions(s),
            decreases n - j,
        {
            let ghost events0 = events@;
            let a = &world.bodies[i];
            let b = &world.bodies[j];
            proof {
                assert(a@ == s[i as int]);
                assert(b@ == s[j as int]);
            }
            if !a.removed && !b.removed && a.groups.intersects(&b.groups) && overlaps(
                &a.collider,
                &a.position,
                &b.collider,
                &b.position,
            ) {
                events.push(CollisionEvent { e1: a.id, e2: b.id });
                proof {
                    let ev = CollisionEvent { e1: s[i as int].id, e2: s[j as int].id };
                    assert(pair_qualifies(s[i as int], s[j as int]));
                    assert(events@ =~= events0 + seq![ev]);
                    lemma_add_assoc(events0, seq![ev], row_events(s, i as int, j as int + 1));
                }
            } else {
                proof {
                    assert(!pair_qualifies(s[i as int], s[j as int]));
                }
            }
            j = j + 1;
        }
        proof {
            assert(row_events(s, i as int, n as int) =~= Seq::<CollisionEvent>::empty());
            assert(events@ + row_events(s, i as int, n as int) =~= events@);
        }
        i = i + 1;
    }
    proof {
        assert(scan_events(s, n as int) =~= Seq::<CollisionEvent>::empty());
        assert(events@ + scan_events(s, n as int) =~= events@);
    }
    events
}

proof fn lemma_contains_left(a: Seq<CollisionEvent>, b: Seq<CollisionEvent>, x: CollisionEvent)
    requires
        a.contains(x),
    ensures
        (a + b).contains(x),
{
    let k = choose|k: int| 0 <= k < a.len() && a[k] == x;
    assert((a + b)[k] == x);
}

proof fn lemma_contains_right(a: Seq<CollisionEvent>, b: Seq<CollisionEvent>, x: CollisionEvent)
    requires
        b.contains(x),
    ensures
        (a + b).contains(x),
{
    let k = choose|k: int| 0 <= k < b.len() && b[k] == x;
    assert((a + b)[a.len() + k] == x);
}

proof fn lemma_row_sound(s: Seq<BodyView>, i: int, j: int)
    requires
        0 <= i < s.len(),
        i < j,
    ensures
        forall|ev: CollisionEvent| #[trigger] row_events(s, i, j).contains(ev) ==> exists|j2: int|
            #[trigger] is_pair_event(s, i, j2, ev),
    decreases s.len() - j,
{
    if j < s.len() {
        lemma_row_sound(s, i, j + 1);
        let row = row_events(s, i, j);
        let rest = row_events(s, i, j + 1);
        assert forall|ev: CollisionEvent| #[trigger] row.contains(ev) implies exists|j2: int|
            #[trigger] is_pair_event(s, i, j2, ev) by {
            let k = choose|k: int| 0 <= k < row.len() && row[k] == ev;
            if pair_qualifies(s[i], s[j]) {
                if k == 0 {
                    assert(is_pair_event(s, i, j, ev));
                } else {
                    assert(rest[k - 1] == ev);
                    assert(rest.contains(ev));
                }
            } else {
                assert(rest[k] == ev);
                assert(rest.contains(ev));
            }
        }
    }
}

proof fn lemma_scan_sound(s: Seq<BodyView>, i: int)
    requires
        0 <= i,
    ensures
        forall|ev: CollisionEvent| #[trigger] scan_events(s, i).contains(ev) ==> exists|
            i2: int,
            j2: int,
        | #[trigger] is_pair_event(s, i2, j2, ev),
    decreases s.len() - i,
{
    if i < s.len() {
        lemma_scan_sound(s, i + 1);
        lemma_row_sound(s, i, i + 1);
        let scan = scan_events(s, i);
        let row = row_events(s, i, i + 1);
        let rest = scan_events(s, i + 1);
        assert forall|ev: CollisionEvent| #[trigger] scan.contains(ev) implies exists|
            i2: int,
            j2: int,
        | #[trigger] is_pair_event(s, i2, j2, ev) by {
            let k = choose|k: int| 0 <= k < scan.len() && scan[k] == ev;
            if k < row.len() {
                assert(row[k] == ev);
                assert(row.contains(ev));
                let j2 = choose|j2: int| #[trigger] is_pair_event(s, i, j2, ev);
                assert(is_pair_event(s, i, j2, ev));
            } else {
                assert(rest[k - row.len()] == ev);
                assert(rest.contains(ev));
            }
        }
    }
}

/// Soundness of the scan: every emitted event belongs to some qualifying
/// pair of distinct bodies, carrying their identifiers in index order.
pub proof fn lemma_collisions_sound(s: Seq<BodyView>)
    ensures
        forall|ev: CollisionEvent| #[trigger] spec_collisions(s).contains(ev) ==> exists|
            i: int,
            j: int,
        | #[trigger] is_pair_event(s, i, j, ev),
{
    lemma_scan_sound(s, 0);
    assert forall|ev: CollisionEvent| #[trigger] spec_collisions(s).contains(ev) implies exists|
        i: int,
        j: int,
    | #[trigger] is_pair_event(s, i, j, ev) by {
        assert(scan_events(s, 0).contains(ev));
    }
}

proof fn lemma_row_complete(s: Seq<BodyView>, i: int, j0: int, j: int)
    requires
        0 <= i < j0 <= j < s.len(),
        pair_qualifies(s[i], s[j]),
    ensures
        row_events(s, i, j0).contains(CollisionEvent { e1: s[i].id, e2: s[j].id }),
    decreases j - j0,
{
    let ev = CollisionEvent { e1: s[i].id, e2: s[j].id };
    if j0 == j {
        assert(row_events(s, i, j0)[0] == ev);
    } else {
        lemma_row_complete(s, i, j0 + 1, j);
        if pair_qualifies(s[i], s[j0]) {
            lemma_contains_right(
                seq![CollisionEvent { e1: s[i].id, e2: s[j0].id }],
                row_events(s, i, j0 + 1),
                ev,
            );
        }
    }
}

proof fn lemma_scan_complete(s: Seq<BodyView>, i0: int, i: int, j: int)
    requires
        0 <= i0 <= i < j < s.len(),
        pair_qualifies(s[i], s[j]),
    ensures
        scan_events(s, i0).contains(CollisionEvent { e1: s[i].id, e2: s[j].id }),
    decreases i - i0,
{
    let ev = CollisionEvent { e1: s[i].id, e2: s[j].id };
    if i0 == i {
        lemma_row_complete(s, i, i + 1, j);
        lemma_contains_left(row_events(s, i0, i0 + 1), scan_events(s, i0 + 1), ev);
    } else {
        lemma_scan_complete(s, i0 + 1, i, j);
        lemma_contains_right(row_events(s, i0, i0 + 1), scan_events(s, i0 + 1), ev);
    }
}

/// Completeness of the scan: every qualifying pair of distinct bodies has
/// its event in the emitted list.
pub proof fn lemma_collisions_complete(s: Seq<BodyView>, i: int, j: int)
    requires
        0 <= i < j < s.len(),
        pair_qualifies(s[i], s[j]),
    ensures
        spec_collisions(s).contains(CollisionEvent { e1: s[i].id, e2: s[j].id }),
{
    lemma_scan_complete(s, 0, i, j);
}

proof fn lemma_row_len_bound(s: Seq<BodyView>, i: int, j: int)
    requires
        0 <= j <= s.len(),
    ensures
        row_events(s, i, j).len() <= s.len() - j,
    decreases s.len() - j,
{
    if j < s.len() {
        lemma_row_len_bound(s, i, j + 1);
    }
}

proof fn lemma_row_len_full(s: Seq<BodyView>, i: int, j: int)
    requires
        0 <= i < s.len(),
        i < j <= s.len(),
        forall|j2: int| j <= j2 < s.len() ==> pair_qualifies(s[i], #[trigger] s[j2]),
    ensures
        row_events(s, i, j).len() == s.len() - j,
    decreases s.len() - j,
{
    if j < s.len() {
        lemma_row_len_full(s, i, j + 1);
    }
}

proof fn lemma_scan_len_bound(s: Seq<BodyView>, i: int)
    requires
        0 <= i <= s.len(),
    ensures
        scan_events(s, i).len() * 2 <= (s.len() - i) * (s.len() - i - 1),
    decreases s.len() - i,
{
    let n = s.len() as int;
    if i < n {
        lemma_scan_len_bound(s, i + 1);
        lemma_row_len_bound(s, i, i + 1);
        assert((n - i - 1) * 2 + (n - i - 1) * (n - i - 2) == (n - i) * (n - i - 1))
            by (nonlinear_arith);
    } else {
        assert((n - i) * (n - i - 1) >= 0) by (nonlinear_arith)
            requires
                i >= n,
        ;
    }
}

proof fn lemma_scan_len_full(s: Seq<BodyView>, i: int)
    requires
        0 <= i <= s.len(),
        forall|i2: int, j2: int|
            i <= i2 < j2 < s.len() ==> pair_qualifies(#[trigger] s[i2], #[trigger] s[j2]),
    ensures
        scan_events(s, i).len() * 2 == (s.len() - i) * (s.len() - i - 1),
    decreases s.len() - i,
{
    let n = s.len() as int;
    if i < n {
        lemma_scan_len_full(s, i + 1);
        lemma_row_len_full(s, i, i + 1);
        assert((n - i - 1) * 2 + (n - i - 1) * (n - i - 2) == (n - i) * (n - i - 1))
            by (nonlinear_arith);
    } else {
        assert((n - i) * (n - i - 1) == 0) by (nonlinear_arith)
            requires
                i == n,
        ;
    }
}

/// The scan never emits more events than there are unordered pairs of
/// distinct bodies.
pub proof fn lemma_collisions_len_bound(s: Seq<BodyView>)
    ensures
        spec_collisions(s).len() * 2 <= s.len() * (s.len() - 1),
{
    lemma_scan_len_bound(s, 0);
}

proof fn lemma_row_pairs(s: Seq<BodyView>, i: int, j: int)
    requires
        ids_distinct(s),
        0 <= i < s.len(),
        i < j,
    ensures
        forall|k: int|
            0 <= k < row_events(s, i, j).len() ==> (#[trigger] row_events(s, i, j)[k]).e1 == s[
                i
            ].id,
        forall|k: int|
            0 <= k < row_events(s, i, j).len() ==> exists|j2: int|
                j <= j2 < s.len() && (#[trigger] row_events(s, i, j)[k]).e2 == s[j2].id,
        forall|k1: int, k2: int|
            0 <= k1 < k2 < row_events(s, i, j).len() ==> (#[trigger] row_events(s, i, j)[k1]).e2
                != (#[trigger] row_events(s, i, j)[k2]).e2,
    decreases s.len() - j,
{
    if j < s.len() {
        lemma_row_pairs(s, i, j + 1);
        let row = row_events(s, i, j);
        let rest = row_events(s, i, j + 1);
        if pair_qualifies(s[i], s[j]) {
            assert(forall|k: int| 1 <= k < row.len() ==> (#[trigger] row[k]) == rest[k - 1]);
        }
        assert forall|k: int| 0 <= k < row.len() implies exists|j2: int|
            j <= j2 < s.len() && (#[trigger] row[k]).e2 == s[j2].id by {
            if pair_qualifies(s[i], s[j]) && k == 0 {
                assert(j <= j < s.len() && row[0].e2 == s[j].id);
            } else {
                let k2: int = if pair_qualifies(s[i], s[j]) {
                    k - 1
                } else {
                    k
                };
                assert(row[k] == rest[k2]);
                let j2 = choose|j2: int| j + 1 <= j2 < s.len() && rest[k2].e2 == s[j2].id;
                assert(j <= j2 < s.len() && row[k].e2 == s[j2].id);
            }
        }
        assert forall|k1: int, k2: int|
            0 <= k1 < k2 < row.len() implies (#[trigger] row[k1]).e2 != (#[trigger] row[k2]).e2 by {
            if pair_qualifies(s[i], s[j]) && k1 == 0 {
                let jb = choose|jb: int| j + 1 <= jb < s.len() && rest[k2 - 1].e2 == s[jb].id;
                assert(row[k1].e2 == s[j].id);
                assert(row[k2].e2 == s[jb].id);
                assert(s[j].id != s[jb].id);
            }
        }
    }
}

proof fn lemma_scan_pairs(s: Seq<BodyView>, i: int)
    requires
        ids_distinct(s),
        0 <= i,
    ensures
        forall|k: int|
            0 <= k < scan_events(s, i).len() ==> exists|i2: int, j2: int|
                i <= i2 < j2 < s.len() && (#[trigger] scan_events(s, i)[k]).e1 == s[i2].id
                    && scan_events(s, i)[k].e2 == s[j2].id,
        forall|k1: int, k2: int|
            0 <= k1 < k2 < scan_events(s, i).len() ==> CollisionPair::spec_new(
                (#[trigger] scan_events(s, i)[k1]).e1,
                scan_events(s, i)[k1].e2,
            ) != CollisionPair::spec_new(
                (#[trigger] scan_events(s, i)[k2]).e1,
                scan_events(s, i)[k2].e2,
            ),
    decreases s.len() - i,
{
    if i < s.len() {
        lemma_scan_pairs(s, i + 1);
        lemma_row_pairs(s, i, i + 1);
        let scan = scan_events(s, i);
        let row = row_events(s, i, i + 1);
        let rest = scan_events(s, i + 1);
        assert forall|k: int| 0 <= k < scan.len() implies exists|i2: int, j2: int|
            i <= i2 < j2 < s.len() && (#[trigger] scan[k]).e1 == s[i2].id && scan[k].e2 == s[
            j2
        ].id by {
            if k < row.len() {
                assert(scan[k] == row[k]);
                let j2 = choose|j2: int| i + 1 <= j2 < s.len() && row[k].e2 == s[j2].id;
                assert(i <= i < j2 < s.len() && scan[k].e1 == s[i].id && scan[k].e2 == s[j2].id);
            } else {
                assert(scan[k] == rest[k - row.len()]);
                let (i2, j2) = choose|i2: int, j2: int|
                    i + 1 <= i2 < j2 < s.len() && rest[k - row.len()].e1 == s[i2].id && rest[
                        k - row.len()
                    ].e2 == s[j2].id;
                assert(i <= i2 < j2 < s.len() && scan[k].e1 == s[i2].id && scan[k].e2 == s[
                    j2
                ].id);
            }
        }
        assert forall|k1: int, k2: int|
            0 <= k1 < k2 < scan.len() implies CollisionPair::spec_new(
            (#[trigger] scan[k1]).e1,
            scan[k1].e2,
        ) != CollisionPair::spec_new((#[trigger] scan[k2]).e1, scan[k2].e2) by {
            if k2 < row.len() {
                // both events sit in row `i`: same first id, distinct partners
                assert(scan[k1] == row[k1]);
                assert(scan[k2] == row[k2]);
                assert(row[k1].e1 == s[i].id && row[k2].e1 == s[i].id);
                lemma_pair_distinct(s[i].id, row[k1].e2, row[k2].e2);
            } else if k1 >= row.len() {
                assert(scan[k1] == rest[k1 - row.len()]);
                assert(scan[k2] == rest[k2 - row.len()]);
            } else {
                // one event from row `i`, one from a later row: the later
                // event touches neither endpoint of the earlier one at
                // index `i`, so the unordered pairs differ
                assert(scan[k1] == row[k1]);
                assert(scan[k2] == rest[k2 - row.len()]);
                let jb = choose|jb: int| i + 1 <= jb < s.len() && row[k1].e2 == s[jb].id;
                let (i2, j2) = choose|i2: int, j2: int|
                    i + 1 <= i2 < j2 < s.len() && rest[k2 - row.len()].e1 == s[i2].id && rest[
                        k2 - row.len()
                    ].e2 == s[j2].id;
                assert(s[i].id != s[i2].id);
                assert(s[i].id != s[j2].id);
                let p1 = CollisionPair::spec_new(scan[k1].e1, scan[k1].e2);
                let p2 = CollisionPair::spec_new(scan[k2].e1, scan[k2].e2);
                assert(p1.e1 == s[i].id || p1.e2 == s[i].id);
                assert(p2.e1 != s[i].id && p2.e2 != s[i].id);
            }
        }
    }
}

/// Symmetric-pair deduplication: within one tick, no two events of the
/// emitted list share a canonical unordered pair — each first-seen pair
/// is reported once.
pub proof fn lemma_collisions_distinct_pairs(s: Seq<BodyView>)
    requires
        ids_distinct(s),
    ensures
        forall|k1: int, k2: int|
            0 <= k1 < k2 < spec_collisions(s).len() ==> CollisionPair::spec_new(
                (#[trigger] spec_collisions(s)[k1]).e1,
                spec_collisions(s)[k1].e2,
            ) != CollisionPair::spec_new(
                (#[trigger] spec_collisions(s)[k2]).e1,
                spec_collisions(s)[k2].e2,
            ),
{
    lemma_scan_pairs(s, 0);
}

/// Deduplication: when every unordered pair of distinct bodies qualifies
/// (as for bodies with pairwise-overlapping shapes and fully open
/// groups), the scan emits exactly `n * (n - 1) / 2` events — one per
/// unordered pair, never more.
pub proof fn lemma_collisions_dedup(s: Seq<BodyView>)
    requires
        forall|i: int, j: int|
            0 <= i < j < s.len() ==> pair_qualifies(#[trigger] s[i], #[trigger] s[j]),
    ensures
        spec_collisions(s).len() == s.len() * (s.len() - 1) / 2,
{
    lemma_scan_len_full(s, 0);
    let n = s.len() as int;
    assert(spec_collisions(s).len() == n * (n - 1) / 2) by {
        assert(spec_collisions(s).len() * 2 == n * (n - 1));
    }
}

} // verus!
