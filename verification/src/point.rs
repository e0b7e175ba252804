//! The pickup resolver: player↔pickup collisions award score and remove
//! the pickup.

use vstd::prelude::*;

use crate::collision::CollisionEvent;
use crate::score::PlayerScore;
use crate::world::BodyView;
use crate::world::World;
use crate::world::lemma_world_view_update;
use crate::world::spec_find;

verus! {

/// Whether an event orientation awards a pickup: the first body is the
/// player, the second a pickup, and both are still in play.
pub open spec fn pickup_applies(s: Seq<BodyView>, player_id: u64, point_id: u64) -> bool {
    let pl = spec_find(s, player_id);
    let pt = spec_find(s, point_id);
    &&& pl >= 0
    &&& !s[pl].removed
    &&& s[pl].is_player
    &&& pt >= 0
    &&& !s[pt].removed
    &&& s[pt].is_point
}

/// One orientation of one event: on a qualifying player/pickup pair the
/// pickup is removed on the spot and one point is awarded. Removing it at
/// once makes the award at-most-once: any later event referencing the
/// same pickup this tick is a no-op.
pub open spec fn spec_pickup_orient(s: Seq<BodyView>, player_id: u64, point_id: u64) -> (
    Seq<BodyView>,
    int,
) {
    if pickup_applies(s, player_id, point_id) {
        let pt = spec_find(s, point_id);
        (s.update(pt, BodyView { removed: true, ..s[pt] }), 1)
    } else {
        (s, 0)
    }
}

/// Both orientations of one event, in order: the pickup may stand on
/// either side of the event.
pub open spec fn spec_pickup_event(s: Seq<BodyView>, ev: CollisionEvent) -> (Seq<BodyView>, int) {
    let first = spec_pickup_orient(s, ev.e1, ev.e2);
    let second = spec_pickup_orient(first.0, ev.e2, ev.e1);
    (second.0, first.1 + second.1)
}

/// The whole pickup pass over one tick's events, in order.
pub open spec fn spec_pickups(s: Seq<BodyView>, events: Seq<CollisionEvent>) -> (
    Seq<BodyView>,
    int,
)
    decreases events.len(),
{
    if events.len() == 0 {
        (s, 0)
    } else {
        let first = spec_pickup_event(s, events[0]);
        let rest = spec_pickups(first.0, events.drop_first());
        (rest.0, first.1 + rest.1)
    }
}

/// The pickup pass awards at most two points per event.
pub proof fn lemma_pickups_award_bound(s: Seq<BodyView>, events: Seq<CollisionEvent>)
    ensures
        0 <= spec_pickups(s, events).1 <= 2 * events.len(),
    decreases events.len(),
{
    if events.len() > 0 {
        lemma_pickups_award_bound(spec_pickup_event(s, events[0]).0, events.drop_first());
    }
}

/// The pickup pass never changes the number of body records.
pub proof fn lemma_pickups_len(s: Seq<BodyView>, events: Seq<CollisionEvent>)
    ensures
        spec_pickups(s, events).0.len() == s.len(),
    decreases events.len(),
{
    if events.len() > 0 {
        let ev = events[0];
        crate::world::lemma_spec_find(s, ev.e2);
        let first = spec_pickup_orient(s, ev.e1, ev.e2);
        assert(first.0.len() == s.len());
        crate::world::lemma_spec_find(first.0, ev.e1);
        let second = spec_pickup_orient(first.0, ev.e2, ev.e1);
        assert(second.0.len() == s.len());
        lemma_pickups_len(spec_pickup_event(s, ev).0, events.drop_first());
    }
}

fn pickup_orient(world: &mut World, score: &mut PlayerScore, player_id: u64, point_id: u64)
    requires
        old(world).wf(),
        old(score).total_points < u32::MAX,
        old(score).current_points < u32::MAX,
    ensures
        final(world)@ == spec_pickup_orient(old(world)@, player_id, point_id).0,
        final(world).wf(),
        *final(score) == (PlayerScore {
            total_points: (old(score).total_points + spec_pickup_orient(
                old(world)@,
                player_id,
                point_id,
            ).1) as u32,
            current_points: (old(score).current_points + spec_pickup_orient(
                old(world)@,
                player_id,
                point_id,
            ).1) as u32,
            ..*old(score)
        }),
{
    let ghost s0 = world@;
    match (world.find_index(player_id), world.find_index(point_id)) {
        (Some(pl), Some(pt)) => {
            proof {
                assert(world@[pl as int] == world.bodies@[pl as int]@);
                assert(world@[pt as int] == world.bodies@[pt as int]@);
            }
            let ok = !world.bodies[pl].removed && world.bodies[pl].is_player
                && !world.bodies[pt].removed && world.bodies[pt].is_point;
            if ok {
                assert(pickup_applies(s0, player_id, point_id));
                score.add_points(1);
                let ghost b0 = world.bodies@;
                {
                    let body = &mut world.bodies[pt];
                    body.mark_removed();
                }
                proof {
                    let bnew = world.bodies@[pt as int];
                    assert(world.bodies@ == b0.update(pt as int, bnew));
                    lemma_world_view_update(b0, pt as int, bnew);
                    assert(world@ =~= s0.update(
                        pt as int,
                        BodyView { removed: true, ..s0[pt as int] },
                    ));
                    assert forall|i: int, j: int|
                        0 <= i < j < world@.len() implies world@[i].id != world@[j].id by {
                        assert(s0[i].id == world@[i].id);
                        assert(s0[j].id == world@[j].id);
                    }
                    assert forall|k: int| 0 <= k < world@.len() implies (#[trigger] world@[k]).wf()
                        by {
                        assert(s0[k].wf());
                    }
                }
            } else {
                assert(!pickup_applies(s0, player_id, point_id));
            }
        },
        _ => {
            assert(!pickup_applies(s0, player_id, point_id));
        },
    }
}

fn pickup_event(world: &mut World, score: &mut PlayerScore, ev: &CollisionEvent)
    requires
        old(world).wf(),
        old(score).total_points + 2 <= u32::MAX,
        old(score).current_points + 2 <= u32::MAX,
    ensures
        final(world)@ == spec_pickup_event(old(world)@, *ev).0,
        final(world).wf(),
        *final(score) == (PlayerScore {
            total_points: (old(score).total_points + spec_pickup_event(old(world)@, *ev).1) as u32,
            current_points: (old(score).current_points + spec_pickup_event(
                old(world)@,
                *ev,
            ).1) as u32,
            ..*old(score)
        }),
{
    pickup_orient(world, score, ev.e1, ev.e2);
    pickup_orient(world, score, ev.e2, ev.e1);
}

/// The pickup resolver: consumes the tick's collision events in order and,
/// for each qualifying player/pickup contact, awards one point and removes
/// the pickup at once, so a pickup is awarded at most once even if several
/// events reference it within one tick. References to a pickup already
/// removed are no-ops.
pub fn resolve_pickups(world: &mut World, events: &Vec<CollisionEvent>, score: &mut PlayerScore)
    requires
        old(world).wf(),
        old(score).total_points + 2 * events@.len() <= u32::MAX,
        old(score).current_points + 2 * events@.len() <= u32::MAX,
    ensures
        final(world)@ == spec_pickups(old(world)@, events@).0,
        final(world).wf(),
        *final(score) == (PlayerScore {
            total_points: (old(score).total_points + spec_pickups(old(world)@, events@).1) as u32,
            current_points: (old(score).current_points + spec_pickups(
                old(world)@,
                events@,
            ).1) as u32,
            ..*old(score)
        }),
{
    let ghost s0 = world@;
    let ghost score0 = *score;
    let ghost total = spec_pickups(s0, events@);
    let n = events.len();
    let mut e: usize = 0;
    let ghost mut awards: int = 0;
    proof {
        assert(events@.skip(0) =~= events@);
        lemma_pickups_award_bound(s0, events@);
    }
    while e < n
        invariant
            world.wf(),
            n == events@.len(),
            e <= n,
            0 <= awards <= 2 * e,
            spec_pickups(world@, events@.skip(e as int)) == (total.0, total.1 - awards),
            score0.total_points + 2 * n <= u32::MAX,
            score0.current_points + 2 * n <= u32::MAX,
            0 <= total.1 <= 2 * n,
            awards <= total.1,
            *score == (PlayerScore {
                total_points: (score0.total_points + awards) as u32,
                current_points: (score0.current_points + awards) as u32,
                ..score0
            }),
        decreases n - e,
    {
        let ghost suffix = events@.skip(e as int);
        let ghost w0 = world@;
        proof {
            assert(suffix[0] == events@[e as int]);
            assert(suffix.drop_first() =~= events@.skip(e as int + 1));
            lemma_pickups_award_bound(
                spec_pickup_event(w0, events@[e as int]).0,
                events@.skip(e as int + 1),
            );
        }
        pickup_event(world, score, &events[e]);
        proof {
            awards = awards + spec_pickup_event(w0, events@[e as int]).1;
        }
        e = e + 1;
    }
    proof {
        assert(events@.skip(n as int) =~= Seq::<CollisionEvent>::empty());
    }
}

} // verus!
