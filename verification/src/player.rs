//! Player death handling: a dying player ends the run.

use vstd::prelude::*;

use crate::health::DeathEvent;
use crate::world::BodyView;
use crate::world::World;
use crate::world::spec_find;

verus! {

/// Whether a death event names the player.
pub open spec fn player_death_applies(s: Seq<BodyView>, ev: DeathEvent) -> bool {
    let i = spec_find(s, ev.0);
    &&& i >= 0
    &&& s[i].is_player
}

/// Whether any of the tick's death events names the player.
pub open spec fn spec_player_death(s: Seq<BodyView>, deaths: Seq<DeathEvent>) -> bool
    decreases deaths.len(),
{
    if deaths.len() == 0 {
        false
    } else {
        player_death_applies(s, deaths[0]) || spec_player_death(s, deaths.drop_first())
    }
}

/// The player death check: reports whether the tick's death events kill
/// the player, so the surrounding application can leave the running game
/// state.
pub fn handle_death(world: &World, deaths: &Vec<DeathEvent>) -> (died: bool)
    ensures
        died == spec_player_death(world@, deaths@),
{
    let ghost s = world@;
    let n = deaths.len();
    let mut e: usize = 0;
    proof {
        assert(deaths@.skip(0) =~= deaths@);
    }
    while e < n
        invariant
            s == world@,
            n == deaths@.len(),
            e <= n,
            spec_player_death(s, deaths@) == spec_player_death(s, deaths@.skip(e as int)),
        decreases n - e,
    {
        let ghost suffix = deaths@.skip(e as int);
        proof {
            assert(suffix[0] == deaths@[e as int]);
            assert(suffix.drop_first() =~= deaths@.skip(e as int + 1));
        }
        let ev = deaths[e];
        match world.find_index(ev.0) {
            Some(i) => {
                proof {
                    assert(world@[i as int] == world.bodies@[i as int]@);
                }
                if world.bodies[i].is_player {
                    assert(player_death_applies(s, deaths@[e as int]));
                    return true;
                }
                assert(!player_death_applies(s, deaths@[e as int]));
            },
            None => {
                assert(!player_death_applies(s, deaths@[e as int]));
            },
        }
        e = e + 1;
    }
    proof {
        assert(deaths@.skip(n as int) =~= Seq::<DeathEvent>::empty());
    }
    false
}

} // verus!
