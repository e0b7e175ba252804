//! Player score and level progression.

use vstd::prelude::*;

verus! {

/// Score bookkeeping for one run: points counting toward the next level,
/// lifetime totals, and the kill count.
#[derive(PartialEq, Eq, Structural, Clone, Copy, Debug)]
pub struct PlayerScore {
    /// The player's current level.
    pub level: u32,
    /// The number of points needed to reach the next level.
    pub next_level: u32,
    /// The player's current number of points counting toward the next level.
    pub current_points: u32,
    /// Total number of points collected throughout the run.
    pub total_points: u32,
    /// Total number of enemies killed.
    pub enemies_killed: u32,
}

impl Default for PlayerScore {
    fn default() -> (score: Self)
        ensures
            score == (PlayerScore {
                level: 1,
                next_level: 1,
                current_points: 0,
                total_points: 0,
                enemies_killed: 0,
            }),
    {
        Self { level: 1, next_level: 1, current_points: 0, total_points: 0, enemies_killed: 0 }
    }
}

impl PlayerScore {
    /// Adds points both to the progress toward the next level and to the
    /// lifetime total.
    pub fn add_points(&mut self, points: u32)
        requires
            old(self).total_points + points <= u32::MAX,
            old(self).current_points + points <= u32::MAX,
        ensures
            *final(self) == (PlayerScore {
                current_points: (old(self).current_points + points) as u32,
                total_points: (old(self).total_points + points) as u32,
                ..*old(self)
            }),
    {
        self.total_points = self.total_points + points;
        self.current_points = self.current_points + points;
    }

    /// Records one more enemy killed.
    pub fn add_enemy_killed(&mut self)
        requires
            old(self).enemies_killed < u32::MAX,
        ensures
            *final(self) == (PlayerScore {
                enemies_killed: (old(self).enemies_killed + 1) as u32,
                ..*old(self)
            }),
    {
        self.enemies_killed = self.enemies_killed + 1;
    }

    /// Levels up if the current points have reached a new level: the
    /// threshold is consumed from the current points, the level rises by
    /// one, and the next threshold doubles. Returns `true` exactly when a
    /// new level was reached.
    pub fn get_level_up(&mut self) -> (leveled: bool)
        requires
            old(self).current_points >= old(self).next_level ==> {
                &&& old(self).level < u32::MAX
                &&& old(self).next_level <= u32::MAX / 2
            },
        ensures
            leveled == (old(self).current_points >= old(self).next_level),
            leveled ==> *final(self) == (PlayerScore {
                current_points: (old(self).current_points - old(self).next_level) as u32,
                level: (old(self).level + 1) as u32,
                next_level: (old(self).next_level * 2) as u32,
                ..*old(self)
            }),
            !leveled ==> *final(self) == *old(self),
    {
        if self.current_points >= self.next_level {
            self.current_points = self.current_points - self.next_level;
            self.level = self.level + 1;
            self.next_level = self.next_level * 2;
            true
        } else {
            false
        }
    }
}

} // verus!
