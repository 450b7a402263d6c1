//! What is reported of the training.

use crate::rollout::{law_falls_are_episodes, Rollout};
use crate::rounding::{law_small_numbers_are_exact, EXACT};
use crate::single::Single;
use vstd::arithmetic::div_mod::lemma_fundamental_div_mod_converse;
use vstd::prelude::*;

verus! {

/// A length of time on the clock.
#[derive(Clone, Copy, Debug, PartialEq, Eq, Structural)]
pub struct Clock {
    pub hours: u64,
    pub minutes: u64,
    pub seconds: u64,
}

impl Clock {
    /// The length of time in seconds.
    pub open spec fn total(self) -> int {
        self.hours * 3600 + self.minutes * 60 + self.seconds
    }

    /// The clock tells a number of seconds.
    pub open spec fn tells(self, elapsed: int) -> bool {
        self.total() == elapsed && self.minutes < 60 && self.seconds < 60
    }

    /// Splits a number of seconds into hours, minutes and seconds.
    pub fn new(elapsed: u64) -> (r: Self)
        ensures
            r.total() == elapsed,
            r.minutes < 60,
            r.seconds < 60,
            r.tells(elapsed as int),
    {
        let (hours, rest) = (elapsed / 3600, elapsed % 3600);
        let minutes = rest / 60;
        proof {
            lemma_fundamental_div_mod_converse(
                elapsed as int,
                60,
                60 * hours + minutes,
                rest - 60 * minutes,
            );
        }
        Clock { hours, minutes, seconds: elapsed % 60 }
    }
}

/// No two clocks with minutes and seconds below sixty show the same length of time.
pub proof fn law_the_clock_is_unique(a: Clock, b: Clock)
    requires
        a.minutes < 60,
        a.seconds < 60,
        b.minutes < 60,
        b.seconds < 60,
        a.total() == b.total(),
    ensures
        a == b,
{
}

/// A second later, the clock shows one second more: where that makes sixty, it shows none, and one minute
/// more; and where those make sixty, none, and one hour more.
pub proof fn law_the_clock_ticks(elapsed: int, a: Clock, b: Clock)
    requires
        a.tells(elapsed),
        b.tells(elapsed + 1),
    ensures
        elapsed == 0 ==> a.hours == 0 && a.minutes == 0 && a.seconds == 0,
        a.seconds < 59 ==> b.seconds == a.seconds + 1 && b.minutes == a.minutes && b.hours
            == a.hours,
        a.seconds == 59 && a.minutes < 59 ==> b.seconds == 0 && b.minutes == a.minutes + 1 && b.hours
            == a.hours,
        a.seconds == 59 && a.minutes == 59 ==> b.seconds == 0 && b.minutes == 0 && b.hours == a.hours
            + 1,
{
}

/// The totals that the episodes of a rollout are averaged from.
#[derive(Clone, Copy, Debug, PartialEq, Eq, Structural)]
pub struct Episodes {
    pub count: usize,
    pub fallen: usize,
    pub reward: Single,
}

impl Rollout {
    /// There are totals to average just where an episode has ended, and they are those of the record.
    pub open spec fn sums_up(&self, r: Option<Episodes>) -> bool {
        match r {
            Some(episodes) => {
                &&& self.total_episodes > 0
                &&& episodes.count == self.total_episodes
                &&& episodes.fallen == self.total_fallen
                &&& episodes.reward == self.total_reward
            },
            None => self.total_episodes == 0,
        }
    }

    /// The totals to average the episodes from, or none where no episode has ended.
    pub fn finished(&self) -> (r: Option<Episodes>)
        ensures
            r == (if self.total_episodes > 0 {
                Some(
                    Episodes {
                        count: self.total_episodes,
                        fallen: self.total_fallen,
                        reward: self.total_reward,
                    },
                )
            } else {
                None
            }),
            self.sums_up(r),
    {
        if self.total_episodes > 0 {
            Some(
                Episodes {
                    count: self.total_episodes,
                    fallen: self.total_fallen,
                    reward: self.total_reward,
                },
            )
        } else {
            None
        }
    }
}

/// What is reported of the episodes of a rollout, when its totals were made: nothing where none has ended;
/// else how many ended and how many of these in a fall, as single precision counts them, and what they
/// earned.
pub proof fn law_reports_count_the_finished_episodes(
    before: Rollout,
    total_reward: Single,
    after: Rollout,
    r: Option<Episodes>,
)
    requires
        before.has_no_totals(),
        before.totalled(total_reward, after),
        after.sums_up(r),
        before.episodes() <= EXACT,
        EXACT <= usize::MAX,
    ensures
        r is Some <==> before.episodes() > 0,
        r matches Some(episodes) ==> {
            &&& episodes.count == before.episodes()
            &&& episodes.fallen == before.falls()
            &&& episodes.fallen <= episodes.count
            &&& episodes.reward == total_reward
        },
{
    law_falls_are_episodes(before);
    law_small_numbers_are_exact(before.episodes());
    law_small_numbers_are_exact(before.falls());
}

} // verus!
