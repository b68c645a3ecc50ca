//! Think time: the pause before a request.

use rand::rngs::StdRng;
use rand::{Rng, SeedableRng};
use vstd::prelude::*;

use crate::models::ThinkTime;

verus! {

/// How long to wait before a request.
#[derive(Clone, Copy, Debug)]
pub enum Think {
    /// Not at all.
    Not,
    /// This many milliseconds.
    Pause(u64),
    /// Not at all, for the bounds are the wrong way round.
    Refused,
}

/// `Rng::gen_range` of a `StdRng` seeded by `SeedableRng::from_entropy`: some number within the
/// bounds, both included. Which one is left to chance. Seeding panics on a machine that has no
/// source of randomness.
#[verifier::external_body]
fn random_between(min: u64, max: u64) -> (r: u64)
    requires
        min <= max,
    ensures
        min <= r <= max,
{
    StdRng::from_entropy().gen_range(min..=max)
}

/// A pause that think time allows: one within its bounds, none where there is no think time or
/// where its bounds are the wrong way round.
pub open spec fn think_allowed(option: Option<ThinkTime>, think: Think) -> bool {
    match option {
        None => think == Think::Not,
        Some(t) => if t.min_millis <= t.max_millis {
            think matches Think::Pause(millis) && t.min_millis <= millis <= t.max_millis
        } else {
            think == Think::Refused
        },
    }
}

/// Picks the pause before a request.
pub fn think(option: &Option<ThinkTime>) -> (r: Think)
    ensures
        think_allowed(*option, r),
{
    match option {
        None => Think::Not,
        Some(t) => if t.min_millis <= t.max_millis {
            Think::Pause(random_between(t.min_millis, t.max_millis))
        } else {
            Think::Refused
        },
    }
}

/// The pauses that think time allows: each within its bounds, both of them included, and no
/// other; none without think time, and none, told as a refusal, where the bounds are the wrong way
/// round.
pub proof fn law_pauses_lie_within_bounds(t: ThinkTime, think: Think, millis: u64)
    ensures
        think_allowed(None, think) <==> think is Not,
        t.min_millis > t.max_millis ==> (think_allowed(Some(t), think) <==> think is Refused),
        t.min_millis <= t.max_millis ==> (think_allowed(Some(t), Think::Pause(millis))
            <==> t.min_millis <= millis && millis <= t.max_millis),
        t.min_millis <= t.max_millis && !(think is Pause) ==> !think_allowed(Some(t), think),
{
}

} // verus!
