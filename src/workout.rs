//! Choosing a workout from its intensity, with the costly calculation of
//! its size memoised.
use vstd::prelude::*;
use crate::cacher::{lemma_lookup_push, lookup, Cacher};

verus! {

/// The plan for one day.
#[derive(Debug, PartialEq, Eq)]
pub enum Workout {
    /// Push-ups, then sit-ups.
    Exercises { pushups: u32, situps: u32 },
    /// A day off.
    Rest,
    /// A run of some minutes.
    Run { minutes: u32 },
}

/// Low intensities (below 25) get exercises, sized by the calculation;
/// higher ones get a run of the calculated length, unless the random
/// number is 3, which means a day off. The calculation runs at most once.
pub fn generate_workout<F: Fn(u32) -> u32>(expensive: &mut Cacher<F, u32, u32>, intensity: u32, rand_num: u32) -> (r:
    Workout)
    requires
        old(expensive).wf(),
        call_requires(old(expensive).calc(), (intensity,)),
    ensures
        final(expensive).wf(),
        final(expensive).calc() == old(expensive).calc(),
        intensity < 25 ==> (r matches Workout::Exercises { pushups, situps } && pushups == situps && call_ensures(
            old(expensive).calc(),
            (intensity,),
            pushups,
        )),
        intensity >= 25 && rand_num == 3 ==> r == Workout::Rest,
        intensity >= 25 && rand_num != 3 ==> (r matches Workout::Run { minutes } && call_ensures(
            old(expensive).calc(),
            (intensity,),
            minutes,
        )),
{
    broadcast use vstd::laws_eq::group_laws_eq;

    if intensity < 25 {
        let ghost before = expensive.entries();
        let pushups = expensive.value(intensity);
        proof {
            if lookup(before, intensity) is None {
                lemma_lookup_push(before, intensity, pushups);
            }
        }
        let situps = expensive.value(intensity);
        Workout::Exercises { pushups, situps }
    } else if rand_num == 3 {
        Workout::Rest
    } else {
        let minutes = expensive.value(intensity);
        Workout::Run { minutes }
    }
}

} // verus!
