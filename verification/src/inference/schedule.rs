//! The noise levels that a sample passes through on its way to a clean image.
use crate::ieee::{
    is_at_most_zero, limit_to_unit, single_at_most_zero, single_limited_to_unit,
};
use vstd::prelude::*;

verus! {

/// A part of the noise level that a sample starts at.
#[derive(Clone, Copy, Debug, PartialEq, Eq, Structural)]
pub struct NoiseFraction {
    pub numerator: usize,
    /// Never zero.
    pub denominator: usize,
}

/// The schedule for a start level, given by its bits, and a number of steps:
/// from all of the noise to none in equal steps, or twice none where there is
/// no noise to begin with.
pub open spec fn schedule_for(start_noise_level: u32, denoising_steps: usize) -> Seq<NoiseFraction> {
    if single_at_most_zero(start_noise_level) {
        seq![
            NoiseFraction { numerator: 0, denominator: 1 },
            NoiseFraction { numerator: 0, denominator: 1 },
        ]
    } else {
        Seq::new(
            (denoising_steps + 1) as nat,
            |index: int|
                NoiseFraction {
                    numerator: (denoising_steps - index) as usize,
                    denominator: denoising_steps,
                },
        )
    }
}

/// The noise levels that a sample passes through.
#[derive(Clone, Debug, PartialEq, Eq)]
pub struct NoiseSchedule {
    /// The bits of the level that the sample starts at.
    pub start: u32,
    /// The levels as parts of `start`, from the first to the last.
    pub parts: Vec<NoiseFraction>,
}

/// The noise levels of a sample, as parts of `start_noise_level` limited to the numbers
/// from zero to one.
pub fn denoising_schedule(start_noise_level: u32, denoising_steps: usize) -> (schedule: NoiseSchedule)
    requires
        0 < denoising_steps < usize::MAX,
    ensures
        schedule.start == single_limited_to_unit(start_noise_level),
        schedule.parts@ == schedule_for(schedule.start, denoising_steps),
{
    let start: u32 = limit_to_unit(start_noise_level);
    let mut parts: Vec<NoiseFraction> = Vec::new();
    if is_at_most_zero(start) {
        parts.push(NoiseFraction { numerator: 0, denominator: 1 });
        parts.push(NoiseFraction { numerator: 0, denominator: 1 });
        proof {
            assert(parts@ =~= schedule_for(start, denoising_steps));
        }
        return NoiseSchedule { start, parts };
    }
    let mut index: usize = 0;
    while index <= denoising_steps
        invariant
            index <= denoising_steps + 1,
            denoising_steps < usize::MAX,
            parts@.len() == index,
            forall|i: int|
                0 <= i < index ==> #[trigger] parts@[i] == (NoiseFraction {
                    numerator: (denoising_steps - i) as usize,
                    denominator: denoising_steps,
                }),
        decreases denoising_steps + 1 - index,
    {
        parts.push(
            NoiseFraction { numerator: denoising_steps - index, denominator: denoising_steps },
        );
        index = index + 1;
    }
    proof {
        assert(parts@ =~= schedule_for(start, denoising_steps));
    }
    NoiseSchedule { start, parts }
}

/// `states` are the samples that lead from `first` to `last`, one step for each
/// pair of neighbouring noise levels.
pub open spec fn is_descent<S, F: Fn(S, NoiseFraction, NoiseFraction) -> S>(
    states: Seq<S>,
    first: S,
    last: S,
    schedule: Seq<NoiseFraction>,
    step: F,
) -> bool {
    &&& states.len() == schedule.len()
    &&& states.len() > 0
    &&& states.first() == first
    &&& states.last() == last
    &&& forall|index: int|
        0 <= index < states.len() - 1 ==> call_ensures(
            step,
            (states[index], schedule[index], schedule[index + 1]),
            #[trigger] states[index + 1],
        )
}

/// Takes a sample through its schedule. `step` is handed the sample, the noise
/// level that it has and the next one, both as parts of the start level limited to
/// the numbers from zero to one.
pub fn denoise_sample<S, F: Fn(S, NoiseFraction, NoiseFraction) -> S>(
    sample: S,
    start_noise_level: u32,
    denoising_steps: usize,
    step: F,
) -> (denoised: S)
    requires
        0 < denoising_steps < usize::MAX,
        forall|sample: S, level: NoiseFraction, next: NoiseFraction| #[trigger]
            call_requires(step, (sample, level, next)),
    ensures
        exists|states: Seq<S>|
            is_descent(
                states,
                sample,
                denoised,
                schedule_for(single_limited_to_unit(start_noise_level), denoising_steps),
                step,
            ),
{
    let schedule: NoiseSchedule = denoising_schedule(start_noise_level, denoising_steps);
    descend(sample, &schedule.parts, step)
}

/// Takes a sample from the first level of `schedule` to the last.
pub fn descend<S, F: Fn(S, NoiseFraction, NoiseFraction) -> S>(
    sample: S,
    schedule: &Vec<NoiseFraction>,
    step: F,
) -> (denoised: S)
    requires
        schedule@.len() > 0,
        forall|sample: S, level: NoiseFraction, next: NoiseFraction| #[trigger]
            call_requires(step, (sample, level, next)),
    ensures
        exists|states: Seq<S>| is_descent(states, sample, denoised, schedule@, step),
{
    let mut current: S = sample;
    let mut index: usize = 0;
    let ghost mut states: Seq<S> = seq![sample];
    while index < schedule.len() - 1
        invariant
            index < schedule@.len(),
            states.len() == index + 1,
            states.first() == sample,
            states.last() == current,
            forall|sample: S, level: NoiseFraction, next: NoiseFraction| #[trigger]
                call_requires(step, (sample, level, next)),
            forall|i: int|
                0 <= i < index ==> call_ensures(
                    step,
                    (states[i], schedule@[i], schedule@[i + 1]),
                    #[trigger] states[i + 1],
                ),
        decreases schedule@.len() - index,
    {
        let next: S = step(current, schedule[index], schedule[index + 1]);
        proof {
            let before = states;
            states = states.push(next);
            assert forall|i: int| 0 <= i < index + 1 implies call_ensures(
                step,
                (states[i], schedule@[i], schedule@[i + 1]),
                #[trigger] states[i + 1],
            ) by {
                if i < index {
                    assert(before[i + 1] == states[i + 1]);
                }
            }
        }
        current = next;
        index = index + 1;
    }
    proof {
        assert(is_descent(states, sample, current, schedule@, step));
    }
    current
}

/// A schedule starts at all of the noise and ends at none, never rises, and
/// takes equal steps.
pub proof fn law_schedule_falls_evenly(start_noise_level: u32, denoising_steps: usize)
    requires
        0 < denoising_steps < usize::MAX,
        !single_at_most_zero(start_noise_level),
    ensures
        ({
            let schedule = schedule_for(start_noise_level, denoising_steps);
            &&& schedule.len() == denoising_steps + 1
            &&& schedule.first().numerator == denoising_steps
            &&& schedule.last().numerator == 0
            &&& forall|index: int|
                0 <= index < schedule.len() ==> (#[trigger] schedule[index]).denominator
                    == denoising_steps
            &&& forall|index: int|
                0 < index < schedule.len() ==> (#[trigger] schedule[index]).numerator
                    == schedule[index - 1].numerator - 1
        }),
{
}

/// Without noise to begin with, the number of steps does not matter.
pub proof fn law_steps_do_not_matter_without_noise(
    start_noise_level: u32,
    denoising_steps: usize,
    other_steps: usize,
)
    requires
        single_at_most_zero(start_noise_level),
    ensures
        schedule_for(start_noise_level, denoising_steps) == schedule_for(
            start_noise_level,
            other_steps,
        ),
{
}

/// A sample goes through as many steps as were asked for, and each takes it from what is
/// left of the noise to one part less: the first from all of it, and the last to none.
pub proof fn law_each_step_takes_one_part<S, F: Fn(S, NoiseFraction, NoiseFraction) -> S>(
    states: Seq<S>,
    first: S,
    last: S,
    start_noise_level: u32,
    denoising_steps: usize,
    step: F,
    index: int,
)
    requires
        0 < denoising_steps < usize::MAX,
        !single_at_most_zero(start_noise_level),
        is_descent(
            states,
            first,
            last,
            schedule_for(start_noise_level, denoising_steps),
            step,
        ),
        0 <= index < denoising_steps,
    ensures
        states.len() == denoising_steps + 1,
        states[0] == first,
        states[denoising_steps as int] == last,
        call_ensures(
            step,
            (
                states[index],
                NoiseFraction {
                    numerator: (denoising_steps - index) as usize,
                    denominator: denoising_steps,
                },
                NoiseFraction {
                    numerator: (denoising_steps - index - 1) as usize,
                    denominator: denoising_steps,
                },
            ),
            states[index + 1],
        ),
{
    let schedule = schedule_for(start_noise_level, denoising_steps);
    assert(schedule[index].numerator == denoising_steps - index);
    assert(schedule[index + 1].numerator == denoising_steps - (index + 1));
}

/// Without noise to begin with there is one step, from none to none.
pub proof fn law_no_noise_takes_one_step(start_noise_level: u32, denoising_steps: usize)
    requires
        single_at_most_zero(start_noise_level),
    ensures
        ({
            let schedule = schedule_for(start_noise_level, denoising_steps);
            &&& schedule.len() == 2
            &&& schedule[0].numerator == 0 && schedule[0].denominator > 0
            &&& schedule[1].numerator == 0 && schedule[1].denominator > 0
        }),
{
}

/// A sample goes from each level of its schedule to the next, starting as it was given and
/// ending as it is returned.
pub proof fn law_levels_are_taken_in_order<S, F: Fn(S, NoiseFraction, NoiseFraction) -> S>(
    states: Seq<S>,
    first: S,
    last: S,
    schedule: Seq<NoiseFraction>,
    step: F,
    index: int,
)
    requires
        is_descent(states, first, last, schedule, step),
        0 <= index < schedule.len() - 1,
    ensures
        states[0] == first,
        states[schedule.len() - 1] == last,
        call_ensures(
            step,
            (states[index], schedule[index], schedule[index + 1]),
            states[index + 1],
        ),
{
}

} // verus!
