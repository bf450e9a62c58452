//! Running a model over several resolutions, each with the result of the next
//! smaller one.
use crate::model::u_net::{first_shrink_rate, last_shrink_rate};
use crate::model::DiffusionModel;
use crate::powers::is_power_of_two;
use vstd::arithmetic::power2::pow2;
use vstd::prelude::*;

verus! {

/// How far a model is applied to smaller and smaller inputs.
#[derive(Debug, Clone, Copy, PartialEq, Eq)]
pub struct RecursionConfig {
    /// Number of model calls used for an original-scale image.
    pub original_steps: usize,
    /// Do not add a smaller recursive input once both dimensions are at or below
    /// this size. Zero disables this limit.
    pub stop_size: usize,
}

impl RecursionConfig {
    /// As many steps as the model's minimum size allows.
    pub fn new() -> (config: Self)
        ensures
            config.original_steps == usize::MAX,
            config.stop_size == 0,
    {
        RecursionConfig { original_steps: usize::MAX, stop_size: 0 }
    }

    /// Refuses a configuration without any step.
    pub fn validate(&self) -> (result: Result<(), String>)
        ensures
            match result {
                Ok(_) => self.original_steps > 0,
                Err(message) => self.original_steps == 0 && message@
                    == "original_steps must be greater than zero"@,
            },
    {
        if self.original_steps == 0 {
            return Err("original_steps must be greater than zero".to_owned());
        }
        Ok(())
    }
}

/// A further, smaller input is added after one of this size.
pub open spec fn goes_on(height: nat, width: nat, stop: nat) -> bool {
    stop == 0 || height > stop || width > stop
}

/// The sizes from this one on: each is the one before it divided by `rate`, none
/// is below `minimum`, only the last may be at or below `stop`, and there are at
/// most `steps` of them.
pub open spec fn sizes_from(
    height: nat,
    width: nat,
    minimum: nat,
    rate: nat,
    stop: nat,
    steps: nat,
) -> Seq<(nat, nat)>
    decreases steps,
{
    if steps == 0 || height < minimum || width < minimum {
        Seq::empty()
    } else if !goes_on(height, width, stop) {
        seq![(height, width)]
    } else {
        seq![(height, width)] + sizes_from(
            height / rate,
            width / rate,
            minimum,
            rate,
            stop,
            (steps - 1) as nat,
        )
    }
}

/// Every size that is followed by a smaller one is a multiple of `rate`.
pub open spec fn divides_along(
    height: nat,
    width: nat,
    minimum: nat,
    rate: nat,
    stop: nat,
    steps: nat,
) -> bool
    decreases steps,
{
    steps == 0 || height < minimum || width < minimum || !goes_on(height, width, stop) || (height
        % rate == 0 && width % rate == 0 && divides_along(
        height / rate,
        width / rate,
        minimum,
        rate,
        stop,
        (steps - 1) as nat,
    ))
}

/// The most sizes for an image of this scale level.
pub open spec fn max_steps(config: RecursionConfig, scale_level: usize) -> nat {
    if config.original_steps + scale_level > usize::MAX {
        usize::MAX as nat
    } else {
        (config.original_steps + scale_level) as nat
    }
}

/// The sizes of the inputs for an image, the largest first.
pub open spec fn input_sizes_for(
    model: DiffusionModel,
    config: RecursionConfig,
    base_size: [usize; 2],
    scale_level: usize,
) -> Seq<(nat, nat)> {
    sizes_from(
        base_size[0] as nat,
        base_size[1] as nat,
        last_shrink_rate(model.u_net) as nat,
        first_shrink_rate(model.u_net) as nat,
        config.stop_size as nat,
        max_steps(config, scale_level),
    )
}

/// The sizes as pairs of numbers.
pub open spec fn size_pairs(sizes: Seq<[usize; 2]>) -> Seq<(nat, nat)> {
    Seq::new(sizes.len(), |level: int| (sizes[level][0] as nat, sizes[level][1] as nat))
}

/// The sizes of the inputs for an image of `base_size`, the largest first.
/// `scale_level` allows that many more than an image of the original scale has.
pub fn input_sizes(
    model: &DiffusionModel,
    config: &RecursionConfig,
    base_size: [usize; 2],
    scale_level: usize,
) -> (sizes: Vec<[usize; 2]>)
    requires
        config.original_steps > 0,
        is_power_of_two(base_size[0] as nat),
        is_power_of_two(base_size[1] as nat),
        base_size[0] >= last_shrink_rate(model.u_net),
        base_size[1] >= last_shrink_rate(model.u_net),
        first_shrink_rate(model.u_net) > 0,
        divides_along(
            base_size[0] as nat,
            base_size[1] as nat,
            last_shrink_rate(model.u_net) as nat,
            first_shrink_rate(model.u_net) as nat,
            config.stop_size as nat,
            max_steps(*config, scale_level),
        ),
    ensures
        size_pairs(sizes@) == input_sizes_for(*model, *config, base_size, scale_level),
{
    let minimum: [usize; 2] = model.minimum_input_size();
    let limit: usize = config.original_steps.saturating_add(scale_level);
    let mut sizes: Vec<[usize; 2]> = Vec::new();
    let mut size: [usize; 2] = base_size;
    let ghost rate = first_shrink_rate(model.u_net) as nat;
    let ghost least = last_shrink_rate(model.u_net) as nat;
    let ghost stop = config.stop_size as nat;
    let ghost whole = input_sizes_for(*model, *config, base_size, scale_level);
    proof {
        assert(minimum[0] == minimum@[0] && minimum[1] == minimum@[1]);
        assert(size_pairs(sizes@) + whole =~= whole);
    }
    while sizes.len() < limit && size[0] >= minimum[0] && size[1] >= minimum[1]
        invariant_except_break
            sizes@.len() <= limit,
            minimum[0] == least,
            minimum[1] == least,
            rate == first_shrink_rate(model.u_net),
            rate > 0,
            least == last_shrink_rate(model.u_net),
            stop == config.stop_size,
            divides_along(
                size[0] as nat,
                size[1] as nat,
                least,
                rate,
                stop,
                (limit - sizes@.len()) as nat,
            ),
            size_pairs(sizes@) + sizes_from(
                size[0] as nat,
                size[1] as nat,
                least,
                rate,
                stop,
                (limit - sizes@.len()) as nat,
            ) == whole,
        ensures
            size_pairs(sizes@) == whole,
        decreases limit - sizes@.len(),
    {
        let ghost before = sizes@;
        let ghost rest = sizes_from(
            size[0] as nat,
            size[1] as nat,
            least,
            rate,
            stop,
            (limit - sizes@.len()) as nat,
        );
        sizes.push(size);
        proof {
            assert(size_pairs(sizes@) =~= size_pairs(before) + seq![
                (size[0] as nat, size[1] as nat),
            ]);
        }
        if config.stop_size > 0 && size[0] <= config.stop_size && size[1] <= config.stop_size {
            break;
        }
        proof {
            let next = sizes_from(
                size[0] as nat / rate,
                size[1] as nat / rate,
                least,
                rate,
                stop,
                (limit - sizes@.len()) as nat,
            );
            assert(size_pairs(before) + rest =~= size_pairs(sizes@) + next);
        }
        size = model.expected_insert_size(size);
        proof {
            assert(size[0] == size@[0] && size[1] == size@[1]);
        }
    }
    sizes
}

proof fn lemma_power_quotient(a: nat, b: nat)
    requires
        b <= a,
    ensures
        pow2(a) % pow2(b) == 0,
        pow2(a) / pow2(b) == pow2((a - b) as nat),
{
    vstd::arithmetic::power2::lemma_pow2_adds((a - b) as nat, b);
    vstd::arithmetic::power2::lemma_pow2_pos(b);
    vstd::arithmetic::div_mod::lemma_mod_multiples_basic(pow2((a - b) as nat) as int, pow2(b) as int);
    vstd::arithmetic::div_mod::lemma_div_by_multiple(pow2((a - b) as nat) as int, pow2(b) as int);
}

/// Powers of two can always be divided on: where the rate is a power of two and
/// no greater than the minimum, every size that is followed by a smaller one is
/// a multiple of the rate.
pub proof fn law_powers_of_two_divide(
    height: nat,
    width: nat,
    minimum: nat,
    rate: nat,
    stop: nat,
    steps: nat,
)
    requires
        is_power_of_two(height),
        is_power_of_two(width),
        is_power_of_two(rate),
        rate <= minimum,
    ensures
        divides_along(height, width, minimum, rate, stop, steps),
    decreases steps,
{
    if steps > 0 && height >= minimum && width >= minimum && goes_on(height, width, stop) {
        let h = choose|exponent: nat| height == #[trigger] pow2(exponent);
        let w = choose|exponent: nat| width == #[trigger] pow2(exponent);
        let r = choose|exponent: nat| rate == #[trigger] pow2(exponent);
        if h < r {
            vstd::arithmetic::power2::lemma_pow2_strictly_increases(h, r);
        }
        if w < r {
            vstd::arithmetic::power2::lemma_pow2_strictly_increases(w, r);
        }
        lemma_power_quotient(h, r);
        lemma_power_quotient(w, r);
        law_powers_of_two_divide(
            height / rate,
            width / rate,
            minimum,
            rate,
            stop,
            (steps - 1) as nat,
        );
    }
}

/// The sizes start at the image's own, none is below the minimum, each is the
/// one before it divided by the rate, all but the last are above the stop size in
/// a dimension, and they end where the steps are used up, the stop size is
/// reached or the next would be below the minimum.
pub proof fn law_sizes_run_to_a_limit(
    height: nat,
    width: nat,
    minimum: nat,
    rate: nat,
    stop: nat,
    steps: nat,
)
    requires
        rate > 0,
        steps > 0,
        height >= minimum,
        width >= minimum,
    ensures
        ({
            let sizes = sizes_from(height, width, minimum, rate, stop, steps);
            &&& 0 < sizes.len() <= steps
            &&& sizes[0] == (height, width)
            &&& forall|level: int|
                0 <= level < sizes.len() ==> (#[trigger] sizes[level]).0 >= minimum
                    && sizes[level].1 >= minimum
            &&& forall|level: int|
                0 < level < sizes.len() ==> #[trigger] sizes[level] == (
                    sizes[level - 1].0 / rate,
                    sizes[level - 1].1 / rate,
                ) && (stop > 0 ==> sizes[level - 1].0 > stop || sizes[level - 1].1 > stop)
            &&& {
                ||| sizes.len() == steps
                ||| stop > 0 && sizes.last().0 <= stop && sizes.last().1 <= stop
                ||| sizes.last().0 / rate < minimum
                ||| sizes.last().1 / rate < minimum
            }
        }),
    decreases steps,
{
    let sizes = sizes_from(height, width, minimum, rate, stop, steps);
    if goes_on(height, width, stop) {
        let rest = sizes_from(
            height / rate,
            width / rate,
            minimum,
            rate,
            stop,
            (steps - 1) as nat,
        );
        assert(sizes =~= seq![(height, width)] + rest);
        if steps > 1 && height / rate >= minimum && width / rate >= minimum {
            law_sizes_run_to_a_limit(
                height / rate,
                width / rate,
                minimum,
                rate,
                stop,
                (steps - 1) as nat,
            );
            assert(sizes.last() == rest.last());
            assert forall|level: int| 0 <= level < sizes.len() implies (#[trigger] sizes[level]).0
                >= minimum && sizes[level].1 >= minimum by {
                if level > 0 {
                    assert(sizes[level] == rest[level - 1]);
                }
            }
            assert forall|level: int| 0 < level < sizes.len() implies #[trigger] sizes[level] == (
                sizes[level - 1].0 / rate,
                sizes[level - 1].1 / rate,
            ) && (stop > 0 ==> sizes[level - 1].0 > stop || sizes[level - 1].1 > stop) by {
                assert(sizes[level] == rest[level - 1]);
                if level > 1 {
                    assert(sizes[level - 1] == rest[level - 2]);
                }
            }
        } else {
            assert(rest.len() == 0);
        }
    }
}

/// One more step adds at most one size, at the end.
pub proof fn law_a_step_adds_at_most_one_size(
    height: nat,
    width: nat,
    minimum: nat,
    rate: nat,
    stop: nat,
    steps: nat,
)
    requires
        rate > 0,
    ensures
        ({
            let fewer = sizes_from(height, width, minimum, rate, stop, steps);
            let more = sizes_from(height, width, minimum, rate, stop, steps + 1);
            &&& fewer.len() <= more.len() <= fewer.len() + 1
            &&& more.take(fewer.len() as int) == fewer
            &&& fewer.len() < steps ==> more == fewer
        }),
    decreases steps,
{
    let fewer = sizes_from(height, width, minimum, rate, stop, steps);
    let more = sizes_from(height, width, minimum, rate, stop, steps + 1);
    if height < minimum || width < minimum {
        assert(more.take(0) =~= fewer);
    } else if steps == 0 {
        let rest = sizes_from(height / rate, width / rate, minimum, rate, stop, 0);
        assert(rest.len() == 0);
        assert(more.take(0) =~= fewer);
    } else if goes_on(height, width, stop) {
        law_a_step_adds_at_most_one_size(
            height / rate,
            width / rate,
            minimum,
            rate,
            stop,
            (steps - 1) as nat,
        );
        let short = sizes_from(
            height / rate,
            width / rate,
            minimum,
            rate,
            stop,
            (steps - 1) as nat,
        );
        let long = sizes_from(height / rate, width / rate, minimum, rate, stop, steps);
        assert(fewer =~= seq![(height, width)] + short);
        assert(more =~= seq![(height, width)] + long);
        assert(more.take(fewer.len() as int) =~= seq![(height, width)] + long.take(
            short.len() as int,
        ));
    } else {
        assert(more.take(1) =~= fewer);
    }
}

/// `levels` is `tensor` at each of the sizes: kept where it already has the
/// size, and pooled elsewhere.
pub open spec fn is_tensor_pyramid<T, K: Fn(&T) -> T, P: Fn(&T, [usize; 2]) -> T>(
    levels: Seq<T>,
    sizes: Seq<[usize; 2]>,
    tensor: T,
    size: [usize; 2],
    keep: K,
    pool: P,
) -> bool {
    &&& levels.len() == sizes.len()
    &&& forall|level: int|
        0 <= level < sizes.len() ==> if sizes[level] == size {
            call_ensures(keep, (&tensor,), #[trigger] levels[level])
        } else {
            call_ensures(pool, (&tensor, sizes[level]), levels[level])
        }
}

/// A tensor of the given size at each of `sizes`.
pub fn tensor_pyramid<T, K: Fn(&T) -> T, P: Fn(&T, [usize; 2]) -> T>(
    sizes: &Vec<[usize; 2]>,
    tensor: T,
    size: [usize; 2],
    keep: K,
    pool: P,
) -> (levels: Vec<T>)
    requires
        forall|tensor: &T| #[trigger] call_requires(keep, (tensor,)),
        forall|tensor: &T, size: [usize; 2]| #[trigger] call_requires(pool, (tensor, size)),
    ensures
        is_tensor_pyramid(levels@, sizes@, tensor, size, keep, pool),
{
    let mut levels: Vec<T> = Vec::new();
    while levels.len() < sizes.len()
        invariant
            levels@.len() <= sizes@.len(),
            forall|tensor: &T| #[trigger] call_requires(keep, (tensor,)),
            forall|tensor: &T, size: [usize; 2]| #[trigger] call_requires(pool, (tensor, size)),
            forall|level: int|
                0 <= level < levels@.len() ==> if sizes@[level] == size {
                    call_ensures(keep, (&tensor,), #[trigger] levels@[level])
                } else {
                    call_ensures(pool, (&tensor, sizes@[level]), levels@[level])
                },
        decreases sizes@.len() - levels@.len(),
    {
        let level_size: [usize; 2] = sizes[levels.len()];
        let same: bool = level_size[0] == size[0] && level_size[1] == size[1];
        proof {
            if same {
                assert(level_size =~= size);
            }
        }
        let level: T = if same {
            keep(&tensor)
        } else {
            pool(&tensor, level_size)
        };
        levels.push(level);
    }
    levels
}

/// `outputs` are the results of all levels, each computed with that of the next
/// smaller level.
pub open spec fn is_recursive_run<T, F: Fn(&T, &T, Option<&T>) -> T>(
    outputs: Seq<T>,
    inputs: Seq<T>,
    noise_levels: Seq<T>,
    forward: F,
) -> bool {
    &&& outputs.len() == inputs.len()
    &&& forall|level: int|
        0 <= level < inputs.len() ==> call_ensures(
            forward,
            (
                &inputs[level],
                &noise_levels[level],
                if level + 1 < inputs.len() {
                    Some(&outputs[level + 1])
                } else {
                    None
                },
            ),
            #[trigger] outputs[level],
        )
}

/// Runs a model over all levels, from the smallest to the largest. Each level is
/// given the result of the one below it.
pub fn forward_recursive<T, F: Fn(&T, &T, Option<&T>) -> T>(
    inputs: &Vec<T>,
    noise_levels: &Vec<T>,
    forward: F,
) -> (outputs: Vec<T>)
    requires
        inputs@.len() > 0,
        noise_levels@.len() == inputs@.len(),
        forall|input: &T, noise_level: &T, insert: Option<&T>| #[trigger]
            call_requires(forward, (input, noise_level, insert)),
    ensures
        is_recursive_run(outputs@, inputs@, noise_levels@, forward),
{
    let count: usize = inputs.len();
    let mut rising: Vec<T> = Vec::new();
    while rising.len() < count
        invariant
            count == inputs@.len(),
            noise_levels@.len() == count,
            rising@.len() <= count,
            forall|input: &T, noise_level: &T, insert: Option<&T>| #[trigger]
                call_requires(forward, (input, noise_level, insert)),
            forall|index: int|
                0 <= index < rising@.len() ==> call_ensures(
                    forward,
                    (
                        &inputs@[count - 1 - index],
                        &noise_levels@[count - 1 - index],
                        if index > 0 {
                            Some(&rising@[index - 1])
                        } else {
                            None
                        },
                    ),
                    #[trigger] rising@[index],
                ),
        decreases count - rising@.len(),
    {
        let ghost before = rising@;
        let level: usize = count - 1 - rising.len();
        let insert: Option<&T> = if rising.len() > 0 {
            Some(&rising[rising.len() - 1])
        } else {
            None
        };
        let output: T = forward(&inputs[level], &noise_levels[level], insert);
        rising.push(output);
        proof {
            assert(forall|index: int|
                0 <= index < before.len() ==> #[trigger] rising@[index] == before[index]);
        }
    }
    let mut outputs: Vec<T> = Vec::new();
    let ghost all = rising@;
    while rising.len() > 0
        invariant
            all.len() == count,
            rising@ =~= all.take(rising@.len() as int),
            rising@.len() + outputs@.len() == count,
            forall|level: int|
                0 <= level < outputs@.len() ==> #[trigger] outputs@[level] == all[count - 1
                    - level],
        decreases rising@.len(),
    {
        match rising.pop() {
            Some(output) => {
                outputs.push(output);
            },
            None => {},
        }
    }
    proof {
        assert forall|level: int| 0 <= level < inputs@.len() implies call_ensures(
            forward,
            (
                &inputs@[level],
                &noise_levels@[level],
                if level + 1 < inputs@.len() {
                    Some(&outputs@[level + 1])
                } else {
                    None
                },
            ),
            #[trigger] outputs@[level],
        ) by {
            assert(outputs@[level] == all[count - 1 - level]);
            if level + 1 < count {
                assert(outputs@[level + 1] == all[count - 2 - level]);
            }
        }
    }
    outputs
}

/// `outputs` are the results of all levels, each computed with the clean image
/// of the next smaller level.
pub open spec fn is_teacher_forced_run<T, F: Fn(&T, &T, Option<&T>) -> T>(
    outputs: Seq<T>,
    inputs: Seq<T>,
    noise_levels: Seq<T>,
    clean: Seq<T>,
    forward: F,
) -> bool {
    &&& outputs.len() == inputs.len()
    &&& forall|level: int|
        0 <= level < inputs.len() ==> call_ensures(
            forward,
            (
                &inputs[level],
                &noise_levels[level],
                if level + 1 < clean.len() {
                    Some(&clean[level + 1])
                } else {
                    None
                },
            ),
            #[trigger] outputs[level],
        )
}

/// Runs a model over all levels. Each level is given the clean image of the one
/// below it.
pub fn forward_teacher_forced<T, F: Fn(&T, &T, Option<&T>) -> T>(
    inputs: &Vec<T>,
    noise_levels: &Vec<T>,
    clean: &Vec<T>,
    forward: F,
) -> (outputs: Vec<T>)
    requires
        inputs@.len() > 0,
        noise_levels@.len() == inputs@.len(),
        clean@.len() == inputs@.len(),
        forall|input: &T, noise_level: &T, insert: Option<&T>| #[trigger]
            call_requires(forward, (input, noise_level, insert)),
    ensures
        is_teacher_forced_run(outputs@, inputs@, noise_levels@, clean@, forward),
{
    let mut outputs: Vec<T> = Vec::new();
    while outputs.len() < inputs.len()
        invariant
            outputs@.len() <= inputs@.len(),
            noise_levels@.len() == inputs@.len(),
            clean@.len() == inputs@.len(),
            forall|input: &T, noise_level: &T, insert: Option<&T>| #[trigger]
                call_requires(forward, (input, noise_level, insert)),
            forall|level: int|
                0 <= level < outputs@.len() ==> call_ensures(
                    forward,
                    (
                        &inputs@[level],
                        &noise_levels@[level],
                        if level + 1 < clean@.len() {
                            Some(&clean@[level + 1])
                        } else {
                            None
                        },
                    ),
                    #[trigger] outputs@[level],
                ),
        decreases inputs@.len() - outputs@.len(),
    {
        let level: usize = outputs.len();
        let insert: Option<&T> = if level < clean.len() - 1 {
            Some(&clean[level + 1])
        } else {
            None
        };
        let output: T = forward(&inputs[level], &noise_levels[level], insert);
        outputs.push(output);
    }
    outputs
}

/// The shapes agree level by level.
pub open spec fn same_shapes(one: Seq<[usize; 4]>, other: Seq<[usize; 4]>) -> bool {
    forall|level: int|
        0 <= level < one.len() && level < other.len() ==> #[trigger] one[level] == other[level]
}

/// Tests whether the shapes agree level by level.
fn shapes_agree(one: &Vec<[usize; 4]>, other: &Vec<[usize; 4]>) -> (agree: bool)
    ensures
        agree == same_shapes(one@, other@),
{
    let mut level: usize = 0;
    while level < one.len() && level < other.len()
        invariant
            level <= one@.len(),
            level <= other@.len(),
            forall|i: int| 0 <= i < level ==> #[trigger] one@[i] == other@[i],
        decreases one@.len() - level,
    {
        let a: [usize; 4] = one[level];
        let b: [usize; 4] = other[level];
        if a[0] != b[0] || a[1] != b[1] || a[2] != b[2] || a[3] != b[3] {
            proof {
                assert(one@[level as int] != other@[level as int]);
            }
            return false;
        }
        proof {
            assert(a =~= b);
        }
        level = level + 1;
    }
    true
}

/// Why two pyramids of these shapes do not go together, if they do not.
pub open spec fn pyramids_error(
    inputs: Seq<[usize; 4]>,
    noise_levels: Seq<[usize; 4]>,
) -> Option<Seq<char>> {
    if inputs.len() == 0 {
        Some("at least one scale is required"@)
    } else if inputs.len() != noise_levels.len() {
        Some("noise level pyramid length must match inputs"@)
    } else if !same_shapes(inputs, noise_levels) {
        Some("noise level pyramid shapes must match inputs"@)
    } else {
        None
    }
}

/// Refuses a pyramid of inputs, given by its shapes, that is empty or differs
/// from that of the noise levels.
pub fn validate_pyramids(inputs: &Vec<[usize; 4]>, noise_levels: &Vec<[usize; 4]>) -> (result: Result<
    (),
    String,
>)
    ensures
        match pyramids_error(inputs@, noise_levels@) {
            Some(expected) => result matches Err(message) && message@ == expected,
            None => result is Ok,
        },
{
    if inputs.len() == 0 {
        return Err("at least one scale is required".to_owned());
    }
    if inputs.len() != noise_levels.len() {
        return Err("noise level pyramid length must match inputs".to_owned());
    }
    if !shapes_agree(inputs, noise_levels) {
        return Err("noise level pyramid shapes must match inputs".to_owned());
    }
    Ok(())
}

/// Why a pyramid of clean images does not go with the inputs, if it does not.
pub open spec fn clean_pyramid_error(
    inputs: Seq<[usize; 4]>,
    noise_levels: Seq<[usize; 4]>,
    clean: Seq<[usize; 4]>,
) -> Option<Seq<char>> {
    if pyramids_error(inputs, noise_levels) is Some {
        pyramids_error(inputs, noise_levels)
    } else if inputs.len() != clean.len() {
        Some("clean pyramid length must match inputs"@)
    } else if !same_shapes(inputs, clean) {
        Some("clean pyramid shapes must match inputs"@)
    } else {
        None
    }
}

/// Refuses pyramids, given by their shapes, that cannot be trained on together.
pub fn validate_clean_pyramid(
    inputs: &Vec<[usize; 4]>,
    noise_levels: &Vec<[usize; 4]>,
    clean: &Vec<[usize; 4]>,
) -> (result: Result<(), String>)
    ensures
        match clean_pyramid_error(inputs@, noise_levels@, clean@) {
            Some(expected) => result matches Err(message) && message@ == expected,
            None => result is Ok,
        },
{
    match validate_pyramids(inputs, noise_levels) {
        Ok(_) => {},
        Err(message) => {
            return Err(message);
        },
    }
    if inputs.len() != clean.len() {
        return Err("clean pyramid length must match inputs".to_owned());
    }
    if !shapes_agree(inputs, clean) {
        return Err("clean pyramid shapes must match inputs".to_owned());
    }
    Ok(())
}

/// The inputs for an image go from its own size down until a limit is met, and no
/// further: they end only where the steps are used up, where the height and the width are
/// both at or below a stop size that is not zero, or where the next would be below the
/// model's minimum. Before that every input is above the stop size in its height or its
/// width, and each next one is smaller by the rate of the model.
pub proof fn law_inputs_end_only_at_a_limit(
    model: DiffusionModel,
    config: RecursionConfig,
    base_size: [usize; 2],
    scale_level: usize,
    sizes: Seq<[usize; 2]>,
)
    requires
        config.original_steps > 0,
        first_shrink_rate(model.u_net) > 0,
        base_size[0] >= last_shrink_rate(model.u_net),
        base_size[1] >= last_shrink_rate(model.u_net),
        size_pairs(sizes) == input_sizes_for(model, config, base_size, scale_level),
    ensures
        ({
            let rate = first_shrink_rate(model.u_net) as nat;
            let minimum = last_shrink_rate(model.u_net);
            let stop = config.stop_size;
            let last = sizes[sizes.len() - 1];
            &&& 0 < sizes.len() <= config.original_steps + scale_level
            &&& sizes[0][0] == base_size[0] && sizes[0][1] == base_size[1]
            &&& forall|level: int|
                0 <= level < sizes.len() ==> (#[trigger] sizes[level])[0] >= minimum
                    && sizes[level][1] >= minimum
            &&& forall|level: int|
                0 < level < sizes.len() ==> (#[trigger] sizes[level])[0] == sizes[level
                    - 1][0] as nat / rate && sizes[level][1] == sizes[level - 1][1] as nat / rate
            &&& forall|level: int|
                0 <= level < sizes.len() - 1 && stop > 0 ==> (#[trigger] sizes[level])[0] > stop
                    || sizes[level][1] > stop
            &&& {
                ||| sizes.len() == config.original_steps + scale_level
                ||| sizes.len() == usize::MAX
                ||| stop > 0 && last[0] <= stop && last[1] <= stop
                ||| last[0] as nat / rate < minimum
                ||| last[1] as nat / rate < minimum
            }
        }),
{
    let rate = first_shrink_rate(model.u_net) as nat;
    let minimum = last_shrink_rate(model.u_net) as nat;
    let stop = config.stop_size as nat;
    law_sizes_run_to_a_limit(
        base_size[0] as nat,
        base_size[1] as nat,
        minimum,
        rate,
        stop,
        max_steps(config, scale_level),
    );
    let pairs = size_pairs(sizes);
    assert(pairs.len() == sizes.len());
    assert forall|level: int| 0 <= level < sizes.len() implies (#[trigger] sizes[level])[0]
        >= minimum && sizes[level][1] >= minimum by {
        assert(pairs[level].0 >= minimum);
    }
    assert forall|level: int| 0 < level < sizes.len() implies (#[trigger] sizes[level])[0]
        == sizes[level - 1][0] as nat / rate && sizes[level][1] == sizes[level - 1][1] as nat
        / rate by {
        assert(pairs[level] == (pairs[level - 1].0 / rate, pairs[level - 1].1 / rate));
    }
    assert forall|level: int| 0 <= level < sizes.len() - 1 && stop > 0 implies (
    #[trigger] sizes[level])[0] > stop || sizes[level][1] > stop by {
        assert(pairs[level + 1] == (pairs[level].0 / rate, pairs[level].1 / rate));
    }
    assert(pairs[0] == (base_size[0] as nat, base_size[1] as nat));
    assert(pairs.last() == pairs[sizes.len() - 1]);
}

/// A stop size only ever shortens the run, and one that neither dimension is above from the
/// start leaves the image's own size alone.
pub proof fn law_a_stop_size_shortens_the_run(
    height: nat,
    width: nat,
    minimum: nat,
    rate: nat,
    stop: nat,
    steps: nat,
)
    requires
        rate > 0,
    ensures
        sizes_from(height, width, minimum, rate, stop, steps).len() <= sizes_from(
            height,
            width,
            minimum,
            rate,
            0,
            steps,
        ).len(),
        steps > 0 && minimum <= height <= stop && minimum <= width <= stop && stop > 0
            ==> sizes_from(height, width, minimum, rate, stop, steps) == seq![(height, width)],
    decreases steps,
{
    if steps > 0 {
        law_a_stop_size_shortens_the_run(
            height / rate,
            width / rate,
            minimum,
            rate,
            stop,
            (steps - 1) as nat,
        );
    }
}

/// An image of a further scale may have one more input.
pub proof fn law_each_scale_adds_a_step(config: RecursionConfig, scale_level: usize)
    requires
        config.original_steps + scale_level < usize::MAX,
    ensures
        max_steps(config, 0) == config.original_steps,
        max_steps(config, (scale_level + 1) as usize) == max_steps(config, scale_level) + 1,
{
}

/// The smallest level runs on its own, and each other level is handed the result of the
/// next smaller one.
pub proof fn law_results_are_handed_up<T, F: Fn(&T, &T, Option<&T>) -> T>(
    outputs: Seq<T>,
    inputs: Seq<T>,
    noise_levels: Seq<T>,
    forward: F,
    level: int,
)
    requires
        inputs.len() > 0,
        is_recursive_run(outputs, inputs, noise_levels, forward),
        0 <= level < inputs.len() - 1,
    ensures
        outputs.len() == inputs.len(),
        call_ensures(
            forward,
            (&inputs[level], &noise_levels[level], Some(&outputs[level + 1])),
            outputs[level],
        ),
        call_ensures(
            forward,
            (&inputs.last(), &noise_levels[inputs.len() - 1], None),
            outputs[inputs.len() - 1],
        ),
{
}

/// The smallest level is trained on its own, and each other level with the clean image of
/// the next smaller one.
pub proof fn law_clean_images_are_handed_up<T, F: Fn(&T, &T, Option<&T>) -> T>(
    outputs: Seq<T>,
    inputs: Seq<T>,
    noise_levels: Seq<T>,
    clean: Seq<T>,
    forward: F,
    level: int,
)
    requires
        inputs.len() > 0,
        clean.len() == inputs.len(),
        is_teacher_forced_run(outputs, inputs, noise_levels, clean, forward),
        0 <= level < inputs.len() - 1,
    ensures
        outputs.len() == inputs.len(),
        call_ensures(
            forward,
            (&inputs[level], &noise_levels[level], Some(&clean[level + 1])),
            outputs[level],
        ),
        call_ensures(
            forward,
            (&inputs.last(), &noise_levels[inputs.len() - 1], None),
            outputs[inputs.len() - 1],
        ),
{
}

/// A pyramid has the tensor itself at its own size, and the tensor pooled to it at every
/// other.
pub proof fn law_a_pyramid_pools_the_tensor<T, K: Fn(&T) -> T, P: Fn(&T, [usize; 2]) -> T>(
    levels: Seq<T>,
    sizes: Seq<[usize; 2]>,
    tensor: T,
    size: [usize; 2],
    keep: K,
    pool: P,
    level: int,
)
    requires
        is_tensor_pyramid(levels, sizes, tensor, size, keep, pool),
        0 <= level < sizes.len(),
    ensures
        levels.len() == sizes.len(),
        sizes[level] == size ==> call_ensures(keep, (&tensor,), levels[level]),
        sizes[level] != size ==> call_ensures(pool, (&tensor, sizes[level]), levels[level]),
{
}

/// Pyramids go together exactly if they are not empty, equally long and of the same shapes
/// throughout.
pub proof fn law_pyramids_go_together(
    inputs: Seq<[usize; 4]>,
    noise_levels: Seq<[usize; 4]>,
    clean: Seq<[usize; 4]>,
)
    ensures
        pyramids_error(inputs, noise_levels) is None <==> inputs.len() > 0 && inputs
            == noise_levels,
        clean_pyramid_error(inputs, noise_levels, clean) is None <==> inputs.len() > 0 && inputs
            == noise_levels && inputs == clean,
{
    if pyramids_error(inputs, noise_levels) is None {
        assert(inputs =~= noise_levels);
    }
    if clean_pyramid_error(inputs, noise_levels, clean) is None {
        assert(inputs =~= clean);
    }
}

} // verus!
