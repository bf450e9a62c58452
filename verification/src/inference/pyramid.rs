//! The resolution pyramid that an inference works through.
use crate::inference::{InferenceError, InferenceErrorView};
use crate::powers::scaled_by_power;
use crate::text::{decimal, push_decimal, push_size, size_text};
use vstd::arithmetic::power2::pow2;
use vstd::prelude::*;

verus! {

/// The sizes that one inference works through.
#[derive(Clone, Debug, PartialEq, Eq)]
pub struct PyramidPlan {
    /// Height and width of the input.
    pub original_size: [usize; 2],
    /// Height and width after padding on the right and at the bottom.
    pub padded_size: [usize; 2],
    /// Height and width of every level, the largest first.
    pub sizes: Vec<[usize; 2]>,
}

/// Half of `n`, rounded up.
pub open spec fn halved(n: nat) -> nat {
    (n + 1) / 2
}

/// How often a size is halved: until both dimensions are at most `stop`, unless
/// one more halving would take a dimension below its minimum.
pub open spec fn pyramid_depth(height: nat, width: nat, minimum: [usize; 2], stop: nat) -> nat
    decreases height + width,
{
    if (height > stop || width > stop) && halved(height) >= minimum[0] && halved(width)
        >= minimum[1] && (height > 1 || width > 1) {
        1 + pyramid_depth(halved(height), halved(width), minimum, stop)
    } else {
        0
    }
}

/// The least multiple of `alignment` that is not below `value`.
pub open spec fn rounded_up(value: nat, alignment: nat) -> nat {
    if value % alignment == 0 {
        value
    } else {
        (value + (alignment - value % alignment)) as nat
    }
}

/// The number of levels below the largest one in the plan for these sizes.
pub open spec fn plan_depth(
    original_size: [usize; 2],
    minimum_size: [usize; 2],
    stop_size: usize,
) -> nat {
    pyramid_depth(
        original_size[0] as nat,
        original_size[1] as nat,
        minimum_size,
        stop_size as nat,
    )
}

/// What a padded dimension is a multiple of.
pub open spec fn plan_alignment(
    original_size: [usize; 2],
    minimum_size: [usize; 2],
    stop_size: usize,
    axis: int,
) -> nat {
    minimum_size[axis] as nat * pow2(plan_depth(original_size, minimum_size, stop_size))
}

/// A dimension after padding.
pub open spec fn plan_padded(
    original_size: [usize; 2],
    minimum_size: [usize; 2],
    stop_size: usize,
    axis: int,
) -> nat {
    rounded_up(
        original_size[axis] as nat,
        plan_alignment(original_size, minimum_size, stop_size, axis),
    )
}

/// Why there is no plan for these sizes, if there is none.
pub open spec fn plan_error(
    original_size: [usize; 2],
    minimum_size: [usize; 2],
    stop_size: usize,
) -> Option<InferenceErrorView> {
    if minimum_size[0] == 0 || minimum_size[1] == 0 {
        Some(
            InferenceErrorView::Model(
                "model minimum input dimensions must be greater than zero"@,
            ),
        )
    } else if stop_size < minimum_size[0] || stop_size < minimum_size[1] {
        Some(
            InferenceErrorView::Model(
                "recursion stop size "@ + decimal(stop_size as nat)
                    + " is smaller than model minimum "@ + size_text(minimum_size),
            ),
        )
    } else if original_size[0] < minimum_size[0] || original_size[1] < minimum_size[1] {
        Some(
            InferenceErrorView::InvalidArgument(
                "input size "@ + size_text(original_size) + " must be at least the model minimum "@
                    + size_text(minimum_size),
            ),
        )
    } else if plan_alignment(original_size, minimum_size, stop_size, 0) > usize::MAX {
        Some(InferenceErrorView::InvalidArgument("pyramid height alignment overflowed"@))
    } else if plan_alignment(original_size, minimum_size, stop_size, 1) > usize::MAX {
        Some(InferenceErrorView::InvalidArgument("pyramid width alignment overflowed"@))
    } else if plan_padded(original_size, minimum_size, stop_size, 0) > usize::MAX || plan_padded(
        original_size,
        minimum_size,
        stop_size,
        1,
    ) > usize::MAX {
        Some(InferenceErrorView::InvalidArgument("padded image dimension overflowed"@))
    } else {
        None
    }
}

/// `plan` is the plan for these sizes.
pub open spec fn is_plan_for(
    plan: PyramidPlan,
    original_size: [usize; 2],
    minimum_size: [usize; 2],
    stop_size: usize,
) -> bool {
    &&& plan.original_size == original_size
    &&& plan.padded_size[0] == plan_padded(original_size, minimum_size, stop_size, 0)
    &&& plan.padded_size[1] == plan_padded(original_size, minimum_size, stop_size, 1)
    &&& plan.sizes@.len() == plan_depth(original_size, minimum_size, stop_size) + 1
    &&& forall|level: int|
        0 <= level < plan.sizes@.len() ==> {
            &&& #[trigger] plan.sizes@[level][0] == plan.padded_size[0] as nat / pow2(level as nat)
            &&& plan.sizes@[level][1] == plan.padded_size[1] as nat / pow2(level as nat)
        }
}

/// Rounds `value` up to a multiple of `alignment`.
pub fn round_up(value: usize, alignment: usize) -> (result: Result<usize, InferenceError>)
    requires
        alignment > 0,
    ensures
        match result {
            Ok(rounded) => rounded == rounded_up(value as nat, alignment as nat),
            Err(error) => rounded_up(value as nat, alignment as nat) > usize::MAX && error@
                == InferenceErrorView::InvalidArgument("padded image dimension overflowed"@),
        },
{
    let remainder: usize = value % alignment;
    if remainder == 0 {
        Ok(value)
    } else {
        match value.checked_add(alignment - remainder) {
            Some(rounded) => Ok(rounded),
            None => Err(
                InferenceError::InvalidArgument("padded image dimension overflowed".to_owned()),
            ),
        }
    }
}

/// Depth facts that the planning loop needs: halving keeps to the depth.
proof fn lemma_depth_step(height: nat, width: nat, minimum: [usize; 2], stop: nat)
    requires
        stop > 0,
        height > stop || width > stop,
        halved(height) >= minimum[0],
        halved(width) >= minimum[1],
    ensures
        pyramid_depth(height, width, minimum, stop) == 1 + pyramid_depth(
            halved(height),
            halved(width),
            minimum,
            stop,
        ),
        halved(height) + halved(width) < height + width,
{
}

/// Plans the levels for an input of `original_size`: how often it is halved,
/// and how far it is padded so that every halving is exact and the smallest
/// level is a multiple of `minimum_size`.
pub fn automatic_pyramid_plan(
    original_size: [usize; 2],
    minimum_size: [usize; 2],
    stop_size: usize,
) -> (result: Result<PyramidPlan, InferenceError>)
    ensures
        match plan_error(original_size, minimum_size, stop_size) {
            Some(expected) => result matches Err(error) && error@ == expected,
            None => result matches Ok(plan) && is_plan_for(
                plan,
                original_size,
                minimum_size,
                stop_size,
            ),
        },
{
    if minimum_size[0] == 0 || minimum_size[1] == 0 {
        return Err(
            InferenceError::Model(
                "model minimum input dimensions must be greater than zero".to_owned(),
            ),
        );
    }
    if stop_size < minimum_size[0] || stop_size < minimum_size[1] {
        let mut message: String = "recursion stop size ".to_owned();
        push_decimal(&mut message, stop_size);
        message.append(" is smaller than model minimum ");
        push_size(&mut message, minimum_size);
        return Err(InferenceError::Model(message));
    }
    if original_size[0] < minimum_size[0] || original_size[1] < minimum_size[1] {
        let mut message: String = "input size ".to_owned();
        push_size(&mut message, original_size);
        message.append(" must be at least the model minimum ");
        push_size(&mut message, minimum_size);
        return Err(InferenceError::InvalidArgument(message));
    }
    let mut height: usize = original_size[0];
    let mut width: usize = original_size[1];
    let mut reductions: usize = 0;
    let ghost depth = plan_depth(original_size, minimum_size, stop_size);
    while height > stop_size || width > stop_size
        invariant_except_break
            stop_size > 0,
            reductions + pyramid_depth(
                height as nat,
                width as nat,
                minimum_size,
                stop_size as nat,
            ) == depth,
            height + reductions <= original_size[0] || height + reductions <= original_size[1],
            width + reductions <= original_size[0] || width + reductions <= original_size[1],
        ensures
            reductions == depth,
        decreases height + width,
    {
        let next_height: usize = height / 2 + height % 2;
        let next_width: usize = width / 2 + width % 2;
        if next_height < minimum_size[0] || next_width < minimum_size[1] {
            break;
        }
        proof {
            lemma_depth_step(height as nat, width as nat, minimum_size, stop_size as nat);
        }
        height = next_height;
        width = next_width;
        reductions = reductions + 1;
    }
    let aligned_height: usize = match scaled_by_power(minimum_size[0], reductions) {
        Some(aligned) => aligned,
        None => {
            return Err(
                InferenceError::InvalidArgument("pyramid height alignment overflowed".to_owned()),
            );
        },
    };
    let aligned_width: usize = match scaled_by_power(minimum_size[1], reductions) {
        Some(aligned) => aligned,
        None => {
            return Err(
                InferenceError::InvalidArgument("pyramid width alignment overflowed".to_owned()),
            );
        },
    };
    proof {
        vstd::arithmetic::power2::lemma_pow2_pos(depth);
        assert(minimum_size[0] as nat * pow2(depth) > 0 && minimum_size[1] as nat * pow2(depth)
            > 0) by (nonlinear_arith)
            requires
                minimum_size[0] > 0,
                minimum_size[1] > 0,
                pow2(depth) > 0,
        ;
    }
    let padded_height: usize = match round_up(original_size[0], aligned_height) {
        Ok(padded) => padded,
        Err(error) => {
            return Err(error);
        },
    };
    let padded_width: usize = match round_up(original_size[1], aligned_width) {
        Ok(padded) => padded,
        Err(error) => {
            return Err(error);
        },
    };
    let mut sizes: Vec<[usize; 2]> = Vec::new();
    let mut level_height: usize = padded_height;
    let mut level_width: usize = padded_width;
    proof {
        vstd::arithmetic::power2::lemma2_to64();
        assert(padded_height as nat / 1 == padded_height);
        assert(padded_width as nat / 1 == padded_width);
    }
    sizes.push([level_height, level_width]);
    while sizes.len() <= reductions
        invariant
            1 <= sizes@.len() <= reductions + 1,
            level_height == padded_height as nat / pow2((sizes@.len() - 1) as nat),
            level_width == padded_width as nat / pow2((sizes@.len() - 1) as nat),
            forall|level: int|
                0 <= level < sizes@.len() ==> {
                    &&& #[trigger] sizes@[level][0] == padded_height as nat / pow2(level as nat)
                    &&& sizes@[level][1] == padded_width as nat / pow2(level as nat)
                },
        decreases reductions + 1 - sizes@.len(),
    {
        let ghost level = sizes@.len();
        proof {
            vstd::arithmetic::power2::lemma_pow2_unfold(level);
            vstd::arithmetic::power2::lemma_pow2_pos((level - 1) as nat);
            vstd::arithmetic::div_mod::lemma_div_denominator(
                padded_height as int,
                pow2((level - 1) as nat) as int,
                2,
            );
            vstd::arithmetic::div_mod::lemma_div_denominator(
                padded_width as int,
                pow2((level - 1) as nat) as int,
                2,
            );
        }
        level_height = level_height / 2;
        level_width = level_width / 2;
        sizes.push([level_height, level_width]);
    }
    Ok(PyramidPlan { original_size, padded_size: [padded_height, padded_width], sizes })
}

/// `size` after `count` halvings.
pub open spec fn halved_times(size: nat, count: nat) -> nat
    decreases count,
{
    if count == 0 {
        size
    } else {
        halved_times(halved(size), (count - 1) as nat)
    }
}

/// A level of `count` halvings may be halved again.
pub open spec fn may_halve(
    height: nat,
    width: nat,
    minimum: [usize; 2],
    stop: nat,
    count: nat,
) -> bool {
    let h = halved_times(height, count);
    let w = halved_times(width, count);
    &&& h > stop || w > stop
    &&& halved(h) >= minimum[0]
    &&& halved(w) >= minimum[1]
}

/// The depth is the first number of halvings after which both dimensions are
/// at most the stop size or one more halving would make a dimension too small.
pub proof fn law_depth_is_the_first_stop(height: nat, width: nat, minimum: [usize; 2], stop: nat)
    requires
        stop > 0,
    ensures
        forall|count: nat|
            count < pyramid_depth(height, width, minimum, stop) ==> #[trigger] may_halve(
                height,
                width,
                minimum,
                stop,
                count,
            ),
        !may_halve(
            height,
            width,
            minimum,
            stop,
            pyramid_depth(height, width, minimum, stop),
        ),
    decreases height + width,
{
    let depth = pyramid_depth(height, width, minimum, stop);
    if may_halve(height, width, minimum, stop, 0) {
        lemma_depth_step(height, width, minimum, stop);
        law_depth_is_the_first_stop(halved(height), halved(width), minimum, stop);
        assert forall|count: nat| count < depth implies #[trigger] may_halve(
            height,
            width,
            minimum,
            stop,
            count,
        ) by {
            if count > 0 {
                assert(may_halve(
                    halved(height),
                    halved(width),
                    minimum,
                    stop,
                    (count - 1) as nat,
                ));
            }
        }
        assert(!may_halve(halved(height), halved(width), minimum, stop, (depth - 1) as nat));
    }
}

/// A number that is not below `value` and a multiple of `alignment` is not
/// below `value` rounded up, which is such a number itself.
pub proof fn law_rounding_up_is_minimal(value: nat, alignment: nat, other: nat)
    requires
        alignment > 0,
        other >= value,
        other % alignment == 0,
    ensures
        value <= rounded_up(value, alignment) < value + alignment,
        rounded_up(value, alignment) % alignment == 0,
        rounded_up(value, alignment) <= other,
{
    let q = value / alignment;
    let r = value % alignment;
    vstd::arithmetic::div_mod::lemma_fundamental_div_mod(value as int, alignment as int);
    vstd::arithmetic::div_mod::lemma_fundamental_div_mod(other as int, alignment as int);
    let k = other / alignment;
    if r != 0 {
        assert(rounded_up(value, alignment) == alignment * (q + 1)) by (nonlinear_arith)
            requires
                value == alignment * q + r,
                rounded_up(value, alignment) == value + (alignment - r),
        ;
        vstd::arithmetic::div_mod::lemma_mod_multiples_basic((q + 1) as int, alignment as int);
        assert((q + 1) * alignment == alignment * (q + 1)) by (nonlinear_arith);
        assert(k >= q + 1) by (nonlinear_arith)
            requires
                alignment * k >= alignment * q + r,
                r > 0,
                alignment > 0,
        ;
        assert(alignment * k >= alignment * (q + 1)) by (nonlinear_arith)
            requires
                k >= q + 1,
        ;
    }
}

/// In a plan the largest level is the padded size, every level is exactly
/// twice the next and a multiple of the model's minimum, and padding adds less
/// than one alignment step to a dimension.
pub proof fn law_levels_halve_exactly(
    plan: PyramidPlan,
    original_size: [usize; 2],
    minimum_size: [usize; 2],
    stop_size: usize,
)
    requires
        plan_error(original_size, minimum_size, stop_size) is None,
        is_plan_for(plan, original_size, minimum_size, stop_size),
    ensures
        plan.sizes@[0] == plan.padded_size,
        forall|axis: int|
            0 <= axis < 2 ==> {
                &&& original_size[axis] <= #[trigger] plan.padded_size[axis]
                &&& plan.padded_size[axis] < original_size[axis] + plan_alignment(
                    original_size,
                    minimum_size,
                    stop_size,
                    axis,
                )
            },
        forall|level: int, axis: int|
            0 <= level < plan.sizes@.len() && 0 <= axis < 2 ==> {
                &&& #[trigger] plan.sizes@[level][axis] % minimum_size[axis] == 0
                &&& plan.sizes@[level][axis] >= minimum_size[axis]
            },
        forall|level: int, axis: int|
            0 <= level < plan.sizes@.len() - 1 && 0 <= axis < 2 ==> #[trigger] plan.sizes@[level][axis]
                == 2 * plan.sizes@[level + 1][axis],
{
    let depth = plan_depth(original_size, minimum_size, stop_size);
    vstd::arithmetic::power2::lemma2_to64();
    assert(plan.sizes@[0][0] == plan.padded_size[0] as nat / 1);
    assert(plan.sizes@[0][1] == plan.padded_size[1] as nat / pow2(0));
    assert(plan.sizes@[0] =~= plan.padded_size);
    lemma_axis_halves(plan, original_size, minimum_size, stop_size, 0);
    lemma_axis_halves(plan, original_size, minimum_size, stop_size, 1);
}

proof fn lemma_axis_halves(
    plan: PyramidPlan,
    original_size: [usize; 2],
    minimum_size: [usize; 2],
    stop_size: usize,
    axis: int,
)
    requires
        0 <= axis < 2,
        plan_error(original_size, minimum_size, stop_size) is None,
        is_plan_for(plan, original_size, minimum_size, stop_size),
    ensures
        original_size[axis] <= plan.padded_size[axis],
        plan.padded_size[axis] < original_size[axis] + plan_alignment(
            original_size,
            minimum_size,
            stop_size,
            axis,
        ),
        forall|level: int|
            0 <= level < plan.sizes@.len() ==> {
                &&& #[trigger] plan.sizes@[level][axis] % minimum_size[axis] == 0
                &&& plan.sizes@[level][axis] >= minimum_size[axis]
            },
        forall|level: int|
            0 <= level < plan.sizes@.len() - 1 ==> #[trigger] plan.sizes@[level][axis] == 2
                * plan.sizes@[level + 1][axis],
{
    let depth = plan_depth(original_size, minimum_size, stop_size);
    let minimum = minimum_size[axis] as nat;
    let alignment = minimum * pow2(depth);
    let padded = plan.padded_size[axis] as nat;
    let value = original_size[axis] as nat;
    vstd::arithmetic::power2::lemma_pow2_pos(depth);
    assert(alignment > 0) by (nonlinear_arith)
        requires
            alignment == minimum * pow2(depth),
            minimum > 0,
            pow2(depth) > 0,
    ;
    let other = alignment * value;
    vstd::arithmetic::div_mod::lemma_mod_multiples_basic(value as int, alignment as int);
    assert(other == value * alignment && other >= value) by (nonlinear_arith)
        requires
            alignment > 0,
            other == alignment * value,
    ;
    law_rounding_up_is_minimal(value, alignment, other);
    let factor = padded / alignment;
    vstd::arithmetic::div_mod::lemma_fundamental_div_mod(padded as int, alignment as int);
    assert(factor >= 1) by (nonlinear_arith)
        requires
            padded == alignment * factor,
            padded > 0,
    ;
    let smallest = factor * minimum;
    assert(padded == smallest * pow2(depth)) by (nonlinear_arith)
        requires
            padded == alignment * factor,
            alignment == minimum * pow2(depth),
            smallest == factor * minimum,
    ;
    assert(smallest >= minimum) by (nonlinear_arith)
        requires
            smallest == factor * minimum,
            factor >= 1,
    ;
    assert forall|level: nat| level <= depth implies #[trigger] plan.sizes@[level as int][axis]
        == smallest * pow2((depth - level) as nat) by {
        let rest = (depth - level) as nat;
        vstd::arithmetic::power2::lemma_pow2_adds(rest, level);
        vstd::arithmetic::power2::lemma_pow2_pos(level);
        assert(padded == (smallest * pow2(rest)) * pow2(level)) by (nonlinear_arith)
            requires
                padded == smallest * pow2(depth),
                pow2(depth) == pow2(rest) * pow2(level),
        ;
        vstd::arithmetic::div_mod::lemma_div_by_multiple(
            (smallest * pow2(rest)) as int,
            pow2(level) as int,
        );
        assert(plan.sizes@[level as int][0] == plan.padded_size[0] as nat / pow2(level));
    }
    assert forall|level: int| 0 <= level < plan.sizes@.len() implies {
        &&& #[trigger] plan.sizes@[level][axis] % minimum_size[axis] == 0
        &&& plan.sizes@[level][axis] >= minimum_size[axis]
    } by {
        let scale = pow2((depth - level) as nat);
        vstd::arithmetic::power2::lemma_pow2_pos((depth - level) as nat);
        assert(plan.sizes@[level as nat as int][axis] == smallest * scale);
        assert(smallest * scale == (factor * scale) * minimum) by (nonlinear_arith)
            requires
                smallest == factor * minimum,
        ;
        assert(smallest * scale >= smallest) by (nonlinear_arith)
            requires
                scale >= 1,
        ;
        vstd::arithmetic::div_mod::lemma_mod_multiples_basic(
            (factor * scale) as int,
            minimum as int,
        );
    }
    assert forall|level: int| 0 <= level < plan.sizes@.len() - 1 implies #[trigger] plan.sizes@[level][axis]
        == 2 * plan.sizes@[level + 1][axis] by {
        let rest = (depth - level) as nat;
        assert(plan.sizes@[(level + 1) as nat as int][axis] == smallest * pow2((rest - 1) as nat));
        assert(plan.sizes@[level as nat as int][axis] == smallest * pow2(rest));
        vstd::arithmetic::power2::lemma_pow2_unfold(rest);
        assert(smallest * (2 * pow2((rest - 1) as nat)) == 2 * (smallest * pow2(
            (rest - 1) as nat,
        ))) by (nonlinear_arith);
    }
}

/// A size after `count` halvings, each rounded up, is the size divided by two to the
/// `count`, rounded up.
proof fn lemma_halved_times(size: nat, count: nat)
    ensures
        size > 0 ==> halved_times(size, count) > 0,
        (halved_times(size, count) - 1) * pow2(count) < size,
        size <= halved_times(size, count) * pow2(count),
    decreases count,
{
    let times = halved_times(size, count) as int;
    if count == 0 {
        vstd::arithmetic::power2::lemma2_to64();
    } else {
        let less = (count - 1) as nat;
        let half = pow2(less) as int;
        lemma_halved_times(halved(size), less);
        vstd::arithmetic::power2::lemma_pow2_unfold(count);
        assert(pow2(count) == 2 * half);
        assert((times - 1) * (2 * half) == 2 * ((times - 1) * half)) by (nonlinear_arith);
        assert(times * (2 * half) == 2 * (times * half)) by (nonlinear_arith);
    }
}

/// A number of parts that a size fills, the last perhaps in part, is the only one.
proof fn lemma_one_quotient(size: int, part: int, one: int, other: int)
    requires
        part > 0,
        (one - 1) * part < size <= one * part,
        (other - 1) * part < size <= other * part,
    ensures
        one == other,
{
    assert(one == other) by (nonlinear_arith)
        requires
            part > 0,
            (one - 1) * part < size <= one * part,
            (other - 1) * part < size <= other * part,
    ;
}

/// A plan has as many levels as it takes for both dimensions to be at most the stop size,
/// unless one more level would be below the model's minimum in a dimension. Here `height`
/// and `width` are the original ones, divided by two to the `count` and rounded up.
pub proof fn law_levels_end_only_at_a_limit(
    plan: PyramidPlan,
    original_size: [usize; 2],
    minimum_size: [usize; 2],
    stop_size: usize,
    count: nat,
    height: int,
    width: int,
)
    requires
        plan_error(original_size, minimum_size, stop_size) is None,
        is_plan_for(plan, original_size, minimum_size, stop_size),
        (height - 1) * pow2(count) < original_size[0] <= height * pow2(count),
        (width - 1) * pow2(count) < original_size[1] <= width * pow2(count),
    ensures
        count + 1 < plan.sizes@.len() ==> (height > stop_size || width > stop_size) && height + 1
            >= 2 * minimum_size[0] && width + 1 >= 2 * minimum_size[1],
        count + 1 == plan.sizes@.len() ==> (height <= stop_size && width <= stop_size) || height + 1
            < 2 * minimum_size[0] || width + 1 < 2 * minimum_size[1],
{
    let rows = original_size[0] as nat;
    let columns = original_size[1] as nat;
    lemma_halved_times(rows, count);
    lemma_halved_times(columns, count);
    vstd::arithmetic::power2::lemma_pow2_pos(count);
    lemma_one_quotient(
        rows as int,
        pow2(count) as int,
        height,
        halved_times(rows, count) as int,
    );
    lemma_one_quotient(
        columns as int,
        pow2(count) as int,
        width,
        halved_times(columns, count) as int,
    );
    law_depth_is_the_first_stop(rows, columns, minimum_size, stop_size as nat);
    if count + 1 < plan.sizes@.len() {
        assert(may_halve(rows, columns, minimum_size, stop_size as nat, count));
    }
}

/// Padding is the least that lets every level be halved exactly down to a multiple of the
/// model's minimum.
pub proof fn law_padding_is_the_least(
    plan: PyramidPlan,
    original_size: [usize; 2],
    minimum_size: [usize; 2],
    stop_size: usize,
    axis: int,
    other: nat,
)
    requires
        plan_error(original_size, minimum_size, stop_size) is None,
        is_plan_for(plan, original_size, minimum_size, stop_size),
        0 <= axis < 2,
        other >= original_size[axis],
        other % (minimum_size[axis] as nat * pow2((plan.sizes@.len() - 1) as nat)) == 0,
    ensures
        plan.original_size == original_size,
        plan.sizes@.len() > 0,
        original_size[axis] <= plan.padded_size[axis] <= other,
        plan.padded_size[axis] as nat % (minimum_size[axis] as nat * pow2(
            (plan.sizes@.len() - 1) as nat,
        )) == 0,
{
    let depth = plan_depth(original_size, minimum_size, stop_size);
    let alignment = minimum_size[axis] as nat * pow2(depth);
    vstd::arithmetic::power2::lemma_pow2_pos(depth);
    assert(minimum_size[0] > 0 && minimum_size[1] > 0);
    assert(minimum_size[axis] > 0);
    assert(alignment > 0) by (nonlinear_arith)
        requires
            alignment == minimum_size[axis] as nat * pow2(depth),
            minimum_size[axis] > 0,
            pow2(depth) > 0,
    ;
    assert(depth == (plan.sizes@.len() - 1) as nat);
    law_rounding_up_is_minimal(original_size[axis] as nat, alignment, other);
    assert(plan.padded_size[axis] == plan_padded(original_size, minimum_size, stop_size, axis));
}

/// A plan is refused for a model without a minimum, for a stop size below the minimum, and
/// for an image below the minimum in a dimension; the image is then at fault, not the model.
pub proof fn law_plans_need_the_minimum_size(
    original_size: [usize; 2],
    minimum_size: [usize; 2],
    stop_size: usize,
)
    ensures
        plan_error(original_size, minimum_size, stop_size) is None ==> {
            &&& 0 < minimum_size[0] <= stop_size && minimum_size[0] <= original_size[0]
            &&& 0 < minimum_size[1] <= stop_size && minimum_size[1] <= original_size[1]
        },
        plan_error(original_size, minimum_size, stop_size) matches Some(error) ==> {
            error is Model <==> minimum_size[0] == 0 || minimum_size[1] == 0 || stop_size
                < minimum_size[0] || stop_size < minimum_size[1]
        },
{
}

/// There is a plan exactly if the model has a minimum, the stop size and the image are not
/// below it, and what the padded dimensions are multiples of, and they themselves, can be
/// counted.
pub proof fn law_plans_are_made_exactly(
    original_size: [usize; 2],
    minimum_size: [usize; 2],
    stop_size: usize,
)
    ensures
        plan_error(original_size, minimum_size, stop_size) is None <==> {
            let depth = plan_depth(original_size, minimum_size, stop_size);
            &&& 0 < minimum_size[0] && minimum_size[0] <= stop_size && minimum_size[0]
                <= original_size[0]
            &&& 0 < minimum_size[1] && minimum_size[1] <= stop_size && minimum_size[1]
                <= original_size[1]
            &&& minimum_size[0] as nat * pow2(depth) <= usize::MAX
            &&& minimum_size[1] as nat * pow2(depth) <= usize::MAX
            &&& plan_padded(original_size, minimum_size, stop_size, 0) <= usize::MAX
            &&& plan_padded(original_size, minimum_size, stop_size, 1) <= usize::MAX
        },
{
}

} // verus!
