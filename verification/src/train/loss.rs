//! Which parts the training loss has, and what each looks at.
use crate::ieee::{double_is_zero, is_zero};
use vstd::prelude::*;

verus! {

/// The images that noise is matched on are at most this high and wide.
pub const COST_SIZE: usize = 32;

/// How much each part of the lineart loss weighs, as the bits of doubles.
#[derive(Clone, Copy, Debug, PartialEq, Eq, Structural)]
pub struct LineartLossConfig {
    pub density_weight: u64,
    pub edge_weight: u64,
    pub speckle_weight: u64,
    pub contrast_weight: u64,
    pub support_weight: u64,
    pub direction_weight: u64,
}

/// A part of the lineart loss.
#[derive(Clone, Copy, Debug, PartialEq, Eq, Structural)]
pub enum LossTerm {
    Density,
    Edge,
    Speckle,
    Contrast,
    Support,
    Direction,
}

/// The weight of a part.
pub open spec fn weight_of(config: LineartLossConfig, term: LossTerm) -> u64 {
    match term {
        LossTerm::Density => config.density_weight,
        LossTerm::Edge => config.edge_weight,
        LossTerm::Speckle => config.speckle_weight,
        LossTerm::Contrast => config.contrast_weight,
        LossTerm::Support => config.support_weight,
        LossTerm::Direction => config.direction_weight,
    }
}

/// A part counts: its weight is not zero.
pub open spec fn is_active(config: LineartLossConfig, term: LossTerm) -> bool {
    !double_is_zero(weight_of(config, term))
}

/// Some part of the lineart loss counts.
pub open spec fn is_enabled(config: LineartLossConfig) -> bool {
    exists|term: LossTerm| #[trigger] is_active(config, term)
}

/// All parts, in the order in which they are added up.
pub open spec fn all_terms() -> Seq<LossTerm> {
    seq![
        LossTerm::Density,
        LossTerm::Edge,
        LossTerm::Speckle,
        LossTerm::Contrast,
        LossTerm::Support,
        LossTerm::Direction,
    ]
}

impl LineartLossConfig {
    /// No part counts.
    pub fn new() -> (config: Self)
        ensures
            forall|term: LossTerm| #[trigger] weight_of(config, term) == 0,
    {
        LineartLossConfig {
            density_weight: 0,
            edge_weight: 0,
            speckle_weight: 0,
            contrast_weight: 0,
            support_weight: 0,
            direction_weight: 0,
        }
    }

    /// The weight of a part.
    pub fn weight(&self, term: LossTerm) -> (weight: u64)
        ensures
            weight == weight_of(*self, term),
    {
        match term {
            LossTerm::Density => self.density_weight,
            LossTerm::Edge => self.edge_weight,
            LossTerm::Speckle => self.speckle_weight,
            LossTerm::Contrast => self.contrast_weight,
            LossTerm::Support => self.support_weight,
            LossTerm::Direction => self.direction_weight,
        }
    }
}

/// Tests whether any part of the lineart loss counts.
pub fn lineart_loss_enabled(config: &LineartLossConfig) -> (enabled: bool)
    ensures
        enabled == is_enabled(*config),
{
    let enabled: bool = !is_zero(config.density_weight) || !is_zero(config.edge_weight)
        || !is_zero(config.speckle_weight) || !is_zero(config.contrast_weight) || !is_zero(
        config.support_weight,
    ) || !is_zero(config.direction_weight);
    proof {
        if enabled {
            assert(is_active(*config, LossTerm::Density) || is_active(*config, LossTerm::Edge)
                || is_active(*config, LossTerm::Speckle) || is_active(*config, LossTerm::Contrast)
                || is_active(*config, LossTerm::Support) || is_active(
                *config,
                LossTerm::Direction,
            ));
        }
    }
    enabled
}

/// The parts of the lineart loss that count, in the order in which they are added
/// up.
pub fn active_loss_terms(config: &LineartLossConfig) -> (terms: Vec<LossTerm>)
    ensures
        terms@ == all_terms().filter(|term: LossTerm| is_active(*config, term)),
{
    let all: [LossTerm; 6] = [
        LossTerm::Density,
        LossTerm::Edge,
        LossTerm::Speckle,
        LossTerm::Contrast,
        LossTerm::Support,
        LossTerm::Direction,
    ];
    let mut terms: Vec<LossTerm> = Vec::new();
    let mut index: usize = 0;
    let ghost counts = |term: LossTerm| is_active(*config, term);
    proof {
        reveal(Seq::filter);
        assert(all@ =~= all_terms());
        assert(terms@ =~= all_terms().take(0).filter(counts));
    }
    while index < 6
        invariant
            index <= 6,
            all@ == all_terms(),
            counts == (|term: LossTerm| is_active(*config, term)),
            terms@ == all_terms().take(index as int).filter(counts),
        decreases 6 - index,
    {
        proof {
            reveal(Seq::filter);
            assert(all_terms().take(index + 1).drop_last() =~= all_terms().take(index as int));
            assert(all_terms().take(index + 1).last() == all@[index as int]);
        }
        let term: LossTerm = all[index];
        if !is_zero(config.weight(term)) {
            terms.push(term);
        }
        index = index + 1;
    }
    proof {
        assert(all_terms().take(6) =~= all_terms());
    }
    terms
}

/// The windows that fit into an image of this size, in their order.
pub fn fitting_windows(windows: &Vec<usize>, height: usize, width: usize) -> (fitting: Vec<usize>)
    ensures
        fitting@ == windows@.filter(|window: usize| window <= height && window <= width),
{
    let mut fitting: Vec<usize> = Vec::new();
    let mut index: usize = 0;
    let ghost fits = |window: usize| window <= height && window <= width;
    proof {
        reveal(Seq::filter);
        assert(fitting@ =~= windows@.take(0).filter(fits));
    }
    while index < windows.len()
        invariant
            index <= windows@.len(),
            fits == (|window: usize| window <= height && window <= width),
            fitting@ == windows@.take(index as int).filter(fits),
        decreases windows@.len() - index,
    {
        proof {
            reveal(Seq::filter);
            assert(windows@.take(index + 1).drop_last() =~= windows@.take(index as int));
            assert(windows@.take(index + 1).last() == windows@[index as int]);
        }
        let window: usize = windows[index];
        if window <= height && window <= width {
            fitting.push(window);
        }
        index = index + 1;
    }
    proof {
        assert(windows@.take(windows@.len() as int) =~= windows@);
    }
    fitting
}

/// The windows over which the density of black is compared.
pub fn density_windows(height: usize, width: usize) -> (windows: Vec<usize>)
    ensures
        windows@ == seq![4usize, 8, 16].filter(
            |window: usize| window <= height && window <= width,
        ),
{
    let all: Vec<usize> = vec![4, 8, 16];
    proof {
        assert(all@ =~= seq![4usize, 8, 16]);
    }
    fitting_windows(&all, height, width)
}

/// The windows in which a black pixel looks for others.
pub fn support_kernels(height: usize, width: usize) -> (kernels: Vec<usize>)
    ensures
        kernels@ == seq![3usize, 5, 9, 17].filter(
            |window: usize| window <= height && window <= width,
        ),
{
    let all: Vec<usize> = vec![3, 5, 9, 17];
    proof {
        assert(all@ =~= seq![3usize, 5, 9, 17]);
    }
    fitting_windows(&all, height, width)
}

/// The lengths over which a line is followed.
pub fn direction_kernels(height: usize, width: usize) -> (kernels: Vec<usize>)
    ensures
        kernels@ == seq![3usize, 5, 9].filter(|window: usize| window <= height && window <= width),
{
    let all: Vec<usize> = vec![3, 5, 9];
    proof {
        assert(all@ =~= seq![3usize, 5, 9]);
    }
    fitting_windows(&all, height, width)
}

/// A direction in which a line can run.
#[derive(Clone, Copy, Debug, PartialEq, Eq, Structural)]
pub enum LineDirection {
    Horizontal,
    Vertical,
    DiagonalDown,
    DiagonalUp,
}

/// Rows and columns from a pixel to the one that is `offset` steps along a line.
pub open spec fn step_along(direction: LineDirection, offset: int) -> (int, int) {
    match direction {
        LineDirection::Horizontal => (0, offset),
        LineDirection::Vertical => (offset, 0),
        LineDirection::DiagonalDown => (offset, offset),
        LineDirection::DiagonalUp => (offset, -offset),
    }
}

/// The offset of the neighbour with this number: from `-radius` up to `radius`
/// without zero.
pub open spec fn neighbour_offset(radius: int, number: int) -> int {
    if number < radius {
        number - radius
    } else {
        number - radius + 1
    }
}

impl LineDirection {
    /// All directions.
    pub fn all() -> (directions: [LineDirection; 4])
        ensures
            directions@ == seq![
                LineDirection::Horizontal,
                LineDirection::Vertical,
                LineDirection::DiagonalDown,
                LineDirection::DiagonalUp,
            ],
    {
        let directions: [LineDirection; 4] = [
            LineDirection::Horizontal,
            LineDirection::Vertical,
            LineDirection::DiagonalDown,
            LineDirection::DiagonalUp,
        ];
        proof {
            assert(directions@ =~= seq![
                LineDirection::Horizontal,
                LineDirection::Vertical,
                LineDirection::DiagonalDown,
                LineDirection::DiagonalUp,
            ]);
        }
        directions
    }
}

/// Rows and columns from a pixel to its neighbours along a line: all within half a
/// kernel on either side, from one end to the other, without the pixel itself.
pub fn line_offsets(kernel_size: usize, direction: LineDirection) -> (offsets: Vec<(isize, isize)>)
    ensures
        offsets@.len() == kernel_size / 2 * 2,
        forall|number: int|
            0 <= number < offsets@.len() ==> {
                let offset = #[trigger] offsets@[number];
                (offset.0 as int, offset.1 as int) == step_along(
                    direction,
                    neighbour_offset((kernel_size / 2) as int, number),
                )
            },
{
    let radius: usize = kernel_size / 2;
    let mut offsets: Vec<(isize, isize)> = Vec::new();
    while offsets.len() < radius * 2
        invariant
            radius == kernel_size / 2,
            offsets@.len() <= radius * 2,
            forall|number: int|
                0 <= number < offsets@.len() ==> {
                    let offset = #[trigger] offsets@[number];
                    (offset.0 as int, offset.1 as int) == step_along(
                        direction,
                        neighbour_offset(radius as int, number),
                    )
                },
        decreases radius * 2 - offsets@.len(),
    {
        let number: usize = offsets.len();
        let offset: isize = if number < radius {
            -((radius - number) as isize)
        } else {
            (number - radius + 1) as isize
        };
        let step: (isize, isize) = match direction {
            LineDirection::Horizontal => (0, offset),
            LineDirection::Vertical => (offset, 0),
            LineDirection::DiagonalDown => (offset, offset),
            LineDirection::DiagonalUp => (offset, -offset),
        };
        offsets.push(step);
    }
    offsets
}

/// Where the part of a row that stays inside when it is shifted starts before the
/// shift, where it starts afterwards, and how long it is. A positive offset shifts
/// towards the start.
pub fn shifted_ranges(size: usize, offset: isize) -> (ranges: (usize, usize, usize))
    requires
        -size <= offset <= size,
    ensures
        offset >= 0 ==> ranges == (offset as usize, 0usize, (size - offset) as usize),
        offset < 0 ==> ranges == (0usize, (-offset) as usize, (size + offset) as usize),
        ranges.0 + ranges.2 <= size,
        ranges.1 + ranges.2 <= size,
        ranges.0 - ranges.1 == offset,
{
    if offset >= 0 {
        let distance: usize = offset as usize;
        (distance, 0, size - distance)
    } else {
        let distance: usize = (-(offset + 1)) as usize + 1;
        (0, distance, size - distance)
    }
}

/// A line runs the same way in both directions: the neighbours of a pixel come in
/// pairs on opposite sides of it.
pub proof fn law_neighbours_are_symmetric(direction: LineDirection, radius: int, number: int)
    requires
        0 <= number < 2 * radius,
    ensures
        ({
            let here = step_along(direction, neighbour_offset(radius, number));
            let there = step_along(direction, neighbour_offset(radius, 2 * radius - 1 - number));
            here.0 == -there.0 && here.1 == -there.1 && here != (0int, 0int)
        }),
{
}

/// The size at which noise is matched to an image: that of the image, but at most
/// [`COST_SIZE`] high and wide.
pub fn low_frequency_cost_size(height: usize, width: usize) -> (size: [usize; 2])
    ensures
        size[0] == if height < COST_SIZE {
            height
        } else {
            COST_SIZE
        },
        size[1] == if width < COST_SIZE {
            width
        } else {
            COST_SIZE
        },
        height <= 32 ==> size[0] == height,
        width <= 32 ==> size[1] == width,
        height > 32 ==> size[0] == 32,
        width > 32 ==> size[1] == 32,
{
    [
        if height < COST_SIZE {
            height
        } else {
            COST_SIZE
        },
        if width < COST_SIZE {
            width
        } else {
            COST_SIZE
        },
    ]
}

/// Each part weighs what the setting of its name says, and it counts exactly where that is
/// no zero.
pub proof fn law_each_part_goes_by_its_own_weight(config: LineartLossConfig)
    ensures
        ({
            let parts = all_terms().filter(|term: LossTerm| is_active(config, term));
            &&& weight_of(config, LossTerm::Density) == config.density_weight
            &&& weight_of(config, LossTerm::Edge) == config.edge_weight
            &&& weight_of(config, LossTerm::Speckle) == config.speckle_weight
            &&& weight_of(config, LossTerm::Contrast) == config.contrast_weight
            &&& weight_of(config, LossTerm::Support) == config.support_weight
            &&& weight_of(config, LossTerm::Direction) == config.direction_weight
            &&& parts.contains(LossTerm::Density) <==> !double_is_zero(config.density_weight)
            &&& parts.contains(LossTerm::Edge) <==> !double_is_zero(config.edge_weight)
            &&& parts.contains(LossTerm::Speckle) <==> !double_is_zero(config.speckle_weight)
            &&& parts.contains(LossTerm::Contrast) <==> !double_is_zero(config.contrast_weight)
            &&& parts.contains(LossTerm::Support) <==> !double_is_zero(config.support_weight)
            &&& parts.contains(LossTerm::Direction) <==> !double_is_zero(config.direction_weight)
            &&& is_enabled(config) <==> parts.len() > 0
        }),
{
    let counts = |term: LossTerm| is_active(config, term);
    let all = all_terms();
    let parts = all.filter(counts);
    assert forall|place: int| 0 <= place < all.len() implies parts.contains(#[trigger] all[place])
        == is_active(config, all[place]) by {
        if is_active(config, all[place]) {
            all.lemma_filter_contains(counts, place);
        } else if parts.contains(all[place]) {
            let found = choose|found: int| 0 <= found < parts.len() && parts[found] == all[place];
            all.lemma_filter_pred(counts, found);
        }
    }
    assert(all[0] == LossTerm::Density && all[1] == LossTerm::Edge && all[2] == LossTerm::Speckle
        && all[3] == LossTerm::Contrast && all[4] == LossTerm::Support && all[5]
        == LossTerm::Direction);
    if parts.len() > 0 {
        all.lemma_filter_pred(counts, 0);
        assert(is_active(config, parts[0]));
    }
    law_lineart_loss_counts_by_its_weights(config);
}

/// The weight of one part says nothing of another: where two settings differ in that of
/// `changed` only, every other part weighs the same and counts alike.
pub proof fn law_parts_are_independent(
    config: LineartLossConfig,
    other: LineartLossConfig,
    changed: LossTerm,
    part: LossTerm,
)
    requires
        part != changed,
        changed != LossTerm::Density ==> config.density_weight == other.density_weight,
        changed != LossTerm::Edge ==> config.edge_weight == other.edge_weight,
        changed != LossTerm::Speckle ==> config.speckle_weight == other.speckle_weight,
        changed != LossTerm::Contrast ==> config.contrast_weight == other.contrast_weight,
        changed != LossTerm::Support ==> config.support_weight == other.support_weight,
        changed != LossTerm::Direction ==> config.direction_weight == other.direction_weight,
    ensures
        weight_of(config, part) == weight_of(other, part),
        is_active(config, part) == is_active(other, part),
{
}

/// The lineart loss counts exactly if one of its weights is no zero.
pub proof fn law_lineart_loss_counts_by_its_weights(config: LineartLossConfig)
    ensures
        is_enabled(config) <==> {
            ||| !double_is_zero(config.density_weight)
            ||| !double_is_zero(config.edge_weight)
            ||| !double_is_zero(config.speckle_weight)
            ||| !double_is_zero(config.contrast_weight)
            ||| !double_is_zero(config.support_weight)
            ||| !double_is_zero(config.direction_weight)
        },
{
    assert(is_active(config, LossTerm::Density) == !double_is_zero(config.density_weight));
    assert(is_active(config, LossTerm::Edge) == !double_is_zero(config.edge_weight));
    assert(is_active(config, LossTerm::Speckle) == !double_is_zero(config.speckle_weight));
    assert(is_active(config, LossTerm::Contrast) == !double_is_zero(config.contrast_weight));
    assert(is_active(config, LossTerm::Support) == !double_is_zero(config.support_weight));
    assert(is_active(config, LossTerm::Direction) == !double_is_zero(config.direction_weight));
}

/// The parts are added up in the order of density, edge, speckle, contrast, support and
/// direction, each once.
pub proof fn law_parts_have_their_order()
    ensures
        all_terms().len() == 6,
        all_terms()[0] == LossTerm::Density,
        all_terms()[1] == LossTerm::Edge,
        all_terms()[2] == LossTerm::Speckle,
        all_terms()[3] == LossTerm::Contrast,
        all_terms()[4] == LossTerm::Support,
        all_terms()[5] == LossTerm::Direction,
{
}

/// The neighbours along a line run through the pixel in its direction: a step keeps the row
/// of a horizontal line and the column of a vertical one, and goes down as far as it goes
/// right, or left, on a diagonal. They lie within the radius, next to one another but for
/// the pixel itself, and in order.
pub proof fn law_neighbours_lie_on_the_line(radius: int, number: int)
    requires
        0 <= number < 2 * radius,
    ensures
        ({
            let offset = neighbour_offset(radius, number);
            let across = step_along(LineDirection::Horizontal, offset);
            let down = step_along(LineDirection::Vertical, offset);
            let falling = step_along(LineDirection::DiagonalDown, offset);
            let rising = step_along(LineDirection::DiagonalUp, offset);
            &&& -radius <= offset <= radius
            &&& offset != 0
            &&& number == 0 ==> offset == -radius
            &&& number > 0 ==> offset - neighbour_offset(radius, number - 1) == if offset == 1 {
                2int
            } else {
                1
            }
            &&& across.0 == 0 && across.1 == offset
            &&& down.0 == offset && down.1 == 0
            &&& falling.0 == offset && falling.0 == falling.1
            &&& rising.0 == offset && rising.0 + rising.1 == 0
        }),
{
}

} // verus!
