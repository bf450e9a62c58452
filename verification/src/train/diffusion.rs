//! One training step: noise that is matched to the images, micro batches, and the
//! loss over all scales.
use crate::train::assignment::{is_cheapest, min_cost_assignment};
use crate::train::loss::{is_enabled, lineart_loss_enabled, LineartLossConfig};
use vstd::prelude::*;

verus! {

/// Where a micro batch starts.
pub open spec fn micro_batch_start(micro_batch_size: int, index: int) -> int {
    index * micro_batch_size
}

/// `batches` cut `batch_size` images into micro batches: each starts where the one
/// before it ends, all but the last are full, and together they are the batch.
pub open spec fn are_micro_batches(
    batches: Seq<(usize, usize)>,
    batch_size: usize,
    micro_batch_size: usize,
) -> bool {
    &&& forall|index: int|
        0 <= index < batches.len() ==> #[trigger] is_micro_batch(
            batches[index],
            batch_size,
            micro_batch_size,
            index,
        )
    &&& micro_batch_start(micro_batch_size as int, batches.len() as int) >= batch_size
}

/// The start and the size of the micro batch with this number.
pub open spec fn is_micro_batch(
    batch: (usize, usize),
    batch_size: usize,
    micro_batch_size: usize,
    index: int,
) -> bool {
    let start = micro_batch_start(micro_batch_size as int, index);
    &&& batch.0 == start
    &&& start < batch_size
    &&& batch.1 == if batch_size - start < micro_batch_size {
        batch_size - start
    } else {
        micro_batch_size as int
    }
}

/// The starts and sizes of the micro batches of a batch.
pub fn micro_batches(batch_size: usize, micro_batch_size: usize) -> (batches: Vec<(usize, usize)>)
    requires
        micro_batch_size > 0,
    ensures
        are_micro_batches(batches@, batch_size, micro_batch_size),
{
    let mut batches: Vec<(usize, usize)> = Vec::new();
    let mut start: usize = 0;
    proof {
        assert(0 * (micro_batch_size as int) == 0);
    }
    while start < batch_size
        invariant_except_break
            micro_batch_size > 0,
            start == micro_batch_start(micro_batch_size as int, batches@.len() as int),
            forall|index: int|
                0 <= index < batches@.len() ==> #[trigger] is_micro_batch(
                    batches@[index],
                    batch_size,
                    micro_batch_size,
                    index,
                ),
        ensures
            are_micro_batches(batches@, batch_size, micro_batch_size),
        decreases batch_size - start,
    {
        let ghost count = batches@.len();
        let ghost before = batches@;
        proof {
            assert((count + 1) * micro_batch_size == count * micro_batch_size + micro_batch_size)
                by (nonlinear_arith);
        }
        if batch_size - start <= micro_batch_size {
            batches.push((start, batch_size - start));
            break;
        }
        batches.push((start, micro_batch_size));
        proof {
            assert forall|index: int| 0 <= index < batches@.len() implies #[trigger] is_micro_batch(
                batches@[index],
                batch_size,
                micro_batch_size,
                index,
            ) by {
                if index < count {
                    assert(is_micro_batch(before[index], batch_size, micro_batch_size, index));
                }
            }
        }
        start = start + micro_batch_size;
    }
    batches
}

/// The number of images in the first `count` micro batches.
pub open spec fn images_in(batches: Seq<(usize, usize)>, count: nat) -> nat
    decreases count,
{
    if count == 0 {
        0
    } else {
        images_in(batches, (count - 1) as nat) + batches[count - 1].1 as nat
    }
}

/// Micro batches leave no image out and take none twice: each starts behind the
/// images of those before it, none is empty or too large, and their sizes add up to
/// that of the batch.
pub proof fn law_micro_batches_cover_the_batch(
    batches: Seq<(usize, usize)>,
    batch_size: usize,
    micro_batch_size: usize,
)
    requires
        micro_batch_size > 0,
        are_micro_batches(batches, batch_size, micro_batch_size),
    ensures
        images_in(batches, batches.len()) == batch_size,
        forall|index: int|
            0 <= index < batches.len() ==> {
                &&& (#[trigger] batches[index]).0 == images_in(batches, index as nat)
                &&& 0 < batches[index].1 <= micro_batch_size
            },
{
    assert forall|index: int| 0 <= index < batches.len() implies {
        &&& (#[trigger] batches[index]).0 == images_in(batches, index as nat)
        &&& 0 < batches[index].1 <= micro_batch_size
    } by {
        lemma_images_in(batches, batch_size, micro_batch_size, index as nat);
        assert(is_micro_batch(batches[index], batch_size, micro_batch_size, index));
    }
    lemma_images_in(batches, batch_size, micro_batch_size, batches.len());
}

proof fn lemma_images_in(
    batches: Seq<(usize, usize)>,
    batch_size: usize,
    micro_batch_size: usize,
    count: nat,
)
    requires
        micro_batch_size > 0,
        count <= batches.len(),
        are_micro_batches(batches, batch_size, micro_batch_size),
    ensures
        images_in(batches, count) == if micro_batch_start(micro_batch_size as int, count as int)
            < batch_size {
            micro_batch_start(micro_batch_size as int, count as int)
        } else {
            batch_size as int
        },
    decreases count,
{
    let size = micro_batch_size as int;
    if count == 0 {
        assert(0 * size == 0);
    } else {
        lemma_images_in(batches, batch_size, micro_batch_size, (count - 1) as nat);
        assert(is_micro_batch(batches[count - 1], batch_size, micro_batch_size, count - 1));
        assert(count * size == (count - 1) * size + size) by (nonlinear_arith);
    }
}

/// `states` are what a run over the micro batches goes through, from `first` to `last`.
pub open spec fn is_run<A, F: Fn(A, usize, usize) -> A>(
    states: Seq<A>,
    first: A,
    last: A,
    batches: Seq<(usize, usize)>,
    step: F,
) -> bool {
    &&& states.len() == batches.len() + 1
    &&& states.first() == first
    &&& states.last() == last
    &&& forall|index: int|
        0 <= index < batches.len() ==> call_ensures(
            step,
            (states[index], batches[index].0, batches[index].1),
            #[trigger] states[index + 1],
        )
}

/// Takes `first` through all micro batches of a batch. `step` is handed what the ones
/// before have made of it, and the start and size of the next.
pub fn run_micro_batches<A, F: Fn(A, usize, usize) -> A>(
    batch_size: usize,
    micro_batch_size: usize,
    first: A,
    step: F,
) -> (last: A)
    requires
        micro_batch_size > 0,
        forall|state: A, start: usize, size: usize| #[trigger]
            call_requires(step, (state, start, size)),
    ensures
        exists|batches: Seq<(usize, usize)>, states: Seq<A>|
            {
                &&& are_micro_batches(batches, batch_size, micro_batch_size)
                &&& #[trigger] is_run(states, first, last, batches, step)
            },
{
    let batches: Vec<(usize, usize)> = micro_batches(batch_size, micro_batch_size);
    let mut current: A = first;
    let mut index: usize = 0;
    let ghost mut states: Seq<A> = seq![first];
    while index < batches.len()
        invariant
            index <= batches@.len(),
            states.len() == index + 1,
            states.first() == first,
            states.last() == current,
            forall|state: A, start: usize, size: usize| #[trigger]
                call_requires(step, (state, start, size)),
            forall|i: int|
                0 <= i < index ==> call_ensures(
                    step,
                    (states[i], batches@[i].0, batches@[i].1),
                    #[trigger] states[i + 1],
                ),
        decreases batches@.len() - index,
    {
        let (start, size): (usize, usize) = batches[index];
        let next: A = step(current, start, size);
        proof {
            let before = states;
            states = states.push(next);
            assert forall|i: int| 0 <= i < index + 1 implies call_ensures(
                step,
                (states[i], batches@[i].0, batches@[i].1),
                #[trigger] states[i + 1],
            ) by {
                if i < index {
                    assert(before[i + 1] == states[i + 1]);
                }
            }
        }
        current = next;
        index = index + 1;
    }
    proof {
        assert(is_run(states, first, current, batches@, step));
    }
    current
}

/// The pool of noises has one for each image at least.
pub open spec fn pool_for(noise_pool_size: usize, batch_size: usize) -> usize {
    if noise_pool_size < batch_size {
        batch_size
    } else {
        noise_pool_size
    }
}

/// How many noises are drawn for a batch: as many as were asked for, but at least
/// one for each image.
pub fn effective_noise_pool(noise_pool_size: usize, batch_size: usize) -> (size: usize)
    ensures
        size == pool_for(noise_pool_size, batch_size),
{
    if noise_pool_size == 0 {
        batch_size
    } else if noise_pool_size < batch_size {
        batch_size
    } else {
        noise_pool_size
    }
}

/// The costs of giving each image each noise, image by image, from those of each
/// noise.
pub open spec fn is_cost_matrix(costs: Seq<i64>, columns: Seq<Vec<i64>>, image_count: int) -> bool {
    &&& costs.len() == image_count * columns.len()
    &&& forall|image: int, noise: int|
        0 <= image < image_count && 0 <= noise < columns.len() ==> costs[#[trigger] (image
            * columns.len() + noise)] == columns[noise]@[image]
}

/// Gives each image a noise of its own so that the costs are least in all.
/// `columns` holds, for each noise, what it costs to give it to each image.
pub fn match_noise_pool(columns: &Vec<Vec<i64>>, image_count: usize) -> (assignment: Vec<usize>)
    requires
        image_count <= columns@.len() < usize::MAX,
        image_count * columns@.len() <= usize::MAX,
        forall|noise: int|
            0 <= noise < columns@.len() ==> (#[trigger] columns@[noise])@.len() == image_count,
    ensures
        exists|costs: Seq<i64>|
            {
                &&& is_cost_matrix(costs, columns@, image_count as int)
                &&& #[trigger] is_cheapest(
                    costs,
                    image_count as int,
                    columns@.len() as int,
                    assignment@,
                )
            },
{
    let costs: Vec<i64> = pairwise_costs(columns, image_count);
    min_cost_assignment(&costs, image_count, columns.len())
}

/// The costs of giving each image each noise, image by image.
pub fn pairwise_costs(columns: &Vec<Vec<i64>>, image_count: usize) -> (costs: Vec<i64>)
    requires
        image_count * columns@.len() <= usize::MAX,
        forall|noise: int|
            0 <= noise < columns@.len() ==> (#[trigger] columns@[noise])@.len() == image_count,
    ensures
        is_cost_matrix(costs@, columns@, image_count as int),
{
    let noise_count: usize = columns.len();
    let mut costs: Vec<i64> = Vec::new();
    let mut image: usize = 0;
    while image < image_count
        invariant
            image <= image_count,
            noise_count == columns@.len(),
            forall|noise: int|
                0 <= noise < columns@.len() ==> (#[trigger] columns@[noise])@.len() == image_count,
            is_cost_matrix(costs@, columns@, image as int),
        decreases image_count - image,
    {
        let ghost before = costs@;
        let mut noise: usize = 0;
        while noise < noise_count
            invariant
                image < image_count,
                noise <= noise_count,
                noise_count == columns@.len(),
                forall|noise: int|
                    0 <= noise < columns@.len() ==> (#[trigger] columns@[noise])@.len()
                        == image_count,
                costs@.len() == before.len() + noise,
                forall|place: int| 0 <= place < before.len() ==> #[trigger] costs@[place] == before[place],
                forall|place: int|
                    before.len() <= place < costs@.len() ==> #[trigger] costs@[place]
                        == columns@[place - before.len()]@[image as int],
            decreases noise_count - noise,
        {
            costs.push(columns[noise][image]);
            noise = noise + 1;
        }
        proof {
            let count = columns@.len() as int;
            assert((image + 1) * count == image * count + count) by (nonlinear_arith);
            assert forall|i: int, n: int|
                0 <= i < image + 1 && 0 <= n < count implies costs@[#[trigger] (i * count + n)]
                == columns@[n]@[i] by {
                let place = i * count + n;
                assert(0 <= i * count) by (nonlinear_arith)
                    requires
                        0 <= i,
                        0 <= count,
                ;
                if i < image {
                    assert(i * count + count <= image * count) by (nonlinear_arith)
                        requires
                            i + 1 <= image,
                            0 <= count,
                    ;
                    assert(costs@[place] == before[place]);
                } else {
                    assert(costs@[place] == columns@[place - before.len()]@[image as int]);
                }
            }
        }
        image = image + 1;
    }
    costs
}

/// A batch with noise on it, at all scales.
#[derive(Debug, Clone)]
pub struct MatchedDiffusionBatch<T> {
    pub clean_scales: Vec<T>,
    pub noise_level: T,
    pub noise_level_scales: Vec<T>,
    pub noisy_scales: Vec<T>,
    pub matched_noises: Vec<T>,
}

impl<T> MatchedDiffusionBatch<T> {
    /// There is a scale, and everything is there at each.
    pub open spec fn wf(&self) -> bool {
        &&& self.clean_scales@.len() > 0
        &&& self.noise_level_scales@.len() == self.clean_scales@.len()
        &&& self.noisy_scales@.len() == self.clean_scales@.len()
        &&& self.matched_noises@.len() == self.clean_scales@.len()
    }
}

/// `noise` was matched to a clean image from a pool of `pool_size` that was drawn
/// for it, and `noisy` is the image with that noise.
pub open spec fn is_matched<
    T,
    D: Fn(&T, usize) -> T,
    M: Fn(&T, &T, &T) -> T,
    Q: Fn(&T, &T, &T) -> T,
>(
    clean: T,
    level: T,
    noise: T,
    noisy: T,
    pool_size: usize,
    draw: D,
    match_noise: M,
    mix: Q,
) -> bool {
    &&& exists|pool: T|
        {
            &&& #[trigger] call_ensures(draw, (&clean, pool_size), pool)
            &&& call_ensures(match_noise, (&clean, &level, &pool), noise)
        }
    &&& call_ensures(mix, (&clean, &noise, &level), noisy)
}

/// Puts noise on a batch at all scales. `draw` draws a pool of noises of the shape
/// of an image, `match_noise` picks one of a pool for each image at its noise level,
/// and `mix` puts noise on images at their level.
pub fn matched_diffusion_batch<
    T,
    D: Fn(&T, usize) -> T,
    M: Fn(&T, &T, &T) -> T,
    Q: Fn(&T, &T, &T) -> T,
>(
    clean_scales: Vec<T>,
    noise_level: T,
    noise_level_scales: Vec<T>,
    batch_size: usize,
    noise_pool_size: usize,
    draw: D,
    match_noise: M,
    mix: Q,
) -> (batch: MatchedDiffusionBatch<T>)
    requires
        clean_scales@.len() > 0,
        noise_level_scales@.len() == clean_scales@.len(),
        forall|clean: &T, size: usize| #[trigger] call_requires(draw, (clean, size)),
        forall|clean: &T, level: &T, pool: &T| #[trigger]
            call_requires(match_noise, (clean, level, pool)),
        forall|clean: &T, noise: &T, level: &T| #[trigger] call_requires(mix, (clean, noise, level)),
    ensures
        batch.wf(),
        batch.clean_scales@ == clean_scales@,
        batch.noise_level == noise_level,
        batch.noise_level_scales@ == noise_level_scales@,
        forall|scale: int|
            0 <= scale < clean_scales@.len() ==> is_matched(
                clean_scales@[scale],
                noise_level_scales@[scale],
                batch.matched_noises@[scale],
                #[trigger] batch.noisy_scales@[scale],
                pool_for(noise_pool_size, batch_size),
                draw,
                match_noise,
                mix,
            ),
{
    let pool_size: usize = effective_noise_pool(noise_pool_size, batch_size);
    let mut noisy_scales: Vec<T> = Vec::new();
    let mut matched_noises: Vec<T> = Vec::new();
    while noisy_scales.len() < clean_scales.len()
        invariant
            noise_level_scales@.len() == clean_scales@.len(),
            noisy_scales@.len() <= clean_scales@.len(),
            matched_noises@.len() == noisy_scales@.len(),
            forall|clean: &T, size: usize| #[trigger] call_requires(draw, (clean, size)),
            forall|clean: &T, level: &T, pool: &T| #[trigger]
                call_requires(match_noise, (clean, level, pool)),
            forall|clean: &T, noise: &T, level: &T| #[trigger]
                call_requires(mix, (clean, noise, level)),
            forall|scale: int|
                0 <= scale < noisy_scales@.len() ==> is_matched(
                    clean_scales@[scale],
                    noise_level_scales@[scale],
                    matched_noises@[scale],
                    #[trigger] noisy_scales@[scale],
                    pool_size,
                    draw,
                    match_noise,
                    mix,
                ),
        decreases clean_scales@.len() - noisy_scales@.len(),
    {
        let scale: usize = noisy_scales.len();
        let pool: T = draw(&clean_scales[scale], pool_size);
        let noise: T = match_noise(&clean_scales[scale], &noise_level_scales[scale], &pool);
        let noisy: T = mix(&clean_scales[scale], &noise, &noise_level_scales[scale]);
        proof {
            assert(call_ensures(draw, (&clean_scales@[scale as int], pool_size), pool));
        }
        noisy_scales.push(noisy);
        matched_noises.push(noise);
    }
    MatchedDiffusionBatch {
        clean_scales,
        noise_level,
        noise_level_scales,
        noisy_scales,
        matched_noises,
    }
}

/// The images `start .. start + batch_size` of each scale.
pub open spec fn are_narrowed<T, N: Fn(&T, usize, usize) -> T>(
    narrowed: Seq<T>,
    scales: Seq<T>,
    start: usize,
    batch_size: usize,
    narrow: N,
) -> bool {
    &&& narrowed.len() == scales.len()
    &&& forall|scale: int|
        0 <= scale < scales.len() ==> call_ensures(
            narrow,
            (&scales[scale], start, batch_size),
            #[trigger] narrowed[scale],
        )
}

/// Takes the images `start .. start + batch_size` of each scale.
pub fn narrow_scales<T, N: Fn(&T, usize, usize) -> T>(
    scales: &Vec<T>,
    start: usize,
    batch_size: usize,
    narrow: &N,
) -> (narrowed: Vec<T>)
    requires
        forall|scale: &T, start: usize, size: usize| #[trigger]
            call_requires(*narrow, (scale, start, size)),
    ensures
        are_narrowed(narrowed@, scales@, start, batch_size, *narrow),
{
    let mut narrowed: Vec<T> = Vec::new();
    while narrowed.len() < scales.len()
        invariant
            narrowed@.len() <= scales@.len(),
            forall|scale: &T, start: usize, size: usize| #[trigger]
                call_requires(*narrow, (scale, start, size)),
            forall|scale: int|
                0 <= scale < narrowed@.len() ==> call_ensures(
                    *narrow,
                    (&scales@[scale], start, batch_size),
                    #[trigger] narrowed@[scale],
                ),
        decreases scales@.len() - narrowed@.len(),
    {
        let part: T = narrow(&scales[narrowed.len()], start, batch_size);
        narrowed.push(part);
    }
    narrowed
}

/// The images of a micro batch, at all scales.
pub struct MicroBatch<T> {
    pub clean_scales: Vec<T>,
    pub noise_level: T,
    pub noise_level_scales: Vec<T>,
    pub noisy_scales: Vec<T>,
    pub matched_noises: Vec<T>,
}

/// `micro` is a part of `matched`.
pub open spec fn is_micro_batch_of<T, N: Fn(&T, usize, usize) -> T>(
    micro: MicroBatch<T>,
    matched: MatchedDiffusionBatch<T>,
    start: usize,
    batch_size: usize,
    narrow: N,
) -> bool {
    &&& are_narrowed(micro.clean_scales@, matched.clean_scales@, start, batch_size, narrow)
    &&& are_narrowed(
        micro.noise_level_scales@,
        matched.noise_level_scales@,
        start,
        batch_size,
        narrow,
    )
    &&& are_narrowed(micro.noisy_scales@, matched.noisy_scales@, start, batch_size, narrow)
    &&& are_narrowed(micro.matched_noises@, matched.matched_noises@, start, batch_size, narrow)
    &&& call_ensures(narrow, (&matched.noise_level, start, batch_size), micro.noise_level)
}

/// The loss at one scale, with what was predicted and what was expected.
pub struct ScaleLoss<L, O> {
    pub loss: L,
    pub output: O,
    pub target: O,
}

/// The loss over all scales, with what was predicted and what was expected at the
/// largest.
pub struct DiffusionOutput<L, O> {
    pub loss: L,
    pub output: O,
    pub targets: O,
}

/// `losses` are the losses of all scales of a micro batch.
pub open spec fn are_scale_losses<
    T,
    L,
    O,
    S: Fn(usize, &T, &MicroBatch<T>, bool) -> ScaleLoss<L, O>,
>(
    losses: Seq<ScaleLoss<L, O>>,
    predicted: Seq<T>,
    micro: MicroBatch<T>,
    with_lineart: bool,
    scale_loss: S,
) -> bool {
    &&& losses.len() == predicted.len()
    &&& forall|scale: int|
        0 <= scale < losses.len() ==> call_ensures(
            scale_loss,
            (scale as usize, &predicted[scale], &micro, with_lineart),
            #[trigger] losses[scale],
        )
}

/// `totals` are the sums of the losses of the first scales, each the one before it
/// plus the loss of the next.
pub open spec fn are_totals<L, O, J: Fn(L, L) -> L>(
    totals: Seq<L>,
    losses: Seq<ScaleLoss<L, O>>,
    join: J,
) -> bool {
    &&& totals.len() == losses.len()
    &&& totals.len() > 0
    &&& totals[0] == losses[0].loss
    &&& forall|scale: int|
        0 < scale < totals.len() ==> call_ensures(
            join,
            (totals[scale - 1], losses[scale].loss),
            #[trigger] totals[scale],
        )
}

/// `output` is the output for a micro batch: the model's predictions for all scales,
/// the loss of each, their sum put in proportion to the number of scales, and the
/// values of the largest scale.
pub open spec fn is_output_for<
    T,
    L,
    O,
    P: Fn(&MicroBatch<T>) -> Vec<T>,
    S: Fn(usize, &T, &MicroBatch<T>, bool) -> ScaleLoss<L, O>,
    J: Fn(L, L) -> L,
    A: Fn(L, usize) -> L,
>(
    output: DiffusionOutput<L, O>,
    micro: MicroBatch<T>,
    with_lineart: bool,
    predict: P,
    scale_loss: S,
    join: J,
    average: A,
) -> bool {
    exists|predicted: Vec<T>, losses: Seq<ScaleLoss<L, O>>, totals: Seq<L>|
        {
            &&& #[trigger] call_ensures(predict, (&micro,), predicted)
            &&& #[trigger] are_scale_losses(losses, predicted@, micro, with_lineart, scale_loss)
            &&& #[trigger] are_totals(totals, losses, join)
            &&& call_ensures(average, (totals.last(), predicted@.len() as usize), output.loss)
            &&& output.output == losses[0].output
            &&& output.targets == losses[0].target
        }
}

/// Computes the loss of a part of a batch over all scales.
///
/// `narrow` takes a range of images, `predict` runs the model on a micro batch and
/// gives a prediction for each scale, `scale_loss` weighs the loss of one of them, with
/// that of the lineart if it counts, `join` adds losses, and `average` puts a sum in
/// proportion to the weights of so many scales.
pub fn matched_diffusion_output<
    T,
    L,
    O,
    N: Fn(&T, usize, usize) -> T,
    P: Fn(&MicroBatch<T>) -> Vec<T>,
    S: Fn(usize, &T, &MicroBatch<T>, bool) -> ScaleLoss<L, O>,
    J: Fn(L, L) -> L,
    A: Fn(L, usize) -> L,
>(
    matched: &MatchedDiffusionBatch<T>,
    start: usize,
    batch_size: usize,
    lineart_loss: &LineartLossConfig,
    narrow: N,
    predict: P,
    scale_loss: S,
    join: J,
    average: A,
) -> (output: DiffusionOutput<L, O>)
    requires
        matched.wf(),
        forall|scale: &T, start: usize, size: usize| #[trigger]
            call_requires(narrow, (scale, start, size)),
        forall|micro: &MicroBatch<T>| #[trigger] call_requires(predict, (micro,)),
        forall|micro: &MicroBatch<T>, predicted: Vec<T>| #[trigger]
            call_ensures(predict, (micro,), predicted) ==> predicted@.len()
                == micro.clean_scales@.len(),
        forall|scale: usize, predicted: &T, micro: &MicroBatch<T>, with_lineart: bool| #[trigger]
            call_requires(scale_loss, (scale, predicted, micro, with_lineart)),
        forall|one: L, other: L| #[trigger] call_requires(join, (one, other)),
        forall|sum: L, count: usize| #[trigger] call_requires(average, (sum, count)),
    ensures
        exists|micro: MicroBatch<T>|
            {
                &&& #[trigger] is_micro_batch_of(micro, *matched, start, batch_size, narrow)
                &&& is_output_for(
                    output,
                    micro,
                    is_enabled(*lineart_loss),
                    predict,
                    scale_loss,
                    join,
                    average,
                )
            },
{
    let micro = MicroBatch {
        clean_scales: narrow_scales(&matched.clean_scales, start, batch_size, &narrow),
        noise_level: narrow(&matched.noise_level, start, batch_size),
        noise_level_scales: narrow_scales(
            &matched.noise_level_scales,
            start,
            batch_size,
            &narrow,
        ),
        noisy_scales: narrow_scales(&matched.noisy_scales, start, batch_size, &narrow),
        matched_noises: narrow_scales(&matched.matched_noises, start, batch_size, &narrow),
    };
    let with_lineart: bool = lineart_loss_enabled(lineart_loss);
    let predicted: Vec<T> = predict(&micro);
    let count: usize = predicted.len();
    let first: ScaleLoss<L, O> = scale_loss(0, &predicted[0], &micro, with_lineart);
    let ghost mut losses: Seq<ScaleLoss<L, O>> = seq![first];
    let ghost mut totals: Seq<L> = seq![first.loss];
    let mut total: L = first.loss;
    let mut scale: usize = 1;
    while scale < count
        invariant
            1 <= scale <= count,
            count == predicted@.len(),
            losses.len() == scale,
            losses[0] == first,
            totals.len() == scale,
            totals.last() == total,
            are_totals(totals, losses, join),
            forall|scale: usize, predicted: &T, micro: &MicroBatch<T>, with_lineart: bool| #[trigger]
                call_requires(scale_loss, (scale, predicted, micro, with_lineart)),
            forall|one: L, other: L| #[trigger] call_requires(join, (one, other)),
            forall|s: int|
                0 <= s < scale ==> call_ensures(
                    scale_loss,
                    (s as usize, &predicted@[s], &micro, with_lineart),
                    #[trigger] losses[s],
                ),
        decreases count - scale,
    {
        let next: ScaleLoss<L, O> = scale_loss(scale, &predicted[scale], &micro, with_lineart);
        let sum: L = join(total, next.loss);
        proof {
            let losses_before = losses;
            let totals_before = totals;
            losses = losses.push(next);
            totals = totals.push(sum);
            assert forall|s: int| 0 <= s < scale + 1 implies call_ensures(
                scale_loss,
                (s as usize, &predicted@[s], &micro, with_lineart),
                #[trigger] losses[s],
            ) by {
                if s < scale {
                    assert(losses[s] == losses_before[s]);
                }
            }
            assert forall|s: int| 0 < s < totals.len() implies call_ensures(
                join,
                (totals[s - 1], losses[s].loss),
                #[trigger] totals[s],
            ) by {
                if s < scale {
                    assert(totals[s] == totals_before[s]);
                    assert(losses[s] == losses_before[s]);
                }
            }
        }
        total = sum;
        scale = scale + 1;
    }
    let loss: L = average(total, count);
    let output = DiffusionOutput { loss, output: first.output, targets: first.target };
    proof {
        assert(are_scale_losses(losses, predicted@, micro, with_lineart, scale_loss));
        assert(are_totals(totals, losses, join));
        assert(call_ensures(predict, (&micro,), predicted));
        assert(is_output_for(output, micro, with_lineart, predict, scale_loss, join, average));
        assert(is_micro_batch_of(micro, *matched, start, batch_size, narrow));
    }
    output
}

/// Full micro batches come first: all but the last hold as many images as a micro batch
/// may, and each starts where the one before it ends.
pub proof fn law_only_the_last_micro_batch_is_short(
    batches: Seq<(usize, usize)>,
    batch_size: usize,
    micro_batch_size: usize,
    index: int,
)
    requires
        micro_batch_size > 0,
        are_micro_batches(batches, batch_size, micro_batch_size),
        0 <= index < batches.len() - 1,
    ensures
        batches[index].1 == micro_batch_size,
        batches[index + 1].0 == batches[index].0 + batches[index].1,
        batches[0].0 == 0,
        batches.last().0 + batches.last().1 == batch_size,
{
    let size = micro_batch_size as int;
    let last = batches.len() - 1;
    assert(is_micro_batch(batches[index], batch_size, micro_batch_size, index));
    assert(is_micro_batch(batches[index + 1], batch_size, micro_batch_size, index + 1));
    assert(is_micro_batch(batches[0], batch_size, micro_batch_size, 0));
    assert(is_micro_batch(batches[last], batch_size, micro_batch_size, last));
    assert((index + 1) * size == index * size + size) by (nonlinear_arith);
    assert((last + 1) * size == last * size + size) by (nonlinear_arith);
    assert(0 * size == 0);
}

/// The pool has as many noises as were asked for, unless there are more images: then one for
/// each.
pub proof fn law_the_pool_serves_every_image(noise_pool_size: usize, batch_size: usize)
    ensures
        pool_for(noise_pool_size, batch_size) >= noise_pool_size,
        pool_for(noise_pool_size, batch_size) >= batch_size,
        pool_for(noise_pool_size, batch_size) == noise_pool_size || pool_for(
            noise_pool_size,
            batch_size,
        ) == batch_size,
{
}

/// A micro batch is cut from the batch: what it holds of each scale, and of each kind of
/// tensor, is the same range of images.
pub proof fn law_a_micro_batch_is_one_range<T, N: Fn(&T, usize, usize) -> T>(
    micro: MicroBatch<T>,
    matched: MatchedDiffusionBatch<T>,
    start: usize,
    batch_size: usize,
    narrow: N,
    scale: int,
)
    requires
        matched.wf(),
        is_micro_batch_of(micro, matched, start, batch_size, narrow),
        0 <= scale < matched.clean_scales@.len(),
    ensures
        micro.clean_scales@.len() == matched.clean_scales@.len(),
        micro.noise_level_scales@.len() == matched.clean_scales@.len(),
        micro.noisy_scales@.len() == matched.clean_scales@.len(),
        micro.matched_noises@.len() == matched.clean_scales@.len(),
        call_ensures(
            narrow,
            (&matched.clean_scales@[scale], start, batch_size),
            micro.clean_scales@[scale],
        ),
        call_ensures(
            narrow,
            (&matched.noise_level_scales@[scale], start, batch_size),
            micro.noise_level_scales@[scale],
        ),
        call_ensures(
            narrow,
            (&matched.noisy_scales@[scale], start, batch_size),
            micro.noisy_scales@[scale],
        ),
        call_ensures(
            narrow,
            (&matched.matched_noises@[scale], start, batch_size),
            micro.matched_noises@[scale],
        ),
        call_ensures(narrow, (&matched.noise_level, start, batch_size), micro.noise_level),
{
}

/// Noise is put on the image that it was matched to, at the level that it was matched for:
/// where mixing at that level gives back the image or the noise, so does the batch.
pub proof fn law_matched_noise_is_put_on_its_image<
    T,
    D: Fn(&T, usize) -> T,
    M: Fn(&T, &T, &T) -> T,
    Q: Fn(&T, &T, &T) -> T,
>(
    clean: T,
    level: T,
    noise: T,
    noisy: T,
    pool_size: usize,
    draw: D,
    match_noise: M,
    mix: Q,
)
    requires
        is_matched(clean, level, noise, noisy, pool_size, draw, match_noise, mix),
    ensures
        call_ensures(mix, (&clean, &noise, &level), noisy),
        (forall|image: T, other: T, result: T| #[trigger]
            call_ensures(mix, (&image, &other, &level), result) ==> result == image) ==> noisy
            == clean,
        (forall|image: T, other: T, result: T| #[trigger]
            call_ensures(mix, (&image, &other, &level), result) ==> result == other) ==> noisy
            == noise,
        exists|pool: T|
            #[trigger] call_ensures(draw, (&clean, pool_size), pool) && call_ensures(
                match_noise,
                (&clean, &level, &pool),
                noise,
            ),
{
}

/// The losses of all scales are added up, each once: where joining is adding whole
/// numbers, every total is the sum of the losses so far.
pub proof fn law_totals_are_sums<O, J: Fn(int, int) -> int>(
    totals: Seq<int>,
    losses: Seq<ScaleLoss<int, O>>,
    join: J,
    scale: int,
)
    requires
        are_totals(totals, losses, join),
        forall|one: int, other: int, result: int| #[trigger]
            call_ensures(join, (one, other), result) ==> result == one + other,
        0 <= scale < losses.len(),
    ensures
        totals.len() == losses.len(),
        totals[scale] == losses.map_values(|loss: ScaleLoss<int, O>| loss.loss).take(
            scale + 1,
        ).fold_left(0int, |sum: int, loss: int| sum + loss),
    decreases scale,
{
    let values = losses.map_values(|loss: ScaleLoss<int, O>| loss.loss);
    let add = |sum: int, loss: int| sum + loss;
    let taken = values.take(scale + 1);
    assert(taken.drop_last() =~= values.take(scale));
    assert(taken.last() == losses[scale].loss);
    if scale > 0 {
        law_totals_are_sums(totals, losses, join, scale - 1);
        assert(call_ensures(join, (totals[scale - 1], losses[scale].loss), totals[scale]));
    } else {
        assert(taken.drop_last().fold_left(0int, add) == 0);
    }
}

/// The cost matrix has a row for each image and a column for each noise.
pub proof fn law_costs_stand_by_image_and_noise(
    costs: Seq<i64>,
    columns: Seq<Vec<i64>>,
    image_count: int,
    image: int,
    noise: int,
)
    requires
        is_cost_matrix(costs, columns, image_count),
        0 <= image < image_count,
        0 <= noise < columns.len(),
    ensures
        costs.len() == image_count * columns.len(),
        costs[image * columns.len() + noise] == columns[noise]@[image],
{
    assert(costs[image * columns.len() + noise] == columns[noise]@[image]);
}

/// The output of a micro batch shows the largest scale, and every scale is judged by its own
/// prediction, with the lineart loss or without it as was asked.
pub proof fn law_the_output_is_that_of_the_largest_scale<
    T,
    L,
    O,
    P: Fn(&MicroBatch<T>) -> Vec<T>,
    S: Fn(usize, &T, &MicroBatch<T>, bool) -> ScaleLoss<L, O>,
    J: Fn(L, L) -> L,
    A: Fn(L, usize) -> L,
>(
    output: DiffusionOutput<L, O>,
    micro: MicroBatch<T>,
    with_lineart: bool,
    predict: P,
    scale_loss: S,
    join: J,
    average: A,
)
    requires
        is_output_for(output, micro, with_lineart, predict, scale_loss, join, average),
    ensures
        exists|predicted: Vec<T>, losses: Seq<ScaleLoss<L, O>>, totals: Seq<L>|
            {
                &&& #[trigger] call_ensures(predict, (&micro,), predicted)
                &&& #[trigger] are_totals(totals, losses, join)
                &&& losses.len() == predicted@.len()
                &&& forall|scale: int|
                    0 <= scale < losses.len() ==> call_ensures(
                        scale_loss,
                        (scale as usize, &predicted@[scale], &micro, with_lineart),
                        #[trigger] losses[scale],
                    )
                &&& output.output == losses.first().output
                &&& output.targets == losses.first().target
                &&& call_ensures(average, (totals.last(), losses.len() as usize), output.loss)
            },
{
    let (predicted, losses, totals) = choose|
        predicted: Vec<T>,
        losses: Seq<ScaleLoss<L, O>>,
        totals: Seq<L>,
    |
        {
            &&& #[trigger] call_ensures(predict, (&micro,), predicted)
            &&& #[trigger] are_scale_losses(losses, predicted@, micro, with_lineart, scale_loss)
            &&& #[trigger] are_totals(totals, losses, join)
            &&& call_ensures(average, (totals.last(), predicted@.len() as usize), output.loss)
            &&& output.output == losses[0].output
            &&& output.targets == losses[0].target
        };
    assert(call_ensures(predict, (&micro,), predicted));
    assert(are_totals(totals, losses, join));
}

/// A run takes its state through the micro batches one after the other, from the first to the
/// last.
pub proof fn law_micro_batches_run_in_order<A, F: Fn(A, usize, usize) -> A>(
    states: Seq<A>,
    first: A,
    last: A,
    batches: Seq<(usize, usize)>,
    step: F,
    index: int,
)
    requires
        is_run(states, first, last, batches, step),
        0 <= index < batches.len(),
    ensures
        states[0] == first,
        states[batches.len() as int] == last,
        call_ensures(
            step,
            (states[index], batches[index].0, batches[index].1),
            states[index + 1],
        ),
{
}

} // verus!
