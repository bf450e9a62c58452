//! A model that is ready for inference.
use crate::inference::pixels::{
    is_output, is_prepared, law_opacity_is_the_darkness, output_error, predicted_values_to_bgra, prepare_input, PreparedInput,
};
use crate::inference::pyramid::{
    automatic_pyramid_plan, is_plan_for, law_levels_halve_exactly, plan_error, plan_padded,
    PyramidPlan,
};
use crate::inference::{
    bgra_byte_len, buffer_error, byte_len_error, law_options_are_accepted_in_range, options_error,
    validate_buffer, validate_options,
    InferenceError, InferenceErrorView, InferenceOptions, DEFAULT_RECURSION_STOP_SIZE,
};
use crate::model::u_net::{
    config_fits, encoded_size, first_shrink_rate, is_unet_for, last_shrink_rate, law_sizes_fit,
    transposed_size, UNetConfig,
};
use crate::model::{insert_dims_for, takes_insert, DiffusionModel};
use vstd::prelude::*;

verus! {

/// A model and the size at which its pyramids stop.
#[derive(Debug, Clone, PartialEq, Eq)]
pub struct InferenceSession {
    pub model: DiffusionModel,
    pub recursion_stop_size: usize,
}

/// The smallest input of the session's model.
pub open spec fn minimum_size(session: InferenceSession) -> [usize; 2] {
    [last_shrink_rate(session.model.u_net), last_shrink_rate(session.model.u_net)]
}

/// Why a request is refused before the model runs, if it is.
pub open spec fn request_error(
    session: InferenceSession,
    scribble_len: nat,
    lineart_len: nat,
    width: usize,
    height: usize,
    options: InferenceOptions,
) -> Option<InferenceErrorView> {
    let expected_len = (width * height * 4) as nat;
    let minimum = minimum_size(session);
    let stop = session.recursion_stop_size;
    if options_error(options) is Some {
        options_error(options)
    } else if byte_len_error(width, height) is Some {
        byte_len_error(width, height)
    } else if buffer_error("scribble"@, scribble_len, expected_len) is Some {
        buffer_error("scribble"@, scribble_len, expected_len)
    } else if buffer_error("lineart"@, lineart_len, expected_len) is Some {
        buffer_error("lineart"@, lineart_len, expected_len)
    } else if plan_error([height, width], minimum, stop) is Some {
        plan_error([height, width], minimum, stop)
    } else if plan_padded([height, width], minimum, stop, 0) * plan_padded(
        [height, width],
        minimum,
        stop,
        1,
    ) > usize::MAX {
        Some(InferenceErrorView::InvalidArgument("padded image area overflowed"@))
    } else {
        None
    }
}

/// `result` is what a reply of the model is turned into.
pub open spec fn is_answer(
    result: Result<Vec<u8>, InferenceError>,
    reply: Result<Vec<u8>, InferenceError>,
    plan: PyramidPlan,
) -> bool {
    match reply {
        Err(error) => result == Err::<Vec<u8>, InferenceError>(error),
        Ok(lumas) => match output_error(lumas@.len(), plan.padded_size, plan.original_size) {
            Some(expected) => result matches Err(error) && error@ == expected,
            None => result matches Ok(output) && is_output(
                output@,
                lumas@,
                plan.padded_size,
                plan.original_size,
            ),
        },
    }
}

/// `result` is what a request comes to: the refusal, or what is made of the reply to the
/// prepared pixels and the plan.
pub open spec fn is_inferred<
    F: Fn(&PreparedInput, &PyramidPlan, InferenceOptions) -> Result<Vec<u8>, InferenceError>,
>(
    result: Result<Vec<u8>, InferenceError>,
    session: InferenceSession,
    scribble: Seq<u8>,
    lineart: Seq<u8>,
    width: usize,
    height: usize,
    options: InferenceOptions,
    predict: F,
) -> bool {
    match request_error(session, scribble.len(), lineart.len(), width, height, options) {
        Some(expected) => result matches Err(error) && error@ == expected,
        None => exists|
            prepared: PreparedInput,
            plan: PyramidPlan,
            reply: Result<Vec<u8>, InferenceError>,
        |
            {
                &&& is_plan_for(
                    plan,
                    [height, width],
                    minimum_size(session),
                    session.recursion_stop_size,
                )
                &&& is_prepared(
                    prepared,
                    scribble,
                    lineart,
                    width as int,
                    height as int,
                    plan.padded_size,
                )
                &&& #[trigger] call_ensures(predict, (&prepared, &plan, options), reply)
                &&& is_answer(result, reply, plan)
            },
    }
}

impl InferenceSession {
    /// A session that stops at the default size.
    pub fn from_model(model: DiffusionModel) -> (session: Self)
        ensures
            session.model == model,
            session.recursion_stop_size == DEFAULT_RECURSION_STOP_SIZE,
            session.recursion_stop_size == 128,
    {
        InferenceSession { model, recursion_stop_size: DEFAULT_RECURSION_STOP_SIZE }
    }

    /// Draws lineart from a scribble and what lineart there is, both BGRA images.
    ///
    /// `predict` runs the model on the prepared pixels and gives one luma for each
    /// pixel of the padded size.
    pub fn infer_bgra<
        F: Fn(&PreparedInput, &PyramidPlan, InferenceOptions) -> Result<Vec<u8>, InferenceError>,
    >(
        &self,
        scribble: &[u8],
        lineart: &[u8],
        width: usize,
        height: usize,
        options: InferenceOptions,
        predict: F,
    ) -> (result: Result<Vec<u8>, InferenceError>)
        requires
            forall|prepared: &PreparedInput, plan: &PyramidPlan, options: InferenceOptions|
                #[trigger]
                call_requires(predict, (prepared, plan, options)),
        ensures
            is_inferred(
                result,
                *self,
                scribble@,
                lineart@,
                width,
                height,
                options,
                predict,
            ),
            result matches Ok(output) ==> output@.len() == scribble@.len(),
    {
        match validate_options(options) {
            Ok(_) => {},
            Err(error) => {
                return Err(error);
            },
        }
        let byte_len: usize = match bgra_byte_len(width, height) {
            Ok(byte_len) => byte_len,
            Err(error) => {
                return Err(error);
            },
        };
        match validate_buffer("scribble", scribble, byte_len) {
            Ok(_) => {},
            Err(error) => {
                return Err(error);
            },
        }
        match validate_buffer("lineart", lineart, byte_len) {
            Ok(_) => {},
            Err(error) => {
                return Err(error);
            },
        }
        let minimum: [usize; 2] = self.model.minimum_input_size();
        let size: [usize; 2] = [height, width];
        proof {
            assert(minimum[0] == minimum@[0] && minimum[1] == minimum@[1]);
            assert(minimum =~= minimum_size(*self));
        }
        let plan: PyramidPlan = match automatic_pyramid_plan(
            size,
            minimum,
            self.recursion_stop_size,
        ) {
            Ok(plan) => plan,
            Err(error) => {
                return Err(error);
            },
        };
        proof {
            law_levels_halve_exactly(plan, size, minimum, self.recursion_stop_size);
            assert(size[0] <= plan.padded_size[0]);
            assert(size[1] <= plan.padded_size[1]);
        }
        let prepared: PreparedInput = match prepare_input(scribble, lineart, width, height, &plan) {
            Ok(prepared) => prepared,
            Err(error) => {
                return Err(error);
            },
        };
        proof {
            let rows = plan.padded_size[0];
            let columns = plan.padded_size[1];
            assert((height - 1) * columns + width <= rows * columns) by (nonlinear_arith)
                requires
                    height <= rows,
                    width <= columns,
                    height > 0,
            ;
        }
        let reply: Result<Vec<u8>, InferenceError> = predict(&prepared, &plan, options);
        let ghost given = reply;
        let result = match reply {
            Ok(lumas) => predicted_values_to_bgra(&lumas, plan.padded_size, plan.original_size),
            Err(error) => Err(error),
        };
        proof {
            assert(call_ensures(predict, (&prepared, &plan, options), given));
            assert(width * height * 4 == height * width * 4) by (nonlinear_arith);
        }
        result
    }
}

/// Where the model's first encoder halves its input, each level of a plan is the
/// insert that the next larger level takes.
pub proof fn law_each_level_is_an_insert(
    session: InferenceSession,
    plan: PyramidPlan,
    original_size: [usize; 2],
    batch: usize,
    channels: usize,
    level: int,
)
    requires
        plan_error(original_size, minimum_size(session), session.recursion_stop_size) is None,
        is_plan_for(plan, original_size, minimum_size(session), session.recursion_stop_size),
        first_shrink_rate(session.model.u_net) == 2,
        0 <= level < plan.sizes@.len() - 1,
    ensures
        ({
            let size = plan.sizes@[level];
            let next = plan.sizes@[level + 1];
            &&& takes_insert(session.model, size[0], size[1])
            &&& insert_dims_for(session.model, [batch, channels, size[0], size[1]]) == seq![
                batch,
                session.model.u_net.insert_channels,
                next[0],
                next[1],
            ]
        }),
{
    law_levels_halve_exactly(
        plan,
        original_size,
        minimum_size(session),
        session.recursion_stop_size,
    );
    let size = plan.sizes@[level];
    let next = plan.sizes@[level + 1];
    assert(plan.sizes@[level][0] == 2 * plan.sizes@[level + 1][0]);
    assert(plan.sizes@[level][1] == 2 * plan.sizes@[level + 1][1]);
    assert(insert_dims_for(session.model, [batch, channels, size[0], size[1]]) =~= seq![
        batch,
        session.model.u_net.insert_channels,
        next[0],
        next[1],
    ]);
}

/// The results hold the same bytes, or errors of the same text.
pub open spec fn same_result(
    one: Result<Vec<u8>, InferenceError>,
    other: Result<Vec<u8>, InferenceError>,
) -> bool {
    match (one, other) {
        (Ok(bytes), Ok(other_bytes)) => bytes@ == other_bytes@,
        (Err(error), Err(other_error)) => error@ == other_error@,
        _ => false,
    }
}

/// The plans hold the same sizes.
pub open spec fn same_plan(one: PyramidPlan, other: PyramidPlan) -> bool {
    &&& one.original_size == other.original_size
    &&& one.padded_size == other.padded_size
    &&& one.sizes@ == other.sizes@
}

/// The inputs hold the same pixels.
pub open spec fn same_input(one: PreparedInput, other: PreparedInput) -> bool {
    one.luma@ == other.luma@ && one.noise_share@ == other.noise_share@
}

/// Given the same pixels and the same plan, `predict` replies the same under both
/// options.
pub open spec fn predicts_alike<
    F: Fn(&PreparedInput, &PyramidPlan, InferenceOptions) -> Result<Vec<u8>, InferenceError>,
>(predict: F, options: InferenceOptions, other_options: InferenceOptions) -> bool {
    forall|
        prepared: PreparedInput,
        plan: PyramidPlan,
        reply: Result<Vec<u8>, InferenceError>,
        other_prepared: PreparedInput,
        other_plan: PyramidPlan,
        other_reply: Result<Vec<u8>, InferenceError>,
    |
        same_input(prepared, other_prepared) && same_plan(plan, other_plan)
            && #[trigger] call_ensures(predict, (&prepared, &plan, options), reply)
            && #[trigger] call_ensures(
            predict,
            (&other_prepared, &other_plan, other_options),
            other_reply,
        ) ==> same_result(reply, other_reply)
}

/// Inference is reproducible: requests for the same images are answered alike where the
/// prediction replies alike, be it that it follows from its arguments and the options are
/// equal, or that what the options differ in does not matter to it.
pub proof fn law_equal_requests_are_answered_alike<
    F: Fn(&PreparedInput, &PyramidPlan, InferenceOptions) -> Result<Vec<u8>, InferenceError>,
>(
    session: InferenceSession,
    scribble: Seq<u8>,
    lineart: Seq<u8>,
    width: usize,
    height: usize,
    options: InferenceOptions,
    other_options: InferenceOptions,
    predict: F,
    result: Result<Vec<u8>, InferenceError>,
    other_result: Result<Vec<u8>, InferenceError>,
)
    requires
        options_error(options) == options_error(other_options),
        predicts_alike(predict, options, other_options),
        is_inferred(result, session, scribble, lineart, width, height, options, predict),
        is_inferred(
            other_result,
            session,
            scribble,
            lineart,
            width,
            height,
            other_options,
            predict,
        ),
    ensures
        same_result(result, other_result),
{
    let refused = request_error(
        session,
        scribble.len(),
        lineart.len(),
        width,
        height,
        options,
    );
    if refused is None {
        let size = [height, width];
        let minimum = minimum_size(session);
        let stop = session.recursion_stop_size;
        let (prepared, plan, reply) = choose|
            prepared: PreparedInput,
            plan: PyramidPlan,
            reply: Result<Vec<u8>, InferenceError>,
        |
            {
                &&& is_plan_for(plan, [height, width], minimum_size(session), stop)
                &&& is_prepared(
                    prepared,
                    scribble,
                    lineart,
                    width as int,
                    height as int,
                    plan.padded_size,
                )
                &&& #[trigger] call_ensures(predict, (&prepared, &plan, options), reply)
                &&& is_answer(result, reply, plan)
            };
        let (other_prepared, other_plan, other_reply) = choose|
            prepared: PreparedInput,
            plan: PyramidPlan,
            reply: Result<Vec<u8>, InferenceError>,
        |
            {
                &&& is_plan_for(plan, [height, width], minimum_size(session), stop)
                &&& is_prepared(
                    prepared,
                    scribble,
                    lineart,
                    width as int,
                    height as int,
                    plan.padded_size,
                )
                &&& #[trigger] call_ensures(predict, (&prepared, &plan, other_options), reply)
                &&& is_answer(other_result, reply, plan)
            };
        lemma_one_plan(plan, other_plan, size, minimum, stop);
        lemma_one_input(
            prepared,
            other_prepared,
            scribble,
            lineart,
            width as int,
            height as int,
            plan.padded_size,
        );
        assert(same_result(reply, other_reply));
        lemma_answered_alike(result, other_result, reply, other_reply, plan, other_plan);
    }
}

/// There is one plan for given sizes.
proof fn lemma_one_plan(
    plan: PyramidPlan,
    other: PyramidPlan,
    original_size: [usize; 2],
    minimum: [usize; 2],
    stop: usize,
)
    requires
        is_plan_for(plan, original_size, minimum, stop),
        is_plan_for(other, original_size, minimum, stop),
    ensures
        same_plan(plan, other),
{
    assert(plan.padded_size =~= other.padded_size);
    assert forall|level: int| 0 <= level < plan.sizes@.len() implies plan.sizes@[level]
        == other.sizes@[level] by {
        assert(plan.sizes@[level][0] == other.sizes@[level][0]);
        assert(plan.sizes@[level][1] == other.sizes@[level][1]);
        assert(plan.sizes@[level] =~= other.sizes@[level]);
    }
    assert(plan.sizes@ =~= other.sizes@);
}

/// A place in an image is that of one of its pixels.
proof fn lemma_pixel_at(place: int, height: int, width: int) -> (pixel: (int, int))
    requires
        0 <= place < height * width,
        0 <= height,
        0 <= width,
    ensures
        0 <= pixel.0 < height,
        0 <= pixel.1 < width,
        pixel.0 * width + pixel.1 == place,
{
    assert(width > 0) by (nonlinear_arith)
        requires
            0 <= place < height * width,
            0 <= width,
    ;
    vstd::arithmetic::div_mod::lemma_fundamental_div_mod(place, width);
    let y = place / width;
    let x = place % width;
    assert(y * width + x == place) by (nonlinear_arith)
        requires
            place == width * y + x,
    ;
    assert(0 <= y < height) by (nonlinear_arith)
        requires
            place == width * y + x,
            0 <= x < width,
            0 <= place < height * width,
    ;
    (y, x)
}

/// There is one prepared input for given images.
proof fn lemma_one_input(
    prepared: PreparedInput,
    other: PreparedInput,
    scribble: Seq<u8>,
    lineart: Seq<u8>,
    width: int,
    height: int,
    padded_size: [usize; 2],
)
    requires
        is_prepared(prepared, scribble, lineart, width, height, padded_size),
        is_prepared(other, scribble, lineart, width, height, padded_size),
    ensures
        same_input(prepared, other),
{
    let rows = padded_size[0] as int;
    let columns = padded_size[1] as int;
    assert forall|place: int| 0 <= place < rows * columns implies prepared.luma@[place]
        == other.luma@[place] && prepared.noise_share@[place] == other.noise_share@[place] by {
        let (y, x) = lemma_pixel_at(place, rows, columns);
        assert(prepared.luma@[y * columns + x] == other.luma@[y * columns + x]);
    }
    assert(prepared.luma@ =~= other.luma@);
    assert(prepared.noise_share@ =~= other.noise_share@);
}

/// An answer follows from the reply and the plan.
proof fn lemma_answered_alike(
    result: Result<Vec<u8>, InferenceError>,
    other_result: Result<Vec<u8>, InferenceError>,
    reply: Result<Vec<u8>, InferenceError>,
    other_reply: Result<Vec<u8>, InferenceError>,
    plan: PyramidPlan,
    other_plan: PyramidPlan,
)
    requires
        same_result(reply, other_reply),
        same_plan(plan, other_plan),
        is_answer(result, reply, plan),
        is_answer(other_result, other_reply, other_plan),
    ensures
        same_result(result, other_result),
{
    if let Ok(lumas) = reply {
        if output_error(lumas@.len(), plan.padded_size, plan.original_size) is None {
            let output = result->Ok_0@;
            let other = other_result->Ok_0@;
            let height = plan.original_size[0] as int;
            let width = plan.original_size[1] as int;
            assert forall|place: int| 0 <= place < output.len() implies output[place]
                == other[place] by {
                let (y, x) = lemma_pixel_at(place / 4, height, width);
                let target = (y * width + x) * 4;
                assert(output[target + 3] == other[target + 3]);
            }
            assert(output =~= other);
        }
    }
}

/// Every level of a plan suits the model: its sizes are multiples of the smallest
/// input, so that the network takes it apart and puts it together again without a
/// remainder, and gives it back at its own size.
pub proof fn law_levels_suit_the_model<F: Fn(usize, u64) -> usize>(
    session: InferenceSession,
    config: UNetConfig,
    scale: F,
    plan: PyramidPlan,
    original_size: [usize; 2],
    level: int,
    axis: int,
)
    requires
        is_unet_for(session.model.u_net, config, scale),
        config_fits(config),
        forall|step: int|
            0 <= step < config.sizes@.len() ==> (#[trigger] config.sizes@[step]).pool_size > 0,
        plan_error(original_size, minimum_size(session), session.recursion_stop_size) is None,
        is_plan_for(plan, original_size, minimum_size(session), session.recursion_stop_size),
        0 <= level < plan.sizes@.len(),
        0 <= axis < 2,
    ensures
        ({
            let unet = session.model.u_net;
            let size = plan.sizes@[level][axis] as int;
            &&& size > 0
            &&& size % last_shrink_rate(unet) as int == 0
            &&& transposed_size(unet.decoders@.last(), encoded_size(unet, size, 1)) == size
        }),
{
    let unet = session.model.u_net;
    let minimum = minimum_size(session);
    law_levels_halve_exactly(plan, original_size, minimum, session.recursion_stop_size);
    let size = plan.sizes@[level][axis] as int;
    assert(plan.sizes@[level][axis] % minimum[axis] == 0);
    assert(minimum[axis] == last_shrink_rate(unet));
    law_sizes_fit(unet, config, scale, size);
    let last = unet.decoders@.len() - 1;
    assert(transposed_size(
        unet.decoders@[last],
        encoded_size(unet, size, unet.encoders@.len() - last),
    ) == encoded_size(unet, size, unet.encoders@.len() - 1 - last));
}

/// A request reaches the model only if its options are in range, both images have exactly
/// four bytes for each pixel, and neither dimension is below the model's minimum.
pub proof fn law_requests_are_checked_first(
    session: InferenceSession,
    scribble_len: nat,
    lineart_len: nat,
    width: usize,
    height: usize,
    options: InferenceOptions,
)
    requires
        request_error(session, scribble_len, lineart_len, width, height, options) is None,
    ensures
        options.strength <= 0x3f80_0000 || options.strength == 0x8000_0000,
        1 <= options.denoising_steps <= 20,
        width > 0 && height > 0,
        scribble_len == 4 * (width * height),
        lineart_len == 4 * (width * height),
        height >= last_shrink_rate(session.model.u_net),
        width >= last_shrink_rate(session.model.u_net),
        session.recursion_stop_size >= last_shrink_rate(session.model.u_net),
        last_shrink_rate(session.model.u_net) > 0,
{
    law_options_are_accepted_in_range(options);
    assert(minimum_size(session)[0] == last_shrink_rate(session.model.u_net));
    assert(minimum_size(session)[1] == last_shrink_rate(session.model.u_net));
    assert([height, width][0] == height && [height, width][1] == width);
}

/// An accepted request is handed to the model once, as the pixels of the scribble below the
/// lineart and the plan for the image's height and width; and what is returned is the
/// model's error, or a black image whose opacities follow from the model's lumas.
pub proof fn law_an_answer_is_what_the_model_replied<
    F: Fn(&PreparedInput, &PyramidPlan, InferenceOptions) -> Result<Vec<u8>, InferenceError>,
>(
    result: Result<Vec<u8>, InferenceError>,
    session: InferenceSession,
    scribble: Seq<u8>,
    lineart: Seq<u8>,
    width: usize,
    height: usize,
    options: InferenceOptions,
    predict: F,
)
    requires
        is_inferred(result, session, scribble, lineart, width, height, options, predict),
        request_error(session, scribble.len(), lineart.len(), width, height, options) is None,
    ensures
        exists|
            prepared: PreparedInput,
            plan: PyramidPlan,
            reply: Result<Vec<u8>, InferenceError>,
        |
            {
                &&& #[trigger] call_ensures(predict, (&prepared, &plan, options), reply)
                &&& plan.original_size == [height, width]
                &&& is_prepared(
                    prepared,
                    scribble,
                    lineart,
                    width as int,
                    height as int,
                    plan.padded_size,
                )
                &&& reply matches Err(error) ==> result == Err::<Vec<u8>, InferenceError>(error)
                &&& reply matches Ok(lumas) ==> (lumas@.len() == plan.padded_size[0]
                    * plan.padded_size[1] <==> result is Ok)
                &&& reply matches Ok(lumas) ==> result matches Ok(output) ==> forall|
                    y: int,
                    x: int,
                |
                    0 <= y < height && 0 <= x < width ==> {
                        let offset = 4 * #[trigger] (y * width + x);
                        let luma = lumas@[y * plan.padded_size[1] + x];
                        &&& output@[offset] == 0 && output@[offset + 1] == 0 && output@[offset + 2]
                            == 0
                        &&& 10 * (255 - luma) >= 255 ==> output@[offset + 3] + luma == 255
                        &&& 10 * (255 - luma) < 255 ==> output@[offset + 3] == 0
                    }
            },
{
    let (prepared, plan, reply) = choose|
        prepared: PreparedInput,
        plan: PyramidPlan,
        reply: Result<Vec<u8>, InferenceError>,
    |
        {
            &&& is_plan_for(
                plan,
                [height, width],
                minimum_size(session),
                session.recursion_stop_size,
            )
            &&& is_prepared(
                prepared,
                scribble,
                lineart,
                width as int,
                height as int,
                plan.padded_size,
            )
            &&& #[trigger] call_ensures(predict, (&prepared, &plan, options), reply)
            &&& is_answer(result, reply, plan)
        };
    assert(call_ensures(predict, (&prepared, &plan, options), reply));
    assert([height, width][0] == height && [height, width][1] == width);
    if let Ok(lumas) = reply {
        if let Ok(output) = result {
            assert forall|y: int, x: int| 0 <= y < height && 0 <= x < width implies {
                let offset = 4 * #[trigger] (y * width + x);
                let luma = lumas@[y * plan.padded_size[1] + x];
                &&& output@[offset] == 0 && output@[offset + 1] == 0 && output@[offset + 2] == 0
                &&& 10 * (255 - luma) >= 255 ==> output@[offset + 3] + luma == 255
                &&& 10 * (255 - luma) < 255 ==> output@[offset + 3] == 0
            } by {
                law_opacity_is_the_darkness(
                    output@,
                    lumas@,
                    plan.padded_size,
                    plan.original_size,
                    y,
                    x,
                );
            }
        }
    }
}

/// A request is refused for the first of what is wrong with it: its options, the size of the
/// image, the scribble, the lineart, and the plan.
pub proof fn law_refusals_come_in_order(
    session: InferenceSession,
    scribble_len: nat,
    lineart_len: nat,
    width: usize,
    height: usize,
    options: InferenceOptions,
)
    ensures
        ({
            let error = request_error(
                session,
                scribble_len,
                lineart_len,
                width,
                height,
                options,
            );
            let options_fit = options_error(options) is None;
            let size_fits = byte_len_error(width, height) is None;
            let expected = (4 * (width * height)) as nat;
            let minimum = last_shrink_rate(session.model.u_net);
            let plan = plan_error(
                [height, width],
                [minimum, minimum],
                session.recursion_stop_size,
            );
            &&& !options_fit ==> error == options_error(options)
            &&& options_fit && !size_fits ==> error == byte_len_error(width, height)
            &&& options_fit && size_fits && scribble_len != expected ==> error == buffer_error(
                "scribble"@,
                scribble_len,
                expected,
            )
            &&& options_fit && size_fits && scribble_len == expected && lineart_len != expected
                ==> error == buffer_error("lineart"@, lineart_len, expected)
            &&& options_fit && size_fits && scribble_len == expected && lineart_len == expected
                && plan is Some ==> error == plan
            &&& options_fit && size_fits && scribble_len == expected && lineart_len == expected
                && plan is None ==> {
                let area = plan_padded(
                    [height, width],
                    [minimum, minimum],
                    session.recursion_stop_size,
                    0,
                ) * plan_padded(
                    [height, width],
                    [minimum, minimum],
                    session.recursion_stop_size,
                    1,
                );
                error is None <==> area <= usize::MAX
            }
        }),
{
    assert(width * height * 4 == 4 * (width * height));
}

} // verus!
