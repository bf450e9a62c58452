//! The diffusion model: its configuration and its geometry.
use crate::model::u_net::{
    channels_fit, config_fits, default_step, first_shrink_rate, is_unet_for, last_shrink_rate, UNet,
    UNetConfig,
};
use vstd::prelude::*;

pub mod u_net;

verus! {

/// The number of steps in the network of a default model.
pub const DEFAULT_MODEL_STEPS: usize = 4;

/// What a model is built from.
#[derive(Debug, Clone, PartialEq, Eq)]
pub struct DiffusionModelConfig {
    pub u_net: UNetConfig,
}

/// A model that processes one resolution at a time.
#[derive(Debug, Clone, PartialEq, Eq)]
pub struct DiffusionModel {
    pub u_net: UNet,
}

impl DiffusionModelConfig {
    /// A network whose inputs are multiples of sixteen.
    pub fn new() -> (config: Self)
        ensures
            config.u_net.sizes@ == Seq::new(
                DEFAULT_MODEL_STEPS as nat,
                |step: int| default_step(),
            ),
            config.u_net.sizes@.len() == 4,
            config.u_net.insert_channels == 1,
            config.u_net.input_channels == 2,
            config.u_net.output_channels == 1,
            config.u_net.final_kernel_size == 3,
    {
        DiffusionModelConfig { u_net: UNetConfig::with_default_steps(DEFAULT_MODEL_STEPS) }
    }

    /// Lays out the model. `scale` multiplies a channel count by a factor, given by
    /// its bits, and rounds.
    pub fn init<F: Fn(usize, u64) -> usize>(&self, scale: F) -> (model: DiffusionModel)
        requires
            config_fits(self.u_net),
            channels_fit(self.u_net, scale),
        ensures
            is_unet_for(model.u_net, self.u_net, scale),
    {
        DiffusionModel { u_net: self.u_net.init(scale) }
    }
}

/// An input of this height and width can be given an insert.
pub open spec fn takes_insert(model: DiffusionModel, height: usize, width: usize) -> bool {
    &&& first_shrink_rate(model.u_net) > 0
    &&& height % first_shrink_rate(model.u_net) == 0
    &&& width % first_shrink_rate(model.u_net) == 0
}

/// Batch, channels, height and width of the insert for an input of these
/// dimensions.
pub open spec fn insert_dims_for(model: DiffusionModel, input_dims: [usize; 4]) -> Seq<usize> {
    seq![
        input_dims[0],
        model.u_net.insert_channels,
        input_dims[2] / first_shrink_rate(model.u_net),
        input_dims[3] / first_shrink_rate(model.u_net),
    ]
}

/// `output` is what `run` makes of the input, its noise level and the insert,
/// which is one that `zeros` gives where there is none.
pub open spec fn is_forward<T, Z: Fn([usize; 4]) -> T, R: Fn(T, T, T) -> T>(
    model: DiffusionModel,
    input: T,
    input_dims: [usize; 4],
    noise_level: T,
    insert: Option<T>,
    zeros: Z,
    run: R,
    output: T,
) -> bool {
    match insert {
        Some(insert) => call_ensures(run, (input, noise_level, insert), output),
        None => exists|dims: [usize; 4], insert: T|
            {
                &&& dims@ == insert_dims_for(model, input_dims)
                &&& #[trigger] call_ensures(zeros, (dims,), insert)
                &&& call_ensures(run, (input, noise_level, insert), output)
            },
    }
}

impl DiffusionModel {
    /// Height and width of the smallest input.
    pub fn minimum_input_size(&self) -> (size: [usize; 2])
        ensures
            size@ == seq![last_shrink_rate(self.u_net), last_shrink_rate(self.u_net)],
    {
        self.u_net.minimum_input_size()
    }

    /// Height and width of the insert for an input of `input_size`.
    pub fn expected_insert_size(&self, input_size: [usize; 2]) -> (size: [usize; 2])
        requires
            takes_insert(*self, input_size[0], input_size[1]),
        ensures
            size@ == seq![
                input_size[0] / first_shrink_rate(self.u_net),
                input_size[1] / first_shrink_rate(self.u_net),
            ],
    {
        self.u_net.expected_insert_size(input_size)
    }

    /// The channels of the insert.
    pub fn insert_channels(&self) -> (channels: usize)
        ensures
            channels == self.u_net.insert_channels,
    {
        self.u_net.insert_channels()
    }

    /// Batch, channels, height and width of the insert for an input of
    /// `input_dims`.
    pub fn expected_insert_dims(&self, input_dims: [usize; 4]) -> (dims: [usize; 4])
        requires
            takes_insert(*self, input_dims[2], input_dims[3]),
        ensures
            dims@ == insert_dims_for(*self, input_dims),
    {
        let size: [usize; 2] = self.expected_insert_size([input_dims[2], input_dims[3]]);
        let dims: [usize; 4] = [input_dims[0], self.insert_channels(), size[0], size[1]];
        proof {
            assert(size@[0] == size[0] && size@[1] == size[1]);
            assert(dims@ =~= insert_dims_for(*self, input_dims));
        }
        dims
    }

    /// Tests whether an insert of `insert_dims` has the shape of the first
    /// encoder's output.
    pub fn insert_fits(&self, input_dims: [usize; 4], insert_dims: [usize; 4]) -> (fits: bool)
        requires
            takes_insert(*self, input_dims[2], input_dims[3]),
        ensures
            fits == (insert_dims@ == insert_dims_for(*self, input_dims)),
    {
        let expected: [usize; 4] = self.expected_insert_dims(input_dims);
        let fits: bool = insert_dims[0] == expected[0] && insert_dims[1] == expected[1]
            && insert_dims[2] == expected[2] && insert_dims[3] == expected[3];
        proof {
            assert(forall|i: int| 0 <= i < 4 ==> insert_dims[i] == #[trigger] insert_dims@[i]);
            assert(forall|i: int| 0 <= i < 4 ==> expected[i] == #[trigger] expected@[i]);
            if fits {
                assert(insert_dims@ =~= expected@);
            }
        }
        fits
    }

    /// Processes exactly one resolution. Recursive orchestration belongs to the
    /// caller. An insert, which comes with its dimensions, is refused unless it has
    /// the shape of the first encoder's output.
    ///
    /// `zeros` makes an insert of the given dimensions that holds nothing but
    /// zeros, and `run` applies the network.
    pub fn forward<T, Z: Fn([usize; 4]) -> T, R: Fn(T, T, T) -> T>(
        &self,
        input: T,
        input_dims: [usize; 4],
        noise_level: T,
        insert: Option<(T, [usize; 4])>,
        zeros: Z,
        run: R,
    ) -> (result: Result<T, String>)
        requires
            takes_insert(*self, input_dims[2], input_dims[3]),
            forall|dims: [usize; 4]|
                dims@ == insert_dims_for(*self, input_dims) ==> #[trigger] call_requires(
                    zeros,
                    (dims,),
                ),
            forall|input: T, noise_level: T, insert: T| #[trigger]
                call_requires(run, (input, noise_level, insert)),
        ensures
            match insert {
                Some((_, dims)) if dims@ != insert_dims_for(*self, input_dims) => result matches Err(
                    message,
                ) && message@ == "insert shape must match the first encoder output"@,
                Some((insert, _)) => result matches Ok(output) && is_forward(
                    *self,
                    input,
                    input_dims,
                    noise_level,
                    Some(insert),
                    zeros,
                    run,
                    output,
                ),
                None => result matches Ok(output) && is_forward(
                    *self,
                    input,
                    input_dims,
                    noise_level,
                    None,
                    zeros,
                    run,
                    output,
                ),
            },
    {
        let insert: T = match insert {
            Some((insert, dims)) => {
                if !self.insert_fits(input_dims, dims) {
                    return Err("insert shape must match the first encoder output".to_owned());
                }
                insert
            },
            None => zeros(self.expected_insert_dims(input_dims)),
        };
        Ok(run(input, noise_level, insert))
    }
}

/// A missing insert is as good as an explicit one that holds zeros.
pub proof fn law_missing_insert_is_zero<T, Z: Fn([usize; 4]) -> T, R: Fn(T, T, T) -> T>(
    model: DiffusionModel,
    input: T,
    input_dims: [usize; 4],
    noise_level: T,
    zeros: Z,
    run: R,
    output: T,
)
    ensures
        is_forward(model, input, input_dims, noise_level, None, zeros, run, output) <==> exists|
            dims: [usize; 4],
            insert: T,
        |
            {
                &&& dims@ == insert_dims_for(model, input_dims)
                &&& #[trigger] call_ensures(zeros, (dims,), insert)
                &&& is_forward(
                    model,
                    input,
                    input_dims,
                    noise_level,
                    Some(insert),
                    zeros,
                    run,
                    output,
                )
            },
{
}

/// An insert is as small as the first encoder makes the input, in both dimensions, one for
/// each image of the batch, and has the channels of inserts.
pub proof fn law_inserts_have_the_size_of_the_first_encoder(
    model: DiffusionModel,
    input_dims: [usize; 4],
)
    requires
        takes_insert(model, input_dims[2], input_dims[3]),
    ensures
        ({
            let dims = insert_dims_for(model, input_dims);
            let rate = first_shrink_rate(model.u_net);
            &&& dims.len() == 4
            &&& dims[0] == input_dims[0]
            &&& dims[1] == model.u_net.insert_channels
            &&& dims[2] * rate == input_dims[2]
            &&& dims[3] * rate == input_dims[3]
        }),
{
    let rate = first_shrink_rate(model.u_net) as int;
    vstd::arithmetic::div_mod::lemma_fundamental_div_mod(input_dims[2] as int, rate);
    vstd::arithmetic::div_mod::lemma_fundamental_div_mod(input_dims[3] as int, rate);
    vstd::arithmetic::mul::lemma_mul_is_commutative(rate, input_dims[2] as int / rate);
    vstd::arithmetic::mul::lemma_mul_is_commutative(rate, input_dims[3] as int / rate);
}

/// The network is run on the input, its noise level and the insert, each in its place.
pub proof fn law_an_insert_is_run_with_its_input<T, Z: Fn([usize; 4]) -> T, R: Fn(T, T, T) -> T>(
    model: DiffusionModel,
    input: T,
    input_dims: [usize; 4],
    noise_level: T,
    insert: T,
    zeros: Z,
    run: R,
    output: T,
)
    ensures
        is_forward(model, input, input_dims, noise_level, Some(insert), zeros, run, output)
            <==> call_ensures(run, (input, noise_level, insert), output),
{
}

} // verus!
