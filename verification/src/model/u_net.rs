//! The geometry of a U-Net: the channels, kernels and sizes of its layers, and
//! the order in which they are applied.
use vstd::prelude::*;

verus! {

/// One step down and up again.
#[derive(Debug, Clone, Copy, PartialEq, Eq)]
pub struct UNetStepConfig {
    pub encoder_kernel_size: usize,
    pub decoder_kernel_size: usize,
    pub pool_size: usize,
    /// The bits of a double: the factor from a step's input channels to its
    /// output channels.
    pub down_channels_mul: u64,
    /// The bits of a double: the factor from an encoder's input channels to the
    /// output channels of the decoder that mirrors it.
    pub transposed_channels_mul: u64,
}

/// The step that a configuration is made of by default.
pub open spec fn default_step() -> UNetStepConfig {
    UNetStepConfig {
        encoder_kernel_size: 3,
        decoder_kernel_size: 3,
        pool_size: 2,
        down_channels_mul: 0x4000_0000_0000_0000,
        transposed_channels_mul: 0x3ff0_0000_0000_0000,
    }
}

impl Default for UNetStepConfig {
    fn default() -> (step: Self)
        ensures
            step == default_step(),
    {
        UNetStepConfig {
            encoder_kernel_size: 3,
            decoder_kernel_size: 3,
            pool_size: 2,
            down_channels_mul: 0x4000_0000_0000_0000,
            transposed_channels_mul: 0x3ff0_0000_0000_0000,
        }
    }
}

/// What a U-Net is built from.
#[derive(Debug, Clone, PartialEq, Eq)]
pub struct UNetConfig {
    pub sizes: Vec<UNetStepConfig>,
    pub insert_channels: usize,
    pub input_channels: usize,
    pub output_channels: usize,
    pub final_kernel_size: usize,
}

impl UNetConfig {
    /// Seven default steps.
    pub fn new() -> (config: Self)
        ensures
            config.sizes@ == Seq::new(7, |step: int| default_step()),
            config.insert_channels == 1,
            config.input_channels == 2,
            config.output_channels == 1,
            config.final_kernel_size == 3,
    {
        Self::with_default_steps(7)
    }

    /// The given number of default steps.
    pub fn with_default_steps(steps: usize) -> (config: Self)
        ensures
            config.sizes@ == Seq::new(steps as nat, |step: int| default_step()),
            config.insert_channels == 1,
            config.input_channels == 2,
            config.output_channels == 1,
            config.final_kernel_size == 3,
    {
        let mut sizes: Vec<UNetStepConfig> = Vec::new();
        while sizes.len() < steps
            invariant
                sizes@ =~= Seq::new(sizes@.len(), |step: int| default_step()),
                sizes@.len() <= steps,
            decreases steps - sizes@.len(),
        {
            sizes.push(UNetStepConfig::default());
        }
        UNetConfig {
            sizes,
            insert_channels: 1,
            input_channels: 2,
            output_channels: 1,
            final_kernel_size: 3,
        }
    }
}

/// A convolution that keeps its input's size, followed by a pooling.
#[derive(Debug, Clone, Copy, PartialEq, Eq)]
pub struct UNetEncoder {
    pub input_channels: usize,
    pub output_channels: usize,
    pub kernel_size: usize,
    pub pool_size: usize,
    /// How many times smaller its output is than the network's input.
    pub shrink_rate: usize,
}

/// A transposed convolution.
#[derive(Debug, Clone, Copy, PartialEq, Eq)]
pub struct UNetDecoder {
    pub input_channels: usize,
    pub output_channels: usize,
    pub kernel_size: usize,
    pub stride: usize,
    pub padding: usize,
    pub padding_out: usize,
}

/// A convolution that keeps its input's size.
#[derive(Debug, Clone, Copy, PartialEq, Eq)]
pub struct FinalConv {
    pub input_channels: usize,
    pub output_channels: usize,
    pub kernel_size: usize,
}

/// The layers of a U-Net.
#[derive(Debug, Clone, PartialEq, Eq)]
pub struct UNet {
    /// From the largest size to the smallest.
    pub encoders: Vec<UNetEncoder>,
    /// From the smallest size to the largest.
    pub decoders: Vec<UNetDecoder>,
    pub final_conv: FinalConv,
    pub insert_channels: usize,
}

/// The product of the pool sizes of the first `count` steps.
pub open spec fn pool_product(sizes: Seq<UNetStepConfig>, count: nat) -> nat
    decreases count,
{
    if count == 0 {
        1
    } else {
        pool_product(sizes, (count - 1) as nat) * sizes[count - 1].pool_size as nat
    }
}

/// The padding of a decoder: half of what its kernel is larger than its stride,
/// rounded up.
pub open spec fn decoder_padding(kernel_size: nat, pool_size: nat) -> nat {
    if kernel_size <= pool_size {
        0
    } else {
        ((kernel_size - pool_size + 1) / 2) as nat
    }
}

/// The configuration has a step, and the sizes that are computed from it are
/// representable.
pub open spec fn config_fits(config: UNetConfig) -> bool {
    &&& config.sizes@.len() > 0
    &&& forall|count: nat|
        count <= config.sizes@.len() ==> #[trigger] pool_product(config.sizes@, count)
            <= usize::MAX
    &&& forall|step: int|
        0 <= step < config.sizes@.len() ==> (#[trigger] config.sizes@[step]).pool_size + 2
            * decoder_padding(
            config.sizes@[step].decoder_kernel_size as nat,
            config.sizes@[step].pool_size as nat,
        ) <= usize::MAX
}

/// `channels` are counts that the input and the first encoders can have.
pub open spec fn are_channels_down<F: Fn(usize, u64) -> usize>(
    channels: Seq<usize>,
    config: UNetConfig,
    scale: F,
) -> bool {
    &&& 0 < channels.len() <= config.sizes@.len() + 1
    &&& channels[0] == config.input_channels
    &&& forall|step: int|
        0 < step < channels.len() ==> call_ensures(
            scale,
            (channels[step - 1], config.sizes@[step - 1].down_channels_mul),
            #[trigger] channels[step],
        )
}

/// The decoder at `depth`, whose own encoder gives `skip` channels, can be handed
/// `previous` more by the decoder below it.
pub open spec fn hands_up_channels<F: Fn(usize, u64) -> usize>(
    config: UNetConfig,
    scale: F,
    depth: int,
    skip: usize,
    previous: usize,
) -> bool {
    if depth + 1 == config.sizes@.len() {
        previous == 0
    } else {
        call_ensures(scale, (skip, config.sizes@[depth + 1].transposed_channels_mul), previous)
    }
}

/// `scale` can be called, and whatever it gives, the channels that are joined for a
/// decoder or for the last convolution can be added up.
pub open spec fn channels_fit<F: Fn(usize, u64) -> usize>(config: UNetConfig, scale: F) -> bool {
    &&& forall|channels: usize, factor: u64| #[trigger] call_requires(scale, (channels, factor))
    &&& forall|channels: Seq<usize>, previous: usize|
        #![trigger are_channels_down(channels, config, scale), hands_up_channels(config, scale, channels.len() - 2, channels.last(), previous)]
        are_channels_down(channels, config, scale) && channels.len() > 1 && hands_up_channels(
            config,
            scale,
            channels.len() - 2,
            channels.last(),
            previous,
        ) ==> channels.last() + previous + (if channels.len() == 2 {
            config.insert_channels as int
        } else {
            0
        }) <= usize::MAX
    &&& forall|upper: usize| #[trigger]
        call_ensures(
            scale,
            (config.input_channels, config.sizes@[0].transposed_channels_mul),
            upper,
        ) ==> config.input_channels + upper <= usize::MAX
}

/// Channels can be added up where no count is above a third of what is representable.
pub proof fn law_small_channels_fit<F: Fn(usize, u64) -> usize>(config: UNetConfig, scale: F)
    requires
        forall|channels: usize, factor: u64| #[trigger] call_requires(scale, (channels, factor)),
        forall|channels: usize, factor: u64, scaled: usize| #[trigger]
            call_ensures(scale, (channels, factor), scaled) ==> scaled <= usize::MAX / 3,
        config.input_channels <= usize::MAX / 3,
        config.insert_channels <= usize::MAX / 3,
    ensures
        channels_fit(config, scale),
{
    assert forall|channels: Seq<usize>, previous: usize|
        #![trigger are_channels_down(channels, config, scale), hands_up_channels(config, scale, channels.len() - 2, channels.last(), previous)]
        are_channels_down(channels, config, scale) && channels.len() > 1 && hands_up_channels(
            config,
            scale,
            channels.len() - 2,
            channels.last(),
            previous,
        ) implies channels.last() + previous + (if channels.len() == 2 {
        config.insert_channels as int
    } else {
        0
    }) <= usize::MAX by {
        assert(channels[channels.len() - 1] <= usize::MAX / 3);
    }
}

/// The encoders are those of the configuration: each takes the channels that
/// the one before it gives.
pub open spec fn are_encoders_for<F: Fn(usize, u64) -> usize>(
    encoders: Seq<UNetEncoder>,
    config: UNetConfig,
    scale: F,
) -> bool {
    forall|step: int| 0 <= step < encoders.len() ==> #[trigger] is_encoder_for(
        encoders,
        config,
        scale,
        step,
    )
}

/// The encoder of one step is that of the configuration.
pub open spec fn is_encoder_for<F: Fn(usize, u64) -> usize>(
    encoders: Seq<UNetEncoder>,
    config: UNetConfig,
    scale: F,
    step: int,
) -> bool {
    let encoder = encoders[step];
    let size = config.sizes@[step];
    &&& encoder.input_channels == if step == 0 {
        config.input_channels
    } else {
        encoders[step - 1].output_channels
    }
    &&& call_ensures(
        scale,
        (encoder.input_channels, size.down_channels_mul),
        encoder.output_channels,
    )
    &&& encoder.kernel_size == size.encoder_kernel_size
    &&& encoder.pool_size == size.pool_size
    &&& encoder.shrink_rate == pool_product(config.sizes@, (step + 1) as nat)
}

/// The decoder at `index` mirrors the encoder that is as far from the end as it
/// is from the start.
pub open spec fn is_decoder_for<F: Fn(usize, u64) -> usize>(
    decoders: Seq<UNetDecoder>,
    encoders: Seq<UNetEncoder>,
    config: UNetConfig,
    scale: F,
    index: int,
) -> bool {
    let depth = config.sizes@.len() - 1 - index;
    let decoder = decoders[index];
    let size = config.sizes@[depth];
    &&& decoder.input_channels == encoders[depth].output_channels + (if index == 0 {
        0
    } else {
        decoders[index - 1].output_channels as int
    }) + (if depth == 0 {
        config.insert_channels as int
    } else {
        0
    })
    &&& call_ensures(
        scale,
        (encoders[depth].input_channels, size.transposed_channels_mul),
        decoder.output_channels,
    )
    &&& decoder.kernel_size == size.decoder_kernel_size
    &&& decoder.stride == size.pool_size
    &&& decoder.padding == decoder_padding(
        size.decoder_kernel_size as nat,
        size.pool_size as nat,
    )
    &&& decoder.padding_out == size.pool_size + 2 * decoder.padding - size.decoder_kernel_size
}

/// The decoders are those of the configuration.
pub open spec fn are_decoders_for<F: Fn(usize, u64) -> usize>(
    decoders: Seq<UNetDecoder>,
    encoders: Seq<UNetEncoder>,
    config: UNetConfig,
    scale: F,
) -> bool {
    forall|index: int| 0 <= index < decoders.len() ==> #[trigger] is_decoder_for(
        decoders,
        encoders,
        config,
        scale,
        index,
    )
}

/// `unet` is built from `config`.
pub open spec fn is_unet_for<F: Fn(usize, u64) -> usize>(
    unet: UNet,
    config: UNetConfig,
    scale: F,
) -> bool {
    &&& unet.encoders@.len() == config.sizes@.len()
    &&& unet.decoders@.len() == config.sizes@.len()
    &&& are_encoders_for(unet.encoders@, config, scale)
    &&& are_decoders_for(unet.decoders@, unet.encoders@, config, scale)
    &&& unet.insert_channels == config.insert_channels
    &&& unet.final_conv.output_channels == config.output_channels
    &&& unet.final_conv.kernel_size == config.final_kernel_size
    &&& exists|upper: usize|
        {
            &&& #[trigger] call_ensures(
                scale,
                (config.input_channels, config.sizes@[0].transposed_channels_mul),
                upper,
            )
            &&& unet.final_conv.input_channels == config.input_channels + upper
        }
}

impl UNetConfig {
    /// Lays out the layers. `scale` multiplies a channel count by a factor, given
    /// by its bits, and rounds.
    pub fn init<F: Fn(usize, u64) -> usize>(&self, scale: F) -> (unet: UNet)
        requires
            config_fits(*self),
            channels_fit(*self, scale),
        ensures
            is_unet_for(unet, *self, scale),
    {
        let encoders: Vec<UNetEncoder> = self.init_encoders(&scale);
        let decoders: Vec<UNetDecoder> = self.init_decoders(&encoders, &scale);
        let upper: usize = scale(self.input_channels, self.sizes[0].transposed_channels_mul);
        let final_conv = FinalConv {
            input_channels: self.input_channels + upper,
            output_channels: self.output_channels,
            kernel_size: self.final_kernel_size,
        };
        UNet { encoders, decoders, final_conv, insert_channels: self.insert_channels }
    }

    fn init_encoders<F: Fn(usize, u64) -> usize>(&self, scale: &F) -> (encoders: Vec<UNetEncoder>)
        requires
            config_fits(*self),
            channels_fit(*self, *scale),
        ensures
            encoders@.len() == self.sizes@.len(),
            are_encoders_for(encoders@, *self, *scale),
    {
        let mut encoders: Vec<UNetEncoder> = Vec::new();
        let mut channels: usize = self.input_channels;
        let mut shrink_rate: usize = 1;
        while encoders.len() < self.sizes.len()
            invariant
                config_fits(*self),
                channels_fit(*self, *scale),
                encoders@.len() <= self.sizes@.len(),
                channels == if encoders@.len() == 0 {
                    self.input_channels
                } else {
                    encoders@.last().output_channels
                },
                shrink_rate == pool_product(self.sizes@, encoders@.len()),
                are_encoders_for(encoders@, *self, *scale),
            decreases self.sizes@.len() - encoders@.len(),
        {
            let ghost before = encoders@;
            let step: UNetStepConfig = self.sizes[encoders.len()];
            let input_channels: usize = channels;
            channels = scale(channels, step.down_channels_mul);
            proof {
                assert(pool_product(self.sizes@, (before.len() + 1) as nat) == shrink_rate
                    * step.pool_size);
            }
            shrink_rate = shrink_rate * step.pool_size;
            encoders.push(
                UNetEncoder {
                    input_channels,
                    output_channels: channels,
                    kernel_size: step.encoder_kernel_size,
                    pool_size: step.pool_size,
                    shrink_rate,
                },
            );
            proof {
                assert forall|step: int| 0 <= step < encoders@.len() implies #[trigger] is_encoder_for(
                    encoders@,
                    *self,
                    *scale,
                    step,
                ) by {
                    if step < before.len() {
                        assert(is_encoder_for(before, *self, *scale, step));
                    }
                }
            }
        }
        encoders
    }

    fn init_decoders<F: Fn(usize, u64) -> usize>(
        &self,
        encoders: &Vec<UNetEncoder>,
        scale: &F,
    ) -> (decoders: Vec<UNetDecoder>)
        requires
            config_fits(*self),
            channels_fit(*self, *scale),
            encoders@.len() == self.sizes@.len(),
            are_encoders_for(encoders@, *self, *scale),
        ensures
            decoders@.len() == self.sizes@.len(),
            are_decoders_for(decoders@, encoders@, *self, *scale),
    {
        let mut decoders: Vec<UNetDecoder> = Vec::new();
        let mut channels: usize = 0;
        while decoders.len() < self.sizes.len()
            invariant
                config_fits(*self),
                channels_fit(*self, *scale),
                encoders@.len() == self.sizes@.len(),
                decoders@.len() <= self.sizes@.len(),
                channels == if decoders@.len() == 0 {
                    0
                } else {
                    decoders@.last().output_channels
                },
                are_encoders_for(encoders@, *self, *scale),
                are_decoders_for(decoders@, encoders@, *self, *scale),
            decreases self.sizes@.len() - decoders@.len(),
        {
            let ghost before = decoders@;
            let depth: usize = self.sizes.len() - 1 - decoders.len();
            let step: UNetStepConfig = self.sizes[depth];
            let encoder: UNetEncoder = encoders[depth];
            proof {
                assert(is_encoder_for(encoders@, *self, *scale, depth as int));
                lemma_channels_down(encoders@, *self, *scale, depth as int);
                let down = channels_down(*self, encoders@, depth as int);
                if before.len() > 0 {
                    assert(is_encoder_for(encoders@, *self, *scale, depth + 1));
                    assert(is_decoder_for(before, encoders@, *self, *scale, before.len() - 1));
                }
                assert(hands_up_channels(
                    *self,
                    *scale,
                    down.len() - 2,
                    down.last(),
                    channels,
                ));
            }
            let input_channels: usize = if depth == 0 {
                channels + self.insert_channels + encoder.output_channels
            } else {
                channels + encoder.output_channels
            };
            let output_channels: usize = scale(
                encoder.input_channels,
                step.transposed_channels_mul,
            );
            let padding: usize = if step.decoder_kernel_size <= step.pool_size {
                0
            } else {
                (step.decoder_kernel_size - step.pool_size) / 2 + (step.decoder_kernel_size
                    - step.pool_size) % 2
            };
            let padding_out: usize = step.pool_size + 2 * padding - step.decoder_kernel_size;
            channels = output_channels;
            decoders.push(
                UNetDecoder {
                    input_channels,
                    output_channels,
                    kernel_size: step.decoder_kernel_size,
                    stride: step.pool_size,
                    padding,
                    padding_out,
                },
            );
            proof {
                assert forall|index: int| 0 <= index < decoders@.len() implies #[trigger] is_decoder_for(
                    decoders@,
                    encoders@,
                    *self,
                    *scale,
                    index,
                ) by {
                    if index < before.len() {
                        assert(is_decoder_for(before, encoders@, *self, *scale, index));
                    }
                }
            }
        }
        decoders
    }
}

/// The channels of the input and of the encoders up to `step`.
spec fn channels_down(config: UNetConfig, encoders: Seq<UNetEncoder>, step: int) -> Seq<usize> {
    Seq::new(
        (step + 2) as nat,
        |place: int|
            if place == 0 {
                config.input_channels
            } else {
                encoders[place - 1].output_channels
            },
    )
}

/// Encoders have channels that their configuration can have.
proof fn lemma_channels_down<F: Fn(usize, u64) -> usize>(
    encoders: Seq<UNetEncoder>,
    config: UNetConfig,
    scale: F,
    step: int,
)
    requires
        are_encoders_for(encoders, config, scale),
        0 <= step < encoders.len() <= config.sizes@.len(),
    ensures
        are_channels_down(channels_down(config, encoders, step), config, scale),
        channels_down(config, encoders, step).last() == encoders[step].output_channels,
{
    let channels = channels_down(config, encoders, step);
    assert forall|place: int| 0 < place < channels.len() implies call_ensures(
        scale,
        (channels[place - 1], config.sizes@[place - 1].down_channels_mul),
        #[trigger] channels[place],
    ) by {
        assert(is_encoder_for(encoders, config, scale, place - 1));
    }
}

/// How many times smaller the output of the first encoder is than the input.
pub open spec fn first_shrink_rate(unet: UNet) -> usize {
    if unet.encoders@.len() == 0 {
        1
    } else {
        unet.encoders@.first().shrink_rate
    }
}

/// How many times smaller the output of the last encoder is than the input.
pub open spec fn last_shrink_rate(unet: UNet) -> usize {
    if unet.encoders@.len() == 0 {
        1
    } else {
        unet.encoders@.last().shrink_rate
    }
}

/// `skips` are the outputs of the encoders, the first of which is given
/// `conditioned` and each other the output before it.
pub open spec fn are_skips<T, E: Fn(usize, &T) -> T>(
    skips: Seq<T>,
    conditioned: T,
    encode: E,
) -> bool {
    forall|step: int|
        0 <= step < skips.len() ==> call_ensures(
            encode,
            (step as usize, &(if step == 0 {
                conditioned
            } else {
                skips[step - 1]
            })),
            #[trigger] skips[step],
        )
}

/// `outputs` are the outputs of the decoders. Each is given the encoder output
/// of its own size and, but for the first, the decoder output before it; the
/// last is also given the insert.
pub open spec fn are_decoded<T, D: Fn(usize, &T, Option<&T>, Option<&T>) -> T>(
    outputs: Seq<T>,
    skips: Seq<T>,
    insert: T,
    decode: D,
) -> bool {
    forall|index: int|
        0 <= index < outputs.len() ==> call_ensures(
            decode,
            (
                index as usize,
                &skips[skips.len() - 1 - index],
                if index + 1 == skips.len() {
                    Some(&insert)
                } else {
                    None
                },
                if index == 0 {
                    None
                } else {
                    Some(&outputs[index - 1])
                },
            ),
            #[trigger] outputs[index],
        )
}

impl UNet {
    /// Height and width of the smallest input.
    pub fn minimum_input_size(&self) -> (size: [usize; 2])
        ensures
            size@ == seq![last_shrink_rate(*self), last_shrink_rate(*self)],
    {
        let count: usize = self.encoders.len();
        let shrink_rate: usize = if count == 0 {
            1
        } else {
            self.encoders[count - 1].shrink_rate
        };
        let size: [usize; 2] = [shrink_rate, shrink_rate];
        proof {
            assert(size@ =~= seq![shrink_rate, shrink_rate]);
        }
        size
    }

    /// Height and width of the insert for an input of `input_size`.
    pub fn expected_insert_size(&self, input_size: [usize; 2]) -> (size: [usize; 2])
        requires
            first_shrink_rate(*self) > 0,
            input_size[0] % first_shrink_rate(*self) == 0,
            input_size[1] % first_shrink_rate(*self) == 0,
        ensures
            size@ == seq![
                input_size[0] / first_shrink_rate(*self),
                input_size[1] / first_shrink_rate(*self),
            ],
    {
        let shrink_rate: usize = if self.encoders.len() == 0 {
            1
        } else {
            self.encoders[0].shrink_rate
        };
        let size: [usize; 2] = [input_size[0] / shrink_rate, input_size[1] / shrink_rate];
        proof {
            assert(size@ =~= seq![
                input_size[0] / first_shrink_rate(*self),
                input_size[1] / first_shrink_rate(*self),
            ]);
        }
        size
    }

    /// The channels of the insert.
    pub fn insert_channels(&self) -> (channels: usize)
        ensures
            channels == self.insert_channels,
    {
        self.insert_channels
    }

    /// Applies the layers to an input that has been joined with its noise level.
    ///
    /// `encode` applies the encoder of a step. `decode` applies the decoder at an
    /// index to the encoder output of its size, joined with the insert and with
    /// the decoder output before it as far as they are given. `finish` applies the
    /// last convolution to the input and the output of the last decoder.
    pub fn forward<
        T,
        E: Fn(usize, &T) -> T,
        D: Fn(usize, &T, Option<&T>, Option<&T>) -> T,
        F: Fn(&T, &T) -> T,
    >(&self, conditioned: T, insert: T, encode: E, decode: D, finish: F) -> (result: T)
        requires
            self.encoders@.len() > 0,
            self.decoders@.len() == self.encoders@.len(),
            forall|step: usize, input: &T|
                step < self.encoders@.len() ==> #[trigger] call_requires(encode, (step, input)),
            forall|index: usize, skip: &T, insert: Option<&T>, previous: Option<&T>|
                index < self.decoders@.len() ==> #[trigger] call_requires(
                    decode,
                    (index, skip, insert, previous),
                ),
            forall|input: &T, decoded: &T| #[trigger] call_requires(finish, (input, decoded)),
        ensures
            exists|skips: Seq<T>, outputs: Seq<T>|
                {
                    &&& skips.len() == self.encoders@.len()
                    &&& outputs.len() == self.encoders@.len()
                    &&& #[trigger] are_skips(skips, conditioned, encode)
                    &&& #[trigger] are_decoded(outputs, skips, insert, decode)
                    &&& call_ensures(finish, (&conditioned, &outputs.last()), result)
                },
    {
        let mut skips: Vec<T> = Vec::new();
        while skips.len() < self.encoders.len()
            invariant
                skips@.len() <= self.encoders@.len(),
                forall|step: usize, input: &T|
                    step < self.encoders@.len() ==> #[trigger] call_requires(encode, (step, input)),
                are_skips(skips@, conditioned, encode),
            decreases self.encoders@.len() - skips@.len(),
        {
            let ghost before = skips@;
            let step: usize = skips.len();
            let skip: T = if step == 0 {
                encode(step, &conditioned)
            } else {
                encode(step, &skips[step - 1])
            };
            skips.push(skip);
            proof {
                assert forall|step: int| 0 <= step < skips@.len() implies call_ensures(
                    encode,
                    (step as usize, &(if step == 0 {
                        conditioned
                    } else {
                        skips@[step - 1]
                    })),
                    #[trigger] skips@[step],
                ) by {
                    if step < before.len() {
                        assert(before[step] == skips@[step]);
                    }
                }
            }
        }
        let mut outputs: Vec<T> = Vec::new();
        while outputs.len() < self.decoders.len()
            invariant
                skips@.len() == self.encoders@.len(),
                self.decoders@.len() == self.encoders@.len(),
                outputs@.len() <= self.decoders@.len(),
                forall|index: usize, skip: &T, insert: Option<&T>, previous: Option<&T>|
                    index < self.decoders@.len() ==> #[trigger] call_requires(
                        decode,
                        (index, skip, insert, previous),
                    ),
                are_decoded(outputs@, skips@, insert, decode),
            decreases self.decoders@.len() - outputs@.len(),
        {
            let ghost before = outputs@;
            let index: usize = outputs.len();
            let added: Option<&T> = if index == self.decoders.len() - 1 {
                Some(&insert)
            } else {
                None
            };
            let previous: Option<&T> = if index == 0 {
                None
            } else {
                Some(&outputs[index - 1])
            };
            let output: T = decode(index, &skips[skips.len() - 1 - index], added, previous);
            outputs.push(output);
            proof {
                assert forall|index: int| 0 <= index < outputs@.len() implies call_ensures(
                    decode,
                    (
                        index as usize,
                        &skips@[skips@.len() - 1 - index],
                        if index + 1 == skips@.len() {
                            Some(&insert)
                        } else {
                            None
                        },
                        if index == 0 {
                            None
                        } else {
                            Some(&outputs@[index - 1])
                        },
                    ),
                    #[trigger] outputs@[index],
                ) by {
                    if index < before.len() {
                        assert(before[index] == outputs@[index]);
                    }
                }
            }
        }
        let last: usize = outputs.len() - 1;
        let result: T = finish(&conditioned, &outputs[last]);
        proof {
            assert(outputs@.last() == outputs@[last as int]);
            assert(are_skips(skips@, conditioned, encode));
            assert(are_decoded(outputs@, skips@, insert, decode));
        }
        result
    }
}

/// The size that a transposed convolution makes of `size`.
pub open spec fn transposed_size(decoder: UNetDecoder, size: int) -> int {
    (size - 1) * decoder.stride - 2 * decoder.padding + decoder.kernel_size + decoder.padding_out
}

/// The size that a pooling with equal window and stride makes of `size`.
pub open spec fn pooled_size(encoder: UNetEncoder, size: int) -> int {
    (size - encoder.pool_size) / encoder.pool_size as int + 1
}

/// The size after the first `count` encoders.
pub open spec fn encoded_size(unet: UNet, size: int, count: int) -> int {
    if count == 0 {
        size
    } else {
        size / unet.encoders@[count - 1].shrink_rate as int
    }
}

proof fn lemma_pool_product_divides(sizes: Seq<UNetStepConfig>, low: nat, high: nat)
    requires
        low <= high <= sizes.len(),
        forall|step: int| 0 <= step < sizes.len() ==> (#[trigger] sizes[step]).pool_size > 0,
    ensures
        pool_product(sizes, low) > 0,
        exists|factor: nat|
            factor > 0 && #[trigger] (factor * pool_product(sizes, low)) == pool_product(
                sizes,
                high,
            ),
    decreases high,
{
    if low == high {
        lemma_pool_product_positive(sizes, low);
        assert(1 * pool_product(sizes, low) == pool_product(sizes, high));
    } else {
        lemma_pool_product_divides(sizes, low, (high - 1) as nat);
        let factor = choose|factor: nat|
            factor > 0 && #[trigger] (factor * pool_product(sizes, low)) == pool_product(
                sizes,
                (high - 1) as nat,
            );
        let pool = sizes[high - 1].pool_size as nat;
        let base = pool_product(sizes, low);
        assert((factor * base) * pool == (factor * pool) * base && factor * pool > 0)
            by (nonlinear_arith)
            requires
                factor > 0,
                pool > 0,
        ;
        assert((factor * pool) * pool_product(sizes, low) == pool_product(sizes, high));
    }
}

proof fn lemma_pool_product_positive(sizes: Seq<UNetStepConfig>, count: nat)
    requires
        count <= sizes.len(),
        forall|step: int| 0 <= step < sizes.len() ==> (#[trigger] sizes[step]).pool_size > 0,
    ensures
        pool_product(sizes, count) > 0,
    decreases count,
{
    if count > 0 {
        lemma_pool_product_positive(sizes, (count - 1) as nat);
        let low = pool_product(sizes, (count - 1) as nat);
        let pool = sizes[count - 1].pool_size as nat;
        assert(low * pool > 0) by (nonlinear_arith)
            requires
                low > 0,
                pool > 0,
        ;
    }
}

/// The sizes of a network fit together on every multiple of its minimum input
/// size. Each pooling divides without a remainder. Each transposed convolution
/// undoes the pooling of its step, so that it meets the next encoder output at
/// the same size, and the last one gives back the size of the input. The insert
/// has the size of the first encoder's output.
pub proof fn law_sizes_fit<F: Fn(usize, u64) -> usize>(
    unet: UNet,
    config: UNetConfig,
    scale: F,
    size: int,
)
    requires
        is_unet_for(unet, config, scale),
        config_fits(config),
        forall|step: int|
            0 <= step < config.sizes@.len() ==> (#[trigger] config.sizes@[step]).pool_size > 0,
        size > 0,
        size % last_shrink_rate(unet) as int == 0,
    ensures
        forall|step: int|
            0 <= step < unet.encoders@.len() ==> {
                &&& pooled_size(
                    #[trigger] unet.encoders@[step],
                    encoded_size(unet, size, step),
                ) == encoded_size(unet, size, step + 1)
                &&& encoded_size(unet, size, step + 1) > 0
                &&& encoded_size(unet, size, step + 1) * unet.encoders@[step].shrink_rate == size
            },
        forall|index: int|
            0 <= index < unet.decoders@.len() ==> transposed_size(
                #[trigger] unet.decoders@[index],
                encoded_size(unet, size, unet.encoders@.len() - index),
            ) == encoded_size(unet, size, unet.encoders@.len() - 1 - index),
        size % first_shrink_rate(unet) as int == 0,
        size / first_shrink_rate(unet) as int == encoded_size(unet, size, 1),
{
    let count = unet.encoders@.len() as int;
    assert forall|step: int| 0 <= step < count implies {
        &&& pooled_size(#[trigger] unet.encoders@[step], encoded_size(unet, size, step))
            == encoded_size(unet, size, step + 1)
        &&& encoded_size(unet, size, step + 1) > 0
        &&& encoded_size(unet, size, step + 1) * unet.encoders@[step].shrink_rate == size
    } by {
        lemma_step_sizes(unet, config, scale, size, step);
        lemma_pooling(
            unet.encoders@[step],
            encoded_size(unet, size, step),
            encoded_size(unet, size, step + 1),
        );
    }
    assert forall|index: int| 0 <= index < unet.decoders@.len() implies transposed_size(
        #[trigger] unet.decoders@[index],
        encoded_size(unet, size, count - index),
    ) == encoded_size(unet, size, count - 1 - index) by {
        let step = count - 1 - index;
        lemma_step_sizes(unet, config, scale, size, step);
        assert(is_decoder_for(unet.decoders@, unet.encoders@, config, scale, index));
        let decoder = unet.decoders@[index];
        let small = encoded_size(unet, size, step + 1);
        assert((small - 1) * decoder.stride == small * decoder.stride - decoder.stride)
            by (nonlinear_arith);
    }
    lemma_step_sizes(unet, config, scale, size, 0);
    let rate = unet.encoders@[0].shrink_rate as int;
    vstd::arithmetic::div_mod::lemma_mod_multiples_basic(encoded_size(unet, size, 1), rate);
}

proof fn lemma_pooling(encoder: UNetEncoder, large: int, small: int)
    requires
        encoder.pool_size > 0,
        small > 0,
        large == small * encoder.pool_size,
    ensures
        pooled_size(encoder, large) == small,
{
    let pool = encoder.pool_size as int;
    assert(large - pool == (small - 1) * pool) by (nonlinear_arith)
        requires
            large == small * pool,
    ;
    vstd::arithmetic::div_mod::lemma_div_by_multiple(small - 1, pool);
}

/// One encoder divides its size by its pool exactly.
proof fn lemma_step_sizes<F: Fn(usize, u64) -> usize>(
    unet: UNet,
    config: UNetConfig,
    scale: F,
    size: int,
    step: int,
)
    requires
        is_unet_for(unet, config, scale),
        forall|step: int|
            0 <= step < config.sizes@.len() ==> (#[trigger] config.sizes@[step]).pool_size > 0,
        size > 0,
        size % last_shrink_rate(unet) as int == 0,
        0 <= step < unet.encoders@.len(),
    ensures
        unet.encoders@[step].pool_size > 0,
        unet.encoders@[step].pool_size == config.sizes@[step].pool_size,
        unet.encoders@[step].shrink_rate > 0,
        encoded_size(unet, size, step) == encoded_size(unet, size, step + 1)
            * unet.encoders@[step].pool_size,
        encoded_size(unet, size, step + 1) > 0,
        encoded_size(unet, size, step + 1) * unet.encoders@[step].shrink_rate == size,
{
    let sizes = config.sizes@;
    let count = sizes.len();
    assert(is_encoder_for(unet.encoders@, config, scale, step));
    assert(is_encoder_for(unet.encoders@, config, scale, count - 1));
    lemma_pool_product_divides(sizes, (step + 1) as nat, count);
    let whole = pool_product(sizes, count);
    let rate = pool_product(sizes, (step + 1) as nat);
    let factor = choose|factor: nat|
        factor > 0 && #[trigger] (factor * pool_product(sizes, (step + 1) as nat))
            == pool_product(sizes, count);
    lemma_pool_product_positive(sizes, count);
    vstd::arithmetic::div_mod::lemma_fundamental_div_mod(size, whole as int);
    let times = size / (whole as int);
    let small = times * factor;
    assert(size == small * rate) by (nonlinear_arith)
        requires
            size == whole * times,
            whole == factor * rate,
            small == times * factor,
    ;
    vstd::arithmetic::div_mod::lemma_div_by_multiple(small, rate as int);
    assert(small > 0) by (nonlinear_arith)
        requires
            size == small * rate,
            size > 0,
            rate > 0,
    ;
    let pool = sizes[step].pool_size as nat;
    let previous = pool_product(sizes, step as nat);
    lemma_pool_product_positive(sizes, step as nat);
    assert(size == (small * pool) * previous) by (nonlinear_arith)
        requires
            size == small * rate,
            rate == previous * pool,
    ;
    vstd::arithmetic::div_mod::lemma_div_by_multiple(small * pool, previous as int);
    if step > 0 {
        assert(is_encoder_for(unet.encoders@, config, scale, step - 1));
    } else {
        assert(pool_product(sizes, 0) == 1);
        assert((small * pool) * 1 == small * pool);
    }
}

/// The channels of a network fit together: what is joined for a decoder has as
/// many channels as it takes, and so has what is joined for the last convolution
/// if scaling a channel count always gives the same result.
pub proof fn law_channels_fit<F: Fn(usize, u64) -> usize>(
    unet: UNet,
    config: UNetConfig,
    scale: F,
    index: int,
)
    requires
        is_unet_for(unet, config, scale),
        config_fits(config),
        0 <= index < unet.decoders@.len(),
        forall|channels: usize, factor: u64, one: usize, other: usize|
            #![trigger call_ensures(scale, (channels, factor), one), call_ensures(scale, (channels, factor), other)]
            call_ensures(scale, (channels, factor), one) && call_ensures(
                scale,
                (channels, factor),
                other,
            ) ==> one == other,
    ensures
        unet.encoders@.first().input_channels == config.input_channels,
        index > 0 ==> unet.encoders@[index].input_channels == unet.encoders@[index
            - 1].output_channels,
        unet.decoders@[index].input_channels == unet.encoders@[unet.encoders@.len() - 1
            - index].output_channels + (if index > 0 {
            unet.decoders@[index - 1].output_channels as int
        } else {
            0
        }) + (if index + 1 == unet.decoders@.len() {
            unet.insert_channels as int
        } else {
            0
        }),
        unet.final_conv.input_channels == config.input_channels
            + unet.decoders@.last().output_channels,
{
    let count = unet.encoders@.len() as int;
    assert(is_decoder_for(unet.decoders@, unet.encoders@, config, scale, index));
    assert(is_decoder_for(unet.decoders@, unet.encoders@, config, scale, count - 1));
    assert(is_encoder_for(unet.encoders@, config, scale, 0));
    assert(is_encoder_for(unet.encoders@, config, scale, index));
}

/// Each layer goes by the step of the configuration that it belongs to. An encoder has the
/// step's kernel and pool, scales its channels by the step's factor, and shrinks by its pool
/// what the one before it shrinks. The decoder that mirrors it has the step's other kernel
/// and undoes its pool, and scales the channels that the encoder takes.
pub proof fn law_layers_follow_their_step<F: Fn(usize, u64) -> usize>(
    unet: UNet,
    config: UNetConfig,
    scale: F,
    step: int,
)
    requires
        is_unet_for(unet, config, scale),
        0 <= step < config.sizes@.len(),
    ensures
        ({
            let size = config.sizes@[step];
            let encoder = unet.encoders@[step];
            let decoder = unet.decoders@[config.sizes@.len() - 1 - step];
            &&& unet.encoders@.len() == config.sizes@.len()
            &&& unet.decoders@.len() == config.sizes@.len()
            &&& encoder.kernel_size == size.encoder_kernel_size
            &&& encoder.pool_size == size.pool_size
            &&& call_ensures(
                scale,
                (encoder.input_channels, size.down_channels_mul),
                encoder.output_channels,
            )
            &&& step == 0 ==> encoder.shrink_rate == size.pool_size && encoder.input_channels
                == config.input_channels
            &&& step > 0 ==> encoder.shrink_rate == unet.encoders@[step - 1].shrink_rate
                * size.pool_size && encoder.input_channels == unet.encoders@[step
                - 1].output_channels
            &&& decoder.kernel_size == size.decoder_kernel_size
            &&& decoder.stride == size.pool_size
            &&& call_ensures(
                scale,
                (encoder.input_channels, size.transposed_channels_mul),
                decoder.output_channels,
            )
            &&& decoder.stride + 2 * decoder.padding == decoder.kernel_size + decoder.padding_out
            &&& decoder.kernel_size >= decoder.stride ==> decoder.padding_out <= 1
            &&& decoder.kernel_size <= decoder.stride ==> decoder.padding == 0
            &&& unet.insert_channels == config.insert_channels
            &&& unet.final_conv.output_channels == config.output_channels
            &&& unet.final_conv.kernel_size == config.final_kernel_size
        }),
{
    let index = config.sizes@.len() - 1 - step;
    assert(is_encoder_for(unet.encoders@, config, scale, step));
    assert(is_decoder_for(unet.decoders@, unet.encoders@, config, scale, index));
    if step > 0 {
        assert(is_encoder_for(unet.encoders@, config, scale, step - 1));
    } else {
        assert(pool_product(config.sizes@, 0) == 1);
        assert(pool_product(config.sizes@, 1) == 1 * config.sizes@[0].pool_size as nat);
    }
}

/// Data flows down through the encoders one after the other, the first of which takes the
/// network's input.
pub proof fn law_encoders_are_chained<T, E: Fn(usize, &T) -> T>(
    skips: Seq<T>,
    conditioned: T,
    encode: E,
    step: int,
)
    requires
        are_skips(skips, conditioned, encode),
        0 < step < skips.len(),
    ensures
        call_ensures(encode, (0usize, &conditioned), skips[0]),
        call_ensures(encode, (step as usize, &skips[step - 1]), skips[step]),
{
}

/// Data flows up through the decoders: each is handed the encoder output of its own size and
/// the result of the decoder below it, and only the last, at the largest size, the insert.
pub proof fn law_decoders_are_chained<T, D: Fn(usize, &T, Option<&T>, Option<&T>) -> T>(
    outputs: Seq<T>,
    skips: Seq<T>,
    insert: T,
    decode: D,
    index: int,
)
    requires
        are_decoded(outputs, skips, insert, decode),
        outputs.len() == skips.len(),
        skips.len() > 1,
        0 < index < skips.len() - 1,
    ensures
        call_ensures(decode, (0usize, &skips.last(), None, None), outputs[0]),
        call_ensures(
            decode,
            (index as usize, &skips[skips.len() - 1 - index], None, Some(&outputs[index - 1])),
            outputs[index],
        ),
        call_ensures(
            decode,
            (
                (skips.len() - 1) as usize,
                &skips[0],
                Some(&insert),
                Some(&outputs[skips.len() - 2]),
            ),
            outputs[skips.len() - 1],
        ),
{
}

/// A default step halves the size, has kernels of three, doubles the channels on the way
/// down and keeps them on the way up.
pub proof fn law_default_steps_halve_and_double()
    ensures
        default_step().pool_size == 2,
        default_step().encoder_kernel_size == 3,
        default_step().decoder_kernel_size == 3,
        default_step().down_channels_mul == 0x4000_0000_0000_0000,
        default_step().transposed_channels_mul == 0x3ff0_0000_0000_0000,
{
}

/// A network takes inputs that its last encoder makes one pixel of, and inserts of the size
/// that its first encoder makes; without encoders, of any size.
pub proof fn law_rates_are_those_of_the_ends(unet: UNet)
    ensures
        unet.encoders@.len() > 0 ==> first_shrink_rate(unet) == unet.encoders@[0].shrink_rate,
        unet.encoders@.len() > 0 ==> last_shrink_rate(unet) == unet.encoders@[unet.encoders@.len()
            - 1].shrink_rate,
        unet.encoders@.len() == 0 ==> first_shrink_rate(unet) == 1 && last_shrink_rate(unet) == 1,
{
}

} // verus!
