//! What a training run is set up with.
use crate::ieee::{
    double_is_finite_and_non_negative, double_is_zero, is_finite_and_non_negative, is_zero,
    law_doubles_by_their_bits,
};
use crate::model::u_net::default_step;
use crate::model::{DiffusionModelConfig, DEFAULT_MODEL_STEPS};
use crate::paths::{join_path, path_in};
use crate::text::{decimal, push_decimal};
use crate::train::loss::{weight_of, LineartLossConfig, LossTerm};
use vstd::prelude::*;

verus! {

/// How often each noise pattern is chosen: weights, as the bits of doubles.
#[derive(Clone, Copy, Debug, PartialEq, Eq, Structural)]
pub struct NoiseLevelConfig {
    pub full_weight: u64,
    pub band_weight: u64,
    pub rectangle_weight: u64,
    pub region_line_clean_weight: u64,
}

/// Why the weights are refused, if they are.
pub open spec fn noise_level_error(config: NoiseLevelConfig) -> Option<Seq<char>> {
    if !double_is_finite_and_non_negative(config.full_weight) || !double_is_finite_and_non_negative(
        config.band_weight,
    ) || !double_is_finite_and_non_negative(config.rectangle_weight)
        || !double_is_finite_and_non_negative(config.region_line_clean_weight) {
        Some("noise level weights must be finite and non-negative"@)
    } else if double_is_zero(config.full_weight) && double_is_zero(config.band_weight)
        && double_is_zero(config.rectangle_weight) && double_is_zero(
        config.region_line_clean_weight,
    ) {
        Some("at least one noise level weight must be greater than zero"@)
    } else {
        None
    }
}

impl NoiseLevelConfig {
    /// All patterns are as likely as one another.
    pub fn new() -> (config: Self)
        ensures
            config.full_weight == 0x3ff0_0000_0000_0000,
            config.band_weight == 0x3ff0_0000_0000_0000,
            config.rectangle_weight == 0x3ff0_0000_0000_0000,
            config.region_line_clean_weight == 0x3ff0_0000_0000_0000,
    {
        NoiseLevelConfig {
            full_weight: 0x3ff0_0000_0000_0000,
            band_weight: 0x3ff0_0000_0000_0000,
            rectangle_weight: 0x3ff0_0000_0000_0000,
            region_line_clean_weight: 0x3ff0_0000_0000_0000,
        }
    }

    /// Refuses weights that are no weights, and that are all zero.
    pub fn validate(&self) -> (result: Result<(), String>)
        ensures
            match noise_level_error(*self) {
                Some(expected) => result matches Err(message) && message@ == expected,
                None => result is Ok,
            },
    {
        if !is_finite_and_non_negative(self.full_weight) || !is_finite_and_non_negative(
            self.band_weight,
        ) || !is_finite_and_non_negative(self.rectangle_weight) || !is_finite_and_non_negative(
            self.region_line_clean_weight,
        ) {
            return Err("noise level weights must be finite and non-negative".to_owned());
        }
        if is_zero(self.full_weight) && is_zero(self.band_weight) && is_zero(self.rectangle_weight)
            && is_zero(self.region_line_clean_weight) {
            return Err("at least one noise level weight must be greater than zero".to_owned());
        }
        Ok(())
    }
}

/// The settings of a training run. Fractions are held as the bits of singles or
/// doubles.
#[derive(Clone, Debug, PartialEq, Eq)]
pub struct TrainingConfig {
    pub model: DiffusionModelConfig,
    pub dataset_dir: String,
    pub artifact_dir: String,
    pub num_epochs: usize,
    pub batch_size: usize,
    pub noise_pool_size: Option<usize>,
    pub micro_batch_size: usize,
    pub valid_count: usize,
    pub num_workers: usize,
    /// The bits of a double.
    pub learning_rate: u64,
    pub seed: u64,
    pub resume_epoch: Option<usize>,
    pub sample_export_enabled: bool,
    pub sample_export_dir: String,
    /// The bits of singles.
    pub sample_noise_levels: Vec<u32>,
    pub sample_denoising_steps: usize,
    pub balance_loss_by_tone: bool,
    pub lineart_loss: LineartLossConfig,
    pub noise_level: NoiseLevelConfig,
    pub recursive_training_insert: bool,
    /// The bits of a double.
    pub scale_loss_multiplier: u64,
}

/// The bits of the singles 0, 0.1, 0.2 and so on up to 1.
pub open spec fn tenths() -> Seq<u32> {
    seq![
        0u32,
        0x3dcc_cccd,
        0x3e4c_cccd,
        0x3e99_999a,
        0x3ecc_cccd,
        0x3f00_0000,
        0x3f19_999a,
        0x3f33_3333,
        0x3f4c_cccd,
        0x3f66_6666,
        0x3f80_0000,
    ]
}

impl TrainingConfig {
    /// The settings of an ordinary run.
    pub fn new() -> (config: Self)
        ensures
            config.model.u_net.sizes@ == Seq::new(
                DEFAULT_MODEL_STEPS as nat,
                |step: int| default_step(),
            ),
            config.model.u_net.insert_channels == 1,
            config.model.u_net.input_channels == 2,
            config.model.u_net.output_channels == 1,
            config.model.u_net.final_kernel_size == 3,
            config.dataset_dir@ == "dataset/images"@,
            config.artifact_dir@ == "tmp/training"@,
            config.num_epochs == 3000,
            config.batch_size == 128,
            config.noise_pool_size == Some(256usize),
            config.micro_batch_size == 16,
            config.valid_count == 64,
            config.num_workers == 0,
            config.learning_rate == 0x3f1a_36e2_eb1c_432d,
            config.seed == 42,
            config.resume_epoch is None,
            config.sample_export_enabled,
            config.sample_export_dir@ == "samples"@,
            config.sample_noise_levels@ == tenths(),
            config.sample_denoising_steps == 20,
            config.balance_loss_by_tone,
            forall|term: LossTerm| #[trigger] weight_of(config.lineart_loss, term) == 0,
            config.noise_level.full_weight == 0x3ff0_0000_0000_0000,
            config.noise_level.band_weight == 0x3ff0_0000_0000_0000,
            config.noise_level.rectangle_weight == 0x3ff0_0000_0000_0000,
            config.noise_level.region_line_clean_weight == 0x3ff0_0000_0000_0000,
            config.recursive_training_insert,
            config.scale_loss_multiplier == 0,
    {
        let sample_noise_levels: Vec<u32> = vec![
            0,
            0x3dcc_cccd,
            0x3e4c_cccd,
            0x3e99_999a,
            0x3ecc_cccd,
            0x3f00_0000,
            0x3f19_999a,
            0x3f33_3333,
            0x3f4c_cccd,
            0x3f66_6666,
            0x3f80_0000,
        ];
        proof {
            assert(sample_noise_levels@ =~= tenths());
        }
        TrainingConfig {
            model: DiffusionModelConfig::new(),
            dataset_dir: "dataset/images".to_owned(),
            artifact_dir: "tmp/training".to_owned(),
            num_epochs: 3000,
            batch_size: 128,
            noise_pool_size: Some(256),
            micro_batch_size: 16,
            valid_count: 64,
            num_workers: 0,
            learning_rate: 0x3f1a_36e2_eb1c_432d,
            seed: 42,
            resume_epoch: None,
            sample_export_enabled: true,
            sample_export_dir: "samples".to_owned(),
            sample_noise_levels,
            sample_denoising_steps: 20,
            balance_loss_by_tone: true,
            lineart_loss: LineartLossConfig::new(),
            noise_level: NoiseLevelConfig::new(),
            recursive_training_insert: true,
            scale_loss_multiplier: 0,
        }
    }

    /// Where the settings of a run are saved.
    pub fn config_path(&self) -> (path: String)
        ensures
            path@ == self.artifact_dir@ + "/config.json"@,
    {
        let mut path: String = self.artifact_dir.clone();
        path.append("/config.json");
        path
    }

    /// Refuses settings that cannot be trained with.
    pub fn validate(&self) -> (result: Result<(), String>)
        ensures
            match config_error(*self) {
                Some(expected) => result matches Err(message) && message@ == expected,
                None => result is Ok,
            },
    {
        if self.batch_size == 0 {
            return Err("batch_size must be greater than zero".to_owned());
        }
        if self.micro_batch_size == 0 {
            return Err("micro_batch_size must be greater than zero".to_owned());
        }
        if !is_finite_and_non_negative(self.scale_loss_multiplier) {
            return Err("scale_loss_multiplier must be finite and non-negative".to_owned());
        }
        match self.noise_level.validate() {
            Ok(_) => {},
            Err(message) => {
                return Err(message);
            },
        }
        match self.noise_pool_size {
            Some(noise_pool_size) => {
                if noise_pool_size < self.batch_size {
                    return Err(
                        "noise_pool_size must be greater than or equal to batch_size".to_owned(),
                    );
                }
            },
            None => {},
        }
        Ok(())
    }
}

/// Why settings are refused, if they are.
pub open spec fn config_error(config: TrainingConfig) -> Option<Seq<char>> {
    if config.batch_size == 0 {
        Some("batch_size must be greater than zero"@)
    } else if config.micro_batch_size == 0 {
        Some("micro_batch_size must be greater than zero"@)
    } else if !double_is_finite_and_non_negative(config.scale_loss_multiplier) {
        Some("scale_loss_multiplier must be finite and non-negative"@)
    } else if noise_level_error(config.noise_level) is Some {
        noise_level_error(config.noise_level)
    } else if config.noise_pool_size matches Some(size) && size < config.batch_size {
        Some("noise_pool_size must be greater than or equal to batch_size"@)
    } else {
        None
    }
}

/// What a run does with its settings and its images.
#[derive(Debug, PartialEq, Eq)]
pub struct TrainingPlan {
    /// The shuffled images that validation takes: from the first to before the
    /// second.
    pub valid_range: (usize, usize),
    /// The shuffled images that training takes.
    pub train_range: (usize, usize),
    pub train_batch_size: usize,
    pub train_shuffle_seed: u64,
    pub valid_batch_size: usize,
    /// The bits of the noise levels that samples start at.
    pub sample_noise_levels: Vec<u32>,
    pub sample_denoising_steps: usize,
    /// Where samples are written to, if they are.
    pub sample_dir: Option<String>,
    pub resume_epoch: Option<usize>,
}

/// Why there is no plan for so many images, if there is none.
pub open spec fn split_error(valid_count: usize, dataset_len: usize) -> Option<Seq<char>> {
    if dataset_len <= valid_count {
        Some(
            "dataset must contain more than "@ + decimal(valid_count as nat)
                + " images to create a validation split; found "@ + decimal(dataset_len as nat),
        )
    } else {
        None
    }
}

/// `plan` is the plan for these settings and so many images.
pub open spec fn is_training_plan(
    plan: TrainingPlan,
    config: TrainingConfig,
    dataset_len: usize,
) -> bool {
    &&& plan.valid_range == (0usize, config.valid_count)
    &&& plan.train_range == (config.valid_count, dataset_len)
    &&& plan.train_batch_size == config.batch_size
    &&& plan.train_shuffle_seed == config.seed
    &&& plan.valid_batch_size == config.micro_batch_size
    &&& plan.resume_epoch == config.resume_epoch
    &&& if config.sample_export_enabled {
        &&& plan.sample_noise_levels@ == config.sample_noise_levels@
        &&& plan.sample_denoising_steps == config.sample_denoising_steps
        &&& plan.sample_dir matches Some(directory) && directory@ == path_in(
            config.artifact_dir@,
            config.sample_export_dir@,
        )
    } else {
        &&& plan.sample_noise_levels@ == Seq::<u32>::empty()
        &&& plan.sample_denoising_steps == 0
        &&& plan.sample_dir is None
    }
}

/// Plans a run over `dataset_len` images.
pub fn plan_training(config: &TrainingConfig, dataset_len: usize) -> (result: Result<
    TrainingPlan,
    String,
>)
    ensures
        if config_error(*config) is Some {
            result matches Err(message) && config_error(*config) == Some(message@)
        } else if split_error(config.valid_count, dataset_len) is Some {
            result matches Err(message) && split_error(config.valid_count, dataset_len) == Some(
                message@,
            )
        } else {
            result matches Ok(plan) && is_training_plan(plan, *config, dataset_len)
        },
{
    match config.validate() {
        Ok(_) => {},
        Err(message) => {
            return Err(message);
        },
    }
    if dataset_len <= config.valid_count {
        let mut message: String = "dataset must contain more than ".to_owned();
        push_decimal(&mut message, config.valid_count);
        message.append(" images to create a validation split; found ");
        push_decimal(&mut message, dataset_len);
        return Err(message);
    }
    let mut sample_noise_levels: Vec<u32> = Vec::new();
    let mut sample_denoising_steps: usize = 0;
    let mut sample_dir: Option<String> = None;
    if config.sample_export_enabled {
        sample_noise_levels = copy_levels(&config.sample_noise_levels);
        sample_denoising_steps = config.sample_denoising_steps;
        sample_dir = Some(
            join_path(config.artifact_dir.as_str(), config.sample_export_dir.as_str()),
        );
    }
    Ok(
        TrainingPlan {
            valid_range: (0, config.valid_count),
            train_range: (config.valid_count, dataset_len),
            train_batch_size: config.batch_size,
            train_shuffle_seed: config.seed,
            valid_batch_size: config.micro_batch_size,
            sample_noise_levels,
            sample_denoising_steps,
            sample_dir,
            resume_epoch: config.resume_epoch,
        },
    )
}

fn copy_levels(levels: &Vec<u32>) -> (copy: Vec<u32>)
    ensures
        copy@ == levels@,
{
    let mut copy: Vec<u32> = Vec::new();
    while copy.len() < levels.len()
        invariant
            copy@.len() <= levels@.len(),
            copy@ =~= levels@.take(copy@.len() as int),
        decreases levels@.len() - copy@.len(),
    {
        copy.push(levels[copy.len()]);
    }
    copy
}

/// Validation and training share no image and leave none out, and training has at
/// least one.
pub proof fn law_ranges_partition_the_images(
    plan: TrainingPlan,
    config: TrainingConfig,
    dataset_len: usize,
    image: int,
)
    requires
        split_error(config.valid_count, dataset_len) is None,
        is_training_plan(plan, config, dataset_len),
        0 <= image < dataset_len,
    ensures
        (plan.valid_range.0 <= image < plan.valid_range.1) != (plan.train_range.0 <= image
            < plan.train_range.1),
        plan.train_range.0 < plan.train_range.1,
{
}

/// Weights are accepted exactly if all are finite and not negative and one is no zero, by
/// their bits.
pub proof fn law_noise_weights_are_accepted_exactly(config: NoiseLevelConfig)
    ensures
        noise_level_error(config) is None <==> {
            &&& config.full_weight < 0x7ff0_0000_0000_0000 || config.full_weight
                == 0x8000_0000_0000_0000
            &&& config.band_weight < 0x7ff0_0000_0000_0000 || config.band_weight
                == 0x8000_0000_0000_0000
            &&& config.rectangle_weight < 0x7ff0_0000_0000_0000 || config.rectangle_weight
                == 0x8000_0000_0000_0000
            &&& config.region_line_clean_weight < 0x7ff0_0000_0000_0000
                || config.region_line_clean_weight == 0x8000_0000_0000_0000
            &&& {
                ||| 0 < config.full_weight < 0x8000_0000_0000_0000
                ||| 0 < config.band_weight < 0x8000_0000_0000_0000
                ||| 0 < config.rectangle_weight < 0x8000_0000_0000_0000
                ||| 0 < config.region_line_clean_weight < 0x8000_0000_0000_0000
            }
        },
{
    law_doubles_by_their_bits(config.full_weight);
    law_doubles_by_their_bits(config.band_weight);
    law_doubles_by_their_bits(config.rectangle_weight);
    law_doubles_by_their_bits(config.region_line_clean_weight);
}

/// Settings are accepted exactly if batches and micro batches hold images, the multiplier of
/// the scales is finite and not negative, the noise weights are accepted, and a pool of
/// noises that was asked for serves a batch.
pub proof fn law_settings_are_accepted_exactly(config: TrainingConfig)
    ensures
        config_error(config) is None <==> {
            &&& config.batch_size > 0
            &&& config.micro_batch_size > 0
            &&& config.scale_loss_multiplier < 0x7ff0_0000_0000_0000
                || config.scale_loss_multiplier == 0x8000_0000_0000_0000
            &&& noise_level_error(config.noise_level) is None
            &&& config.noise_pool_size matches Some(size) ==> size >= config.batch_size
        },
{
    law_doubles_by_their_bits(config.scale_loss_multiplier);
}

/// A run needs an image besides those that validation takes. It validates on the first ones
/// in micro batches and trains on the others in batches, shuffled by the run's seed, and
/// exports samples only where that is asked for.
pub proof fn law_plans_follow_the_settings(
    plan: TrainingPlan,
    config: TrainingConfig,
    dataset_len: usize,
)
    requires
        is_training_plan(plan, config, dataset_len),
    ensures
        split_error(config.valid_count, dataset_len) is None <==> dataset_len > config.valid_count,
        plan.valid_range.0 == 0 && plan.valid_range.1 == config.valid_count,
        plan.train_range.0 == config.valid_count && plan.train_range.1 == dataset_len,
        plan.train_batch_size == config.batch_size,
        plan.valid_batch_size == config.micro_batch_size,
        plan.train_shuffle_seed == config.seed,
        plan.resume_epoch == config.resume_epoch,
        plan.sample_dir is Some <==> config.sample_export_enabled,
        config.sample_export_enabled ==> plan.sample_noise_levels@ == config.sample_noise_levels@
            && plan.sample_denoising_steps == config.sample_denoising_steps,
        !config.sample_export_enabled ==> plan.sample_noise_levels@.len() == 0
            && plan.sample_denoising_steps == 0,
{
}

/// The ordinary noise levels of samples rise from none to all.
pub proof fn law_tenths_rise_from_none_to_all()
    ensures
        tenths().len() == 11,
        tenths()[0] == 0,
        tenths()[5] == 0x3f00_0000,
        tenths()[10] == 0x3f80_0000,
        forall|place: int| 0 < place < 11 ==> tenths()[place - 1] < #[trigger] tenths()[place],
{
    assert forall|place: int| 0 < place < 11 implies tenths()[place - 1]
        < #[trigger] tenths()[place] by {
        assert(place == 1 || place == 2 || place == 3 || place == 4 || place == 5 || place == 6
            || place == 7 || place == 8 || place == 9 || place == 10);
    }
}

} // verus!
