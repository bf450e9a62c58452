use lineartgen::inference::schedule::NoiseFraction;
use lineartgen::json::{merge_json, Json, JsonEntry};
use lineartgen::model::DiffusionModelConfig;
use lineartgen::native::{default_thread_count, exception_for, thread_count, ExceptionKind};
use lineartgen::inference::InferenceError;
use lineartgen::recursion::{forward_recursive, input_sizes, RecursionConfig};
use lineartgen::train::assignment::min_cost_assignment;
use lineartgen::train::config::{plan_training, NoiseLevelConfig, TrainingConfig};
use lineartgen::train::diffusion::{
    effective_noise_pool, match_noise_pool, matched_diffusion_batch, matched_diffusion_output,
    micro_batches, pairwise_costs, run_micro_batches, DiffusionOutput, MatchedDiffusionBatch,
    MicroBatch, ScaleLoss,
};
use lineartgen::train::loss::{
    active_loss_terms, density_windows, direction_kernels, line_offsets, lineart_loss_enabled,
    low_frequency_cost_size, shifted_ranges, support_kernels, LineDirection, LineartLossConfig,
    LossTerm,
};
use lineartgen::train::noise::{
    choose_noise_level_pattern, fixed_sample_noise_level, image_noise_level_from_random_values,
    image_noise_levels, ImageNoise, NoiseArea, NoiseDraws, NoiseLevelPattern, RegionDraw,
    SampleNoiseKind,
};
use lineartgen::train::regions::{
    band_region, centered_rectangle_region, noise_value_index, random_span, random_start,
    rectangle_region, BandSide, NoiseRegion,
};
use lineartgen::train::sampling::{
    denoising_schedule, format_noise_level, sample_filename, sample_requests, SampleExportMetric,
};

#[test]
fn min_cost_assignment_finds_lowest_cost_pairing() {
    let costs = vec![
        9, 1, 4, //
        6, 8, 2, //
        1, 5, 7,
    ];

    assert_eq!(min_cost_assignment(&costs, 3, 3), vec![1, 2, 0]);
}

#[test]
fn min_cost_assignment_supports_more_columns_than_rows() {
    let costs = vec![
        9, 1, 4, 8, //
        6, 8, 2, 3,
    ];

    assert_eq!(min_cost_assignment(&costs, 2, 4), vec![1, 2]);
}

#[test]
fn min_cost_assignment_is_cheapest_among_all() {
    let costs = (0..20).map(|index: i64| index * index * 31 % 53 - 20).collect::<Vec<_>>();
    let picked = min_cost_assignment(&costs, 4, 5);
    let total = |columns: &[usize]| columns.iter().enumerate().map(|(row, column)| costs[row * 5 + column]).sum::<i64>();
    for number in 0..5 * 5 * 5 * 5 {
        let columns = [number % 5, number / 5 % 5, number / 25 % 5, number / 125];
        let distinct = (0..4).all(|row| !columns[..row].contains(&columns[row]));
        assert!(!distinct || total(&picked) <= total(&columns));
    }
    assert_eq!(min_cost_assignment(&vec![i64::MAX, i64::MIN, i64::MIN, i64::MAX], 2, 2), [1, 0]);
    assert_eq!(min_cost_assignment(&Vec::new(), 0, 3), Vec::<usize>::new());
}

/// The noise of a pool that each image is given at full noise, where the cost of a
/// noise is its squared distance from the image.
fn matched(clean: &[i64], noise: &[i64]) -> Vec<i64> {
    let columns = noise
        .iter()
        .map(|noise| clean.iter().map(|clean| (clean - noise) * (clean - noise)).collect())
        .collect::<Vec<Vec<i64>>>();
    match_noise_pool(&columns, clean.len()).into_iter().map(|index| noise[index]).collect()
}

#[test]
fn match_noise_pool_to_clean_cost_reorders_noise_by_l2_cost() {
    assert_eq!(matched(&[0, 10, 20], &[21, 1, 9]), vec![1, 9, 21]);
}

#[test]
fn match_noise_pool_to_clean_cost_selects_from_larger_pool() {
    assert_eq!(matched(&[0, 20], &[100, 19, -1, 50]), vec![-1, 19]);
}

#[test]
fn match_noise_pool_to_clean_cost_downsamples_noise_for_costs() {
    assert_eq!(low_frequency_cost_size(2, 2), [2, 2]);
    let noise = [[50, 50, 50, 50], [9, 9, 9, 9], [-1, -1, -1, -1]];
    let columns = noise
        .iter()
        .map(|noise| {
            [0, 10]
                .iter()
                .map(|clean| noise.iter().map(|noise| (clean - noise) * (clean - noise)).sum())
                .collect()
        })
        .collect::<Vec<Vec<i64>>>();
    let picked = match_noise_pool(&columns, 2)
        .into_iter()
        .flat_map(|index| noise[index])
        .collect::<Vec<_>>();
    assert_eq!(picked, vec![-1, -1, -1, -1, 9, 9, 9, 9]);
}

#[test]
fn match_noise_pool_to_clean_cost_ignores_zero_noise_regions() {
    let noise_level = [1, 0];
    let noise = [[0, 100], [1, 0]];
    let columns = noise
        .iter()
        .map(|noise| vec![(0..2).map(|pixel| noise_level[pixel] * noise[pixel] * noise[pixel]).sum()])
        .collect::<Vec<Vec<i64>>>();
    let picked = match_noise_pool(&columns, 1);
    assert_eq!(noise[picked[0]], [0, 100]);
}

#[test]
fn costs_are_laid_out_image_by_image() {
    assert_eq!(
        pairwise_costs(&vec![vec![1, 2], vec![3, 4], vec![5, 6]], 2),
        vec![1, 3, 5, 2, 4, 6]
    );
}

#[test]
fn low_frequency_cost_tensor_downsamples_large_images() {
    assert_eq!(low_frequency_cost_size(64, 48), [32, 32]);
}

#[test]
fn low_frequency_cost_tensor_keeps_small_images() {
    assert_eq!(low_frequency_cost_size(16, 24), [16, 24]);
}

const NOISE_RANDOMS_PER_IMAGE: usize = 8;

/// The noise levels for images whose pixels are given, from the random values of each.
fn levels_from_random_values(
    clean: &[f32],
    height: usize,
    width: usize,
    pattern: NoiseLevelPattern,
    random_values: &[f32],
) -> Vec<f32> {
    let weight = |weighted: NoiseLevelPattern| if weighted == pattern { 1.0 } else { 0.0 };
    let random = |batch: usize, index: usize| random_values[batch * NOISE_RANDOMS_PER_IMAGE + index];
    let draws = random_values
        .chunks_exact(NOISE_RANDOMS_PER_IMAGE)
        .map(|random| NoiseDraws {
            level: 1.0e-5 + random[0] * (1.0 - 1.0e-5),
            pattern: choose_noise_level_pattern(
                random[1],
                weight(NoiseLevelPattern::Full),
                weight(NoiseLevelPattern::Band),
                weight(NoiseLevelPattern::Rectangle),
                |one: &f32, other: &f32| one < other,
                |one: f32, other: &f32| one - other,
            ),
            side: (random[2] * 4.0).floor() as usize,
            prefers_band: random[6] < 0.5,
        })
        .collect::<Vec<_>>();
    let lines = clean.iter().map(|value| *value < 1.0).collect::<Vec<_>>();
    let span = |size: usize, random: f32| (size as f32 * (0.25 + random * 0.5)).round() as usize;
    let start = |count: usize, random: f32| (count as f32 * random).floor() as usize;
    image_noise_level_from_random_values(
        &draws,
        &lines,
        height,
        width,
        0.0,
        |batch: usize, number: RegionDraw, size: usize| match number {
            RegionDraw::RectangleWidth => span(size, random(batch, 2)),
            RegionDraw::BandSpan | RegionDraw::RectangleHeight => span(size, random(batch, 3)),
            RegionDraw::RectangleX => start(size, random(batch, 4)),
            RegionDraw::RectangleY => start(size, random(batch, 5)),
        },
    )
}

#[test]
fn full_image_noise_level_uses_one_value_per_image() {
    let random_values = vec![0.2; 2 * NOISE_RANDOMS_PER_IMAGE];
    let data = levels_from_random_values(&[1.0; 24], 3, 4, NoiseLevelPattern::Full, &random_values);

    assert_eq!(data.len(), 2 * 3 * 4);
    assert!(data[0..12].iter().all(|value| *value == data[0]));
    assert!(data[12..24].iter().all(|value| *value == data[12]));
}

#[test]
fn band_noise_level_uses_two_values_in_selected_band() {
    let random_values = vec![
        0.4, 0.0, 0.0, 0.0, 0.0, 0.0, 0.0, 0.0, //
    ];

    let data = levels_from_random_values(&[1.0; 12], 3, 4, NoiseLevelPattern::Band, &random_values);
    let base_noise = data[0];

    assert!(base_noise > 0.0);
    for y in 0..3 {
        assert_eq!(data[y * 4], base_noise);
        assert_eq!(data[y * 4 + 1], 0.0);
        assert_eq!(data[y * 4 + 2], 0.0);
        assert_eq!(data[y * 4 + 3], 0.0);
    }
}

#[test]
fn rectangle_noise_level_uses_two_values_in_selected_rectangle() {
    let random_values = vec![
        0.4, 0.0, 0.0, 0.0, 0.0, 0.0, 0.0, 0.0, //
    ];

    let data = levels_from_random_values(&[1.0; 16], 4, 4, NoiseLevelPattern::Rectangle, &random_values);
    let base_noise = data[0];

    assert!(base_noise > 0.0);
    assert_eq!(data[0], base_noise);
    assert!(data[1..].iter().all(|value| *value == 0.0));
}

#[test]
fn region_line_clean_noise_level_keeps_lines_clean_inside_region() {
    let clean = [
        -1.0, 1.0, 1.0, 1.0, //
        1.0, 1.0, 1.0, 1.0, //
        1.0, 1.0, 1.0, 1.0, //
        1.0, 1.0, 1.0, 1.0,
    ];
    let random_values = vec![
        0.4, 0.0, 0.5, 0.5, 0.0, 0.0, 1.0, 0.0, //
    ];

    let data = levels_from_random_values(&clean, 4, 4, NoiseLevelPattern::RegionLineClean, &random_values);
    let base_noise = data[1];

    assert_eq!(data[0], 0.0);
    assert!(base_noise > 0.0);
    assert!(data[1..].iter().all(|value| *value == base_noise));
}

#[test]
fn noise_of_one_image_does_not_reach_another() {
    let images = vec![
        ImageNoise { level: 'a', area: NoiseArea::Full },
        ImageNoise {
            level: 'b',
            area: NoiseArea::Region(NoiseRegion::Band { side: BandSide::Bottom, span: 1 }),
        },
        ImageNoise {
            level: 'c',
            area: NoiseArea::AllButLines(NoiseRegion::Rectangle { y_start: 1, x_start: 1, height: 1, width: 2 }),
        },
    ];
    let lines = vec![true; 18];
    let levels = image_noise_levels(&images, &lines, 2, 3, '.');
    assert_eq!(levels.into_iter().collect::<String>(), "aaaaaa...bbbcccc..");
}

#[test]
fn patterns_are_chosen_by_their_weights() {
    let pattern = |threshold: i32| {
        choose_noise_level_pattern(
            threshold,
            2,
            3,
            4,
            |one: &i32, other: &i32| one < other,
            |one: i32, other: &i32| one - other,
        )
    };
    assert_eq!((pattern(0), pattern(1)), (NoiseLevelPattern::Full, NoiseLevelPattern::Full));
    assert_eq!((pattern(2), pattern(4)), (NoiseLevelPattern::Band, NoiseLevelPattern::Band));
    assert_eq!((pattern(5), pattern(8)), (NoiseLevelPattern::Rectangle, NoiseLevelPattern::Rectangle));
    assert_eq!(pattern(9), NoiseLevelPattern::RegionLineClean);
}

#[test]
fn sides_and_spans_are_drawn_within_the_image() {
    let band = |side: usize, span: usize| band_region(4, 6, side, |size: usize| size + span - 6);
    assert_eq!(band(0, 2), NoiseRegion::Band { side: BandSide::Left, span: 2 });
    assert_eq!(band(1, 2), NoiseRegion::Band { side: BandSide::Right, span: 2 });
    assert_eq!(band(2, 3), NoiseRegion::Band { side: BandSide::Top, span: 1 });
    assert_eq!(band(7, 99), NoiseRegion::Band { side: BandSide::Bottom, span: 4 });
    assert_eq!(
        rectangle_region(4, 6, |_: usize| 9, |_: usize| 0, |_: usize| 5, |count: usize| count),
        NoiseRegion::Rectangle { y_start: 3, x_start: 0, height: 1, width: 6 }
    );
    assert_eq!((random_span(5, 0), random_span(5, 3), random_span(5, 9)), (1, 3, 5));
    assert_eq!((random_start(5, 2, 9), random_start(5, 2, 1), random_start(5, 7, 3)), (3, 1, 0));
    assert_eq!(noise_value_index(2, 3, 4, 1, 2), 30);
    assert_eq!(
        centered_rectangle_region(5, 8),
        NoiseRegion::Rectangle { y_start: 1, x_start: 2, height: 3, width: 4 }
    );
}

#[test]
fn band_sample_noisy_input_keeps_zero_noise_side_clean() {
    let clean = [
        -1.0f32, -0.5, 0.5, 1.0, //
        0.25, 0.5, -0.25, -0.75,
    ];
    let lines = clean.iter().map(|value| *value < 1.0).collect::<Vec<_>>();
    let noise_level = fixed_sample_noise_level(&lines, 2, 4, 0.25f32, SampleNoiseKind::Band, 0.0);

    let noisy = clean
        .iter()
        .zip(&noise_level)
        .map(|(clean, level)| clean * (1.0 - level).sqrt() + 10.0 * level.sqrt())
        .collect::<Vec<_>>();

    assert_eq!(noisy[0], -1.0);
    assert_eq!(noisy[1], -0.5);
    assert_eq!(noisy[4], 0.25);
    assert_eq!(noisy[5], 0.5);
    assert!(noisy.iter().all(|value| value.is_finite()));
    assert_eq!(noise_level, [0.0, 0.0, 0.25, 0.25, 0.0, 0.0, 0.25, 0.25]);
}

#[test]
fn samples_of_all_kinds_have_their_areas() {
    let mut lines = vec![false; 9];
    lines[4] = true;
    let levels = |kind: SampleNoiseKind| {
        fixed_sample_noise_level(&lines, 3, 3, 'x', kind, '.').into_iter().collect::<String>()
    };
    assert_eq!(levels(SampleNoiseKind::Full), "xxxxxxxxx");
    assert_eq!(levels(SampleNoiseKind::Band), ".xx.xx.xx");
    assert_eq!(levels(SampleNoiseKind::Rectangle), "xx.xx....");
    assert_eq!(levels(SampleNoiseKind::RegionLineClean), "xxxx.xxxx");
}

#[test]
fn format_noise_level_uses_filename_safe_decimal() {
    let format = |level: f32| format_noise_level(&format!("{level:.1}"));
    assert_eq!(format(0.0), "0_0");
    assert_eq!(format(0.1), "0_1");
    assert_eq!(format(1.0), "1_0");
}

#[test]
fn sample_filename_marks_partial_noise_kind() {
    let name = |kind: SampleNoiseKind| sample_filename(kind, &format!("{:.1}", 0.5));
    assert_eq!(name(SampleNoiseKind::Full), "0_5");
    assert_eq!(name(SampleNoiseKind::Band), "band-0_5");
    assert_eq!(name(SampleNoiseKind::Rectangle), "rectangle-0_5");
    assert_eq!(name(SampleNoiseKind::RegionLineClean), "region-line-clean-0_5");
}

#[test]
fn every_kind_is_sampled_at_every_level() {
    let requests = sample_requests(&vec!["0.0".to_string(), "1.0".to_string()]);
    let listed = requests
        .iter()
        .map(|request| (request.level, request.kind, request.filename.as_str()))
        .collect::<Vec<_>>();
    assert_eq!(
        listed,
        vec![
            (0, SampleNoiseKind::Full, "0_0"),
            (0, SampleNoiseKind::Band, "band-0_0"),
            (0, SampleNoiseKind::Rectangle, "rectangle-0_0"),
            (0, SampleNoiseKind::RegionLineClean, "region-line-clean-0_0"),
            (1, SampleNoiseKind::Full, "1_0"),
            (1, SampleNoiseKind::Band, "band-1_0"),
            (1, SampleNoiseKind::Rectangle, "rectangle-1_0"),
            (1, SampleNoiseKind::RegionLineClean, "region-line-clean-1_0"),
        ]
    );
}

#[test]
fn samples_are_exported_once_per_epoch() {
    let mut metric = SampleExportMetric::new("tmp/samples".to_string());
    assert_eq!(metric.name, "Sample Export");
    assert_eq!(metric.update(3, 0), None);
    assert_eq!(metric.update(3, 2).as_deref(), Some("tmp/samples/epoch-0003"));
    assert_eq!(metric.update(3, 2), None);
    assert_eq!(metric.update(12, 1).as_deref(), Some("tmp/samples/epoch-0012"));
    assert_eq!(metric.update(345, 1).as_deref(), Some("tmp/samples/epoch-0345"));
    assert_eq!(metric.update(12345, 1).as_deref(), Some("tmp/samples/epoch-12345"));
    assert_eq!(
        SampleExportMetric::sample_path("tmp/samples/epoch-0003", "band-0_5"),
        "tmp/samples/epoch-0003/band-0_5.png"
    );
}

fn object(entries: Vec<(&str, Json)>) -> Json {
    Json::Object(
        entries
            .into_iter()
            .map(|(key, value)| JsonEntry { key: key.to_string(), value })
            .collect(),
    )
}

fn number(value: usize) -> Json {
    Json::Number(value.to_string())
}

fn at<'a>(json: &'a Json, path: &[&str]) -> &'a Json {
    match (json, path) {
        (json, []) => json,
        (Json::Object(entries), [key, rest @ ..]) => {
            let mut found = entries.iter().filter(|entry| entry.key == *key);
            let entry = found.next().expect("the key is there");
            assert!(found.next().is_none());
            at(&entry.value, rest)
        }
        _ => panic!("no object at {path:?}"),
    }
}

#[test]
fn merge_json_keeps_unspecified_defaults() {
    let mut base = object(vec![
        ("batch_size", number(8)),
        (
            "model",
            object(vec![(
                "u_net",
                object(vec![("insert_channels", number(1)), ("final_kernel_size", number(3))]),
            )]),
        ),
    ]);
    let overrides = object(vec![(
        "model",
        object(vec![("u_net", object(vec![("final_kernel_size", number(5))]))]),
    )]);

    merge_json(&mut base, overrides);

    assert!(matches!(at(&base, &["batch_size"]), Json::Number(text) if text == "8"));
    assert!(matches!(at(&base, &["model", "u_net", "insert_channels"]), Json::Number(text) if text == "1"));
    assert!(matches!(at(&base, &["model", "u_net", "final_kernel_size"]), Json::Number(text) if text == "5"));
}

#[test]
fn merge_json_replaces_what_is_no_object() {
    let mut base = object(vec![("a", Json::Array(vec![Json::Null])), ("b", object(vec![("c", Json::Null)]))]);
    merge_json(
        &mut base,
        object(vec![("a", object(vec![])), ("b", Json::Bool(true)), ("d", Json::Text("new".to_string()))]),
    );
    assert!(matches!(at(&base, &["a"]), Json::Object(entries) if entries.is_empty()));
    assert!(matches!(at(&base, &["b"]), Json::Bool(true)));
    assert!(matches!(at(&base, &["d"]), Json::Text(text) if text == "new"));
    let mut leaf = Json::Null;
    merge_json(&mut leaf, number(4));
    assert!(matches!(leaf, Json::Number(text) if text == "4"));
}

#[test]
fn training_config_defaults_to_twenty_sample_denoising_steps() {
    assert_eq!(TrainingConfig::new().sample_denoising_steps, 20);
}

#[test]
fn training_config_defaults_to_micro_batching_with_larger_noise_pool() {
    let config = TrainingConfig::new();

    assert_eq!(config.micro_batch_size, 16);
    assert_eq!(config.noise_pool_size, Some(256));
}

#[test]
fn training_config_defaults_to_base_learning_rate() {
    assert_eq!(f64::from_bits(TrainingConfig::new().learning_rate), 1.0e-4);
}

#[test]
fn training_config_balances_loss_by_tone_by_default() {
    assert!(TrainingConfig::new().balance_loss_by_tone);
}

#[test]
fn training_config_samples_at_every_tenth() {
    let levels = (0..=10).map(|index| (index as f32 / 10.0).to_bits()).collect::<Vec<_>>();
    assert_eq!(TrainingConfig::new().sample_noise_levels, levels);
}

#[test]
fn settings_that_cannot_be_trained_with_are_refused() {
    let text = |change: fn(&mut TrainingConfig)| {
        let mut config = TrainingConfig::new();
        change(&mut config);
        config.validate().unwrap_err()
    };
    assert!(TrainingConfig::new().validate().is_ok());
    assert_eq!(text(|config| config.batch_size = 0), "batch_size must be greater than zero");
    assert_eq!(text(|config| config.micro_batch_size = 0), "micro_batch_size must be greater than zero");
    for multiplier in [f64::NAN, f64::INFINITY, -0.5, -f64::MIN_POSITIVE] {
        let mut config = TrainingConfig::new();
        config.scale_loss_multiplier = multiplier.to_bits();
        assert_eq!(
            config.validate().unwrap_err(),
            "scale_loss_multiplier must be finite and non-negative"
        );
    }
    for multiplier in [0.0, -0.0, 0.25, f64::MAX] {
        let mut config = TrainingConfig::new();
        config.scale_loss_multiplier = multiplier.to_bits();
        assert!(config.validate().is_ok());
    }
    assert_eq!(
        text(|config| config.noise_pool_size = Some(127)),
        "noise_pool_size must be greater than or equal to batch_size"
    );
    assert_eq!(
        text(|config| config.noise_level.band_weight = (-1.0_f64).to_bits()),
        "noise level weights must be finite and non-negative"
    );
    let zero = NoiseLevelConfig {
        full_weight: 0.0_f64.to_bits(),
        band_weight: (-0.0_f64).to_bits(),
        rectangle_weight: 0,
        region_line_clean_weight: 0,
    };
    assert_eq!(
        zero.validate().unwrap_err(),
        "at least one noise level weight must be greater than zero"
    );
}

#[test]
fn runs_are_planned_from_their_settings() {
    let mut config = TrainingConfig::new();
    config.resume_epoch = Some(7);
    let plan = plan_training(&config, 100).unwrap();
    assert_eq!(config.config_path(), "tmp/training/config.json");
    assert_eq!((plan.valid_range, plan.train_range), ((0, 64), (64, 100)));
    assert_eq!((plan.train_batch_size, plan.valid_batch_size), (128, 16));
    assert_eq!(plan.train_shuffle_seed, 42);
    assert_eq!(plan.sample_noise_levels, config.sample_noise_levels);
    assert_eq!(plan.sample_denoising_steps, 20);
    assert_eq!(plan.sample_dir.as_deref(), Some("tmp/training/samples"));
    assert_eq!(plan.resume_epoch, Some(7));

    config.sample_export_enabled = false;
    let plan = plan_training(&config, 65).unwrap();
    assert!(plan.sample_noise_levels.is_empty());
    assert_eq!((plan.sample_denoising_steps, plan.sample_dir), (0, None));
    assert_eq!(
        plan_training(&config, 64).unwrap_err(),
        "dataset must contain more than 64 images to create a validation split; found 64"
    );
    config.batch_size = 0;
    assert_eq!(plan_training(&config, 64).unwrap_err(), "batch_size must be greater than zero");
}

#[test]
fn lineart_loss_is_enabled_by_any_nonzero_weight() {
    let mut config = LineartLossConfig::new();
    config.density_weight = 0.0_f64.to_bits();
    config.edge_weight = 0.0_f64.to_bits();
    config.speckle_weight = 0.0_f64.to_bits();
    config.contrast_weight = 0.0_f64.to_bits();
    config.support_weight = 0.0_f64.to_bits();
    config.direction_weight = 0.0_f64.to_bits();

    assert!(!lineart_loss_enabled(&config));

    config.edge_weight = 0.1_f64.to_bits();

    assert!(lineart_loss_enabled(&config));

    config.edge_weight = 0.0_f64.to_bits();
    config.support_weight = 0.1_f64.to_bits();

    assert!(lineart_loss_enabled(&config));
}

#[test]
fn only_parts_with_weight_are_added_up() {
    let mut config = LineartLossConfig::new();
    config.direction_weight = f64::NAN.to_bits();
    config.edge_weight = 1.0_f64.to_bits();
    config.speckle_weight = (-0.0_f64).to_bits();
    assert_eq!(active_loss_terms(&config), [LossTerm::Edge, LossTerm::Direction]);
    assert_eq!(config.weight(LossTerm::Edge), 1.0_f64.to_bits());
    assert!(active_loss_terms(&LineartLossConfig::new()).is_empty());
}

#[test]
fn windows_have_to_fit() {
    assert_eq!(density_windows(16, 8), [4, 8]);
    assert_eq!(density_windows(3, 99), Vec::<usize>::new());
    assert_eq!(support_kernels(17, 17), [3, 5, 9, 17]);
    assert_eq!(support_kernels(5, 8), [3, 5]);
    assert_eq!(direction_kernels(9, 9), [3, 5, 9]);
}

#[test]
fn lines_are_followed_to_both_sides() {
    assert_eq!(line_offsets(5, LineDirection::Horizontal), [(0, -2), (0, -1), (0, 1), (0, 2)]);
    assert_eq!(line_offsets(3, LineDirection::Vertical), [(-1, 0), (1, 0)]);
    assert_eq!(line_offsets(3, LineDirection::DiagonalDown), [(-1, -1), (1, 1)]);
    assert_eq!(line_offsets(3, LineDirection::DiagonalUp), [(-1, 1), (1, -1)]);
    assert_eq!(line_offsets(1, LineDirection::DiagonalUp), []);
    assert_eq!(LineDirection::all().len(), 4);
}

#[test]
fn shifted_rows_stay_inside() {
    assert_eq!(shifted_ranges(5, 2), (2, 0, 3));
    assert_eq!(shifted_ranges(5, -2), (0, 2, 3));
    assert_eq!(shifted_ranges(5, 0), (0, 0, 5));
    assert_eq!(shifted_ranges(5, -5), (0, 5, 0));
}

/// A schedule as the noise levels themselves.
fn levels(start_noise_level: f32, denoising_steps: usize) -> Vec<f32> {
    let schedule = denoising_schedule(start_noise_level.to_bits(), denoising_steps);
    let start = f32::from_bits(schedule.start);
    schedule
        .parts
        .into_iter()
        .map(|part: NoiseFraction| start * part.numerator as f32 / part.denominator as f32)
        .collect()
}

#[test]
fn denoising_schedule_linearly_reaches_zero() {
    assert_eq!(
        levels(1.0, 20),
        vec![
            1.0, 0.95, 0.9, 0.85, 0.8, 0.75, 0.7, 0.65, 0.6, 0.55, 0.5, 0.45, 0.4, 0.35, 0.3, 0.25, 0.2, 0.15, 0.1,
            0.05, 0.0
        ]
    );
    assert_eq!(
        levels(0.5, 20),
        vec![
            0.5, 0.475, 0.45, 0.425, 0.4, 0.375, 0.35, 0.325, 0.3, 0.275, 0.25, 0.225, 0.2, 0.175, 0.15, 0.125,
            0.1, 0.075, 0.05, 0.025, 0.0
        ]
    );
}

#[test]
fn denoising_schedule_handles_zero_steps_and_zero_noise() {
    assert_eq!(levels(0.75, 0), vec![0.75, 0.0]);
    assert_eq!(levels(0.0, 20), vec![0.0, 0.0]);
    assert_eq!(levels(0.0, 0), vec![0.0, 0.0]);
    assert_eq!(levels(3.0, 0), vec![1.0, 0.0]);
    assert_eq!(levels(3.0, 2), vec![1.0, 0.5, 0.0]);
}

#[test]
fn micro_batches_cover_the_batch() {
    assert_eq!(micro_batches(7, 3), [(0, 3), (3, 3), (6, 1)]);
    assert_eq!(micro_batches(6, 3), [(0, 3), (3, 3)]);
    assert_eq!(micro_batches(2, usize::MAX), [(0, 2)]);
    assert_eq!(micro_batches(0, 3), []);
    assert_eq!(run_micro_batches(7, 3, 0, |sum: usize, start: usize, size: usize| sum * 100 + start * 10 + size), 33361);
}

#[test]
fn pools_have_a_noise_for_each_image() {
    assert_eq!(effective_noise_pool(0, 4), 4);
    assert_eq!(effective_noise_pool(3, 4), 4);
    assert_eq!(effective_noise_pool(9, 4), 9);
}

type Shape = [usize; 4];

/// The shapes of a batch with noise, at all scales that the default model has for it.
fn matched_shapes(clean: Shape, noise_pool_size: usize) -> MatchedDiffusionBatch<Shape> {
    let scaled = |channels: usize, factor: u64| (channels as f64 * f64::from_bits(factor)).round() as usize;
    let model = DiffusionModelConfig::new().init(scaled);
    let scales = input_sizes(&model, &RecursionConfig::new(), [clean[2], clean[3]], 0)
        .into_iter()
        .map(|size| [clean[0], clean[1], size[0], size[1]])
        .collect::<Vec<_>>();
    matched_diffusion_batch(
        scales.clone(),
        clean,
        scales,
        clean[0],
        noise_pool_size,
        |clean: &Shape, size: usize| [size, clean[1], clean[2], clean[3]],
        |clean: &Shape, level: &Shape, pool: &Shape| {
            assert_eq!(clean, level);
            assert!(pool[0] >= clean[0]);
            *clean
        },
        |clean: &Shape, noise: &Shape, _: &Shape| {
            assert_eq!(clean, noise);
            *clean
        },
    )
}

/// The shapes of the outputs for a part of a batch; the loss counts the scales.
fn output_shapes(
    matched: &MatchedDiffusionBatch<Shape>,
    start: usize,
    size: usize,
) -> DiffusionOutput<usize, [usize; 2]> {
    matched_diffusion_output(
        matched,
        start,
        size,
        &LineartLossConfig::new(),
        |scale: &Shape, _: usize, size: usize| [size, scale[1], scale[2], scale[3]],
        |micro: &MicroBatch<Shape>| {
            forward_recursive(
                &micro.noisy_scales,
                &micro.noise_level_scales,
                |input: &Shape, _: &Shape, insert: Option<&Shape>| {
                    assert!(insert.is_none_or(|insert| insert[2] * 2 == input[2]));
                    *input
                },
            )
        },
        |_: usize, predicted: &Shape, _: &MicroBatch<Shape>, with_lineart: bool| {
            assert!(!with_lineart);
            let flat = [predicted[0], predicted[1] * predicted[2] * predicted[3]];
            ScaleLoss { loss: 1, output: flat, target: flat }
        },
        |one: usize, other: usize| one + other,
        |sum: usize, count: usize| {
            assert_eq!(sum, count);
            sum
        },
    )
}

#[test]
fn diffusion_step_returns_original_scale_regression_items_with_multiscale_loss() {
    let matched = matched_shapes([1, 1, 128, 128], 0);

    let output = output_shapes(&matched, 0, 1);

    assert_eq!(output.loss, 4);
    assert_eq!(output.output, [1, 128 * 128]);
    assert_eq!(output.targets, [1, 128 * 128]);
}

#[test]
fn train_step_supports_micro_batches_smaller_than_matching_batch() {
    let matched = matched_shapes([4, 1, 128, 128], 4);

    let items = run_micro_batches(
        4,
        2,
        Vec::new(),
        |mut items: Vec<DiffusionOutput<usize, [usize; 2]>>, start: usize, size: usize| {
            items.push(output_shapes(&matched, start, size));
            items
        },
    );

    assert_eq!(items.len(), 2);
    assert_eq!(items[0].output, [2, 128 * 128]);
    assert_eq!(items[0].targets, [2, 128 * 128]);
}

#[test]
fn worker_threads_leave_one_core_free() {
    assert_eq!(default_thread_count(None), 1);
    assert_eq!(default_thread_count(Some(1)), 1);
    assert_eq!(default_thread_count(Some(2)), 1);
    assert_eq!(default_thread_count(Some(8)), 7);
    assert_eq!(thread_count(None, Some(8)), Ok(7));
    assert_eq!(thread_count(Some(3), Some(8)), Ok(3));
    assert_eq!(
        thread_count(Some(0), Some(8)),
        Err("num_threads must be greater than zero".to_string())
    );
}

#[test]
fn errors_are_raised_by_their_kind() {
    let text = || "text".to_string();
    assert_eq!(exception_for(InferenceError::InvalidArgument(text())), (ExceptionKind::Value, text()));
    assert_eq!(exception_for(InferenceError::Backend(text())), (ExceptionKind::Runtime, text()));
    assert_eq!(exception_for(InferenceError::Model(text())), (ExceptionKind::Runtime, text()));
}
