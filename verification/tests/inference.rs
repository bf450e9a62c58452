use lineartgen::ieee::limit_to_unit;
use lineartgen::inference::pixels::{PIXEL_WHITE, PREPARED_WHITE};
use lineartgen::inference::pyramid::{automatic_pyramid_plan, round_up, PyramidPlan};
use lineartgen::inference::schedule::{denoise_sample, denoising_schedule, NoiseFraction};
use lineartgen::inference::session::InferenceSession;
use lineartgen::inference::{
    bgra_byte_len, predicted_values_to_bgra, prepare_input, validate_buffer, validate_options,
    InferenceError, InferenceOptions, PreparedInput, MAX_DENOISING_STEPS,
};
use lineartgen::model::DiffusionModelConfig;

fn scaled(channels: usize, factor: u64) -> usize {
    (channels as f64 * f64::from_bits(factor)).round() as usize
}

fn session() -> InferenceSession {
    InferenceSession::from_model(DiffusionModelConfig::new().init(scaled))
}

fn options(strength: f32, denoising_steps: usize) -> InferenceOptions {
    InferenceOptions { strength: strength.to_bits(), seed: 0, denoising_steps }
}

fn prediction_to_luma(value: f32) -> u8 {
    (((value.clamp(-1.0, 1.0) + 1.0) * 0.5) * 255.0).round() as u8
}

#[test]
fn pyramid_levels_are_derived_from_image_size() {
    let plan = automatic_pyramid_plan([1024, 1024], [16, 16], 128).unwrap();

    assert_eq!(plan.padded_size, [1024, 1024]);
    assert_eq!(plan.sizes, [[1024, 1024], [512, 512], [256, 256], [128, 128]]);
}

#[test]
fn images_at_the_stop_size_use_one_model_call() {
    let plan = automatic_pyramid_plan([112, 128], [16, 16], 128).unwrap();

    assert_eq!(plan.padded_size, [112, 128]);
    assert_eq!(plan.sizes, [[112, 128]]);
}

#[test]
fn pyramid_padding_is_minimal_for_all_levels() {
    let plan = automatic_pyramid_plan([600, 1000], [16, 16], 128).unwrap();

    assert_eq!(plan.padded_size, [640, 1024]);
    assert_eq!(plan.sizes, [[640, 1024], [320, 512], [160, 256], [80, 128]]);
}

#[test]
fn pyramid_stops_before_an_extreme_aspect_ratio_becomes_too_small() {
    let plan = automatic_pyramid_plan([128, 1024], [16, 16], 128).unwrap();

    assert_eq!(plan.sizes, [[128, 1024], [64, 512], [32, 256], [16, 128]]);
}

#[test]
fn inputs_smaller_than_the_model_minimum_are_rejected() {
    let error = automatic_pyramid_plan([15, 16], [16, 16], 128).unwrap_err();

    assert!(matches!(error, InferenceError::InvalidArgument(_)));
}

#[test]
fn plan_errors_have_their_messages() {
    assert_eq!(
        automatic_pyramid_plan([16, 16], [0, 16], 128).unwrap_err(),
        InferenceError::Model("model minimum input dimensions must be greater than zero".to_string())
    );
    assert_eq!(
        automatic_pyramid_plan([16, 16], [16, 16], 8).unwrap_err(),
        InferenceError::Model("recursion stop size 8 is smaller than model minimum [16, 16]".to_string())
    );
    assert_eq!(
        automatic_pyramid_plan([15, 1000], [16, 16], 128).unwrap_err().message(),
        "input size [15, 1000] must be at least the model minimum [16, 16]"
    );
    assert_eq!(
        automatic_pyramid_plan([usize::MAX, usize::MAX], [16, 16], 16).unwrap_err(),
        InferenceError::InvalidArgument("pyramid height alignment overflowed".to_string())
    );
    assert_eq!(
        automatic_pyramid_plan([1 << (usize::BITS - 4), usize::MAX], [1, 16], 16).unwrap_err(),
        InferenceError::InvalidArgument("pyramid width alignment overflowed".to_string())
    );
    assert_eq!(
        automatic_pyramid_plan([usize::MAX - 20, usize::MAX - 20], [7, 7], usize::MAX).unwrap(),
        PyramidPlan {
            original_size: [usize::MAX - 20, usize::MAX - 20],
            padded_size: [usize::MAX - 15, usize::MAX - 15],
            sizes: vec![[usize::MAX - 15, usize::MAX - 15]],
        }
    );
    assert_eq!(
        automatic_pyramid_plan([usize::MAX, usize::MAX], [7, 7], usize::MAX).unwrap_err(),
        InferenceError::InvalidArgument("padded image dimension overflowed".to_string())
    );
}

#[test]
fn errors_name_their_source() {
    assert_eq!(InferenceError::InvalidArgument("a".to_string()).message(), "a");
    assert_eq!(InferenceError::Backend("a".to_string()).message(), "backend error: a");
    assert_eq!(InferenceError::Model("a".to_string()).message(), "model error: a");
}

#[test]
fn rounding_up_reaches_the_next_multiple() {
    assert_eq!(round_up(17, 16).unwrap(), 32);
    assert_eq!(round_up(32, 16).unwrap(), 32);
    assert_eq!(round_up(0, 5).unwrap(), 0);
    assert!(round_up(usize::MAX, 16).is_err());
}

#[test]
fn invalid_options_and_buffer_sizes_are_rejected() {
    assert!(validate_options(options(f32::NAN, 1)).is_err());
    assert!(validate_options(options(0.5, 0)).is_err());
    assert!(validate_options(options(0.5, MAX_DENOISING_STEPS + 1)).is_err());
    assert!(bgra_byte_len(0, 16).is_err());
    assert!(validate_buffer("image", &[0; 3], 4).is_err());
}

#[test]
fn option_errors_have_their_messages() {
    for strength in [f32::NAN, f32::INFINITY, -0.1, 1.0001, -f32::MIN_POSITIVE, f32::NEG_INFINITY] {
        assert_eq!(
            validate_options(options(strength, 1)).unwrap_err().message(),
            "strength must be finite and between 0 and 1"
        );
    }
    for strength in [0.0, -0.0, f32::MIN_POSITIVE, 1.0e-45, 0.5, 1.0] {
        assert!(validate_options(options(strength, 1)).is_ok());
    }
    assert_eq!(
        validate_options(options(0.5, 21)).unwrap_err().message(),
        "denoising_steps must be between 1 and 20"
    );
    assert!(validate_options(options(0.5, 20)).is_ok());
    assert_eq!(bgra_byte_len(3, 5).unwrap(), 60);
    assert_eq!(
        bgra_byte_len(usize::MAX, 2).unwrap_err().message(),
        "image byte length overflowed"
    );
    assert_eq!(
        bgra_byte_len(16, 0).unwrap_err().message(),
        "width and height must be greater than zero"
    );
    assert_eq!(
        validate_buffer("lineart", &[0; 3], 4).unwrap_err().message(),
        "lineart must contain exactly 4 bytes, got 3"
    );
    assert!(validate_buffer("lineart", &[0; 4], 4).is_ok());
}

#[test]
fn lineart_alpha_protects_existing_lines_from_noise() {
    let plan = automatic_pyramid_plan([16, 16], [16, 16], 128).unwrap();
    let scribble = vec![255; 16 * 16 * 4];
    let mut lineart = vec![0; 16 * 16 * 4];
    lineart[3] = 255;
    lineart[7] = 128;

    let prepared = prepare_input(&scribble, &lineart, 16, 16, &plan).unwrap();
    let noise_level = prepared
        .noise_share
        .iter()
        .map(|share| 0.8 * (f32::from(*share) / 255.0))
        .collect::<Vec<_>>();

    assert_eq!(noise_level[0], 0.0);
    assert!((noise_level[1] - 0.8 * (1.0 - 128.0 / 255.0)).abs() < 1.0e-6);
    assert_eq!(noise_level[2], 0.8);
}

#[test]
fn prepared_pixels_are_composed_over_white() {
    let plan = PyramidPlan { original_size: [1, 3], padded_size: [2, 4], sizes: vec![[2, 4]] };
    let scribble = [10, 20, 30, 255, 0, 0, 0, 51, 9, 9, 9, 0];
    let lineart = [1, 2, 3, 0, 200, 100, 50, 255, 7, 7, 7, 0];

    let prepared = prepare_input(&scribble, &lineart, 3, 1, &plan).unwrap();

    let red_luma = 2126 * 30 + 7152 * 20 + 722 * 10;
    let line_luma = 2126 * 50 + 7152 * 100 + 722 * 200;
    assert_eq!(prepared.luma[0], red_luma * 255 * 255);
    assert_eq!(prepared.luma[1], line_luma * 255 * 255);
    assert_eq!(prepared.luma[2], PREPARED_WHITE);
    assert_eq!(PREPARED_WHITE, PIXEL_WHITE * 255 * 255);
    assert_eq!(prepared.luma[3..], [PREPARED_WHITE; 5]);
    assert_eq!(prepared.noise_share, [255, 0, 255, 0, 0, 0, 0, 0]);
}

#[test]
fn padded_areas_must_be_representable() {
    let plan = PyramidPlan {
        original_size: [1, 1],
        padded_size: [usize::MAX, 2],
        sizes: Vec::new(),
    };
    assert_eq!(
        prepare_input(&[0; 4], &[0; 4], 1, 1, &plan).unwrap_err().message(),
        "padded image area overflowed"
    );
}

#[test]
fn output_is_black_bgra_with_transparency_threshold() {
    let lumas = [1.0, 0.9, -1.0].into_iter().map(prediction_to_luma).collect::<Vec<_>>();
    let output = predicted_values_to_bgra(&lumas, [1, 3], [1, 3]).unwrap();

    assert_eq!(output, [0, 0, 0, 0, 0, 0, 0, 0, 0, 0, 0, 255]);
}

#[test]
fn output_is_cropped_and_thresholded() {
    let lumas = vec![0, 230, 77, 229, 255, 77];
    assert_eq!(
        predicted_values_to_bgra(&lumas, [2, 3], [2, 2]).unwrap(),
        [0, 0, 0, 255, 0, 0, 0, 0, 0, 0, 0, 26, 0, 0, 0, 0]
    );
    assert_eq!(
        predicted_values_to_bgra(&lumas, [2, 2], [2, 2]).unwrap_err().message(),
        "backend error: prediction contains 6 values, expected 4"
    );
    assert_eq!(
        predicted_values_to_bgra(&lumas, [usize::MAX, 2], [2, 2]).unwrap_err().message(),
        "backend error: prediction shape overflowed"
    );
    assert_eq!(
        predicted_values_to_bgra(&Vec::new(), [0, 7], [0, 7]).unwrap(),
        Vec::<u8>::new()
    );
}

#[test]
fn model_pads_and_crops_arbitrary_non_power_of_two_sizes() {
    let pixels = vec![255; 17 * 33 * 4];
    let lineart = vec![0; 17 * 33 * 4];

    let output = session()
        .infer_bgra(
            &pixels,
            &lineart,
            33,
            17,
            InferenceOptions { strength: 0.0_f32.to_bits(), seed: 1, denoising_steps: 1 },
            |prepared: &PreparedInput, plan: &PyramidPlan, _: InferenceOptions| {
                assert_eq!(plan.padded_size, [32, 48]);
                assert_eq!(prepared.luma.len(), 32 * 48);
                Ok(vec![0; 32 * 48])
            },
        )
        .unwrap();

    assert_eq!(output.len(), pixels.len());
    assert!(output.chunks_exact(4).all(|pixel| pixel == [0, 0, 0, 255]));
}

#[test]
fn requests_are_refused_before_the_model_runs() {
    let never = |_: &PreparedInput, _: &PyramidPlan, _: InferenceOptions| -> Result<Vec<u8>, InferenceError> {
        panic!("the model must not run")
    };
    let image = vec![0; 16 * 16 * 4];
    let text = |result: Result<Vec<u8>, InferenceError>| result.unwrap_err().message();

    assert_eq!(
        text(session().infer_bgra(&image, &image, 16, 16, options(2.0, 1), never)),
        "strength must be finite and between 0 and 1"
    );
    assert_eq!(
        text(session().infer_bgra(&image, &image, 0, 16, options(1.0, 1), never)),
        "width and height must be greater than zero"
    );
    assert_eq!(
        text(session().infer_bgra(&image[1..], &image, 16, 16, options(1.0, 1), never)),
        "scribble must contain exactly 1024 bytes, got 1023"
    );
    assert_eq!(
        text(session().infer_bgra(&image, &image[2..], 16, 16, options(1.0, 1), never)),
        "lineart must contain exactly 1024 bytes, got 1022"
    );
    assert_eq!(
        text(session().infer_bgra(&image, &image, 8, 32, options(1.0, 1), never)),
        "input size [32, 8] must be at least the model minimum [16, 16]"
    );
}

#[test]
fn replies_of_the_model_are_passed_on() {
    let image = vec![0; 16 * 16 * 4];
    let failed = session().infer_bgra(&image, &image, 16, 16, options(1.0, 1), |_: &PreparedInput, _: &PyramidPlan, _: InferenceOptions| {
        Err(InferenceError::Backend("out of memory".to_string()))
    });
    assert_eq!(failed.unwrap_err().message(), "backend error: out of memory");
    let short = session().infer_bgra(&image, &image, 16, 16, options(1.0, 1), |_: &PreparedInput, _: &PyramidPlan, _: InferenceOptions| {
        Ok(vec![0; 3])
    });
    assert_eq!(
        short.unwrap_err().message(),
        "backend error: prediction contains 3 values, expected 256"
    );
}

#[test]
fn schedules_fall_evenly_to_zero() {
    let fraction = |numerator, denominator| NoiseFraction { numerator, denominator };
    let parts = |start: f32, steps: usize| denoising_schedule(start.to_bits(), steps).parts;
    assert_eq!(
        parts(0.5, 3),
        vec![fraction(3, 3), fraction(2, 3), fraction(1, 3), fraction(0, 3)]
    );
    assert_eq!(parts(0.0, 3), vec![fraction(0, 1), fraction(0, 1)]);
    assert_eq!(parts(-1.0, 3), vec![fraction(0, 1), fraction(0, 1)]);
    assert_eq!(parts(0.0, 3), parts(0.0, 20));
    assert_eq!(parts(f32::NAN, 1), vec![fraction(1, 1), fraction(0, 1)]);
}

#[test]
fn schedules_start_between_zero_and_one() {
    for start in [
        0.0, -0.0, 1.0e-45, 0.25, 1.0, 1.0000001, 7.5, f32::MAX, f32::INFINITY, -1.0e-45, -3.0, f32::NEG_INFINITY,
    ] {
        let limited = start.clamp(0.0, 1.0).to_bits();
        assert_eq!(limit_to_unit(start.to_bits()), limited);
        assert_eq!(denoising_schedule(start.to_bits(), 2).start, limited);
    }
    assert_eq!(limit_to_unit(f32::NAN.to_bits()), f32::NAN.to_bits());
}

#[test]
fn samples_take_every_step_of_their_schedule() {
    let path = denoise_sample(
        Vec::new(),
        1.0_f32.to_bits(),
        2,
        |mut path: Vec<(usize, usize)>, level: NoiseFraction, next: NoiseFraction| {
            path.push((level.numerator, next.numerator));
            path
        },
    );
    assert_eq!(path, vec![(2, 1), (1, 0)]);
}

#[test]
fn equal_requests_are_answered_alike() {
    let scribble = (0..17 * 33 * 4).map(|index| (index * 7 % 256) as u8).collect::<Vec<_>>();
    let lineart = (0..17 * 33 * 4).map(|index| (index * 11 % 256) as u8).collect::<Vec<_>>();
    let answer = || {
        session()
            .infer_bgra(
                &scribble,
                &lineart,
                33,
                17,
                options(1.0, 1),
                |prepared: &PreparedInput, _: &PyramidPlan, _: InferenceOptions| {
                    Ok(prepared.luma.iter().map(|luma| (luma * 255 / PREPARED_WHITE) as u8).collect())
                },
            )
            .unwrap()
    };
    assert_eq!(answer(), answer());
    assert!(answer().chunks_exact(4).any(|pixel| pixel[3] > 0));
}

#[test]
fn every_level_of_a_plan_suits_the_model() {
    let model = DiffusionModelConfig::new().init(scaled);
    let plan = automatic_pyramid_plan([600, 1000], model.minimum_input_size(), 128).unwrap();
    for size in &plan.sizes {
        for encoder in &model.u_net.encoders {
            assert_eq!((size[0] % encoder.shrink_rate, size[1] % encoder.shrink_rate), (0, 0));
        }
    }
    for levels in plan.sizes.windows(2) {
        assert_eq!(model.expected_insert_size(levels[0]), levels[1]);
        assert_eq!(
            model.expected_insert_dims([2, 1, levels[0][0], levels[0][1]]),
            [2, 1, levels[1][0], levels[1][1]]
        );
    }
}

#[test]
fn darker_pixels_are_more_opaque() {
    let lumas = (0..=255).collect::<Vec<u8>>();
    let output = predicted_values_to_bgra(&lumas, [1, 256], [1, 256]).unwrap();
    let alphas = output.chunks_exact(4).map(|pixel| pixel[3]).collect::<Vec<_>>();
    assert!(alphas.windows(2).all(|pair| pair[1] <= pair[0]));
    assert_eq!((alphas[0], alphas[229], alphas[230], alphas[255]), (255, 26, 0, 0));
}
