use lineartgen::model::u_net::{UNet, UNetConfig};
use lineartgen::model::{DiffusionModel, DiffusionModelConfig};
use lineartgen::recursion::{
    forward_recursive, forward_teacher_forced, input_sizes, tensor_pyramid, validate_clean_pyramid,
    validate_pyramids, RecursionConfig,
};

type Shape = [usize; 4];

fn scaled(channels: usize, factor: u64) -> usize {
    (channels as f64 * f64::from_bits(factor)).round() as usize
}

fn default_model() -> DiffusionModel {
    DiffusionModelConfig::new().init(scaled)
}

/// What the layers of a network make of the shape of their input.
fn forward_shape(unet: &UNet, conditioned: Shape, insert: Shape) -> Shape {
    unet.forward(
        conditioned,
        insert,
        |step: usize, input: &Shape| {
            let encoder = unet.encoders[step];
            assert_eq!(input[1], encoder.input_channels);
            let pooled = [
                input[0],
                encoder.output_channels,
                (input[2] - encoder.pool_size) / encoder.pool_size + 1,
                (input[3] - encoder.pool_size) / encoder.pool_size + 1,
            ];
            assert_eq!(pooled[2] * encoder.shrink_rate, conditioned[2]);
            assert_eq!(pooled[3] * encoder.shrink_rate, conditioned[3]);
            pooled
        },
        |index: usize, skip: &Shape, insert: Option<&Shape>, previous: Option<&Shape>| {
            let decoder = unet.decoders[index];
            let mut channels = skip[1];
            for joined in insert.iter().chain(previous.iter()) {
                assert_eq!(joined[2..], skip[2..]);
                channels += joined[1];
            }
            assert_eq!(channels, decoder.input_channels);
            assert_eq!(insert.is_some(), index + 1 == unet.decoders.len());
            assert_eq!(previous.is_some(), index > 0);
            let size = |size: usize| {
                (size - 1) * decoder.stride + decoder.kernel_size + decoder.padding_out - 2 * decoder.padding
            };
            [skip[0], decoder.output_channels, size(skip[2]), size(skip[3])]
        },
        |input: &Shape, decoded: &Shape| {
            assert_eq!(input[2..], decoded[2..]);
            assert_eq!(input[1] + decoded[1], unet.final_conv.input_channels);
            [input[0], unet.final_conv.output_channels, input[2], input[3]]
        },
    )
}

#[test]
fn default_unet_forwards_single_1024_image() {
    let model = UNetConfig::new().init(scaled);
    let [insert_height, insert_width] = model.expected_insert_size([1024, 1024]);

    let output = forward_shape(&model, [1, 2, 1024, 1024], [1, 1, insert_height, insert_width]);

    assert_eq!(output, [1, 1, 1024, 1024]);
}

#[test]
fn default_unet_reports_input_and_insert_sizes() {
    let model = UNetConfig::new().init(scaled);

    assert_eq!(model.minimum_input_size(), [128, 128]);
    assert_eq!(model.expected_insert_size([1024, 1024]), [512, 512]);
}

#[test]
fn layers_follow_the_configuration() {
    let mut config = UNetConfig::with_default_steps(2);
    config.sizes[0].decoder_kernel_size = 4;
    config.sizes[1].pool_size = 4;
    config.sizes[1].down_channels_mul = 1.5_f64.to_bits();
    config.sizes[1].transposed_channels_mul = 0.5_f64.to_bits();
    let unet = config.init(scaled);

    let encoders = &unet.encoders;
    assert_eq!((encoders[0].input_channels, encoders[0].output_channels), (2, 4));
    assert_eq!((encoders[1].input_channels, encoders[1].output_channels), (4, 6));
    assert_eq!((encoders[0].shrink_rate, encoders[1].shrink_rate), (2, 8));
    let decoders = &unet.decoders;
    assert_eq!((decoders[0].input_channels, decoders[0].output_channels), (6, 2));
    assert_eq!((decoders[0].stride, decoders[0].padding, decoders[0].padding_out), (4, 0, 1));
    assert_eq!((decoders[1].input_channels, decoders[1].output_channels), (2 + 1 + 4, 2));
    assert_eq!((decoders[1].stride, decoders[1].padding, decoders[1].padding_out), (2, 1, 0));
    assert_eq!(unet.final_conv.input_channels, 4);
    assert_eq!(forward_shape(&unet, [3, 2, 24, 40], [3, 1, 12, 20]), [3, 1, 24, 40]);
}

/// A tensor with its values.
#[derive(Clone, Debug, PartialEq)]
struct Values {
    dims: Shape,
    sum: f32,
}

fn run(
    model: &DiffusionModel,
    input: Values,
    noise_level: Values,
    insert: Option<Values>,
) -> Result<Values, String> {
    let dims = input.dims;
    model.forward(
        input,
        dims,
        noise_level,
        insert.map(|insert| (insert.clone(), insert.dims)),
        |dims: Shape| Values { dims, sum: 0.0 },
        |input: Values, noise_level: Values, insert: Values| {
            let conditioned = [input.dims[0], 2, input.dims[2], input.dims[3]];
            Values {
                dims: forward_shape(&model.u_net, conditioned, insert.dims),
                sum: input.sum + 2.0 * noise_level.sum + 4.0 * insert.sum,
            }
        },
    )
}

#[test]
fn one_step_forward_accepts_an_insert() {
    let model = default_model();
    let input = Values { dims: [1, 1, 128, 128], sum: 0.0 };
    let [insert_height, insert_width] = model.expected_insert_size([128, 128]);
    let insert = Values { dims: [1, model.insert_channels(), insert_height, insert_width], sum: 0.0 };

    let output = run(&model, input.clone(), input, Some(insert)).unwrap();

    assert_eq!(output.dims, [1, 1, 128, 128]);
}

#[test]
fn missing_insert_is_equivalent_to_an_explicit_zero_insert() {
    let model = default_model();
    let input = Values { dims: [1, 1, 32, 32], sum: 3.0 };
    let [insert_height, insert_width] = model.expected_insert_size([32, 32]);
    let insert = Values { dims: [1, model.insert_channels(), insert_height, insert_width], sum: 0.0 };

    let implicit = run(&model, input.clone(), input.clone(), None).unwrap();
    let explicit = run(&model, input.clone(), input, Some(insert)).unwrap();

    assert_eq!(implicit, explicit);
    assert_eq!(implicit.sum, 9.0);
}

#[test]
#[should_panic(expected = "insert shape must match the first encoder output")]
fn rejects_an_insert_with_the_wrong_shape() {
    let model = default_model();
    let input = Values { dims: [1, 1, 32, 32], sum: 0.0 };
    let insert = Values { dims: [1, 1, 8, 8], sum: 0.0 };

    let _ = run(&model, input.clone(), input, Some(insert)).unwrap_or_else(|message| panic!("{message}"));
}

#[test]
fn inserts_have_the_shape_of_the_first_encoder_output() {
    let model = default_model();
    assert_eq!(model.minimum_input_size(), [16, 16]);
    assert_eq!(model.expected_insert_dims([5, 1, 48, 32]), [5, 1, 24, 16]);
    assert!(model.insert_fits([5, 1, 48, 32], [5, 1, 24, 16]));
    assert!(!model.insert_fits([5, 1, 48, 32], [4, 1, 24, 16]));
    assert!(!model.insert_fits([5, 1, 48, 32], [5, 2, 24, 16]));
    assert!(!model.insert_fits([5, 1, 48, 32], [5, 1, 24, 24]));
}

#[test]
fn scale_level_adds_one_recursive_step_per_dataset_scale() {
    let model = default_model();
    let mut config = RecursionConfig::new();
    config.original_steps = 1;

    for scale_level in 0..=5 {
        assert_eq!(input_sizes(&model, &config, [512, 512], scale_level).len(), scale_level + 1);
    }
}

#[test]
fn recursion_is_capped_by_stop_and_minimum_sizes() {
    let model = default_model();
    let mut config = RecursionConfig::new();
    config.stop_size = 64;

    assert_eq!(
        input_sizes(&model, &config, [512, 512], 5),
        vec![[512, 512], [256, 256], [128, 128], [64, 64]]
    );

    config.stop_size = 0;
    assert_eq!(
        input_sizes(&model, &config, [512, 512], usize::MAX),
        vec![[512, 512], [256, 256], [128, 128], [64, 64], [32, 32], [16, 16]]
    );
}

#[test]
fn recursion_needs_a_step() {
    let mut config = RecursionConfig::new();
    assert_eq!((config.original_steps, config.stop_size), (usize::MAX, 0));
    assert!(config.validate().is_ok());
    config.original_steps = 0;
    assert_eq!(config.validate().unwrap_err(), "original_steps must be greater than zero");
}

#[test]
fn recursive_and_teacher_forced_execution_return_every_scale() {
    let model = default_model();
    let mut config = RecursionConfig::new();
    config.original_steps = 2;
    let sizes = input_sizes(&model, &config, [32, 32], 0);
    let pyramid = || {
        tensor_pyramid(
            &sizes,
            Values { dims: [1, 1, 32, 32], sum: 1.0 },
            [32, 32],
            |tensor: &Values| tensor.clone(),
            |tensor: &Values, size: [usize; 2]| Values {
                dims: [tensor.dims[0], tensor.dims[1], size[0], size[1]],
                sum: tensor.sum + 10.0,
            },
        )
    };
    let inputs = pyramid();
    let noise_levels = pyramid();
    let clean = pyramid();
    let forward = |input: &Values, noise_level: &Values, insert: Option<&Values>| {
        run(&model, input.clone(), noise_level.clone(), insert.cloned()).unwrap()
    };

    let recursive = forward_recursive(&inputs, &noise_levels, forward);
    let teacher_forced = forward_teacher_forced(&inputs, &noise_levels, &clean, forward);

    assert_eq!(recursive.len(), 2);
    assert_eq!(teacher_forced.len(), 2);
    assert_eq!(recursive[0].dims, [1, 1, 32, 32]);
    assert_eq!(recursive[1].dims, [1, 1, 16, 16]);
    assert_eq!((inputs[0].sum, inputs[1].sum), (1.0, 11.0));
    assert_eq!((recursive[0].sum, recursive[1].sum), (3.0 + 4.0 * 33.0, 33.0));
    assert_eq!((teacher_forced[0].sum, teacher_forced[1].sum), (3.0 + 4.0 * 11.0, 33.0));
}

#[test]
fn pyramids_have_to_match() {
    let large = [1, 1, 32, 32];
    let small = [1, 1, 16, 16];
    assert!(validate_pyramids(&vec![large, small], &vec![large, small]).is_ok());
    assert_eq!(
        validate_pyramids(&vec![], &vec![]).unwrap_err(),
        "at least one scale is required"
    );
    assert_eq!(
        validate_pyramids(&vec![large], &vec![large, small]).unwrap_err(),
        "noise level pyramid length must match inputs"
    );
    assert_eq!(
        validate_pyramids(&vec![large, large], &vec![large, small]).unwrap_err(),
        "noise level pyramid shapes must match inputs"
    );
    let pyramid = vec![large, small];
    assert!(validate_clean_pyramid(&pyramid, &pyramid, &pyramid).is_ok());
    assert_eq!(
        validate_clean_pyramid(&pyramid, &pyramid, &vec![large]).unwrap_err(),
        "clean pyramid length must match inputs"
    );
    assert_eq!(
        validate_clean_pyramid(&pyramid, &pyramid, &vec![small, small]).unwrap_err(),
        "clean pyramid shapes must match inputs"
    );
    assert_eq!(
        validate_clean_pyramid(&pyramid, &vec![large], &pyramid).unwrap_err(),
        "noise level pyramid length must match inputs"
    );
}
