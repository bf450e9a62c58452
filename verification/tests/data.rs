use lineartgen::data::listing::{
    images_by_filename, summarize_filenames, validate_matching_filenames, Directory, DirectoryEntry,
};
use lineartgen::data::multiscale::{
    check_variant, multiscale_lineart_datasets, split_sources, validate_crop_size,
};
use lineartgen::data::{
    cropped_item, item_at_level, LineartBatcher, LineartDataset, LineartDatasetItems, LineartItem, LineartSource,
    LineartVariant,
};
use lineartgen::error::ErrorKind;
use lineartgen::image_io::crops::{crop_source, CropSource};
use lineartgen::image_io::ImageCrop;
use lineartgen::paths::{extension, file_name, is_image_file, join_path, output_path_for};
use lineartgen::seeds::{derive_seed, splitmix64};
use rand::rngs::StdRng;
use rand::seq::SliceRandom;
use rand::{RngExt, SeedableRng};
use std::collections::HashSet;

struct TestDataset {
    base: Directory,
    scales: Vec<Directory>,
}

fn entry(name: &str, width: u32, height: u32) -> DirectoryEntry {
    DirectoryEntry { name: name.to_string(), dimensions: Some((width, height)) }
}

impl TestDataset {
    fn new(source_count: usize, variant_count: usize, image_size: usize) -> Self {
        assert!(variant_count > 0);
        let directory = |variant: usize| {
            let size = (image_size * (1usize << variant)) as u32;
            Directory {
                path: if variant == 0 { "root/base".to_string() } else { format!("root/scale-{variant}") },
                entries: (0..source_count)
                    .rev()
                    .map(|source| entry(&format!("source-{source:02}.png"), size, size))
                    .collect(),
            }
        };
        Self {
            base: directory(0),
            scales: (1..variant_count).map(directory).collect(),
        }
    }
}

fn filename(item: &LineartItem) -> String {
    file_name(&item.path).unwrap()
}

#[test]
fn rejects_scale_directories_with_missing_and_extra_filenames() {
    let mut dataset = TestDataset::new(3, 2, 8);
    dataset.scales[0].entries.retain(|entry| entry.name != "source-01.png");
    dataset.scales[0].entries.push(entry("extra.png", 8, 8));

    let error = multiscale_lineart_datasets(&dataset.base, &dataset.scales, 8, 1, 42).unwrap_err();

    assert!(error.message.contains("missing [source-01.png]"));
    assert!(error.message.contains("extra [extra.png]"));
    assert_eq!(error.kind, ErrorKind::InvalidData);
    assert_eq!(
        error.message,
        "dataset filenames in root/scale-1 do not match the base directory: missing [source-01.png], extra [extra.png]"
    );
}

#[test]
fn rejects_non_power_of_two_crop_sizes() {
    let dataset = TestDataset::new(3, 1, 8);

    let error = multiscale_lineart_datasets(&dataset.base, &dataset.scales, 3, 1, 42).unwrap_err();

    assert!(error.message.contains("positive power of two"));
    assert_eq!(error.kind, ErrorKind::InvalidInput);
    assert_eq!(
        validate_crop_size(0).unwrap_err().message,
        "dataset_crop_size must be a positive power of two, got 0"
    );
    assert!(validate_crop_size(1).is_ok());
    assert!(validate_crop_size(1 << 20).is_ok());
    assert!(validate_crop_size((1 << 20) + 1).is_err());
}

#[test]
fn rejects_scale_images_with_incorrect_dimensions() {
    let mut dataset = TestDataset::new(3, 2, 8);
    let wrong = dataset.scales[0].entries.iter_mut().find(|entry| entry.name == "source-00.png").unwrap();
    wrong.dimensions = Some((15, 16));

    let error = multiscale_lineart_datasets(&dataset.base, &dataset.scales, 8, 1, 42).unwrap_err();

    assert!(error.message.contains("requires exactly 16x16"));
    assert_eq!(
        error.message,
        "image root/scale-1/source-00.png is 15x16; scale level 1 requires exactly 16x16 from base 8x8"
    );
}

#[test]
fn dataset_errors_have_their_messages() {
    let dataset = TestDataset::new(3, 2, 8);
    let error = |dataset: &TestDataset, crop_size: usize, valid_count: usize| {
        multiscale_lineart_datasets(&dataset.base, &dataset.scales, crop_size, valid_count, 42).unwrap_err()
    };
    let none = TestDataset {
        base: Directory { path: "empty".to_string(), entries: vec![entry("notes.txt", 1, 1)] },
        scales: Vec::new(),
    };
    assert_eq!(error(&none, 8, 1).kind, ErrorKind::NotFound);
    assert_eq!(error(&none, 8, 1).message, "no images found in base dataset directory empty");
    assert_eq!(
        error(&dataset, 16, 1).message,
        "image root/base/source-00.png is 8x8, smaller than dataset_crop_size 16"
    );
    assert_eq!(
        error(&dataset, 8, 3).message,
        "dataset must contain more than 3 source images to create a validation split; found 3"
    );
    assert_eq!(error(&dataset, 8, 3).kind, ErrorKind::InvalidInput);
    let mut unreadable = TestDataset::new(3, 2, 8);
    unreadable.scales[0].entries[1].dimensions = None;
    assert_eq!(error(&unreadable, 8, 1).kind, ErrorKind::Unreadable);
    assert_eq!(error(&unreadable, 8, 1).message, "root/scale-1/source-01.png");
    let path = || "a.png".to_string();
    assert_eq!(
        check_variant((1, 1), path(), Some((1, 1)), usize::BITS as usize, 1).unwrap_err().message,
        format!("dataset scale level {} is too large", usize::BITS)
    );
    let level = usize::BITS as usize - 1;
    assert_eq!(
        check_variant((2, 1), path(), Some((1, 1)), level, 1).unwrap_err().message,
        format!("expected width overflow for a.png at scale level {level}")
    );
    assert_eq!(
        check_variant((1, 2), path(), Some((1, 1)), level, 1).unwrap_err().message,
        format!("expected height overflow for a.png at scale level {level}")
    );
    assert_eq!(
        check_variant((3, 5), path(), Some((12, 20)), 2, 4).unwrap(),
        LineartVariant { path: path(), width: 12, height: 20, scale_level: 2 }
    );
}

#[test]
fn splits_source_ids_before_expanding_scales() {
    let dataset = TestDataset::new(8, 6, 16);
    let (mut train, mut valid) = multiscale_lineart_datasets(&dataset.base, &dataset.scales, 8, 2, 42).unwrap();

    assert_eq!(train.len(), 6);
    assert_eq!(valid.len(), 12);
    let train_ids = (0..train.len())
        .map(|index| filename(&train.get(index).unwrap()))
        .collect::<HashSet<_>>();
    let valid_ids = (0..valid.len())
        .map(|index| filename(&valid.get(index).unwrap()))
        .collect::<HashSet<_>>();

    assert_eq!(train_ids.len(), 6);
    assert_eq!(valid_ids.len(), 2);
    assert!(train_ids.is_disjoint(&valid_ids));
}

#[test]
fn sources_are_dealt_out_as_a_shuffled_list_is() {
    let dataset = TestDataset::new(8, 2, 16);
    let (mut train, mut valid) = multiscale_lineart_datasets(&dataset.base, &dataset.scales, 8, 2, 42).unwrap();
    let mut names = (0..8).map(|source| format!("source-{source:02}.png")).collect::<Vec<_>>();
    names.shuffle(&mut StdRng::seed_from_u64(42));

    let valid_names = (0..4).map(|index| filename(&valid.get(index).unwrap())).collect::<Vec<_>>();
    let train_names = (0..6).map(|index| filename(&train.get(index).unwrap())).collect::<Vec<_>>();

    assert_eq!(valid_names, [0, 0, 1, 1].map(|place: usize| names[place].clone()));
    assert_eq!(train_names, names[2..]);
}

#[test]
fn training_sampling_changes_per_access_and_is_reproducible() {
    let dataset = TestDataset::new(5, 6, 32);
    let (mut first, _) = multiscale_lineart_datasets(&dataset.base, &dataset.scales, 8, 1, 123).unwrap();
    let (mut second, _) = multiscale_lineart_datasets(&dataset.base, &dataset.scales, 8, 1, 123).unwrap();

    let first_sequence = (0..12).map(|_| first.get(0).unwrap()).collect::<Vec<_>>();
    let second_sequence = (0..12).map(|_| second.get(0).unwrap()).collect::<Vec<_>>();

    assert_eq!(first_sequence, second_sequence);
    assert!(first_sequence.iter().skip(1).any(|item| item != &first_sequence[0]));
    assert!(first_sequence.iter().all(|item| item.crop.unwrap().size == 8));
    assert_eq!(first.get(4), None);

    let (mut third, _) = multiscale_lineart_datasets(&dataset.base, &dataset.scales, 8, 1, 123).unwrap();
    let third_sequence = (0..12)
        .map(|access| {
            (0..access % 4).for_each(|other| assert!(third.get(1 + other % 3).is_some()));
            third.get(0).unwrap()
        })
        .collect::<Vec<_>>();
    assert_eq!(third_sequence, first_sequence);
}

#[test]
fn training_draws_a_scale_and_then_a_place() {
    let dataset = TestDataset::new(5, 6, 32);
    let (mut train, _) = multiscale_lineart_datasets(&dataset.base, &dataset.scales, 8, 1, 123).unwrap();
    let LineartDatasetItems::RandomScale { sources, .. } = &train.items else {
        panic!("training draws at random");
    };
    let source = sources[2].clone();
    for access in 0..5 {
        let mut rng = StdRng::seed_from_u64(derive_seed(123, source.index, access));
        let level = rng.random_range(..source.variants.len());
        let variant = &source.variants[level];
        let x = rng.random_range(..=variant.width - 8);
        let y = rng.random_range(..=variant.height - 8);
        let item = train.get(2).unwrap();
        let crop = ImageCrop { x, y, size: 8 };
        assert_eq!(item, cropped_item(variant, crop));
        assert_eq!(item, item_at_level(&source, level, crop));
        assert_eq!(item.scale_level, variant.scale_level);
    }
}

#[test]
fn validation_uses_every_scale_and_fixed_crops() {
    let dataset = TestDataset::new(5, 6, 32);
    let (_, mut first) = multiscale_lineart_datasets(&dataset.base, &dataset.scales, 8, 2, 123).unwrap();
    let (_, mut second) = multiscale_lineart_datasets(&dataset.base, &dataset.scales, 8, 2, 123).unwrap();

    let first_items = (0..first.len()).map(|index| first.get(index).unwrap()).collect::<Vec<_>>();
    let second_items = (0..second.len()).map(|index| second.get(index).unwrap()).collect::<Vec<_>>();

    assert_eq!(first.len(), 2 * 6);
    assert_eq!(first_items, second_items);
    assert_eq!(first.get(3).unwrap(), first_items[3]);
    for source_items in first_items.chunks_exact(6) {
        let directories = source_items
            .iter()
            .map(|item| item.path.rsplit_once('/').unwrap().0.to_string())
            .collect::<HashSet<_>>();
        assert_eq!(directories.len(), 6);
        assert_eq!(
            source_items.iter().map(|item| item.scale_level).collect::<Vec<_>>(),
            vec![0, 1, 2, 3, 4, 5]
        );
    }
}

#[test]
fn every_scale_doubles_the_one_below() {
    let dataset = TestDataset::new(2, 4, 8);
    let (train, _) = multiscale_lineart_datasets(&dataset.base, &dataset.scales, 8, 1, 1).unwrap();
    let LineartDatasetItems::RandomScale { sources, crop_size, seed, access_counts } = train.items else {
        panic!("training draws at random");
    };
    assert_eq!((crop_size, seed, access_counts), (8, 1, vec![0]));
    let sizes = sources[0]
        .variants
        .iter()
        .map(|variant| (variant.width, variant.height, variant.scale_level))
        .collect::<Vec<_>>();
    assert_eq!(sizes, [(8, 8, 0), (16, 16, 1), (32, 32, 2), (64, 64, 3)]);
}

#[test]
fn validation_crops_come_from_their_own_seeds() {
    let dataset = TestDataset::new(5, 3, 32);
    let (_, mut valid) = multiscale_lineart_datasets(&dataset.base, &dataset.scales, 8, 2, 123).unwrap();
    for index in 0..6 {
        let item = valid.get(index).unwrap();
        let source = filename(&item)[7..9].parse::<usize>().unwrap();
        let size = 32 << item.scale_level;
        let mut rng = StdRng::seed_from_u64(derive_seed(123 ^ 0x7661_6c69_6461_7465, source, item.scale_level));
        let x = rng.random_range(..=size - 8usize);
        let y = rng.random_range(..=size - 8usize);
        assert_eq!(item.crop, Some(ImageCrop { x, y, size: 8 }));
        assert_eq!(item.scale_level, index % 3);
        assert!(x + 8 <= size && y + 8 <= size);
    }
}

#[test]
fn creates_512_pixel_batches_from_crops() {
    let dataset = TestDataset::new(3, 2, 512);
    let (_, mut valid) = multiscale_lineart_datasets(&dataset.base, &dataset.scales, 512, 1, 42).unwrap();
    let items = (0..2).map(|index| valid.get(index).unwrap()).collect::<Vec<_>>();

    let batch = LineartBatcher.batch(&items, |item: &LineartItem| {
        let crop = item.crop.unwrap();
        vec![0u8; crop.size * crop.size]
    });

    assert_eq!(batch.item_count(), 2);
    assert_eq!(batch.groups.len(), 2);
    assert_eq!(batch.groups[0].scale_level, 0);
    assert_eq!(batch.groups[0].inputs.len(), 1);
    assert_eq!(batch.groups[0].inputs[0].len(), 512 * 512);
    assert_eq!(batch.groups[1].scale_level, 1);
    assert_eq!(batch.groups[1].inputs.len(), 1);
    assert_eq!(batch.groups[1].inputs[0].len(), 512 * 512);
}

#[test]
fn batches_keep_the_order_of_items_within_a_scale() {
    let item = |path: &str, scale_level: usize| LineartItem { path: path.to_string(), crop: None, scale_level };
    let items = vec![item("a", 4), item("b", 0), item("c", 2), item("d", 4), item("e", 0)];
    let batch = LineartBatcher.batch(&items, |item: &LineartItem| item.path.clone());
    let groups = batch
        .groups
        .iter()
        .map(|group| (group.scale_level, group.inputs.clone(), group.item_count()))
        .collect::<Vec<_>>();
    assert_eq!(
        groups,
        vec![
            (0, vec!["b".to_string(), "e".to_string()], 2),
            (2, vec!["c".to_string()], 1),
            (4, vec!["a".to_string(), "d".to_string()], 2),
        ]
    );
    assert_eq!(batch.item_count(), 5);
}

#[test]
fn datasets_of_a_directory_are_sorted_images() {
    let directory = Directory {
        path: "images/".to_string(),
        entries: ["b.PNG", "a.jpeg", "notes.txt", "B.jpg", ".png", "a"]
            .into_iter()
            .map(|name| entry(name, 1, 1))
            .collect(),
    };
    let mut dataset = LineartDataset::from_dir(&directory);
    assert_eq!(dataset.len(), 3);
    let items = (0..3).map(|index| dataset.get(index).unwrap()).collect::<Vec<_>>();
    assert_eq!(
        items.iter().map(|item| item.path.as_str()).collect::<Vec<_>>(),
        ["images/B.jpg", "images/a.jpeg", "images/b.PNG"]
    );
    assert!(items.iter().all(|item| item.crop.is_none() && item.scale_level == 0));
    assert_eq!(dataset.get(3), None);
}

#[test]
fn listings_are_sorted_and_the_last_of_a_name_counts() {
    let images = images_by_filename(&vec![
        entry("c.png", 1, 1),
        entry("a.png", 2, 2),
        entry("c.png", 3, 3),
        entry("b.gif", 4, 4),
    ]);
    assert_eq!(images, vec![entry("a.png", 2, 2), entry("c.png", 3, 3)]);
    assert!(validate_matching_filenames(&images, &images, "x").is_ok());
}

#[test]
fn long_lists_of_names_are_cut_short() {
    let names = |count: usize| (0..count).map(|index| format!("n{index}")).collect::<Vec<_>>();
    assert_eq!(summarize_filenames(&names(0)), "");
    assert_eq!(summarize_filenames(&names(2)), "n0, n1");
    assert_eq!(summarize_filenames(&names(8)), "n0, n1, n2, n3, n4, n5, n6, n7");
    assert_eq!(
        summarize_filenames(&names(12)),
        "n0, n1, n2, n3, n4, n5, n6, n7, ... (12 total)"
    );
}

#[test]
fn splits_follow_the_given_order() {
    let sources = (0..3)
        .map(|index| LineartSource { index, variants: Vec::new() })
        .collect::<Vec<_>>();
    let (train, valid) = split_sources(&sources, &vec![2, 0, 1], 1);
    assert_eq!(train.iter().map(|source| source.index).collect::<Vec<_>>(), [0, 1]);
    assert_eq!(valid.iter().map(|source| source.index).collect::<Vec<_>>(), [2]);
}

#[test]
fn seeds_are_mixed_as_splitmix_does() {
    assert_eq!(splitmix64(0), 0xe220_a839_7b1d_cdaf);
    assert_eq!(splitmix64(0x9e37_79b9_7f4a_7c15), 0x6e78_9e6a_a1b9_65f4);
    assert_eq!(
        derive_seed(7, 3, 5),
        splitmix64(7 ^ splitmix64(3) ^ splitmix64(5 ^ 0x9e37_79b9_7f4a_7c15))
    );
    let seeds = (0..100).map(|sequence| derive_seed(7, 3, sequence)).collect::<HashSet<_>>();
    assert_eq!(seeds.len(), 100);
}

#[test]
fn paths_have_names_and_extensions() {
    for path in ["a/b.png", "b.png", "a/b.png/", "a/b.png/.", "/x/./b.png", "a//b.png//"] {
        assert_eq!(file_name(path).as_deref(), Some("b.png"));
        assert_eq!(std::path::Path::new(path).file_name().unwrap(), "b.png");
    }
    for path in ["", ".", "..", "/", "a/..", "./", "//."] {
        assert_eq!(file_name(path), None);
        assert!(std::path::Path::new(path).file_name().is_none());
    }
    for path in ["a.tar.gz", ".hidden", "a.", "..a", "a/.b.c", "noext", ".."] {
        let expected = std::path::Path::new(path).extension().map(|part| part.to_str().unwrap().to_string());
        assert_eq!(extension(path), expected);
    }
    assert!(is_image_file("a/b.JpEg"));
    assert!(!is_image_file("a/png"));
    assert!(!is_image_file("a.png/b"));
    assert_eq!(join_path("a", "b"), "a/b");
    assert_eq!(join_path("a/", "b"), "a/b");
    assert_eq!(join_path("", "b"), "b");
    assert_eq!(join_path("a", "/b"), "/b");
    assert_eq!(file_name(&join_path("a/", "b")).as_deref(), Some("b"));
    assert_eq!(crop_source("x/a.PNG"), CropSource::PngRows);
    assert_eq!(crop_source("x/a.jpg"), CropSource::WholeImage);
}

#[test]
fn outputs_go_to_the_output_directory() {
    assert_eq!(output_path_for("dataset/images/a.png").unwrap(), "tmp/images/a.png");
    let error = output_path_for("a/..").unwrap_err();
    assert_eq!(error.kind, ErrorKind::InvalidInput);
    assert_eq!(error.message, "input path has no file name: a/..");
}
