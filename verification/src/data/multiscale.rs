//! Datasets whose images exist at several scales.
use crate::data::listing::{
    entry_names, entry_views, filenames_error, image_list, images_by_filename,
    law_image_list_is_complete, law_image_list_is_sorted, law_matching_filenames_are_equal,
    validate_matching_filenames, Directory, DirectoryEntry, EntryView,
};
use crate::data::{
    cropped_item, drawn_crop, hold_the_same, is_crop_of, is_part_of, item_views, law_sampling_is_reproducible, random_crop, source_fits, source_views, ItemView,
    LineartDataset, LineartDatasetItems, LineartItem, LineartSource, LineartVariant, SourceView,
    VariantView,
};
use crate::error::{DataError, ErrorKind};
use crate::grid::lemma_position;
use crate::image_io::ImageCrop;
use crate::paths::{
    after_last, final_component, is_image_path, join_path, law_join_keeps_the_name, path_in, stripped,
};
use crate::powers::{is_power_of_two, power_of_two, scaled_by_power};
use crate::rng::{drawn_up_to, seeded_rng, seeded_state, shuffle, shuffled};
use crate::seeds::{derive_seed, derived_seed};
use crate::text::{before, decimal, lemma_before_is_total, push_decimal};
use rand::rngs::StdRng;
use vstd::arithmetic::power2::pow2;
use vstd::prelude::*;

verus! {

/// What sets the seeds of validation crops apart from those of training.
pub const VALIDATION_SEED_MASK: u64 = 0x7661_6c69_6461_7465;

/// The base directory and those of the larger scales, in the order of their
/// levels.
pub open spec fn directories(base: Directory, scales: Seq<Directory>) -> Seq<Directory> {
    seq![base] + scales
}

/// The images of a directory, in the order of their names.
pub open spec fn images_of(directory: Directory) -> Seq<EntryView> {
    image_list(entry_views(directory.entries@))
}

/// Why a crop size is refused, if it is.
pub open spec fn crop_size_error(crop_size: usize) -> Option<(ErrorKind, Seq<char>)> {
    if is_power_of_two(crop_size as nat) {
        None
    } else {
        Some(
            (
                ErrorKind::InvalidInput,
                "dataset_crop_size must be a positive power of two, got "@ + decimal(
                    crop_size as nat,
                ),
            ),
        )
    }
}

/// Refuses a crop size that is no power of two.
pub fn validate_crop_size(crop_size: usize) -> (result: Result<(), DataError>)
    ensures
        match crop_size_error(crop_size) {
            Some(expected) => result matches Err(error) && error@ == expected,
            None => result is Ok,
        },
{
    if !power_of_two(crop_size) {
        let mut message: String =
            "dataset_crop_size must be a positive power of two, got ".to_owned();
        push_decimal(&mut message, crop_size);
        return Err(DataError { kind: ErrorKind::InvalidInput, message });
    }
    Ok(())
}

/// The first directory whose images do not have the names of the base images.
pub open spec fn names_error(base: Directory, scales: Seq<Directory>) -> Option<
    (ErrorKind, Seq<char>),
>
    decreases scales.len(),
{
    if scales.len() == 0 {
        None
    } else if names_error(base, scales.drop_last()) is Some {
        names_error(base, scales.drop_last())
    } else {
        filenames_error(
            entry_names(images_of(base)),
            entry_names(images_of(scales.last())),
            scales.last().path@,
        )
    }
}

/// Two numbers as a message shows the size of an image.
pub open spec fn extent(width: nat, height: nat) -> Seq<char> {
    decimal(width) + "x"@ + decimal(height)
}

/// Why an image is refused at a scale level, if it is: its size has to be that of
/// the base image, doubled once for each level, and a crop has to fit into it.
pub open spec fn variant_error(
    base_dimensions: (u32, u32),
    path: Seq<char>,
    dimensions: Option<(u32, u32)>,
    level: nat,
    crop_size: usize,
) -> Option<(ErrorKind, Seq<char>)> {
    let expected_width = base_dimensions.0 * pow2(level);
    let expected_height = base_dimensions.1 * pow2(level);
    match dimensions {
        None => Some((ErrorKind::Unreadable, path)),
        Some((width, height)) => if pow2(level) > usize::MAX {
            Some(
                (
                    ErrorKind::InvalidData,
                    "dataset scale level "@ + decimal(level) + " is too large"@,
                ),
            )
        } else if expected_width > usize::MAX {
            Some(
                (
                    ErrorKind::InvalidData,
                    "expected width overflow for "@ + path + " at scale level "@ + decimal(level),
                ),
            )
        } else if expected_height > usize::MAX {
            Some(
                (
                    ErrorKind::InvalidData,
                    "expected height overflow for "@ + path + " at scale level "@ + decimal(level),
                ),
            )
        } else if width != expected_width || height != expected_height {
            Some(
                (
                    ErrorKind::InvalidData,
                    "image "@ + path + " is "@ + extent(width as nat, height as nat)
                        + "; scale level "@ + decimal(level) + " requires exactly "@ + extent(
                        expected_width as nat,
                        expected_height as nat,
                    ) + " from base "@ + extent(
                        base_dimensions.0 as nat,
                        base_dimensions.1 as nat,
                    ),
                ),
            )
        } else if width < crop_size || height < crop_size {
            Some(
                (
                    ErrorKind::InvalidData,
                    "image "@ + path + " is "@ + extent(width as nat, height as nat)
                        + ", smaller than dataset_crop_size "@ + decimal(crop_size as nat),
                ),
            )
        } else {
            None
        },
    }
}

fn push_extent(out: &mut String, width: usize, height: usize)
    ensures
        final(out)@ == old(out)@ + extent(width as nat, height as nat),
{
    push_decimal(out, width);
    out.append("x");
    push_decimal(out, height);
    proof {
        assert(out@ =~= old(out)@ + extent(width as nat, height as nat));
    }
}

fn overflow_error(dimension: &str, path: &String, level: usize) -> (error: DataError)
    ensures
        error@ == (
            ErrorKind::InvalidData,
            dimension@ + path@ + " at scale level "@ + decimal(level as nat),
        ),
{
    let mut message: String = dimension.to_owned();
    message.append(path.as_str());
    message.append(" at scale level ");
    push_decimal(&mut message, level);
    DataError { kind: ErrorKind::InvalidData, message }
}

/// Takes an image as the variant of a scale level, if its size is right.
pub fn check_variant(
    base_dimensions: (u32, u32),
    path: String,
    dimensions: Option<(u32, u32)>,
    level: usize,
    crop_size: usize,
) -> (result: Result<LineartVariant, DataError>)
    ensures
        match variant_error(base_dimensions, path@, dimensions, level as nat, crop_size) {
            Some(expected) => result matches Err(error) && error@ == expected,
            None => result matches Ok(variant) && dimensions matches Some((width, height))
                && variant@ == (VariantView {
                path: path@,
                width: width as usize,
                height: height as usize,
                scale_level: level,
            }),
        },
{
    let (width, height): (usize, usize) = match dimensions {
        Some((width, height)) => (width as usize, height as usize),
        None => {
            return Err(DataError { kind: ErrorKind::Unreadable, message: path });
        },
    };
    let scale: usize = match scaled_by_power(1, level) {
        Some(scale) => scale,
        None => {
            let mut message: String = "dataset scale level ".to_owned();
            push_decimal(&mut message, level);
            message.append(" is too large");
            return Err(DataError { kind: ErrorKind::InvalidData, message });
        },
    };
    let base_width: usize = base_dimensions.0 as usize;
    let base_height: usize = base_dimensions.1 as usize;
    let expected_width: usize = match base_width.checked_mul(scale) {
        Some(expected) => expected,
        None => {
            return Err(overflow_error("expected width overflow for ", &path, level));
        },
    };
    let expected_height: usize = match base_height.checked_mul(scale) {
        Some(expected) => expected,
        None => {
            return Err(overflow_error("expected height overflow for ", &path, level));
        },
    };
    if width != expected_width || height != expected_height {
        let mut message: String = "image ".to_owned();
        message.append(path.as_str());
        message.append(" is ");
        push_extent(&mut message, width, height);
        message.append("; scale level ");
        push_decimal(&mut message, level);
        message.append(" requires exactly ");
        push_extent(&mut message, expected_width, expected_height);
        message.append(" from base ");
        push_extent(&mut message, base_width, base_height);
        return Err(DataError { kind: ErrorKind::InvalidData, message });
    }
    if width < crop_size || height < crop_size {
        let mut message: String = "image ".to_owned();
        message.append(path.as_str());
        message.append(" is ");
        push_extent(&mut message, width, height);
        message.append(", smaller than dataset_crop_size ");
        push_decimal(&mut message, crop_size);
        return Err(DataError { kind: ErrorKind::InvalidData, message });
    }
    Ok(LineartVariant { path, width, height, scale_level: level })
}

/// The path of an image at a level.
pub open spec fn image_path(directories: Seq<Directory>, level: int, source: int) -> Seq<char> {
    path_in(directories[level].path@, images_of(directories[level])[source].name)
}

/// Why an image is refused at one of its first `levels` levels, if it is: the
/// first error that there is.
pub open spec fn source_error(
    directories: Seq<Directory>,
    source: int,
    crop_size: usize,
    levels: nat,
) -> Option<(ErrorKind, Seq<char>)>
    decreases levels,
{
    match images_of(directories[0])[source].dimensions {
        None => Some((ErrorKind::Unreadable, image_path(directories, 0, source))),
        Some(base_dimensions) => if levels == 0 {
            None
        } else if source_error(directories, source, crop_size, (levels - 1) as nat) is Some {
            source_error(directories, source, crop_size, (levels - 1) as nat)
        } else {
            variant_error(
                base_dimensions,
                image_path(directories, levels - 1, source),
                images_of(directories[levels - 1])[source].dimensions,
                (levels - 1) as nat,
                crop_size,
            )
        },
    }
}

/// The first error among the first `count` images.
pub open spec fn sources_error(
    directories: Seq<Directory>,
    crop_size: usize,
    count: nat,
) -> Option<(ErrorKind, Seq<char>)>
    decreases count,
{
    if count == 0 {
        None
    } else if sources_error(directories, crop_size, (count - 1) as nat) is Some {
        sources_error(directories, crop_size, (count - 1) as nat)
    } else {
        source_error(directories, count - 1, crop_size, directories.len())
    }
}

/// Why there is no dataset, if there is none.
pub open spec fn dataset_error(
    base: Directory,
    scales: Seq<Directory>,
    crop_size: usize,
    valid_count: usize,
) -> Option<(ErrorKind, Seq<char>)> {
    let count = images_of(base).len();
    if crop_size_error(crop_size) is Some {
        crop_size_error(crop_size)
    } else if count == 0 {
        Some(
            (ErrorKind::NotFound, "no images found in base dataset directory "@ + base.path@),
        )
    } else if names_error(base, scales) is Some {
        names_error(base, scales)
    } else if sources_error(directories(base, scales), crop_size, count) is Some {
        sources_error(directories(base, scales), crop_size, count)
    } else if valid_count >= count {
        Some(
            (
                ErrorKind::InvalidInput,
                "dataset must contain more than "@ + decimal(valid_count as nat)
                    + " source images to create a validation split; found "@ + decimal(count),
            ),
        )
    } else {
        None
    }
}

/// An image at all its levels.
pub open spec fn source_for(directories: Seq<Directory>, source: int) -> SourceView {
    SourceView {
        index: source as usize,
        variants: Seq::new(
            directories.len(),
            |level: int|
                {
                    let dimensions = images_of(directories[level])[source].dimensions->Some_0;
                    VariantView {
                        path: image_path(directories, level, source),
                        width: dimensions.0 as usize,
                        height: dimensions.1 as usize,
                        scale_level: level as usize,
                    }
                },
        ),
    }
}

/// The images of all directories, each at all its levels.
pub open spec fn sources_of(directories: Seq<Directory>) -> Seq<SourceView> {
    Seq::new(images_of(directories[0]).len(), |index: int| source_for(directories, index))
}

/// The images of each directory, in the order of their names.
spec fn are_image_sets(image_sets: Seq<Vec<DirectoryEntry>>, directories: Seq<Directory>) -> bool {
    &&& image_sets.len() <= directories.len()
    &&& forall|level: int|
        0 <= level < image_sets.len() ==> entry_views((#[trigger] image_sets[level])@) == images_of(
            directories[level],
        )
}

/// No level lacks an image.
spec fn levels_agree(directories: Seq<Directory>) -> bool {
    forall|level: int|
        0 <= level < directories.len() ==> images_of(#[trigger] directories[level]).len()
            == images_of(directories[0]).len()
}

/// Lists the images of all directories, and refuses those whose names differ.
fn load_image_sets(base: &Directory, scales: &Vec<Directory>) -> (result: Result<
    Vec<Vec<DirectoryEntry>>,
    DataError,
>)
    ensures
        match result {
            Ok(image_sets) => {
                &&& names_error(*base, scales@) is None
                &&& image_sets@.len() == scales@.len() + 1
                &&& are_image_sets(image_sets@, directories(*base, scales@))
                &&& levels_agree(directories(*base, scales@))
            },
            Err(error) => names_error(*base, scales@) == Some(error@),
        },
{
    let ghost all = directories(*base, scales@);
    let mut image_sets: Vec<Vec<DirectoryEntry>> = Vec::new();
    image_sets.push(images_by_filename(&base.entries));
    let mut index: usize = 0;
    proof {
        assert(scales@.take(0) =~= Seq::<Directory>::empty());
    }
    while index < scales.len()
        invariant
            index <= scales@.len(),
            image_sets@.len() == index + 1,
            all == directories(*base, scales@),
            are_image_sets(image_sets@, all),
            names_error(*base, scales@.take(index as int)) is None,
            forall|level: int|
                0 <= level <= index ==> images_of(#[trigger] all[level]).len() == images_of(
                    all[0],
                ).len(),
        decreases scales@.len() - index,
    {
        let images: Vec<DirectoryEntry> = images_by_filename(&scales[index].entries);
        let path: &str = scales[index].path.as_str();
        proof {
            assert(scales@.take(index + 1).drop_last() =~= scales@.take(index as int));
            assert(all[index + 1] == scales@[index as int]);
            assert(entry_views(image_sets@[0]@) == images_of(*base));
        }
        match validate_matching_filenames(&image_sets[0], &images, path) {
            Ok(_) => {},
            Err(error) => {
                proof {
                    lemma_names_error_stays(*base, scales@, index + 1);
                }
                return Err(error);
            },
        }
        proof {
            law_matching_filenames_are_equal(
                entry_views(base.entries@),
                entry_views(scales@[index as int].entries@),
                path@,
            );
            assert(entry_names(images_of(*base)).len() == images_of(*base).len());
            assert(entry_names(images_of(all[index + 1])).len() == images_of(all[index + 1]).len());
        }
        let ghost before_sets = image_sets@;
        image_sets.push(images);
        proof {
            assert forall|level: int| 0 <= level < image_sets@.len() implies entry_views(
                (#[trigger] image_sets@[level])@,
            ) == images_of(all[level]) by {
                if level < before_sets.len() {
                    assert(before_sets[level] == image_sets@[level]);
                }
            }
        }
        index = index + 1;
    }
    proof {
        assert(scales@.take(scales@.len() as int) =~= scales@);
    }
    Ok(image_sets)
}

proof fn lemma_names_error_stays(base: Directory, scales: Seq<Directory>, count: int)
    requires
        0 <= count <= scales.len(),
        names_error(base, scales.take(count)) is Some,
    ensures
        names_error(base, scales) == names_error(base, scales.take(count)),
    decreases scales.len() - count,
{
    if count < scales.len() {
        assert(scales.take(count + 1).drop_last() =~= scales.take(count));
        lemma_names_error_stays(base, scales, count + 1);
    } else {
        assert(scales.take(count) =~= scales);
    }
}

/// The path of the directory at a level.
fn directory_path<'a>(base: &'a Directory, scales: &'a Vec<Directory>, level: usize) -> (path: &'a str)
    requires
        level <= scales@.len(),
    ensures
        path@ == directories(*base, scales@)[level as int].path@,
{
    if level == 0 {
        base.path.as_str()
    } else {
        scales[level - 1].path.as_str()
    }
}

/// The variant at a level is the expected one, and crops fit into it.
spec fn is_loaded(
    variants: Seq<LineartVariant>,
    expected: Seq<VariantView>,
    crop_size: usize,
    level: int,
) -> bool {
    &&& variants[level]@ == expected[level]
    &&& expected[level].width >= crop_size
    &&& expected[level].height >= crop_size
}

/// Collects an image at all its levels.
fn load_source(
    base: &Directory,
    scales: &Vec<Directory>,
    image_sets: &Vec<Vec<DirectoryEntry>>,
    source: usize,
    crop_size: usize,
) -> (result: Result<LineartSource, DataError>)
    requires
        image_sets@.len() == scales@.len() + 1,
        are_image_sets(image_sets@, directories(*base, scales@)),
        levels_agree(directories(*base, scales@)),
        source < images_of(*base).len(),
    ensures
        ({
            let all = directories(*base, scales@);
            match source_error(all, source as int, crop_size, all.len()) {
                Some(expected) => result matches Err(error) && error@ == expected,
                None => result matches Ok(loaded) && loaded@ == source_for(all, source as int)
                    && source_fits(loaded@, crop_size),
            }
        }),
{
    let ghost all = directories(*base, scales@);
    proof {
        assert(all[0] == *base);
        assert(entry_views(image_sets@[0]@) == images_of(*base));
        assert(entry_views(image_sets@[0]@)[source as int] == image_sets@[0]@[source as int]@);
    }
    let base_dimensions: (u32, u32) = match image_sets[0][source].dimensions {
        Some(dimensions) => dimensions,
        None => {
            let path: String = join_path(
                base.path.as_str(),
                image_sets[0][source].name.as_str(),
            );
            proof {
                assert(source_error(all, source as int, crop_size, all.len()) == Some(
                    (ErrorKind::Unreadable, path@),
                ));
            }
            return Err(DataError { kind: ErrorKind::Unreadable, message: path });
        },
    };
    let mut variants: Vec<LineartVariant> = Vec::new();
    let ghost expected = source_for(all, source as int).variants;
    while variants.len() < image_sets.len()
        invariant
            all == directories(*base, scales@),
            image_sets@.len() == scales@.len() + 1,
            variants@.len() <= image_sets@.len(),
            are_image_sets(image_sets@, all),
            levels_agree(all),
            source < images_of(all[0]).len(),
            images_of(all[0])[source as int].dimensions == Some(base_dimensions),
            expected == source_for(all, source as int).variants,
            source_error(all, source as int, crop_size, variants@.len()) is None,
            forall|level: int|
                0 <= level < variants@.len() ==> #[trigger] is_loaded(
                    variants@,
                    expected,
                    crop_size,
                    level,
                ),
        decreases image_sets@.len() - variants@.len(),
    {
        let level: usize = variants.len();
        proof {
            assert(entry_views(image_sets@[level as int]@) == images_of(all[level as int]));
            assert(images_of(all[level as int]).len() == images_of(all[0]).len());
            assert(entry_views(image_sets@[level as int]@)[source as int]
                == image_sets@[level as int]@[source as int]@);
        }
        let path: String = join_path(
            directory_path(base, scales, level),
            image_sets[level][source].name.as_str(),
        );
        let dimensions: Option<(u32, u32)> = image_sets[level][source].dimensions;
        let variant: LineartVariant = match check_variant(
            base_dimensions,
            path,
            dimensions,
            level,
            crop_size,
        ) {
            Ok(variant) => variant,
            Err(error) => {
                proof {
                    lemma_source_error_stays(all, source as int, crop_size, (level + 1) as nat);
                }
                return Err(error);
            },
        };
        proof {
            let (width, height) = dimensions->Some_0;
            assert(images_of(all[level as int])[source as int].dimensions == dimensions);
            assert(width >= crop_size && height >= crop_size);
            assert(variant@ == expected[level as int]);
        }
        let ghost before_variants = variants@;
        variants.push(variant);
        proof {
            assert(variants@.drop_last() =~= before_variants);
            assert forall|l: int| 0 <= l < variants@.len() implies #[trigger] is_loaded(
                variants@,
                expected,
                crop_size,
                l,
            ) by {
                if l < level {
                    assert(is_loaded(before_variants, expected, crop_size, l));
                }
            }
        }
    }
    let loaded = LineartSource { index: source, variants };
    proof {
        assert forall|level: int| 0 <= level < variants@.len() implies (
        #[trigger] variants@[level])@ == expected[level] && expected[level].width >= crop_size
            && expected[level].height >= crop_size by {
            assert(is_loaded(variants@, expected, crop_size, level));
        }
        assert(loaded@.variants =~= expected);
    }
    Ok(loaded)
}

proof fn lemma_source_error_stays(
    directories: Seq<Directory>,
    source: int,
    crop_size: usize,
    levels: nat,
)
    requires
        levels <= directories.len(),
        source_error(directories, source, crop_size, levels) is Some,
    ensures
        source_error(directories, source, crop_size, directories.len()) == source_error(
            directories,
            source,
            crop_size,
            levels,
        ),
    decreases directories.len() - levels,
{
    if levels < directories.len() {
        lemma_source_error_stays(directories, source, crop_size, levels + 1);
    }
}

proof fn lemma_sources_error_stays(
    directories: Seq<Directory>,
    crop_size: usize,
    count: nat,
    whole: nat,
)
    requires
        count <= whole,
        sources_error(directories, crop_size, count) is Some,
    ensures
        sources_error(directories, crop_size, whole) == sources_error(
            directories,
            crop_size,
            count,
        ),
    decreases whole - count,
{
    if count < whole {
        lemma_sources_error_stays(directories, crop_size, count + 1, whole);
    }
}

/// Collects all images at all their levels.
fn load_sources(
    base: &Directory,
    scales: &Vec<Directory>,
    image_sets: &Vec<Vec<DirectoryEntry>>,
    crop_size: usize,
) -> (result: Result<Vec<LineartSource>, DataError>)
    requires
        image_sets@.len() == scales@.len() + 1,
        are_image_sets(image_sets@, directories(*base, scales@)),
        levels_agree(directories(*base, scales@)),
    ensures
        ({
            let all = directories(*base, scales@);
            let count = images_of(*base).len();
            match sources_error(all, crop_size, count) {
                Some(expected) => result matches Err(error) && error@ == expected,
                None => result matches Ok(sources) && are_sources(sources@, all, crop_size)
                    && sources@.len() == count,
            }
        }),
{
    let ghost all = directories(*base, scales@);
    proof {
        assert(all[0] == *base);
        assert(entry_views(image_sets@[0]@) == images_of(*base));
        assert(entry_views(image_sets@[0]@).len() == image_sets@[0]@.len());
    }
    let count: usize = image_sets[0].len();
    let mut sources: Vec<LineartSource> = Vec::new();
    while sources.len() < count
        invariant
            all == directories(*base, scales@),
            image_sets@.len() == scales@.len() + 1,
            are_image_sets(image_sets@, all),
            levels_agree(all),
            count == images_of(*base).len(),
            sources@.len() <= count,
            sources_error(all, crop_size, sources@.len()) is None,
            are_sources(sources@, all, crop_size),
        decreases count - sources@.len(),
    {
        let index: usize = sources.len();
        match load_source(base, scales, image_sets, index, crop_size) {
            Ok(source) => {
                sources.push(source);
            },
            Err(error) => {
                proof {
                    lemma_sources_error_stays(all, crop_size, (index + 1) as nat, count as nat);
                }
                return Err(error);
            },
        }
    }
    Ok(sources)
}

/// The sources are the images in the order of their names.
pub open spec fn are_sources(
    sources: Seq<LineartSource>,
    directories: Seq<Directory>,
    crop_size: usize,
) -> bool {
    forall|index: int|
        0 <= index < sources.len() ==> {
            &&& (#[trigger] sources[index])@ == source_for(directories, index)
            &&& source_fits(sources[index]@, crop_size)
        }
}

/// The numbers below `count`, in order.
pub open spec fn numbers_below(count: nat) -> Seq<usize> {
    Seq::new(count, |index: int| index as usize)
}

/// `order` holds each number below `count` once.
pub open spec fn is_reordering(order: Seq<usize>, count: nat) -> bool {
    &&& order.len() == count
    &&& order.no_duplicates()
    &&& forall|index: int| 0 <= index < order.len() ==> #[trigger] order[index] < count
}

/// The order in which a seed deals out `count` sources.
pub open spec fn dealt_order(seed: u64, count: nat) -> Seq<usize> {
    shuffled(seeded_state(seed), numbers_below(count)).0
}

proof fn lemma_reordering(order: Seq<usize>, count: nat)
    requires
        count <= usize::MAX,
        order.to_multiset() == numbers_below(count).to_multiset(),
    ensures
        is_reordering(order, count),
{
    let numbers = numbers_below(count);
    order.to_multiset_ensures();
    numbers.to_multiset_ensures();
    assert(numbers.no_duplicates());
    numbers.lemma_multiset_has_no_duplicates();
    order.lemma_multiset_has_no_duplicates_conv();
    assert(order.len() == numbers.len());
    assert forall|index: int| 0 <= index < order.len() implies #[trigger] order[index] < count by {
        assert(order.contains(order[index]));
        assert(order.to_multiset().count(order[index]) > 0);
        assert(numbers.contains(order[index]));
    }
}

/// The numbers below `count`, in the order in which `seed` deals them out.
fn deal(seed: u64, count: usize) -> (order: Vec<usize>)
    ensures
        order@ == dealt_order(seed, count as nat),
        is_reordering(order@, count as nat),
{
    let mut order: Vec<usize> = Vec::new();
    while order.len() < count
        invariant
            order@.len() <= count,
            forall|index: int| 0 <= index < order@.len() ==> #[trigger] order@[index] == index,
        decreases count - order@.len(),
    {
        let next: usize = order.len();
        order.push(next);
    }
    proof {
        assert(order@ =~= numbers_below(count as nat));
    }
    let mut rng: StdRng = seeded_rng(seed);
    shuffle(&mut rng, &mut order);
    proof {
        lemma_reordering(order@, count as nat);
    }
    order
}

fn copy_variant(variant: &LineartVariant) -> (copy: LineartVariant)
    ensures
        copy@ == variant@,
{
    LineartVariant {
        path: variant.path.clone(),
        width: variant.width,
        height: variant.height,
        scale_level: variant.scale_level,
    }
}

fn copy_source(source: &LineartSource) -> (copy: LineartSource)
    ensures
        copy@ == source@,
{
    let mut variants: Vec<LineartVariant> = Vec::new();
    while variants.len() < source.variants.len()
        invariant
            variants@.len() <= source.variants@.len(),
            forall|level: int|
                0 <= level < variants@.len() ==> (#[trigger] variants@[level])@
                    == source.variants@[level]@,
        decreases source.variants@.len() - variants@.len(),
    {
        variants.push(copy_variant(&source.variants[variants.len()]));
    }
    let copy = LineartSource { index: source.index, variants };
    proof {
        assert(copy@.variants =~= source@.variants);
    }
    copy
}

/// The sources that stand at the places `order[start..end]`.
pub open spec fn picked(
    sources: Seq<SourceView>,
    order: Seq<usize>,
    start: int,
    end: int,
) -> Seq<SourceView> {
    Seq::new((end - start) as nat, |index: int| sources[order[start + index] as int])
}

fn pick_sources(sources: &Vec<LineartSource>, order: &Vec<usize>, start: usize, end: usize) -> (picks: Vec<
    LineartSource,
>)
    requires
        start <= end <= order@.len(),
        forall|index: int| 0 <= index < order@.len() ==> #[trigger] order@[index] < sources@.len(),
    ensures
        source_views(picks@) == picked(
            source_views(sources@),
            order@,
            start as int,
            end as int,
        ),
{
    let mut picks: Vec<LineartSource> = Vec::new();
    while picks.len() < end - start
        invariant
            start <= end <= order@.len(),
            picks@.len() <= end - start,
            forall|index: int|
                0 <= index < order@.len() ==> #[trigger] order@[index] < sources@.len(),
            forall|index: int|
                0 <= index < picks@.len() ==> (#[trigger] picks@[index])@ == sources@[order@[start
                    + index] as int]@,
        decreases end - start - picks@.len(),
    {
        let place: usize = order[start + picks.len()];
        picks.push(copy_source(&sources[place]));
    }
    proof {
        assert(source_views(picks@) =~= picked(
            source_views(sources@),
            order@,
            start as int,
            end as int,
        ));
    }
    picks
}

/// Deals out sources in the given order: the first `valid_count` for validation,
/// the others for training. Training comes first in the result.
pub fn split_sources(sources: &Vec<LineartSource>, order: &Vec<usize>, valid_count: usize) -> (split: (
    Vec<LineartSource>,
    Vec<LineartSource>,
))
    requires
        is_reordering(order@, sources@.len()),
        valid_count <= sources@.len(),
    ensures
        source_views(split.0@) == picked(
            source_views(sources@),
            order@,
            valid_count as int,
            sources@.len() as int,
        ),
        source_views(split.1@) == picked(
            source_views(sources@),
            order@,
            0,
            valid_count as int,
        ),
{
    (
        pick_sources(sources, order, valid_count, order.len()),
        pick_sources(sources, order, 0, valid_count),
    )
}

/// The item that validation takes of one scale of a source.
pub open spec fn valid_item(source: SourceView, level: int, crop_size: usize, seed: u64) -> ItemView {
    let variant = source.variants[level];
    let state = seeded_state(
        derived_seed(seed ^ VALIDATION_SEED_MASK, source.index, level as usize),
    );
    ItemView {
        path: variant.path,
        crop: Some(drawn_crop(state, variant.width, variant.height, crop_size).0),
        scale_level: variant.scale_level,
    }
}

/// The items that validation takes of a source: one of each scale.
pub open spec fn valid_items_of(source: SourceView, crop_size: usize, seed: u64) -> Seq<ItemView> {
    Seq::new(source.variants.len(), |level: int| valid_item(source, level, crop_size, seed))
}

/// The items that validation takes of all sources, one after the other.
pub open spec fn all_valid_items(sources: Seq<SourceView>, crop_size: usize, seed: u64) -> Seq<
    ItemView,
>
    decreases sources.len(),
{
    if sources.len() == 0 {
        Seq::empty()
    } else {
        all_valid_items(sources.drop_last(), crop_size, seed) + valid_items_of(
            sources.last(),
            crop_size,
            seed,
        )
    }
}

/// The scales of all sources, one source after the other.
pub open spec fn all_variants(sources: Seq<SourceView>) -> Seq<VariantView>
    decreases sources.len(),
{
    if sources.len() == 0 {
        Seq::empty()
    } else {
        all_variants(sources.drop_last()) + sources.last().variants
    }
}

/// Each item is a part of `crop_size` that lies inside its variant.
pub open spec fn are_crops_of(
    items: Seq<ItemView>,
    variants: Seq<VariantView>,
    crop_size: usize,
) -> bool {
    &&& items.len() == variants.len()
    &&& forall|index: int|
        0 <= index < items.len() ==> is_crop_of(
            #[trigger] items[index],
            variants[index],
            crop_size,
        )
}

/// Appends the items that validation takes of a source.
fn push_valid_items(items: &mut Vec<LineartItem>, source: &LineartSource, crop_size: usize, seed: u64)
    requires
        source_fits(source@, crop_size),
    ensures
        item_views(final(items)@) == item_views(old(items)@) + valid_items_of(
            source@,
            crop_size,
            seed,
        ),
        are_crops_of(
            item_views(final(items)@).skip(old(items)@.len() as int),
            source@.variants,
            crop_size,
        ),
{
    let ghost before = items@;
    let mut level: usize = 0;
    proof {
        assert(source@.variants.len() == source.variants@.len());
    }
    while level < source.variants.len()
        invariant
            level <= source.variants@.len(),
            source_fits(source@, crop_size),
            source@.variants.len() == source.variants@.len(),
            items@.len() == before.len() + level,
            forall|i: int| 0 <= i < before.len() ==> #[trigger] items@[i] == before[i],
            forall|i: int|
                before.len() <= i < items@.len() ==> {
                    &&& (#[trigger] items@[i])@ == valid_item(
                        source@,
                        i - before.len(),
                        crop_size,
                        seed,
                    )
                    &&& is_crop_of(items@[i]@, source@.variants[i - before.len()], crop_size)
                },
        decreases source.variants@.len() - level,
    {
        let mut rng: StdRng = seeded_rng(
            derive_seed(seed ^ VALIDATION_SEED_MASK, source.index, level),
        );
        let variant: &LineartVariant = &source.variants[level];
        proof {
            assert(source@.variants[level as int] == variant@);
        }
        let crop: ImageCrop = random_crop(variant, crop_size, &mut rng);
        items.push(cropped_item(variant, crop));
        level = level + 1;
    }
    proof {
        assert(item_views(items@) =~= item_views(before) + valid_items_of(
            source@,
            crop_size,
            seed,
        ));
        let added = item_views(items@).skip(before.len() as int);
        assert forall|index: int| 0 <= index < added.len() implies is_crop_of(
            #[trigger] added[index],
            source@.variants[index],
            crop_size,
        ) by {
            assert(items@[before.len() + index]@ == added[index]);
        }
    }
}

/// The datasets for training and for validation are those of the directories:
/// the sources are dealt out by the seed, training draws from its sources at
/// random, and validation has one fixed part of each scale of its sources, which
/// lies inside the image.
pub open spec fn are_datasets_of(
    train: LineartDataset,
    valid: LineartDataset,
    directories: Seq<Directory>,
    crop_size: usize,
    valid_count: usize,
    seed: u64,
) -> bool {
    let count = images_of(directories[0]).len();
    let order = dealt_order(seed, count);
    let sources = sources_of(directories);
    &&& is_reordering(order, count)
    &&& train.wf()
    &&& valid.wf()
    &&& train.items matches LineartDatasetItems::RandomScale {
        sources: train_sources,
        crop_size: train_crop_size,
        seed: train_seed,
        access_counts,
    } && {
        &&& source_views(train_sources@) == picked(
            sources,
            order,
            valid_count as int,
            count as int,
        )
        &&& train_crop_size == crop_size
        &&& train_seed == seed
        &&& forall|index: int|
            0 <= index < access_counts@.len() ==> #[trigger] access_counts@[index] == 0
    }
    &&& valid.items matches LineartDatasetItems::Fixed(items) && {
        let kept = picked(sources, order, 0, valid_count as int);
        &&& item_views(items@) == all_valid_items(kept, crop_size, seed)
        &&& are_crops_of(item_views(items@), all_variants(kept), crop_size)
    }
}

/// Datasets of images that exist at several scales. `base` holds them at their
/// smallest, and each of `scales` at twice the size of the one before. The first
/// dataset is for training, the second for validation.
pub fn multiscale_lineart_datasets(
    base: &Directory,
    scales: &Vec<Directory>,
    crop_size: usize,
    valid_count: usize,
    seed: u64,
) -> (result: Result<(LineartDataset, LineartDataset), DataError>)
    ensures
        match dataset_error(*base, scales@, crop_size, valid_count) {
            Some(expected) => result matches Err(error) && error@ == expected,
            None => result matches Ok((train, valid)) && are_datasets_of(
                train,
                valid,
                directories(*base, scales@),
                crop_size,
                valid_count,
                seed,
            ),
        },
{
    match validate_crop_size(crop_size) {
        Ok(_) => {},
        Err(error) => {
            return Err(error);
        },
    }
    let ghost all = directories(*base, scales@);
    let base_images: Vec<DirectoryEntry> = images_by_filename(&base.entries);
    proof {
        assert(entry_views(base_images@).len() == base_images@.len());
        assert(all[0] == *base);
    }
    if base_images.len() == 0 {
        let mut message: String = "no images found in base dataset directory ".to_owned();
        message.append(base.path.as_str());
        return Err(DataError { kind: ErrorKind::NotFound, message });
    }
    let image_sets: Vec<Vec<DirectoryEntry>> = match load_image_sets(base, scales) {
        Ok(image_sets) => image_sets,
        Err(error) => {
            return Err(error);
        },
    };
    let sources: Vec<LineartSource> = match load_sources(base, scales, &image_sets, crop_size) {
        Ok(sources) => sources,
        Err(error) => {
            return Err(error);
        },
    };
    let count: usize = sources.len();
    if valid_count >= count {
        let mut message: String = "dataset must contain more than ".to_owned();
        push_decimal(&mut message, valid_count);
        message.append(" source images to create a validation split; found ");
        push_decimal(&mut message, count);
        return Err(DataError { kind: ErrorKind::InvalidInput, message });
    }
    let ghost expected = sources_of(all);
    proof {
        assert(source_views(sources@) =~= expected);
    }
    let order: Vec<usize> = deal(seed, count);
    let (train_sources, valid_sources): (Vec<LineartSource>, Vec<LineartSource>) = split_sources(
        &sources,
        &order,
        valid_count,
    );
    let mut access_counts: Vec<u64> = Vec::new();
    while access_counts.len() < train_sources.len()
        invariant
            access_counts@.len() <= train_sources@.len(),
            forall|index: int|
                0 <= index < access_counts@.len() ==> #[trigger] access_counts@[index] == 0,
        decreases train_sources@.len() - access_counts@.len(),
    {
        access_counts.push(0);
    }
    proof {
        assert(source_views(train_sources@).len() == train_sources@.len());
        assert forall|index: int| 0 <= index < train_sources@.len() implies source_fits(
            #[trigger] train_sources@[index]@,
            crop_size,
        ) by {
            assert(source_views(train_sources@)[index] == train_sources@[index]@);
            let place = order@[valid_count + index] as int;
            assert(order@[valid_count + index] < count);
            assert(sources@[place]@ == expected[place]);
        }
    }
    let train = LineartDataset {
        items: LineartDatasetItems::RandomScale {
            sources: train_sources,
            crop_size,
            seed,
            access_counts,
        },
    };
    let mut valid_items: Vec<LineartItem> = Vec::new();
    let mut index: usize = 0;
    let ghost valid_views = source_views(valid_sources@);
    proof {
        assert(valid_views.take(0) =~= Seq::<SourceView>::empty());
        assert(item_views(valid_items@) =~= Seq::<ItemView>::empty());
        assert(valid_views.len() == valid_sources@.len());
        assert forall|i: int| 0 <= i < valid_sources@.len() implies source_fits(
            #[trigger] valid_sources@[i]@,
            crop_size,
        ) by {
            assert(valid_views[i] == valid_sources@[i]@);
            let place = order@[i] as int;
            assert(order@[i] < count);
            assert(sources@[place]@ == expected[place]);
        }
    }
    while index < valid_sources.len()
        invariant
            index <= valid_sources@.len(),
            valid_views == source_views(valid_sources@),
            forall|i: int|
                0 <= i < valid_sources@.len() ==> source_fits(
                    #[trigger] valid_sources@[i]@,
                    crop_size,
                ),
            item_views(valid_items@) == all_valid_items(
                valid_views.take(index as int),
                crop_size,
                seed,
            ),
            are_crops_of(
                item_views(valid_items@),
                all_variants(valid_views.take(index as int)),
                crop_size,
            ),
        decreases valid_sources@.len() - index,
    {
        let ghost items_before = item_views(valid_items@);
        let ghost variants_before = all_variants(valid_views.take(index as int));
        proof {
            assert(valid_views.take(index + 1).drop_last() =~= valid_views.take(index as int));
            assert(valid_views.take(index + 1).last() == valid_sources@[index as int]@);
        }
        push_valid_items(&mut valid_items, &valid_sources[index], crop_size, seed);
        proof {
            let items = item_views(valid_items@);
            let added = items.skip(items_before.len() as int);
            let variants = all_variants(valid_views.take(index + 1));
            let own = valid_sources@[index as int]@.variants;
            assert(variants == variants_before + own);
            assert forall|i: int| 0 <= i < items.len() implies is_crop_of(
                #[trigger] items[i],
                variants[i],
                crop_size,
            ) by {
                if i < items_before.len() {
                    assert(items[i] == items_before[i]);
                } else {
                    assert(items[i] == added[i - items_before.len()]);
                }
            }
        }
        index = index + 1;
    }
    proof {
        assert(valid_views.take(valid_views.len() as int) =~= valid_views);
    }
    let valid = LineartDataset { items: LineartDatasetItems::Fixed(valid_items) };
    Ok((train, valid))
}

/// Sources are split before their scales are: none is in training and in
/// validation, and each is in one of them.
pub proof fn law_split_is_by_source(
    sources: Seq<SourceView>,
    order: Seq<usize>,
    valid_count: int,
)
    requires
        is_reordering(order, sources.len()),
        0 <= valid_count <= sources.len(),
        forall|index: int| 0 <= index < sources.len() ==> (#[trigger] sources[index]).index == index,
    ensures
        ({
            let train = picked(sources, order, valid_count, sources.len() as int);
            let valid = picked(sources, order, 0, valid_count);
            &&& train.len() == sources.len() - valid_count
            &&& valid.len() == valid_count
            &&& forall|i: int, j: int|
                0 <= i < train.len() && 0 <= j < valid.len() ==> (#[trigger] train[i]).index != (
                #[trigger] valid[j]).index
            &&& forall|index: int|
                0 <= index < sources.len() ==> train.contains(#[trigger] sources[index])
                    || valid.contains(sources[index])
        }),
{
    let train = picked(sources, order, valid_count, sources.len() as int);
    let valid = picked(sources, order, 0, valid_count);
    assert forall|i: int, j: int| 0 <= i < train.len() && 0 <= j < valid.len() implies (
    #[trigger] train[i]).index != (#[trigger] valid[j]).index by {
        assert(order[valid_count + i] != order[j]);
        assert(order[valid_count + i] < sources.len());
        assert(order[j] < sources.len());
        assert(train[i] == sources[order[valid_count + i] as int]);
        assert(valid[j] == sources[order[j] as int]);
    }
    assert forall|index: int| 0 <= index < sources.len() implies train.contains(
        #[trigger] sources[index],
    ) || valid.contains(sources[index]) by {
        lemma_reordering_is_onto(order, sources.len(), index);
        let place = choose|place: int| 0 <= place < order.len() && order[place] == index;
        if place < valid_count {
            assert(valid[place] == sources[index]);
        } else {
            assert(train[place - valid_count] == sources[index]);
        }
    }
}

/// A list of `count` different numbers below `count` holds all of them.
proof fn lemma_reordering_is_onto(order: Seq<usize>, count: nat, index: int)
    requires
        is_reordering(order, count),
        0 <= index < count,
    ensures
        exists|place: int| 0 <= place < order.len() && order[place] == index,
{
    let numbers = order.map_values(|number: usize| number as int);
    let held = numbers.to_set();
    let all = vstd::set_lib::set_int_range(0, count as int);
    assert(numbers.no_duplicates()) by {
        assert forall|i: int, j: int|
            0 <= i < numbers.len() && 0 <= j < numbers.len() && i != j implies numbers[i]
            != numbers[j] by {
            assert(order[i] != order[j]);
        }
    }
    numbers.unique_seq_to_set();
    vstd::set_lib::lemma_int_range(0, count as int);
    assert(held.subset_of(all)) by {
        assert forall|number: int| held.contains(number) implies all.contains(number) by {
            let place = choose|place: int|
                0 <= place < numbers.len() && numbers[place] == number;
            assert(order[place] < count);
        }
    }
    vstd::set_lib::lemma_subset_equality(held, all);
    assert(all.contains(index));
    assert(numbers.contains(index));
    let place = choose|place: int| 0 <= place < numbers.len() && numbers[place] == index;
    assert(order[place] == index);
}

/// Validation has one item of every scale of every source, source by source and
/// scale by scale.
#[verifier::spinoff_prover]
#[verifier::rlimit(40)]
pub proof fn law_validation_uses_every_scale(
    sources: Seq<SourceView>,
    scales: nat,
    crop_size: usize,
    seed: u64,
)
    requires
        forall|index: int|
            0 <= index < sources.len() ==> (#[trigger] sources[index]).variants.len() == scales,
    ensures
        all_valid_items(sources, crop_size, seed).len() == sources.len() * scales,
        forall|index: int, level: int|
            0 <= index < sources.len() && 0 <= level < scales ==> all_valid_items(
                sources,
                crop_size,
                seed,
            )[#[trigger] (index * scales + level)] == valid_item(
                sources[index],
                level,
                crop_size,
                seed,
            ),
    decreases sources.len(),
{
    if sources.len() == 0 {
        assert(0 * scales == 0);
    } else {
        let head = sources.drop_last();
        let last = sources.len() - 1;
        assert forall|index: int| 0 <= index < head.len() implies (
        #[trigger] head[index]).variants.len() == scales by {
            assert(sources[index].variants.len() == scales);
        }
        law_validation_uses_every_scale(head, scales, crop_size, seed);
        let items = all_valid_items(sources, crop_size, seed);
        let head_items = all_valid_items(head, crop_size, seed);
        let last_items = valid_items_of(sources.last(), crop_size, seed);
        assert(sources[last].variants.len() == scales);
        assert(sources.len() * scales == last * scales + scales) by (nonlinear_arith)
            requires
                sources.len() == last + 1,
        ;
        assert forall|index: int, level: int| 0 <= index < sources.len() && 0 <= level < scales implies items[#[trigger] (
        index * scales + level)] == valid_item(sources[index], level, crop_size, seed) by {
            let place = index * scales + level;
            if index < last {
                assert(index * scales + scales <= last * scales) by (nonlinear_arith)
                    requires
                        index + 1 <= last,
                ;
                assert(0 <= index * scales) by (nonlinear_arith)
                    requires
                        0 <= index,
                ;
                assert(head_items[index * scales + level] == valid_item(
                    head[index],
                    level,
                    crop_size,
                    seed,
                ));
                assert(items[place] == head_items[place]);
            } else {
                assert(items[place] == last_items[level]);
            }
        }
    }
}

/// The scales of all sources, where each has as many.
#[verifier::spinoff_prover]
#[verifier::rlimit(40)]
proof fn lemma_all_variants(sources: Seq<SourceView>, scales: nat)
    requires
        forall|index: int|
            0 <= index < sources.len() ==> (#[trigger] sources[index]).variants.len() == scales,
    ensures
        all_variants(sources).len() == sources.len() * scales,
        forall|index: int, level: int|
            0 <= index < sources.len() && 0 <= level < scales ==> all_variants(sources)[#[trigger] (
            index * scales + level)] == sources[index].variants[level],
    decreases sources.len(),
{
    if sources.len() == 0 {
        assert(0 * scales == 0);
    } else {
        let head = sources.drop_last();
        let last = sources.len() - 1;
        assert forall|index: int| 0 <= index < head.len() implies (
        #[trigger] head[index]).variants.len() == scales by {
            assert(sources[index].variants.len() == scales);
        }
        lemma_all_variants(head, scales);
        let all = all_variants(sources);
        assert(sources[last].variants.len() == scales);
        assert(sources.len() * scales == last * scales + scales) by (nonlinear_arith)
            requires
                sources.len() == last + 1,
        ;
        assert forall|index: int, level: int| 0 <= index < sources.len() && 0 <= level < scales implies all[#[trigger] (
        index * scales + level)] == sources[index].variants[level] by {
            if index < last {
                assert(index * scales + scales <= last * scales) by (nonlinear_arith)
                    requires
                        index + 1 <= last,
                ;
                assert(0 <= index * scales) by (nonlinear_arith)
                    requires
                        0 <= index,
                ;
                assert(all_variants(head)[index * scales + level] == head[index].variants[level]);
            }
        }
    }
}

/// Validation is fixed and covers every scale. The item at `source * scales + level`
/// comes from the directory of that level, at that scale. All items of a source have its
/// file name, as long as that holds no slashes. Each is a part of `crop_size` that lies
/// inside its image.
pub proof fn law_validation_items(
    train: LineartDataset,
    valid: LineartDataset,
    base: Directory,
    scales: Seq<Directory>,
    crop_size: usize,
    valid_count: usize,
    seed: u64,
    source: int,
    level: int,
)
    requires
        dataset_error(base, scales, crop_size, valid_count) is None,
        are_datasets_of(
            train,
            valid,
            directories(base, scales),
            crop_size,
            valid_count,
            seed,
        ),
        0 <= source < valid_count,
        0 <= level <= scales.len(),
    ensures
        ({
            let all = directories(base, scales);
            let order = dealt_order(seed, images_of(base).len());
            let image = images_of(base)[order[source] as int];
            let item = valid.item_at(source * all.len() + level);
            &&& valid.spec_len() == valid_count * all.len()
            &&& 0 <= source * all.len() + level < valid.spec_len()
            &&& item.scale_level == level
            &&& item.path == path_in(all[level].path@, image.name)
            &&& !image.name.contains('/') ==> final_component(item.path) == Some(image.name)
            &&& item.crop matches Some(crop) && images_of(
                all[level],
            )[order[source] as int].dimensions matches Some((width, height)) && {
                &&& crop.size == crop_size
                &&& crop.x + crop.size <= width
                &&& crop.y + crop.size <= height
            }
        }),
{
    let all = directories(base, scales);
    let levels = all.len();
    let count = images_of(base).len();
    let order = dealt_order(seed, count);
    let sources = sources_of(all);
    let kept = picked(sources, order, 0, valid_count as int);
    let place = source * levels + level;
    let items = valid.items->Fixed_0@;
    assert(all[0] == base);
    assert(item_views(items).len() == items.len());
    law_validation_uses_every_scale(kept, levels, crop_size, seed);
    lemma_all_variants(kept, levels);
    lemma_position(source, level, valid_count as int, levels as int);
    assert(item_views(items)[place] == items[place]@);
    assert(all_variants(kept)[source * levels + level] == kept[source].variants[level]);
    let origin = order[source] as int;
    assert(order[source] < count);
    assert(kept[source] == source_for(all, origin));
    lemma_source_accepted(all, crop_size, origin, count);
    lemma_level_accepted(all, origin, crop_size, level as nat, levels);
    lemma_below_power(level as nat);
    lemma_names_agree(base, scales, level);
    assert(entry_names(images_of(all[level])).len() == images_of(all[level]).len());
    assert(entry_names(images_of(base)).len() == count);
    assert(entry_names(images_of(all[level]))[origin] == images_of(all[level])[origin].name);
    assert(entry_names(images_of(base))[origin] == images_of(base)[origin].name);
    if !images_of(base)[origin].name.contains('/') {
        lemma_image_path_ends_in_name(base, scales, level, origin);
    }
}

/// A number is below the power of two that it is the exponent of.
proof fn lemma_below_power(number: nat)
    ensures
        number < pow2(number),
    decreases number,
{
    if number == 0 {
        vstd::arithmetic::power2::lemma2_to64();
    } else {
        lemma_below_power((number - 1) as nat);
        vstd::arithmetic::power2::lemma_pow2_unfold(number);
    }
}

proof fn lemma_source_accepted(
    directories: Seq<Directory>,
    crop_size: usize,
    source: int,
    count: nat,
)
    requires
        0 <= source < count,
        sources_error(directories, crop_size, count) is None,
    ensures
        source_error(directories, source, crop_size, directories.len()) is None,
    decreases count,
{
    if source + 1 < count {
        lemma_source_accepted(directories, crop_size, source, (count - 1) as nat);
    }
}

/// Where the images are accepted, each level is exactly twice as wide and as high
/// as the one below it, and a crop fits into every level.
pub proof fn law_scales_double(
    directories: Seq<Directory>,
    source: int,
    crop_size: usize,
    level: int,
)
    requires
        0 <= level < directories.len(),
        source_error(directories, source, crop_size, directories.len()) is None,
    ensures
        ({
            let variants = source_for(directories, source).variants;
            &&& variants[level].width == variants[0].width * pow2(level as nat)
            &&& variants[level].height == variants[0].height * pow2(level as nat)
            &&& level > 0 ==> variants[level].width == 2 * variants[level - 1].width
            &&& level > 0 ==> variants[level].height == 2 * variants[level - 1].height
            &&& variants[level].width >= crop_size
            &&& variants[level].height >= crop_size
        }),
{
    lemma_level_accepted(directories, source, crop_size, level as nat, directories.len());
    lemma_level_accepted(directories, source, crop_size, 0, directories.len());
    if level > 0 {
        lemma_level_accepted(directories, source, crop_size, (level - 1) as nat, directories.len());
        vstd::arithmetic::power2::lemma_pow2_unfold(level as nat);
        let (width, height) = images_of(directories[0])[source].dimensions->Some_0;
        let half = pow2((level - 1) as nat);
        assert(width * (2 * half) == 2 * (width * half)) by (nonlinear_arith);
        assert(height * (2 * half) == 2 * (height * half)) by (nonlinear_arith);
    }
    vstd::arithmetic::power2::lemma2_to64();
}

proof fn lemma_level_accepted(
    directories: Seq<Directory>,
    source: int,
    crop_size: usize,
    level: nat,
    levels: nat,
)
    requires
        level < levels,
        source_error(directories, source, crop_size, levels) is None,
    ensures
        images_of(directories[0])[source].dimensions matches Some(base_dimensions)
            && variant_error(
            base_dimensions,
            image_path(directories, level as int, source),
            images_of(directories[level as int])[source].dimensions,
            level,
            crop_size,
        ) is None,
    decreases levels,
{
    if level + 1 < levels {
        lemma_level_accepted(directories, source, crop_size, level, (levels - 1) as nat);
    }
}

/// The datasets follow from the directories, the sizes and the seed: made twice,
/// they hold the same, and so validate on the same items and train on the same
/// sources.
pub proof fn law_datasets_are_reproducible(
    train: LineartDataset,
    valid: LineartDataset,
    other_train: LineartDataset,
    other_valid: LineartDataset,
    directories: Seq<Directory>,
    crop_size: usize,
    valid_count: usize,
    seed: u64,
    index: int,
)
    requires
        are_datasets_of(train, valid, directories, crop_size, valid_count, seed),
        are_datasets_of(other_train, other_valid, directories, crop_size, valid_count, seed),
    ensures
        hold_the_same(train, other_train),
        hold_the_same(valid, other_valid),
        train.spec_len() == other_train.spec_len(),
        valid.spec_len() == other_valid.spec_len(),
        0 <= index < train.spec_len() ==> train.item_at(index) == other_train.item_at(index),
        0 <= index < valid.spec_len() ==> valid.item_at(index) == other_valid.item_at(index),
{
    match (valid.items, other_valid.items) {
        (LineartDatasetItems::Fixed(items), LineartDatasetItems::Fixed(other_items)) => {
            assert(item_views(items@).len() == items@.len());
            assert(item_views(other_items@).len() == other_items@.len());
            if 0 <= index < items@.len() {
                assert(item_views(items@)[index] == items@[index]@);
                assert(item_views(other_items@)[index] == other_items@[index]@);
            }
        },
        _ => {},
    }
    match (train.items, other_train.items) {
        (
            LineartDatasetItems::RandomScale { sources, access_counts, .. },
            LineartDatasetItems::RandomScale {
                sources: other_sources,
                access_counts: other_counts,
                ..
            },
        ) => {
            assert(source_views(sources@).len() == sources@.len());
            assert(source_views(other_sources@).len() == other_sources@.len());
            assert(access_counts@ =~= other_counts@);
            if 0 <= index < sources@.len() {
                assert(access_counts@[index] == other_counts@[index]);
                law_sampling_is_reproducible(train, other_train, index);
            }
        },
        _ => {},
    }
}

/// A name without slashes that an image can have is a name that a path can end in.
proof fn lemma_image_name_is_plain(name: Seq<char>)
    requires
        is_image_path(name),
    ensures
        name != ""@,
        name != "."@,
        name != ".."@,
{
    reveal_strlit("");
    reveal_strlit(".");
    reveal_strlit("..");
    reveal_with_fuel(stripped, 3);
    reveal_with_fuel(after_last, 3);
    assert(final_component(name) is Some);
    if name == ""@ {
        assert(after_last(stripped(name), '/') =~= ""@);
    }
    if name == "."@ {
        assert(stripped(name) == name);
        assert(after_last(name, '/') =~= "."@);
    }
    if name == ".."@ {
        assert(stripped(name) == name);
        assert(after_last(name, '/') =~= ".."@);
    }
}

/// Where directories are accepted, their images have the names of the base images.
proof fn lemma_names_agree(base: Directory, scales: Seq<Directory>, level: int)
    requires
        names_error(base, scales) is None,
        0 <= level <= scales.len(),
    ensures
        entry_names(images_of(directories(base, scales)[level])) == entry_names(images_of(base)),
    decreases scales.len(),
{
    if level == 0 {
        assert(directories(base, scales)[0] == base);
    } else if level < scales.len() {
        lemma_names_agree(base, scales.drop_last(), level);
        assert(directories(base, scales)[level] == directories(base, scales.drop_last())[level]);
    } else {
        assert(directories(base, scales)[level] == scales.last());
        law_matching_filenames_are_equal(
            entry_views(base.entries@),
            entry_views(scales.last().entries@),
            scales.last().path@,
        );
    }
}

/// The image of a source ends, at every level, in the source's name.
proof fn lemma_image_path_ends_in_name(
    base: Directory,
    scales: Seq<Directory>,
    level: int,
    source: int,
)
    requires
        names_error(base, scales) is None,
        0 <= level <= scales.len(),
        0 <= source < images_of(base).len(),
        !images_of(base)[source].name.contains('/'),
    ensures
        final_component(image_path(directories(base, scales), level, source)) == Some(
            images_of(base)[source].name,
        ),
{
    let all = directories(base, scales);
    let name = images_of(base)[source].name;
    lemma_names_agree(base, scales, level);
    assert(entry_names(images_of(base))[source] == name);
    assert(entry_names(images_of(all[level])).len() == images_of(all[level]).len());
    assert(entry_names(images_of(all[level]))[source] == images_of(all[level])[source].name);
    assert(entry_names(images_of(base)).contains(name));
    law_image_list_is_complete(entry_views(base.entries@), name);
    lemma_image_name_is_plain(name);
    law_join_keeps_the_name(all[level].path@, name);
}

/// No image is trained on and validated with: what training takes of its sources and
/// what validation takes of its own never has the same file name, at whatever scale,
/// as long as file names hold no slashes.
pub proof fn law_training_and_validation_share_no_image(
    train: LineartDataset,
    valid: LineartDataset,
    base: Directory,
    scales: Seq<Directory>,
    crop_size: usize,
    valid_count: usize,
    seed: u64,
    index: int,
    item: ItemView,
    other: int,
)
    requires
        dataset_error(base, scales, crop_size, valid_count) is None,
        are_datasets_of(
            train,
            valid,
            directories(base, scales),
            crop_size,
            valid_count,
            seed,
        ),
        forall|source: int|
            0 <= source < images_of(base).len() ==> !(#[trigger] images_of(
                base,
            )[source]).name.contains('/'),
        0 <= index < train.spec_len(),
        train.items matches LineartDatasetItems::RandomScale { sources, .. } && is_part_of(
            item,
            sources@[index]@,
            crop_size,
        ),
        0 <= other < valid.spec_len(),
    ensures
        final_component(item.path) is Some,
        final_component(item.path) != final_component(valid.item_at(other).path),
{
    let all = directories(base, scales);
    let count = images_of(base).len();
    let levels = all.len();
    let order = dealt_order(seed, count);
    let sources = sources_of(all);
    let names = entry_names(images_of(base));
    assert(all[0] == base);
    law_image_list_is_sorted(entry_views(base.entries@));
    let train_sources = train.items->RandomScale_sources@;
    let taken = picked(sources, order, valid_count as int, count as int);
    assert(source_views(train_sources)[index] == train_sources[index]@);
    assert(source_views(train_sources).len() == train_sources.len());
    let train_source = order[valid_count + index] as int;
    assert(order[valid_count + index] < count);
    assert(train_sources[index]@ == source_for(all, train_source));
    let level = choose|level: int|
        0 <= level < train_sources[index]@.variants.len() && is_crop_of(
            item,
            #[trigger] train_sources[index]@.variants[level],
            crop_size,
        );
    assert(item.path == image_path(all, level, train_source));
    lemma_image_path_ends_in_name(base, scales, level, train_source);

    let kept = picked(sources, order, 0, valid_count as int);
    let items = valid.items->Fixed_0@;
    assert(item_views(items).len() == items.len());
    assert(item_views(items)[other] == items[other]@);
    law_validation_uses_every_scale(kept, levels, crop_size, seed);
    vstd::arithmetic::div_mod::lemma_fundamental_div_mod(other, levels as int);
    let place = other / (levels as int);
    let other_level = other % (levels as int);
    assert(place * levels + other_level == other) by (nonlinear_arith)
        requires
            other == levels * place + other_level,
    ;
    assert(0 <= place < valid_count) by (nonlinear_arith)
        requires
            other == levels * place + other_level,
            0 <= other_level < levels,
            0 <= other < valid_count * levels,
    ;
    assert(all_valid_items(kept, crop_size, seed)[place * levels + other_level] == valid_item(
        kept[place],
        other_level,
        crop_size,
        seed,
    ));
    let valid_source = order[place] as int;
    assert(order[place] < count);
    assert(kept[place] == source_for(all, valid_source));
    assert(valid.item_at(other).path == image_path(all, other_level, valid_source));
    lemma_image_path_ends_in_name(base, scales, other_level, valid_source);
    assert(train_source != valid_source);
    assert(names[train_source] == images_of(base)[train_source].name);
    assert(names[valid_source] == images_of(base)[valid_source].name);
    lemma_before_is_total(names[train_source], names[train_source]);
    if train_source < valid_source {
        assert(before(names[train_source], names[valid_source]));
    } else {
        assert(before(names[valid_source], names[train_source]));
    }
}

/// An image is accepted at a level exactly if it could be read, is as wide and as high as
/// the base image doubled once for each level, and a crop fits into it both ways.
pub proof fn law_a_variant_is_accepted_exactly(
    base_dimensions: (u32, u32),
    path: Seq<char>,
    dimensions: Option<(u32, u32)>,
    level: nat,
    crop_size: usize,
)
    requires
        crop_size > 0,
    ensures
        variant_error(base_dimensions, path, dimensions, level, crop_size) is None <==> (
        dimensions matches Some((width, height)) && {
            &&& width == base_dimensions.0 * pow2(level)
            &&& height == base_dimensions.1 * pow2(level)
            &&& width >= crop_size
            &&& height >= crop_size
        }),
        variant_error(base_dimensions, path, dimensions, level, crop_size) matches Some(error) ==> (
        error.0 == ErrorKind::Unreadable <==> dimensions is None),
{
    if let Some((width, height)) = dimensions {
        let scale = pow2(level);
        let base = base_dimensions.0;
        if width == base * scale && width >= crop_size {
            assert(scale <= base * scale) by (nonlinear_arith)
                requires
                    0 < base * scale,
                    0 <= base,
                    0 <= scale,
            ;
        }
    }
}

/// Directories are accepted exactly if the crop size is a power of two, there are more
/// images than validation takes, all directories hold images of the same names, and every
/// image is at each level the base image doubled so often and no smaller than a crop.
pub proof fn law_datasets_are_accepted_exactly(
    base: Directory,
    scales: Seq<Directory>,
    crop_size: usize,
    valid_count: usize,
)
    ensures
        dataset_error(base, scales, crop_size, valid_count) is None <==> {
            let all = directories(base, scales);
            let count = images_of(base).len();
            &&& exists|exponent: nat| crop_size == #[trigger] pow2(exponent)
            &&& valid_count < count
            &&& forall|level: int|
                0 <= level < all.len() ==> entry_names(images_of(#[trigger] all[level]))
                    == entry_names(images_of(base))
            &&& forall|level: int, source: int|
                0 <= level < all.len() && 0 <= source < count ==> (images_of(
                    base,
                )[source].dimensions matches Some((base_width, base_height))
                    && #[trigger] images_of(all[level])[source].dimensions matches Some(
                    (width, height),
                ) && {
                    &&& width == base_width * pow2(level as nat)
                    &&& height == base_height * pow2(level as nat)
                    &&& width >= crop_size
                    &&& height >= crop_size
                })
        },
{
    let all = directories(base, scales);
    let count = images_of(base).len();
    assert(all[0] == base);
    vstd::arithmetic::power2::lemma2_to64();
    if exists|exponent: nat| crop_size == #[trigger] pow2(exponent) {
        let exponent = choose|exponent: nat| crop_size == #[trigger] pow2(exponent);
        vstd::arithmetic::power2::lemma_pow2_pos(exponent);
    }
    if dataset_error(base, scales, crop_size, valid_count) is None {
        assert forall|level: int| 0 <= level < all.len() implies entry_names(
            images_of(#[trigger] all[level]),
        ) == entry_names(images_of(base)) by {
            lemma_names_agree(base, scales, level);
        }
        assert forall|level: int, source: int|
            0 <= level < all.len() && 0 <= source < count implies (images_of(
            base,
        )[source].dimensions matches Some((base_width, base_height))
            && #[trigger] images_of(all[level])[source].dimensions matches Some((width, height)) && {
            &&& width == base_width * pow2(level as nat)
            &&& height == base_height * pow2(level as nat)
            &&& width >= crop_size
            &&& height >= crop_size
        }) by {
            lemma_source_accepted(all, crop_size, source, count);
            lemma_level_accepted(all, source, crop_size, level as nat, all.len());
            law_a_variant_is_accepted_exactly(
                images_of(base)[source].dimensions->Some_0,
                image_path(all, level, source),
                images_of(all[level])[source].dimensions,
                level as nat,
                crop_size,
            );
        }
    } else if (exists|exponent: nat| crop_size == #[trigger] pow2(exponent)) && valid_count < count
        && (forall|level: int|
        0 <= level < all.len() ==> entry_names(images_of(#[trigger] all[level])) == entry_names(
            images_of(base),
        )) && (forall|level: int, source: int|
        0 <= level < all.len() && 0 <= source < count ==> (images_of(
            base,
        )[source].dimensions matches Some((base_width, base_height))
            && #[trigger] images_of(all[level])[source].dimensions matches Some((width, height)) && {
            &&& width == base_width * pow2(level as nat)
            &&& height == base_height * pow2(level as nat)
            &&& width >= crop_size
            &&& height >= crop_size
        })) {
        lemma_equal_names_are_accepted(base, scales);
        lemma_right_sizes_are_accepted(all, crop_size, count);
        assert(false);
    }
}

proof fn lemma_equal_names_are_accepted(base: Directory, scales: Seq<Directory>)
    requires
        forall|level: int|
            0 <= level < directories(base, scales).len() ==> entry_names(
                images_of(#[trigger] directories(base, scales)[level]),
            ) == entry_names(images_of(base)),
    ensures
        names_error(base, scales) is None,
    decreases scales.len(),
{
    if scales.len() > 0 {
        let all = directories(base, scales);
        let fewer = directories(base, scales.drop_last());
        assert forall|level: int| 0 <= level < fewer.len() implies entry_names(
            images_of(#[trigger] fewer[level]),
        ) == entry_names(images_of(base)) by {
            assert(fewer[level] == all[level]);
        }
        lemma_equal_names_are_accepted(base, scales.drop_last());
        assert(all[all.len() - 1] == scales.last());
        law_matching_filenames_are_equal(
            entry_views(base.entries@),
            entry_views(scales.last().entries@),
            scales.last().path@,
        );
    }
}

/// The image at a level is the base image doubled so often, and a crop fits into it.
spec fn is_right_size(
    directories: Seq<Directory>,
    crop_size: usize,
    level: int,
    source: int,
) -> bool {
    images_of(directories[0])[source].dimensions matches Some((base_width, base_height))
        && images_of(directories[level])[source].dimensions matches Some((width, height)) && {
        &&& width == base_width * pow2(level as nat)
        &&& height == base_height * pow2(level as nat)
        &&& width >= crop_size
        &&& height >= crop_size
    }
}

proof fn lemma_right_sizes_are_accepted(
    directories: Seq<Directory>,
    crop_size: usize,
    count: nat,
)
    requires
        crop_size > 0,
        directories.len() > 0,
        forall|level: int, source: int|
            0 <= level < directories.len() && 0 <= source < count ==> (images_of(
                directories[0],
            )[source].dimensions matches Some((base_width, base_height))
                && #[trigger] images_of(directories[level])[source].dimensions matches Some(
                (width, height),
            ) && {
                &&& width == base_width * pow2(level as nat)
                &&& height == base_height * pow2(level as nat)
                &&& width >= crop_size
                &&& height >= crop_size
            }),
    ensures
        sources_error(directories, crop_size, count) is None,
    decreases count,
{
    if count > 0 {
        lemma_right_sizes_are_accepted(directories, crop_size, (count - 1) as nat);
        assert forall|level: int| 0 <= level < directories.len() implies #[trigger] is_right_size(
            directories,
            crop_size,
            level,
            count - 1,
        ) by {
            let entry = images_of(directories[level])[count - 1];
            assert(entry.dimensions is Some);
        }
        lemma_right_size_is_accepted(directories, crop_size, count - 1, directories.len());
    }
}

proof fn lemma_right_size_is_accepted(
    directories: Seq<Directory>,
    crop_size: usize,
    source: int,
    levels: nat,
)
    requires
        crop_size > 0,
        directories.len() > 0,
        levels <= directories.len(),
        forall|level: int|
            0 <= level < directories.len() ==> #[trigger] is_right_size(
                directories,
                crop_size,
                level,
                source,
            ),
    ensures
        source_error(directories, source, crop_size, levels) is None,
    decreases levels,
{
    assert(is_right_size(directories, crop_size, 0, source));
    if levels > 0 {
        lemma_right_size_is_accepted(directories, crop_size, source, (levels - 1) as nat);
        assert(is_right_size(directories, crop_size, levels - 1, source));
        law_a_variant_is_accepted_exactly(
            images_of(directories[0])[source].dimensions->Some_0,
            image_path(directories, levels - 1, source),
            images_of(directories[levels - 1])[source].dimensions,
            (levels - 1) as nat,
            crop_size,
        );
    }
}

/// Validation takes of every scale the part that its own seed draws: the left edge from all
/// at which the part fits into the image's width, and then the top edge from all at which it
/// fits into the height.
pub proof fn law_validation_parts_are_drawn_by_dimension(
    train: LineartDataset,
    valid: LineartDataset,
    base: Directory,
    scales: Seq<Directory>,
    crop_size: usize,
    valid_count: usize,
    seed: u64,
    source: int,
    level: int,
)
    requires
        dataset_error(base, scales, crop_size, valid_count) is None,
        are_datasets_of(
            train,
            valid,
            directories(base, scales),
            crop_size,
            valid_count,
            seed,
        ),
        0 <= source < valid_count,
        0 <= level <= scales.len(),
    ensures
        ({
            let all = directories(base, scales);
            let origin = shuffled(
                seeded_state(seed),
                Seq::new(images_of(base).len(), |index: int| index as usize),
            ).0[source];
            let state = seeded_state(
                derived_seed(seed ^ 0x7661_6c69_6461_7465, origin, level as usize),
            );
            images_of(all[level])[origin as int].dimensions matches Some((width, height)) && {
                let (x, after_x) = drawn_up_to(state, (width - crop_size) as usize);
                let (y, _) = drawn_up_to(after_x, (height - crop_size) as usize);
                valid.item_at(source * all.len() + level).crop == Some(
                    ImageCrop { x, y, size: crop_size },
                )
            }
        }),
{
    let all = directories(base, scales);
    let levels = all.len();
    let count = images_of(base).len();
    let order = dealt_order(seed, count);
    let kept = picked(sources_of(all), order, 0, valid_count as int);
    let place = source * levels + level;
    let items = valid.items->Fixed_0@;
    assert(all[0] == base);
    assert(numbers_below(count) =~= Seq::new(count, |index: int| index as usize));
    assert(item_views(items).len() == items.len());
    law_validation_uses_every_scale(kept, levels, crop_size, seed);
    lemma_position(source, level, valid_count as int, levels as int);
    assert(item_views(items)[place] == items[place]@);
    let origin = order[source] as int;
    assert(order[source] < count);
    assert(kept[source] == source_for(all, origin));
    lemma_source_accepted(all, crop_size, origin, count);
    lemma_level_accepted(all, origin, crop_size, level as nat, levels);
    assert(all_valid_items(kept, crop_size, seed)[source * levels + level] == valid_item(
        kept[source],
        level,
        crop_size,
        seed,
    ));
}

/// Training takes the images that validation leaves, in the order in which the seed deals
/// them out, each at all scales by the path, width and height that it has there, and has
/// accessed none yet.
pub proof fn law_training_takes_the_rest(
    train: LineartDataset,
    valid: LineartDataset,
    base: Directory,
    scales: Seq<Directory>,
    crop_size: usize,
    valid_count: usize,
    seed: u64,
    index: int,
    level: int,
)
    requires
        dataset_error(base, scales, crop_size, valid_count) is None,
        are_datasets_of(
            train,
            valid,
            directories(base, scales),
            crop_size,
            valid_count,
            seed,
        ),
        0 <= index < images_of(base).len() - valid_count,
        0 <= level <= scales.len(),
    ensures
        ({
            let all = directories(base, scales);
            let origin = shuffled(
                seeded_state(seed),
                Seq::new(images_of(base).len(), |index: int| index as usize),
            ).0[valid_count + index];
            let image = images_of(all[level])[origin as int];
            &&& train.spec_len() == images_of(base).len() - valid_count
            &&& train.items matches LineartDatasetItems::RandomScale {
                sources,
                crop_size: train_crop_size,
                seed: train_seed,
                access_counts,
            } && {
                let variant = sources@[index]@.variants[level];
                &&& train_crop_size == crop_size
                &&& train_seed == seed
                &&& access_counts@[index] == 0
                &&& sources@[index].index == origin
                &&& sources@[index]@.variants.len() == scales.len() + 1
                &&& variant.path == path_in(all[level].path@, image.name)
                &&& variant.scale_level == level
                &&& image.dimensions matches Some((width, height)) && variant.width == width
                    && variant.height == height
            }
        }),
{
    let all = directories(base, scales);
    let count = images_of(base).len();
    let order = dealt_order(seed, count);
    let rest = picked(sources_of(all), order, valid_count as int, count as int);
    assert(all[0] == base);
    assert(numbers_below(count) =~= Seq::new(count, |index: int| index as usize));
    let sources = train.items->sources@;
    assert(source_views(sources).len() == sources.len());
    assert(source_views(sources)[index] == sources[index]@);
    let origin = order[valid_count + index] as int;
    assert(order[valid_count + index] < count);
    assert(rest[index] == source_for(all, origin));
    lemma_source_accepted(all, crop_size, origin, count);
    lemma_level_accepted(all, origin, crop_size, level as nat, all.len());
    lemma_below_power(level as nat);
}

/// The base directory is the first level, and each other directory the level behind those
/// before it; the images of each are the listed ones.
pub proof fn law_directories_are_levels(base: Directory, scales: Seq<Directory>, level: int)
    requires
        0 <= level < scales.len(),
    ensures
        directories(base, scales).len() == scales.len() + 1,
        directories(base, scales)[0] == base,
        directories(base, scales)[level + 1] == scales[level],
        images_of(base) == image_list(entry_views(base.entries@)),
{
}

/// Datasets are refused for the first of what is wrong: the crop size, an empty base
/// directory, names that differ, an image that does not fit, and too few images.
pub proof fn law_dataset_refusals_come_in_order(
    base: Directory,
    scales: Seq<Directory>,
    crop_size: usize,
    valid_count: usize,
)
    ensures
        ({
            let error = dataset_error(base, scales, crop_size, valid_count);
            let count = images_of(base).len();
            let size = crop_size_error(crop_size);
            let names = names_error(base, scales);
            let images = sources_error(directories(base, scales), crop_size, count);
            &&& size is Some ==> error == size
            &&& size is None && count == 0 ==> (error matches Some(error) && error.0
                == ErrorKind::NotFound)
            &&& size is None && count > 0 && names is Some ==> error == names
            &&& size is None && count > 0 && names is None && images is Some ==> error == images
            &&& size is None && count > 0 && names is None && images is None && valid_count >= count
                ==> (error matches Some(error) && error.0 == ErrorKind::InvalidInput)
        }),
{
}

} // verus!
