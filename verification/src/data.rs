//! Datasets of lineart images.
use crate::data::listing::{entry_views, image_list};
use crate::image_io::ImageCrop;
use crate::paths::{join_path, path_in};
use crate::rng::{
    draw_below, draw_up_to, drawn_below, drawn_up_to, rng_state, seeded_rng, seeded_state,
};
use crate::seeds::{derive_seed, derived_seed, law_derived_seeds_differ};
use rand::rngs::StdRng;
use vstd::prelude::*;

pub mod listing;
pub mod multiscale;

pub use crate::data::listing::{
    images_by_filename, summarize_filenames, validate_matching_filenames, Directory,
    DirectoryEntry,
};
pub use crate::data::multiscale::multiscale_lineart_datasets;

verus! {

/// One image of a dataset, or a part of it.
#[derive(Clone, Debug, PartialEq, Eq)]
pub struct LineartItem {
    pub path: String,
    pub crop: Option<ImageCrop>,
    pub scale_level: usize,
}

/// The contents of a [`LineartItem`].
pub struct ItemView {
    pub path: Seq<char>,
    pub crop: Option<ImageCrop>,
    pub scale_level: usize,
}

impl View for LineartItem {
    type V = ItemView;

    open spec fn view(&self) -> ItemView {
        ItemView { path: self.path@, crop: self.crop, scale_level: self.scale_level }
    }
}

/// The contents of a list of items.
pub open spec fn item_views(items: Seq<LineartItem>) -> Seq<ItemView> {
    items.map_values(|item: LineartItem| item@)
}

/// An image at one scale.
#[derive(Clone, Debug, PartialEq, Eq)]
pub struct LineartVariant {
    pub path: String,
    pub width: usize,
    pub height: usize,
    pub scale_level: usize,
}

/// The contents of a [`LineartVariant`].
pub struct VariantView {
    pub path: Seq<char>,
    pub width: usize,
    pub height: usize,
    pub scale_level: usize,
}

impl View for LineartVariant {
    type V = VariantView;

    open spec fn view(&self) -> VariantView {
        VariantView {
            path: self.path@,
            width: self.width,
            height: self.height,
            scale_level: self.scale_level,
        }
    }
}

/// An image at all its scales.
#[derive(Clone, Debug, PartialEq, Eq)]
pub struct LineartSource {
    pub index: usize,
    pub variants: Vec<LineartVariant>,
}

/// The contents of a [`LineartSource`].
pub struct SourceView {
    pub index: usize,
    pub variants: Seq<VariantView>,
}

impl View for LineartSource {
    type V = SourceView;

    open spec fn view(&self) -> SourceView {
        SourceView {
            index: self.index,
            variants: self.variants@.map_values(|variant: LineartVariant| variant@),
        }
    }
}

/// The contents of a list of sources.
pub open spec fn source_views(sources: Seq<LineartSource>) -> Seq<SourceView> {
    sources.map_values(|source: LineartSource| source@)
}

/// The source has a scale, and crops of this size fit into each.
pub open spec fn source_fits(source: SourceView, crop_size: usize) -> bool {
    &&& source.variants.len() > 0
    &&& forall|level: int|
        0 <= level < source.variants.len() ==> {
            &&& (#[trigger] source.variants[level]).width >= crop_size
            &&& source.variants[level].height >= crop_size
        }
}

/// A sequence of items, some of which are drawn anew at each access.
#[derive(Debug, PartialEq, Eq)]
pub struct LineartDataset {
    pub items: LineartDatasetItems,
}

/// What a dataset holds.
#[derive(Debug, PartialEq, Eq)]
pub enum LineartDatasetItems {
    /// Items that are always the same.
    Fixed(Vec<LineartItem>),
    /// Sources of which each access takes a part of one scale.
    RandomScale {
        sources: Vec<LineartSource>,
        crop_size: usize,
        seed: u64,
        /// How often each source was accessed.
        access_counts: Vec<u64>,
    },
}

/// The part that a generator in this state takes of an image, and the state that
/// it is in afterwards.
pub open spec fn drawn_crop(state: int, width: usize, height: usize, crop_size: usize) -> (
    ImageCrop,
    int,
) {
    let (x, after_x) = drawn_up_to(state, (width - crop_size) as usize);
    let (y, after_y) = drawn_up_to(after_x, (height - crop_size) as usize);
    (ImageCrop { x, y, size: crop_size }, after_y)
}

/// The item that an access with this number takes of a source.
pub open spec fn drawn_item(source: SourceView, crop_size: usize, seed: u64, access: u64) -> ItemView {
    let state = seeded_state(derived_seed(seed, source.index, access as usize));
    let (level, next) = drawn_below(state, source.variants.len() as usize);
    let variant = source.variants[level as int];
    ItemView {
        path: variant.path,
        crop: Some(drawn_crop(next, variant.width, variant.height, crop_size).0),
        scale_level: variant.scale_level,
    }
}

/// `item` is a part of `crop_size` of one scale of the source.
pub open spec fn is_part_of(item: ItemView, source: SourceView, crop_size: usize) -> bool {
    exists|level: int|
        {
            &&& 0 <= level < source.variants.len()
            &&& is_crop_of(item, #[trigger] source.variants[level], crop_size)
        }
}

/// `item` is a part of `crop_size` that lies inside the variant.
pub open spec fn is_crop_of(item: ItemView, variant: VariantView, crop_size: usize) -> bool {
    &&& item.path == variant.path
    &&& item.scale_level == variant.scale_level
    &&& item.crop matches Some(crop) && {
        &&& crop.size == crop_size
        &&& crop.x + crop.size <= variant.width
        &&& crop.y + crop.size <= variant.height
    }
}

/// A part of `crop_size` of an image at a random place.
pub(crate) fn random_crop(variant: &LineartVariant, crop_size: usize, rng: &mut StdRng) -> (crop: ImageCrop)
    requires
        crop_size <= variant.width,
        crop_size <= variant.height,
    ensures
        (crop, rng_state(*final(rng))) == drawn_crop(
            rng_state(*old(rng)),
            variant.width,
            variant.height,
            crop_size,
        ),
        crop.x + crop.size <= variant.width,
        crop.y + crop.size <= variant.height,
{
    let x: usize = draw_up_to(rng, variant.width - crop_size);
    let y: usize = draw_up_to(rng, variant.height - crop_size);
    ImageCrop { x, y, size: crop_size }
}

/// The item for a part of a variant.
pub fn cropped_item(variant: &LineartVariant, crop: ImageCrop) -> (item: LineartItem)
    ensures
        item@ == (ItemView {
            path: variant.path@,
            crop: Some(crop),
            scale_level: variant.scale_level,
        }),
{
    LineartItem { path: variant.path.clone(), crop: Some(crop), scale_level: variant.scale_level }
}

impl LineartDataset {
    /// Every source has a count, and crops fit into all its scales. Of fixed items
    /// nothing is asked: what they were cropped from is not part of the dataset.
    pub open spec fn wf(&self) -> bool {
        match self.items {
            LineartDatasetItems::Fixed(_) => true,
            LineartDatasetItems::RandomScale { sources, crop_size, seed, access_counts } => {
                &&& access_counts@.len() == sources@.len()
                &&& forall|index: int|
                    0 <= index < sources@.len() ==> source_fits(
                        #[trigger] sources@[index]@,
                        crop_size,
                    )
            },
        }
    }

    /// The number of items or sources.
    pub open spec fn spec_len(&self) -> nat {
        match self.items {
            LineartDatasetItems::Fixed(items) => items@.len(),
            LineartDatasetItems::RandomScale { sources, .. } => sources@.len(),
        }
    }

    /// The item that the next access at `index` gives.
    pub open spec fn item_at(&self, index: int) -> ItemView {
        match self.items {
            LineartDatasetItems::Fixed(items) => items@[index]@,
            LineartDatasetItems::RandomScale { sources, crop_size, seed, access_counts } =>
                drawn_item(sources@[index]@, crop_size, seed, access_counts@[index]),
        }
    }

    /// The dataset once the item at `index` was accessed: only that source's count
    /// has moved on.
    pub open spec fn is_after_access(&self, before: LineartDataset, index: int) -> bool {
        match (before.items, self.items) {
            (LineartDatasetItems::Fixed(items), LineartDatasetItems::Fixed(items_after)) => items
                == items_after,
            (
                LineartDatasetItems::RandomScale { sources, crop_size, seed, access_counts },
                LineartDatasetItems::RandomScale {
                    sources: sources_after,
                    crop_size: crop_size_after,
                    seed: seed_after,
                    access_counts: access_counts_after,
                },
            ) => {
                &&& sources_after == sources
                &&& crop_size_after == crop_size
                &&& seed_after == seed
                &&& access_counts_after@ == access_counts@.update(
                    index,
                    ((access_counts@[index] + 1) % 0x1_0000_0000_0000_0000) as u64,
                )
            },
            _ => false,
        }
    }

    /// All images of a directory, whole and in the order of their names.
    pub fn from_dir(directory: &Directory) -> (dataset: Self)
        ensures
            dataset.wf(),
            dataset.items matches LineartDatasetItems::Fixed(items) && item_views(items@)
                == image_list(entry_views(directory.entries@)).map_values(
                |entry: listing::EntryView|
                    ItemView {
                        path: path_in(directory.path@, entry.name),
                        crop: None,
                        scale_level: 0,
                    },
            ),
    {
        let images: Vec<DirectoryEntry> = images_by_filename(&directory.entries);
        let ghost entries = entry_views(images@);
        let mut items: Vec<LineartItem> = Vec::new();
        while items.len() < images.len()
            invariant
                items@.len() <= images@.len(),
                entries == entry_views(images@),
                forall|i: int|
                    0 <= i < items@.len() ==> (#[trigger] items@[i])@ == (ItemView {
                        path: path_in(directory.path@, entries[i].name),
                        crop: None,
                        scale_level: 0,
                    }),
            decreases images@.len() - items@.len(),
        {
            let path: String = join_path(
                directory.path.as_str(),
                images[items.len()].name.as_str(),
            );
            items.push(LineartItem { path, crop: None, scale_level: 0 });
        }
        proof {
            assert(item_views(items@) =~= entries.map_values(
                |entry: listing::EntryView|
                    ItemView {
                        path: path_in(directory.path@, entry.name),
                        crop: None,
                        scale_level: 0,
                    },
            ));
        }
        LineartDataset { items: LineartDatasetItems::Fixed(items) }
    }

    /// The item at `index`. A random one is a new part of a new scale at each
    /// access.
    pub fn get(&mut self, index: usize) -> (item: Option<LineartItem>)
        requires
            old(self).wf(),
        ensures
            final(self).wf(),
            match item {
                Some(item) => {
                    &&& index < old(self).spec_len()
                    &&& item@ == old(self).item_at(index as int)
                    &&& final(self).is_after_access(*old(self), index as int)
                    &&& old(self).items matches LineartDatasetItems::RandomScale {
                        sources,
                        crop_size,
                        ..
                    } ==> is_part_of(item@, sources@[index as int]@, crop_size)
                    &&& old(self).items matches LineartDatasetItems::RandomScale {
                        sources,
                        crop_size,
                        seed,
                        access_counts,
                    } ==> {
                        let source = sources@[index as int];
                        let first = seeded_state(
                            derived_seed(
                                seed,
                                source.index,
                                access_counts@[index as int] as usize,
                            ),
                        );
                        let (level, second) = drawn_below(first, source.variants@.len() as usize);
                        let variant = source.variants@[level as int];
                        let (x, third) = drawn_up_to(second, (variant.width - crop_size) as usize);
                        let (y, _) = drawn_up_to(third, (variant.height - crop_size) as usize);
                        &&& level < source.variants@.len()
                        &&& item@.crop == Some(ImageCrop { x, y, size: crop_size })
                    }
                },
                None => index >= old(self).spec_len() && *final(self) == *old(self),
            },
    {
        match &mut self.items {
            LineartDatasetItems::Fixed(items) => {
                if index < items.len() {
                    Some(copy_item(&items[index]))
                } else {
                    None
                }
            },
            LineartDatasetItems::RandomScale { sources, crop_size, seed, access_counts } => {
                if index >= sources.len() {
                    return None;
                }
                let access: u64 = access_counts[index];
                access_counts.set(index, access.wrapping_add(1));
                Some(draw_item(&sources[index], *crop_size, *seed, access))
            },
        }
    }

    /// The number of items or sources.
    pub fn len(&self) -> (len: usize)
        ensures
            len == self.spec_len(),
    {
        match &self.items {
            LineartDatasetItems::Fixed(items) => items.len(),
            LineartDatasetItems::RandomScale { sources, .. } => sources.len(),
        }
    }
}

fn copy_item(item: &LineartItem) -> (copy: LineartItem)
    ensures
        copy@ == item@,
{
    LineartItem { path: item.path.clone(), crop: item.crop, scale_level: item.scale_level }
}

/// The item that an access with this number takes of a source.
pub fn draw_item(source: &LineartSource, crop_size: usize, seed: u64, access: u64) -> (item: LineartItem)
    requires
        source_fits(source@, crop_size),
    ensures
        item@ == drawn_item(source@, crop_size, seed, access),
        is_part_of(item@, source@, crop_size),
        ({
            let first = seeded_state(derived_seed(seed, source.index, access as usize));
            let (level, second) = drawn_below(first, source.variants@.len() as usize);
            let variant = source.variants@[level as int];
            let (x, third) = drawn_up_to(second, (variant.width - crop_size) as usize);
            let (y, _) = drawn_up_to(third, (variant.height - crop_size) as usize);
            &&& level < source.variants@.len()
            &&& item@.path == variant.path@
            &&& item@.scale_level == variant.scale_level
            &&& item@.crop == Some(ImageCrop { x, y, size: crop_size })
        }),
{
    let mut rng: StdRng = seeded_rng(
        derive_seed(seed, source.index, #[verifier::truncate] (access as usize)),
    );
    proof {
        assert(source@.variants.len() == source.variants@.len());
    }
    let level: usize = draw_below(&mut rng, source.variants.len());
    proof {
        assert(source@.variants[level as int] == source.variants@[level as int]@);
    }
    let crop: ImageCrop = random_crop(&source.variants[level], crop_size, &mut rng);
    let item: LineartItem = item_at_level(source, level, crop);
    proof {
        assert(is_crop_of(item@, source@.variants[level as int], crop_size));
    }
    item
}

/// The item for a part of one scale of a source.
pub fn item_at_level(source: &LineartSource, level: usize, crop: ImageCrop) -> (item: LineartItem)
    requires
        level < source.variants@.len(),
    ensures
        item@ == (ItemView {
            path: source.variants@[level as int].path@,
            crop: Some(crop),
            scale_level: source.variants@[level as int].scale_level,
        }),
{
    cropped_item(&source.variants[level], crop)
}

/// Sampling is reproducible: datasets of the same sources, crop size and seed
/// give the same items at accesses of the same number.
pub proof fn law_sampling_is_reproducible(one: LineartDataset, other: LineartDataset, index: int)
    requires
        one.wf(),
        other.wf(),
        0 <= index < one.spec_len(),
        one.items matches LineartDatasetItems::RandomScale {
            sources,
            crop_size,
            seed,
            access_counts,
        } && other.items matches LineartDatasetItems::RandomScale {
            sources: other_sources,
            crop_size: other_crop_size,
            seed: other_seed,
            access_counts: other_access_counts,
        } && {
            &&& source_views(sources@) == source_views(other_sources@)
            &&& crop_size == other_crop_size
            &&& seed == other_seed
            &&& access_counts@[index] == other_access_counts@[index]
        },
    ensures
        one.item_at(index) == other.item_at(index),
{
    match (one.items, other.items) {
        (
            LineartDatasetItems::RandomScale { sources, .. },
            LineartDatasetItems::RandomScale { sources: other_sources, .. },
        ) => {
            assert(source_views(sources@)[index] == sources@[index]@);
            assert(source_views(other_sources@).len() == other_sources@.len());
            assert(source_views(other_sources@)[index] == other_sources@[index]@);
        },
        _ => {},
    }
}

/// The datasets hold the same items, or the same sources with the same crop size, seed
/// and counts.
pub open spec fn hold_the_same(one: LineartDataset, other: LineartDataset) -> bool {
    match (one.items, other.items) {
        (LineartDatasetItems::Fixed(items), LineartDatasetItems::Fixed(other_items)) => item_views(
            items@,
        ) == item_views(other_items@),
        (
            LineartDatasetItems::RandomScale { sources, crop_size, seed, access_counts },
            LineartDatasetItems::RandomScale {
                sources: other_sources,
                crop_size: other_crop_size,
                seed: other_seed,
                access_counts: other_access_counts,
            },
        ) => {
            &&& source_views(sources@) == source_views(other_sources@)
            &&& crop_size == other_crop_size
            &&& seed == other_seed
            &&& access_counts@ == other_access_counts@
        },
        _ => false,
    }
}

/// `states` are what a dataset goes through as the items at `indices` are accessed one
/// after the other.
pub open spec fn is_access_run(states: Seq<LineartDataset>, indices: Seq<int>) -> bool {
    &&& states.len() == indices.len() + 1
    &&& states[0].wf()
    &&& forall|step: int|
        0 <= step < indices.len() ==> {
            &&& 0 <= #[trigger] indices[step] < states[0].spec_len()
            &&& states[step + 1].is_after_access(states[step], indices[step])
        }
}

/// How often `index` is among the first `count` accesses.
pub open spec fn accesses_of(indices: Seq<int>, index: int, count: nat) -> nat
    decreases count,
{
    if count == 0 {
        0
    } else {
        accesses_of(indices, index, (count - 1) as nat) + if indices[count - 1] == index {
            1nat
        } else {
            0
        }
    }
}

/// Accesses move the counts of what they access, and nothing else.
proof fn lemma_state_after_accesses(
    states: Seq<LineartDataset>,
    indices: Seq<int>,
    count: nat,
    index: int,
)
    requires
        is_access_run(states, indices),
        count <= indices.len(),
        0 <= index < states[0].spec_len(),
    ensures
        match (states[0].items, states[count as int].items) {
            (LineartDatasetItems::Fixed(items), LineartDatasetItems::Fixed(items_after)) => items
                == items_after,
            (
                LineartDatasetItems::RandomScale { sources, crop_size, seed, access_counts },
                LineartDatasetItems::RandomScale {
                    sources: sources_after,
                    crop_size: crop_size_after,
                    seed: seed_after,
                    access_counts: access_counts_after,
                },
            ) => {
                &&& sources_after == sources
                &&& crop_size_after == crop_size
                &&& seed_after == seed
                &&& access_counts_after@.len() == access_counts@.len()
                &&& access_counts_after@[index] == (access_counts@[index] + accesses_of(
                    indices,
                    index,
                    count,
                )) % 0x1_0000_0000_0000_0000
            },
            _ => false,
        },
    decreases count,
{
    if count > 0 {
        let step = count - 1;
        lemma_state_after_accesses(states, indices, step as nat, index);
        assert(states[step + 1].is_after_access(states[step], indices[step]));
        match states[0].items {
            LineartDatasetItems::RandomScale { access_counts, .. } => {
                let sum = access_counts@[index] + accesses_of(indices, index, step as nat);
                vstd::arithmetic::div_mod::lemma_add_mod_noop(
                    sum,
                    1,
                    0x1_0000_0000_0000_0000,
                );
            },
            _ => {},
        }
    }
}

/// Training is reproducible over any run of accesses: two datasets that hold the same
/// give the same item at the same index wherever that index was accessed as often
/// before, however often others were in between. Fixed items are the same at every
/// access.
pub proof fn law_each_access_is_reproducible(
    states: Seq<LineartDataset>,
    indices: Seq<int>,
    place: int,
    other_states: Seq<LineartDataset>,
    other_indices: Seq<int>,
    other_place: int,
    index: int,
)
    requires
        is_access_run(states, indices),
        is_access_run(other_states, other_indices),
        hold_the_same(states[0], other_states[0]),
        0 <= place <= indices.len(),
        0 <= other_place <= other_indices.len(),
        0 <= index < states[0].spec_len(),
        accesses_of(indices, index, place as nat) == accesses_of(
            other_indices,
            index,
            other_place as nat,
        ) || states[0].items is Fixed,
    ensures
        states[place].item_at(index) == other_states[other_place].item_at(index),
{
    match (states[0].items, other_states[0].items) {
        (LineartDatasetItems::Fixed(items), LineartDatasetItems::Fixed(other_items)) => {
            assert(item_views(items@).len() == items@.len());
            assert(item_views(other_items@).len() == other_items@.len());
            assert(item_views(items@)[index] == items@[index]@);
            assert(item_views(other_items@)[index] == other_items@[index]@);
        },
        (
            LineartDatasetItems::RandomScale { sources, .. },
            LineartDatasetItems::RandomScale { sources: other_sources, .. },
        ) => {
            assert(source_views(sources@).len() == sources@.len());
            assert(source_views(other_sources@).len() == other_sources@.len());
            assert(source_views(sources@)[index] == sources@[index]@);
            assert(source_views(other_sources@)[index] == other_sources@[index]@);
        },
        _ => {},
    }
    lemma_state_after_accesses(states, indices, place as nat, index);
    lemma_state_after_accesses(other_states, other_indices, other_place as nat, index);
}

/// No two accesses of a source draw from the same seed, until the count starts
/// over.
pub proof fn law_accesses_draw_from_different_seeds(
    source: SourceView,
    seed: u64,
    access: u64,
    other_access: u64,
)
    requires
        access != other_access,
        access <= usize::MAX,
        other_access <= usize::MAX,
    ensures
        derived_seed(seed, source.index, access as usize) != derived_seed(
            seed,
            source.index,
            other_access as usize,
        ),
{
    law_derived_seeds_differ(
        seed,
        source.index,
        access as usize,
        seed,
        source.index,
        other_access as usize,
    );
}

/// A batch of images, by scale.
#[derive(Clone, Debug)]
pub struct LineartBatch<T> {
    pub groups: Vec<LineartScaleBatch<T>>,
}

/// The images of a batch that have one scale.
#[derive(Clone, Debug)]
pub struct LineartScaleBatch<T> {
    pub scale_level: usize,
    pub inputs: Vec<T>,
}

impl<T> LineartScaleBatch<T> {
    /// The number of images.
    pub fn item_count(&self) -> (count: usize)
        ensures
            count == self.inputs@.len(),
    {
        self.inputs.len()
    }
}

/// The number of images in all groups.
pub open spec fn total_count<T>(groups: Seq<LineartScaleBatch<T>>) -> nat
    decreases groups.len(),
{
    if groups.len() == 0 {
        0
    } else {
        total_count(groups.drop_last()) + groups.last().inputs@.len()
    }
}

proof fn lemma_total_count_grows<T>(groups: Seq<LineartScaleBatch<T>>, index: int)
    requires
        0 <= index <= groups.len(),
    ensures
        total_count(groups.take(index)) <= total_count(groups),
    decreases groups.len(),
{
    if index < groups.len() {
        lemma_total_count_grows(groups.drop_last(), index);
        assert(groups.drop_last().take(index) =~= groups.take(index));
    } else {
        assert(groups.take(index) =~= groups);
    }
}

impl<T> LineartBatch<T> {
    /// The number of images in all groups.
    pub fn item_count(&self) -> (count: usize)
        requires
            total_count(self.groups@) <= usize::MAX,
        ensures
            count == total_count(self.groups@),
    {
        let mut count: usize = 0;
        let mut index: usize = 0;
        while index < self.groups.len()
            invariant
                index <= self.groups@.len(),
                total_count(self.groups@) <= usize::MAX,
                count == total_count(self.groups@.take(index as int)),
            decreases self.groups@.len() - index,
        {
            proof {
                assert(self.groups@.take(index + 1).drop_last() =~= self.groups@.take(
                    index as int,
                ));
                lemma_total_count_grows(self.groups@, index + 1);
            }
            count = count + self.groups[index].item_count();
            index = index + 1;
        }
        proof {
            assert(self.groups@.take(self.groups@.len() as int) =~= self.groups@);
        }
        count
    }
}

/// The tensors of the first items that have this scale, in the order of the
/// items.
pub open spec fn members<T>(
    items: Seq<LineartItem>,
    tensors: Seq<T>,
    scale_level: usize,
    count: nat,
) -> Seq<T>
    decreases count,
{
    if count == 0 {
        Seq::empty()
    } else {
        let rest = members(items, tensors, scale_level, (count - 1) as nat);
        if items[count - 1].scale_level == scale_level {
            rest.push(tensors[count - 1])
        } else {
            rest
        }
    }
}

/// The groups stand in strict order of their scales.
pub open spec fn scales_ascend<T>(groups: Seq<LineartScaleBatch<T>>) -> bool {
    forall|i: int, j: int|
        0 <= i < j < groups.len() ==> (#[trigger] groups[i]).scale_level < (
        #[trigger] groups[j]).scale_level
}

/// The groups hold the first `count` tensors: one group for each scale among the
/// items, with the tensors of that scale.
pub open spec fn are_groups_of<T>(
    groups: Seq<LineartScaleBatch<T>>,
    items: Seq<LineartItem>,
    tensors: Seq<T>,
    count: nat,
) -> bool {
    &&& scales_ascend(groups)
    &&& forall|g: int|
        0 <= g < groups.len() ==> {
            &&& (#[trigger] groups[g]).inputs@.len() > 0
            &&& groups[g].inputs@ == members(items, tensors, groups[g].scale_level, count)
        }
    &&& forall|i: int|
        0 <= i < count ==> exists|g: int|
            0 <= g < groups.len() && (#[trigger] groups[g]).scale_level == (
            #[trigger] items[i]).scale_level
}

/// `tensors` are what `read` makes of the items.
pub open spec fn are_read<T, R: Fn(&LineartItem) -> T>(
    tensors: Seq<T>,
    items: Seq<LineartItem>,
    read: R,
) -> bool {
    forall|i: int|
        0 <= i < tensors.len() ==> call_ensures(read, (&items[i],), #[trigger] tensors[i])
}

/// Joins items into batches.
#[derive(Clone, Debug)]
pub struct LineartBatcher;

impl LineartBatcher {
    /// Reads the items and groups them by scale, the smallest scale first.
    pub fn batch<T, R: Fn(&LineartItem) -> T>(&self, items: &Vec<LineartItem>, read: R) -> (batch: LineartBatch<T>)
        requires
            forall|item: &LineartItem| #[trigger] call_requires(read, (item,)),
        ensures
            exists|tensors: Seq<T>|
                {
                    &&& tensors.len() == items@.len()
                    &&& #[trigger] are_read(tensors, items@, read)
                    &&& are_groups_of(batch.groups@, items@, tensors, items@.len())
                },
            total_count(batch.groups@) == items@.len(),
    {
        let mut groups: Vec<LineartScaleBatch<T>> = Vec::new();
        let ghost mut tensors: Seq<T> = Seq::empty();
        let mut index: usize = 0;
        while index < items.len()
            invariant
                index <= items@.len(),
                forall|item: &LineartItem| #[trigger] call_requires(read, (item,)),
                tensors.len() == index,
                are_read(tensors, items@, read),
                are_groups_of(groups@, items@, tensors, index as nat),
                total_count(groups@) == index,
            decreases items@.len() - index,
        {
            let tensor: T = read(&items[index]);
            add_to_group(
                &mut groups,
                items[index].scale_level,
                tensor,
                Ghost(items@),
                Ghost(tensors),
            );
            proof {
                let before_tensors = tensors;
                tensors = tensors.push(tensor);
                assert forall|i: int| 0 <= i < tensors.len() implies call_ensures(
                    read,
                    (&items@[i],),
                    #[trigger] tensors[i],
                ) by {
                    if i < before_tensors.len() {
                        assert(before_tensors[i] == tensors[i]);
                    }
                }
            }
            index = index + 1;
        }
        proof {
            assert(are_read(tensors, items@, read));
        }
        LineartBatch { groups }
    }
}

proof fn lemma_members_keep<T>(
    items: Seq<LineartItem>,
    tensors: Seq<T>,
    tensor: T,
    scale_level: usize,
    count: nat,
)
    requires
        count <= tensors.len(),
    ensures
        members(items, tensors.push(tensor), scale_level, count) == members(
            items,
            tensors,
            scale_level,
            count,
        ),
    decreases count,
{
    if count > 0 {
        lemma_members_keep(items, tensors, tensor, scale_level, (count - 1) as nat);
    }
}

proof fn lemma_no_members<T>(
    groups: Seq<LineartScaleBatch<T>>,
    items: Seq<LineartItem>,
    tensors: Seq<T>,
    scale_level: usize,
    count: nat,
    checked: nat,
)
    requires
        are_groups_of(groups, items, tensors, count),
        checked <= count,
        forall|g: int| 0 <= g < groups.len() ==> (#[trigger] groups[g]).scale_level != scale_level,
    ensures
        members(items, tensors, scale_level, checked) == Seq::<T>::empty(),
    decreases checked,
{
    if checked > 0 {
        lemma_no_members(groups, items, tensors, scale_level, count, (checked - 1) as nat);
        let item = items[checked - 1];
        let g = choose|g: int|
            0 <= g < groups.len() && (#[trigger] groups[g]).scale_level == item.scale_level;
        assert(groups[g].scale_level != scale_level);
    }
}

proof fn lemma_total_count_update<T>(
    groups: Seq<LineartScaleBatch<T>>,
    place: int,
    group: LineartScaleBatch<T>,
)
    requires
        0 <= place < groups.len(),
        group.inputs@.len() == groups[place].inputs@.len() + 1,
    ensures
        total_count(groups.update(place, group)) == total_count(groups) + 1,
    decreases groups.len(),
{
    let updated = groups.update(place, group);
    if place == groups.len() - 1 {
        assert(updated.drop_last() =~= groups.drop_last());
    } else {
        lemma_total_count_update(groups.drop_last(), place, group);
        assert(updated.drop_last() =~= groups.drop_last().update(place, group));
    }
}

proof fn lemma_total_count_insert<T>(
    groups: Seq<LineartScaleBatch<T>>,
    place: int,
    group: LineartScaleBatch<T>,
)
    requires
        0 <= place <= groups.len(),
        group.inputs@.len() == 1,
    ensures
        total_count(groups.insert(place, group)) == total_count(groups) + 1,
    decreases groups.len(),
{
    let inserted = groups.insert(place, group);
    if place == groups.len() {
        assert(inserted.drop_last() =~= groups);
    } else {
        lemma_total_count_insert(groups.drop_last(), place, group);
        assert(inserted.drop_last() =~= groups.drop_last().insert(place, group));
        assert(inserted.last() == groups.last());
    }
}

/// Puts a tensor into the group of its scale.
fn add_to_group<T>(
    groups: &mut Vec<LineartScaleBatch<T>>,
    scale_level: usize,
    tensor: T,
    items: Ghost<Seq<LineartItem>>,
    tensors: Ghost<Seq<T>>,
)
    requires
        are_groups_of(old(groups)@, items@, tensors@, tensors@.len()),
        tensors@.len() < items@.len(),
        items@[tensors@.len() as int].scale_level == scale_level,
    ensures
        are_groups_of(
            final(groups)@,
            items@,
            tensors@.push(tensor),
            (tensors@.len() + 1) as nat,
        ),
        total_count(final(groups)@) == total_count(old(groups)@) + 1,
{
    let ghost before_groups = groups@;
    let ghost count = tensors@.len();
    let ghost all = tensors@.push(tensor);
    let mut place: usize = 0;
    while place < groups.len() && groups[place].scale_level < scale_level
        invariant
            place <= groups@.len(),
            forall|g: int| 0 <= g < place ==> (#[trigger] groups@[g]).scale_level < scale_level,
        decreases groups@.len() - place,
    {
        place = place + 1;
    }
    proof {
        assert forall|level: usize| #[trigger]
            members(items@, all, level, count + 1) == if level == scale_level {
            members(items@, tensors@, level, count).push(tensor)
        } else {
            members(items@, tensors@, level, count)
        } by {
            lemma_members_keep(items@, tensors@, tensor, level, count);
        }
    }
    if place < groups.len() && groups[place].scale_level == scale_level {
        groups[place].inputs.push(tensor);
        proof {
            let group = groups@[place as int];
            assert(groups@ =~= before_groups.update(place as int, group));
            lemma_total_count_update(before_groups, place as int, group);
            assert forall|i: int| 0 <= i < count + 1 implies exists|g: int|
                0 <= g < groups@.len() && (#[trigger] groups@[g]).scale_level == (
                #[trigger] items@[i]).scale_level by {
                if i < count {
                    let g = choose|g: int|
                        0 <= g < before_groups.len() && (
                        #[trigger] before_groups[g]).scale_level == items@[i].scale_level;
                    assert(groups@[g].scale_level == items@[i].scale_level);
                } else {
                    assert(groups@[place as int].scale_level == items@[i].scale_level);
                }
            }
        }
    } else {
        proof {
            assert forall|g: int| 0 <= g < groups@.len() implies (
            #[trigger] groups@[g]).scale_level != scale_level by {
                if g >= place {
                    assert(groups@[place as int].scale_level > scale_level);
                    if g > place {
                        assert(groups@[place as int].scale_level < groups@[g].scale_level);
                    }
                }
            }
            lemma_no_members(before_groups, items@, tensors@, scale_level, count, count);
        }
        let mut inputs: Vec<T> = Vec::new();
        inputs.push(tensor);
        let group = LineartScaleBatch { scale_level, inputs };
        groups.insert(place, group);
        proof {
            lemma_total_count_insert(before_groups, place as int, group);
            assert(group.inputs@ =~= members(items@, all, scale_level, count + 1));
            assert forall|g: int| 0 <= g < groups@.len() implies {
                &&& (#[trigger] groups@[g]).inputs@.len() > 0
                &&& groups@[g].inputs@ == members(items@, all, groups@[g].scale_level, count + 1)
            } by {
                if g < place {
                    assert(groups@[g] == before_groups[g]);
                } else if g > place {
                    assert(groups@[g] == before_groups[g - 1]);
                }
            }
            assert forall|i: int, j: int| 0 <= i < j < groups@.len() implies (
            #[trigger] groups@[i]).scale_level < (#[trigger] groups@[j]).scale_level by {
                let a = if i <= place {
                    i
                } else {
                    i - 1
                };
                let b = if j <= place {
                    j
                } else {
                    j - 1
                };
                if i != place {
                    assert(groups@[i] == before_groups[a]);
                }
                if j != place {
                    assert(groups@[j] == before_groups[b]);
                }
                if i == place {
                    assert(before_groups[place as int].scale_level > scale_level);
                    if b > place {
                        assert(before_groups[place as int].scale_level < before_groups[b].scale_level);
                    }
                }
            }
            assert forall|i: int| 0 <= i < count + 1 implies exists|g: int|
                0 <= g < groups@.len() && (#[trigger] groups@[g]).scale_level == (
                #[trigger] items@[i]).scale_level by {
                if i < count {
                    let g = choose|g: int|
                        0 <= g < before_groups.len() && (
                        #[trigger] before_groups[g]).scale_level == items@[i].scale_level;
                    let h = if g < place {
                        g
                    } else {
                        g + 1
                    };
                    assert(groups@[h] == before_groups[g]);
                } else {
                    assert(groups@[place as int].scale_level == items@[i].scale_level);
                }
            }
        }
    }
}

/// A random part is drawn dimension by dimension: from the seed of the access a scale is
/// drawn among those of the source, then the left edge from all at which the part fits
/// into the width, and then the top edge from all at which it fits into the height.
pub proof fn law_each_edge_is_drawn_for_its_dimension(
    dataset: LineartDataset,
    index: int,
    sources: Vec<LineartSource>,
    crop_size: usize,
    seed: u64,
    access_counts: Vec<u64>,
)
    requires
        dataset.wf(),
        dataset.items == (LineartDatasetItems::RandomScale {
            sources,
            crop_size,
            seed,
            access_counts,
        }),
        0 <= index < sources@.len(),
    ensures
        ({
            let source = sources@[index];
            let first = seeded_state(
                derived_seed(seed, source.index, access_counts@[index] as usize),
            );
            let (level, second) = drawn_below(first, source.variants@.len() as usize);
            let variant = source.variants@[level as int];
            let (x, third) = drawn_up_to(second, (variant.width - crop_size) as usize);
            let (y, _) = drawn_up_to(third, (variant.height - crop_size) as usize);
            let item = dataset.item_at(index);
            level < source.variants@.len() ==> {
                &&& item.path == variant.path@
                &&& item.scale_level == variant.scale_level
                &&& item.crop == Some(ImageCrop { x, y, size: crop_size })
            }
        }),
{
    let source = sources@[index];
    assert(source@.variants.len() == source.variants@.len());
    let first = seeded_state(derived_seed(seed, source.index, access_counts@[index] as usize));
    let (level, second) = drawn_below(first, source.variants@.len() as usize);
    if level < source.variants@.len() {
        assert(source@.variants[level as int] == source.variants@[level as int]@);
    }
}

/// The left edge of a random part goes by the width alone, whatever the height is, and the
/// top edge is what the next draw gives for the height.
pub proof fn law_edges_do_not_depend_on_the_other_dimension(
    state: int,
    width: usize,
    height: usize,
    other_height: usize,
    crop_size: usize,
)
    requires
        crop_size <= width,
        crop_size <= height,
        crop_size <= other_height,
    ensures
        drawn_crop(state, width, height, crop_size).0.x == drawn_crop(
            state,
            width,
            other_height,
            crop_size,
        ).0.x,
        drawn_crop(state, width, height, crop_size).0.x == drawn_up_to(
            state,
            (width - crop_size) as usize,
        ).0,
        drawn_crop(state, width, height, crop_size).0.y == drawn_up_to(
            drawn_up_to(state, (width - crop_size) as usize).1,
            (height - crop_size) as usize,
        ).0,
        drawn_crop(state, width, height, crop_size).0.size == crop_size,
{
}

/// Every access counts once, at its own source: the count there goes up by one until it
/// starts over, and all else stays as it is. Fixed items never change.
pub proof fn law_an_access_is_counted_once(
    before: LineartDataset,
    after: LineartDataset,
    index: int,
    other: int,
)
    requires
        before.wf(),
        after.is_after_access(before, index),
        0 <= index < before.spec_len(),
        0 <= other < before.spec_len(),
        other != index,
    ensures
        before.items is Fixed ==> after.items == before.items,
        before.items matches LineartDatasetItems::RandomScale { sources, access_counts, .. }
            ==> after.items matches LineartDatasetItems::RandomScale {
            sources: sources_after,
            access_counts: counts_after,
            ..
        } && {
            &&& sources_after == sources
            &&& access_counts@[index] < u64::MAX ==> counts_after@[index] == access_counts@[index]
                + 1
            &&& access_counts@[index] == u64::MAX ==> counts_after@[index] == 0
            &&& counts_after@[other] == access_counts@[other]
        },
        after.item_at(other) == before.item_at(other),
{
}

/// Items are grouped by their scales: each tensor stands in the group of its item's scale,
/// the groups rise from the smallest scale to the largest, no scale has two groups, and
/// within a group the tensors keep the order of their items.
pub proof fn law_groups_hold_their_scale<T>(
    groups: Seq<LineartScaleBatch<T>>,
    items: Seq<LineartItem>,
    tensors: Seq<T>,
    item: int,
    later: int,
)
    requires
        tensors.len() == items.len(),
        are_groups_of(groups, items, tensors, items.len()),
        0 <= item < later < items.len(),
        items[item].scale_level == items[later].scale_level,
    ensures
        forall|one: int, other: int|
            0 <= one < other < groups.len() ==> (#[trigger] groups[one]).scale_level < (
            #[trigger] groups[other]).scale_level,
        exists|group: int, place: int, later_place: int|
            {
                &&& 0 <= group < groups.len()
                &&& (#[trigger] groups[group]).scale_level == items[item].scale_level
                &&& 0 <= place < later_place < groups[group].inputs@.len()
                &&& #[trigger] groups[group].inputs@[place] == tensors[item]
                &&& #[trigger] groups[group].inputs@[later_place] == tensors[later]
            },
{
    let level = items[item].scale_level;
    let group = choose|g: int|
        0 <= g < groups.len() && (#[trigger] groups[g]).scale_level == items[item].scale_level;
    lemma_place_in_group(items, tensors, level, item, items.len());
    lemma_place_in_group(items, tensors, level, later, items.len());
    let place = members(items, tensors, level, item as nat).len() as int;
    let later_place = members(items, tensors, level, later as nat).len() as int;
    lemma_members_grow(items, tensors, level, (item + 1) as nat, later as nat);
    assert(groups[group].inputs@ == members(items, tensors, level, items.len()));
    assert(groups[group].inputs@[place] == tensors[item]);
    assert(groups[group].inputs@[later_place] == tensors[later]);
}

/// A tensor stands in its group behind those before it.
proof fn lemma_place_in_group<T>(
    items: Seq<LineartItem>,
    tensors: Seq<T>,
    level: usize,
    item: int,
    count: nat,
)
    requires
        0 <= item < count,
        items[item].scale_level == level,
    ensures
        ({
            let place = members(items, tensors, level, item as nat).len();
            let all = members(items, tensors, level, count);
            place < all.len() && all[place as int] == tensors[item]
        }),
    decreases count,
{
    if item < count - 1 {
        lemma_place_in_group(items, tensors, level, item, (count - 1) as nat);
    }
}

proof fn lemma_members_grow<T>(
    items: Seq<LineartItem>,
    tensors: Seq<T>,
    level: usize,
    count: nat,
    more: nat,
)
    requires
        count <= more,
    ensures
        members(items, tensors, level, count).len() <= members(items, tensors, level, more).len(),
    decreases more,
{
    if count < more {
        lemma_members_grow(items, tensors, level, count, (more - 1) as nat);
    }
}

/// Each tensor is what was read of the item at its place.
pub proof fn law_tensors_are_read_in_order<T, R: Fn(&LineartItem) -> T>(
    tensors: Seq<T>,
    items: Seq<LineartItem>,
    read: R,
    place: int,
)
    requires
        are_read(tensors, items, read),
        0 <= place < tensors.len(),
    ensures
        call_ensures(read, (&items[place],), tensors[place]),
{
}

/// The number of images in groups is the sum of those in each.
pub proof fn law_counts_add_up<T>(
    groups: Seq<LineartScaleBatch<T>>,
    group: LineartScaleBatch<T>,
)
    ensures
        total_count(groups.push(group)) == total_count(groups) + group.inputs@.len(),
        total_count(Seq::<LineartScaleBatch<T>>::empty()) == 0,
{
    assert(groups.push(group).drop_last() =~= groups);
}

} // verus!
