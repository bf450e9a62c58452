//! The noise level of every pixel of a batch.
use crate::train::regions::{
    band_region, centered_rectangle_region, drawn_band, drawn_rectangle, drawn_side, fill_image,
    fill_region, in_region, is_filled, is_place_of, lemma_pixel_index, middle, pixel_index,
    rectangle_region, region_fits, size_across, starts_for, BandSide, NoiseRegion,
};
use vstd::prelude::*;

verus! {

/// How noise is spread over an image.
#[derive(Clone, Copy, Debug, PartialEq, Eq, Structural)]
pub enum NoiseLevelPattern {
    Full,
    Band,
    Rectangle,
    RegionLineClean,
}

/// Which pixels of an image take noise.
#[derive(Clone, Copy, Debug, PartialEq, Eq, Structural)]
pub enum NoiseArea {
    /// All of them.
    Full,
    /// Those of a region.
    Region(NoiseRegion),
    /// All but the lines in a region.
    AllButLines(NoiseRegion),
}

/// The noise of an image.
#[derive(Clone, Copy, Debug, PartialEq, Eq)]
pub struct ImageNoise<T> {
    pub level: T,
    pub area: NoiseArea,
}

/// The area does not reach out of an image of this size.
pub open spec fn area_fits(area: NoiseArea, height: nat, width: nat) -> bool {
    match area {
        NoiseArea::Full => true,
        NoiseArea::Region(region) => region_fits(region, height, width),
        NoiseArea::AllButLines(region) => region_fits(region, height, width),
    }
}

/// A pixel of an image takes noise. `line` is whether it lies on a line.
pub open spec fn takes_noise(
    area: NoiseArea,
    height: int,
    width: int,
    y: int,
    x: int,
    line: bool,
) -> bool {
    match area {
        NoiseArea::Full => true,
        NoiseArea::Region(region) => in_region(region, height, width, y, x),
        NoiseArea::AllButLines(region) => !(line && in_region(region, height, width, y, x)),
    }
}

/// `levels` holds the noise level of every pixel of a batch: that of its image
/// where it takes noise, and `clean` elsewhere.
pub open spec fn are_noise_levels<T>(
    levels: Seq<T>,
    images: Seq<ImageNoise<T>>,
    lines: Seq<bool>,
    height: int,
    width: int,
    clean: T,
) -> bool {
    &&& levels.len() == images.len() * height * width
    &&& forall|batch: int, y: int, x: int|
        0 <= batch < images.len() && 0 <= y < height && 0 <= x < width ==> {
            let place = #[trigger] pixel_index(batch, height, width, y, x);
            levels[place] == if takes_noise(
                images[batch].area,
                height,
                width,
                y,
                x,
                lines[place],
            ) {
                images[batch].level
            } else {
                clean
            }
        }
}

/// The level of a place before lines are kept clean.
spec fn plane_level<T>(
    images: Seq<ImageNoise<T>>,
    height: int,
    width: int,
    clean: T,
    place: int,
) -> T {
    let row = place / width;
    let image = images[row / height];
    match image.area {
        NoiseArea::Region(region) => if in_region(
            region,
            height,
            width,
            row % height,
            place % width,
        ) {
            image.level
        } else {
            clean
        },
        _ => image.level,
    }
}

/// Whether lines are kept clean at a place.
spec fn plane_mask<T>(images: Seq<ImageNoise<T>>, height: int, width: int, place: int) -> bool {
    let row = place / width;
    match images[row / height].area {
        NoiseArea::AllButLines(region) => in_region(
            region,
            height,
            width,
            row % height,
            place % width,
        ),
        _ => false,
    }
}

/// The planes hold the first `count` images, and nothing behind them.
spec fn planes_hold<T>(
    levels: Seq<T>,
    masks: Seq<bool>,
    images: Seq<ImageNoise<T>>,
    height: int,
    width: int,
    clean: T,
    count: int,
) -> bool {
    &&& levels.len() == masks.len()
    &&& forall|place: int|
        0 <= place < levels.len() ==> {
            let done = place / width < count * height;
            &&& #[trigger] levels[place] == if done {
                plane_level(images, height, width, clean, place)
            } else {
                clean
            }
            &&& masks[place] == (done && plane_mask(images, height, width, place))
        }
}

proof fn lemma_row_of_image(row: int, batch: int, height: int)
    requires
        0 < height,
        0 <= row - batch * height < height,
    ensures
        row / height == batch,
        row % height == row - batch * height,
{
    vstd::arithmetic::div_mod::lemma_fundamental_div_mod_converse(
        row,
        height,
        batch,
        row - batch * height,
    );
}

/// One more image is put into the planes.
proof fn lemma_planes_grow<T>(
    levels: Seq<T>,
    masks: Seq<bool>,
    levels_before: Seq<T>,
    masks_before: Seq<bool>,
    images: Seq<ImageNoise<T>>,
    height: int,
    width: int,
    clean: T,
    batch: int,
)
    requires
        0 <= batch < images.len(),
        0 < height,
        0 < width,
        planes_hold(levels_before, masks_before, images, height, width, clean, batch),
        is_filled(
            levels,
            levels_before,
            batch,
            height,
            width,
            match images[batch].area {
                NoiseArea::Region(region) => |y: int, x: int|
                    in_region(region, height, width, y, x),
                _ => |y: int, x: int| true,
            },
            images[batch].level,
        ),
        match images[batch].area {
            NoiseArea::AllButLines(region) => is_filled(
                masks,
                masks_before,
                batch,
                height,
                width,
                |y: int, x: int| in_region(region, height, width, y, x),
                true,
            ),
            _ => masks == masks_before,
        },
    ensures
        planes_hold(levels, masks, images, height, width, clean, batch + 1),
{
    assert forall|place: int| 0 <= place < levels.len() implies {
        let done = place / width < (batch + 1) * height;
        &&& #[trigger] levels[place] == if done {
            plane_level(images, height, width, clean, place)
        } else {
            clean
        }
        &&& masks[place] == (done && plane_mask(images, height, width, place))
    } by {
        let row = place / width;
        assert((batch + 1) * height == batch * height + height) by (nonlinear_arith);
        assert(levels_before[place] == if row < batch * height {
            plane_level(images, height, width, clean, place)
        } else {
            clean
        });
        if let NoiseArea::AllButLines(region) = images[batch].area {
            let kept = |y: int, x: int| in_region(region, height, width, y, x);
            assert(masks[place] == if is_place_of(place, batch, height, width, kept) {
                true
            } else {
                masks_before[place]
            });
        }
        let inside = match images[batch].area {
            NoiseArea::Region(region) => |y: int, x: int| in_region(region, height, width, y, x),
            _ => |y: int, x: int| true,
        };
        assert(levels[place] == if is_place_of(place, batch, height, width, inside) {
            images[batch].level
        } else {
            levels_before[place]
        });
        if 0 <= row - batch * height < height {
            lemma_row_of_image(row, batch, height);
            match images[batch].area {
                NoiseArea::Region(region) => {
                    assert(inside(row - batch * height, place % width) == in_region(
                        region,
                        height,
                        width,
                        row % height,
                        place % width,
                    ));
                },
                _ => {
                    assert(inside(row - batch * height, place % width));
                },
            }
        }
    }
}

/// The noise level of every pixel of a batch. `lines` tells for every pixel whether
/// it lies on a line.
pub fn image_noise_levels<T: Copy>(
    images: &Vec<ImageNoise<T>>,
    lines: &Vec<bool>,
    height: usize,
    width: usize,
    clean: T,
) -> (levels: Vec<T>)
    requires
        images@.len() * height * width <= usize::MAX,
        lines@.len() == images@.len() * height * width,
        forall|batch: int|
            0 <= batch < images@.len() ==> area_fits(
                (#[trigger] images@[batch]).area,
                height as nat,
                width as nat,
            ),
    ensures
        are_noise_levels(levels@, images@, lines@, height as int, width as int, clean),
{
    let count: usize = lines.len();
    let mut levels: Vec<T> = Vec::new();
    let mut masks: Vec<bool> = Vec::new();
    while levels.len() < count
        invariant
            levels@.len() <= count,
            masks@.len() == levels@.len(),
            forall|place: int| 0 <= place < levels@.len() ==> #[trigger] levels@[place] == clean,
            forall|place: int| 0 <= place < masks@.len() ==> !(#[trigger] masks@[place]),
        decreases count - levels@.len(),
    {
        levels.push(clean);
        masks.push(false);
    }
    if height == 0 || width == 0 {
        proof {
            assert(images@.len() * height * width == 0) by (nonlinear_arith)
                requires
                    height == 0 || width == 0,
            ;
        }
        return levels;
    }
    let mut batch: usize = 0;
    proof {
        assert forall|place: int| 0 <= place < levels@.len() implies {
            let done = place / (width as int) < 0 * (height as int);
            &&& #[trigger] levels@[place] == if done {
                plane_level(images@, height as int, width as int, clean, place)
            } else {
                clean
            }
            &&& masks@[place] == (done && plane_mask(
                images@,
                height as int,
                width as int,
                place,
            ))
        } by {
            vstd::arithmetic::div_mod::lemma_div_pos_is_pos(place, width as int);
            assert(!masks@[place]);
        }
    }
    while batch < images.len()
        invariant
            batch <= images@.len(),
            0 < height,
            0 < width,
            count == images@.len() * height * width,
            levels@.len() == count,
            forall|batch: int|
                0 <= batch < images@.len() ==> area_fits(
                    (#[trigger] images@[batch]).area,
                    height as nat,
                    width as nat,
                ),
            planes_hold(
                levels@,
                masks@,
                images@,
                height as int,
                width as int,
                clean,
                batch as int,
            ),
        decreases images@.len() - batch,
    {
        let ghost levels_before = levels@;
        let ghost masks_before = masks@;
        let image: ImageNoise<T> = images[batch];
        proof {
            assert((batch + 1) * height * width <= count) by (nonlinear_arith)
                requires
                    batch + 1 <= images@.len(),
                    count == images@.len() * height * width,
            ;
        }
        match image.area {
            NoiseArea::Full => {
                fill_image(&mut levels, batch, height, width, image.level);
            },
            NoiseArea::Region(region) => {
                fill_region(&mut levels, batch, height, width, region, image.level);
            },
            NoiseArea::AllButLines(region) => {
                fill_image(&mut levels, batch, height, width, image.level);
                fill_region(&mut masks, batch, height, width, region, true);
            },
        }
        proof {
            lemma_planes_grow(
                levels@,
                masks@,
                levels_before,
                masks_before,
                images@,
                height as int,
                width as int,
                clean,
                batch as int,
            );
        }
        batch = batch + 1;
    }
    let ghost planes = levels@;
    let mut place: usize = 0;
    while place < count
        invariant
            place <= count,
            levels@.len() == count,
            masks@.len() == count,
            lines@.len() == count,
            planes.len() == count,
            forall|p: int|
                0 <= p < count ==> #[trigger] levels@[p] == if p < place && masks@[p] && lines@[p] {
                    clean
                } else {
                    planes[p]
                },
        decreases count - place,
    {
        if masks[place] && lines[place] {
            levels.set(place, clean);
        }
        place = place + 1;
    }
    proof {
        let rows = height as int;
        let columns = width as int;
        assert forall|batch: int, y: int, x: int|
            0 <= batch < images@.len() && 0 <= y < rows && 0 <= x < columns implies {
            let place = #[trigger] pixel_index(batch, rows, columns, y, x);
            levels@[place] == if takes_noise(
                images@[batch].area,
                rows,
                columns,
                y,
                x,
                lines@[place],
            ) {
                images@[batch].level
            } else {
                clean
            }
        } by {
            let place = pixel_index(batch, rows, columns, y, x);
            lemma_pixel_index(batch, images@.len() as int, rows, columns, y, x);
            lemma_row_of_image(batch * rows + y, batch, rows);
            assert(batch * rows + y < images@.len() * rows) by (nonlinear_arith)
                requires
                    batch + 1 <= images@.len(),
                    0 <= y < rows,
            ;
            assert(planes[place] == plane_level(images@, rows, columns, clean, place));
            assert(levels@[place] == if masks@[place] && lines@[place] {
                clean
            } else {
                planes[place]
            });
        }
    }
    levels
}

/// Chooses a pattern by where a threshold falls when the weights are laid end to end:
/// in that of full noise, of bands, of rectangles, or behind them. `below` compares,
/// and `less` takes a weight off.
pub fn choose_noise_level_pattern<T, C: Fn(&T, &T) -> bool, M: Fn(T, &T) -> T>(
    threshold: T,
    full_weight: T,
    band_weight: T,
    rectangle_weight: T,
    below: C,
    less: M,
) -> (pattern: NoiseLevelPattern)
    requires
        forall|one: &T, other: &T| #[trigger] call_requires(below, (one, other)),
        forall|one: T, other: &T| #[trigger] call_requires(less, (one, other)),
    ensures
        match pattern {
            NoiseLevelPattern::Full => call_ensures(below, (&threshold, &full_weight), true),
            _ => call_ensures(below, (&threshold, &full_weight), false) && exists|behind_full: T|
                {
                    &&& #[trigger] call_ensures(less, (threshold, &full_weight), behind_full)
                    &&& is_behind_full(
                        pattern,
                        behind_full,
                        band_weight,
                        rectangle_weight,
                        below,
                        less,
                    )
                },
        },
{
    if below(&threshold, &full_weight) {
        return NoiseLevelPattern::Full;
    }
    let behind_full: T = less(threshold, &full_weight);
    if below(&behind_full, &band_weight) {
        return NoiseLevelPattern::Band;
    }
    let behind_band: T = less(behind_full, &band_weight);
    proof {
        assert(call_ensures(less, (behind_full, &band_weight), behind_band));
    }
    if below(&behind_band, &rectangle_weight) {
        return NoiseLevelPattern::Rectangle;
    }
    NoiseLevelPattern::RegionLineClean
}

/// The pattern of a threshold that lies behind the weight of full noise.
pub open spec fn is_behind_full<T, C: Fn(&T, &T) -> bool, M: Fn(T, &T) -> T>(
    pattern: NoiseLevelPattern,
    behind_full: T,
    band_weight: T,
    rectangle_weight: T,
    below: C,
    less: M,
) -> bool {
    match pattern {
        NoiseLevelPattern::Full => false,
        NoiseLevelPattern::Band => call_ensures(below, (&behind_full, &band_weight), true),
        _ => call_ensures(below, (&behind_full, &band_weight), false) && exists|behind_band: T|
            {
                &&& #[trigger] call_ensures(less, (behind_full, &band_weight), behind_band)
                &&& call_ensures(
                    below,
                    (&behind_band, &rectangle_weight),
                    pattern == NoiseLevelPattern::Rectangle,
                )
            },
    }
}

/// What was drawn for the noise of an image.
#[derive(Clone, Copy, Debug, PartialEq, Eq)]
pub struct NoiseDraws<T> {
    pub level: T,
    pub pattern: NoiseLevelPattern,
    /// The side of a band, from `0..4`.
    pub side: usize,
    /// Whether a region that keeps its lines clean is a band.
    pub prefers_band: bool,
}

/// The numbers that stand behind the sizes and places of regions.
#[derive(Clone, Copy, Debug, PartialEq, Eq, Structural)]
pub enum RegionDraw {
    BandSpan,
    RectangleWidth,
    RectangleHeight,
    RectangleX,
    RectangleY,
}

/// `region` is the band of the image at `batch`.
pub open spec fn is_band_of<T, D: Fn(usize, RegionDraw, usize) -> usize>(
    region: NoiseRegion,
    draws: NoiseDraws<T>,
    batch: usize,
    height: usize,
    width: usize,
    draw: D,
) -> bool {
    exists|drawn: usize|
        {
            &&& call_ensures(
                draw,
                (
                    batch,
                    RegionDraw::BandSpan,
                    size_across(drawn_side(draws.side), height, width),
                ),
                drawn,
            )
            &&& region == #[trigger] drawn_band(drawn_side(draws.side), height, width, drawn)
        }
}

/// `region` is the rectangle of the image at `batch`.
pub open spec fn is_rectangle_of<D: Fn(usize, RegionDraw, usize) -> usize>(
    region: NoiseRegion,
    batch: usize,
    height: usize,
    width: usize,
    draw: D,
) -> bool {
    exists|columns: usize, rows: usize, x: usize, y: usize|
        {
            &&& call_ensures(draw, (batch, RegionDraw::RectangleWidth, width), columns)
            &&& call_ensures(draw, (batch, RegionDraw::RectangleHeight, height), rows)
            &&& call_ensures(draw, (batch, RegionDraw::RectangleX, starts_for(width, columns)), x)
            &&& call_ensures(draw, (batch, RegionDraw::RectangleY, starts_for(height, rows)), y)
            &&& region == #[trigger] drawn_rectangle(height, width, columns, rows, x, y)
        }
}

/// `image` is the noise of the image at `batch`: its level, and the area of its
/// pattern.
pub open spec fn is_drawn_noise<T, D: Fn(usize, RegionDraw, usize) -> usize>(
    image: ImageNoise<T>,
    draws: NoiseDraws<T>,
    batch: usize,
    height: usize,
    width: usize,
    draw: D,
) -> bool {
    &&& image.level == draws.level
    &&& match image.area {
        NoiseArea::Full => draws.pattern == NoiseLevelPattern::Full,
        NoiseArea::Region(region) => {
            ||| draws.pattern == NoiseLevelPattern::Band && is_band_of(
                region,
                draws,
                batch,
                height,
                width,
                draw,
            )
            ||| draws.pattern == NoiseLevelPattern::Rectangle && is_rectangle_of(
                region,
                batch,
                height,
                width,
                draw,
            )
        },
        NoiseArea::AllButLines(region) => {
            &&& draws.pattern == NoiseLevelPattern::RegionLineClean
            &&& if draws.prefers_band {
                is_band_of(region, draws, batch, height, width, draw)
            } else {
                is_rectangle_of(region, batch, height, width, draw)
            }
        },
    }
}

fn draw_band<T, D: Fn(usize, RegionDraw, usize) -> usize>(
    draws: &NoiseDraws<T>,
    batch: usize,
    height: usize,
    width: usize,
    draw: &D,
) -> (region: NoiseRegion)
    requires
        height > 0,
        width > 0,
        forall|batch: usize, number: RegionDraw, size: usize| #[trigger]
            call_requires(*draw, (batch, number, size)),
    ensures
        is_band_of(region, *draws, batch, height, width, *draw),
        region_fits(region, height as nat, width as nat),
{
    let draw_span = |size: usize| -> (span: usize)
        ensures call_ensures(*draw, (batch, RegionDraw::BandSpan, size), span)
    {
        draw(batch, RegionDraw::BandSpan, size)
    };
    band_region(height, width, draws.side, draw_span)
}

fn draw_rectangle<D: Fn(usize, RegionDraw, usize) -> usize>(
    batch: usize,
    height: usize,
    width: usize,
    draw: &D,
) -> (region: NoiseRegion)
    requires
        height > 0,
        width > 0,
        forall|batch: usize, number: RegionDraw, size: usize| #[trigger]
            call_requires(*draw, (batch, number, size)),
    ensures
        is_rectangle_of(region, batch, height, width, *draw),
        region_fits(region, height as nat, width as nat),
{
    let draw_width = |size: usize| -> (span: usize)
        ensures call_ensures(*draw, (batch, RegionDraw::RectangleWidth, size), span)
    {
        draw(batch, RegionDraw::RectangleWidth, size)
    };
    let draw_height = |size: usize| -> (span: usize)
        ensures call_ensures(*draw, (batch, RegionDraw::RectangleHeight, size), span)
    {
        draw(batch, RegionDraw::RectangleHeight, size)
    };
    let draw_x = |count: usize| -> (start: usize)
        ensures call_ensures(*draw, (batch, RegionDraw::RectangleX, count), start)
    {
        draw(batch, RegionDraw::RectangleX, count)
    };
    let draw_y = |count: usize| -> (start: usize)
        ensures call_ensures(*draw, (batch, RegionDraw::RectangleY, count), start)
    {
        draw(batch, RegionDraw::RectangleY, count)
    };
    rectangle_region(height, width, draw_width, draw_height, draw_x, draw_y)
}

/// The noise level of every pixel of a batch, from what was drawn for each image.
/// `draw` gives a span for a size, or a start from so many, for the image at a place.
pub fn image_noise_level_from_random_values<
    T: Copy,
    D: Fn(usize, RegionDraw, usize) -> usize,
>(
    draws: &Vec<NoiseDraws<T>>,
    lines: &Vec<bool>,
    height: usize,
    width: usize,
    clean: T,
    draw: D,
) -> (levels: Vec<T>)
    requires
        height > 0,
        width > 0,
        lines@.len() == draws@.len() * height * width,
        forall|batch: usize, number: RegionDraw, size: usize| #[trigger]
            call_requires(draw, (batch, number, size)),
    ensures
        exists|images: Seq<ImageNoise<T>>|
            {
                &&& images.len() == draws@.len()
                &&& forall|batch: int|
                    0 <= batch < images.len() ==> is_drawn_noise(
                        #[trigger] images[batch],
                        draws@[batch],
                        batch as usize,
                        height,
                        width,
                        draw,
                    )
                &&& #[trigger] are_noise_levels(
                    levels@,
                    images,
                    lines@,
                    height as int,
                    width as int,
                    clean,
                )
            },
{
    let mut images: Vec<ImageNoise<T>> = Vec::new();
    while images.len() < draws.len()
        invariant
            height > 0,
            width > 0,
            images@.len() <= draws@.len(),
            forall|batch: usize, number: RegionDraw, size: usize| #[trigger]
                call_requires(draw, (batch, number, size)),
            forall|batch: int|
                0 <= batch < images@.len() ==> {
                    &&& is_drawn_noise(
                        #[trigger] images@[batch],
                        draws@[batch],
                        batch as usize,
                        height,
                        width,
                        draw,
                    )
                    &&& area_fits(images@[batch].area, height as nat, width as nat)
                },
        decreases draws@.len() - images@.len(),
    {
        let batch: usize = images.len();
        let drawn: NoiseDraws<T> = draws[batch];
        let area: NoiseArea = match drawn.pattern {
            NoiseLevelPattern::Full => NoiseArea::Full,
            NoiseLevelPattern::Band => NoiseArea::Region(
                draw_band(&drawn, batch, height, width, &draw),
            ),
            NoiseLevelPattern::Rectangle => NoiseArea::Region(
                draw_rectangle(batch, height, width, &draw),
            ),
            NoiseLevelPattern::RegionLineClean => {
                if drawn.prefers_band {
                    NoiseArea::AllButLines(draw_band(&drawn, batch, height, width, &draw))
                } else {
                    NoiseArea::AllButLines(draw_rectangle(batch, height, width, &draw))
                }
            },
        };
        images.push(ImageNoise { level: drawn.level, area });
    }
    proof {
        assert(lines@.len() == lines.len());
    }
    image_noise_levels(&images, lines, height, width, clean)
}

/// How the noise of a sample is spread.
#[derive(Clone, Copy, Debug, PartialEq, Eq, Structural)]
pub enum SampleNoiseKind {
    Full,
    Band,
    Rectangle,
    RegionLineClean,
}

/// The area of a sample: all of it, its right half, its middle, or all but the
/// lines in its middle.
pub open spec fn sample_area(kind: SampleNoiseKind, height: usize, width: usize) -> NoiseArea {
    match kind {
        SampleNoiseKind::Full => NoiseArea::Full,
        SampleNoiseKind::Band => NoiseArea::Region(
            NoiseRegion::Band { side: BandSide::Right, span: ((width + 1) / 2) as usize },
        ),
        SampleNoiseKind::Rectangle => NoiseArea::Region(middle(height, width)),
        SampleNoiseKind::RegionLineClean => NoiseArea::AllButLines(middle(height, width)),
    }
}

/// The noise level of every pixel of a sample. `lines` tells for every pixel whether
/// it lies on a line.
pub fn fixed_sample_noise_level<T: Copy>(
    lines: &Vec<bool>,
    height: usize,
    width: usize,
    noise_level: T,
    kind: SampleNoiseKind,
    clean: T,
) -> (levels: Vec<T>)
    requires
        lines@.len() == height * width,
    ensures
        are_noise_levels(
            levels@,
            seq![ImageNoise { level: noise_level, area: sample_area(kind, height, width) }],
            lines@,
            height as int,
            width as int,
            clean,
        ),
{
    let area: NoiseArea = match kind {
        SampleNoiseKind::Full => NoiseArea::Full,
        SampleNoiseKind::Band => NoiseArea::Region(
            NoiseRegion::Band { side: BandSide::Right, span: width / 2 + width % 2 },
        ),
        SampleNoiseKind::Rectangle => NoiseArea::Region(centered_rectangle_region(height, width)),
        SampleNoiseKind::RegionLineClean => NoiseArea::AllButLines(
            centered_rectangle_region(height, width),
        ),
    };
    let image = ImageNoise { level: noise_level, area };
    let mut images: Vec<ImageNoise<T>> = Vec::new();
    images.push(image);
    proof {
        assert(images@ =~= seq![image]);
        assert(images@.len() * height * width == height * width) by (nonlinear_arith)
            requires
                images@.len() == 1,
        ;
        assert(lines@.len() == lines.len());
    }
    image_noise_levels(&images, lines, height, width, clean)
}

/// Lines inside a region that keeps them clean take no noise, whatever the level
/// of their image.
pub proof fn law_lines_stay_clean<T>(
    levels: Seq<T>,
    images: Seq<ImageNoise<T>>,
    lines: Seq<bool>,
    height: int,
    width: int,
    clean: T,
    batch: int,
    y: int,
    x: int,
)
    requires
        are_noise_levels(levels, images, lines, height, width, clean),
        0 <= batch < images.len(),
        0 <= y < height,
        0 <= x < width,
        images[batch].area matches NoiseArea::AllButLines(region) && in_region(
            region,
            height,
            width,
            y,
            x,
        ),
        lines[pixel_index(batch, height, width, y, x)],
    ensures
        levels[pixel_index(batch, height, width, y, x)] == clean,
{
}

/// A pixel of an image takes the image's level exactly where its area reaches: everywhere,
/// in the region only, or everywhere but on the lines in the region. Elsewhere it is clean.
/// The region is a band of so many rows or columns from its side, or a rectangle.
pub proof fn law_noise_lies_in_its_area<T>(
    levels: Seq<T>,
    images: Seq<ImageNoise<T>>,
    lines: Seq<bool>,
    height: int,
    width: int,
    clean: T,
    batch: int,
    y: int,
    x: int,
    region: NoiseRegion,
)
    requires
        are_noise_levels(levels, images, lines, height, width, clean),
        0 <= batch < images.len(),
        0 <= y < height,
        0 <= x < width,
    ensures
        ({
            let place = (batch * height + y) * width + x;
            let inside = match region {
                NoiseRegion::Band { side: BandSide::Left, span } => x < span,
                NoiseRegion::Band { side: BandSide::Right, span } => width - 1 - x < span,
                NoiseRegion::Band { side: BandSide::Top, span } => y < span,
                NoiseRegion::Band { side: BandSide::Bottom, span } => height - 1 - y < span,
                NoiseRegion::Rectangle { y_start, x_start, height: rows, width: columns } => 0 <= y
                    - y_start && y - y_start < rows && 0 <= x - x_start && x - x_start < columns,
            };
            let area = images[batch].area;
            &&& levels.len() == images.len() * height * width
            &&& area == NoiseArea::Full ==> levels[place] == images[batch].level
            &&& area == NoiseArea::Region(region) && inside ==> levels[place]
                == images[batch].level
            &&& area == NoiseArea::Region(region) && !inside ==> levels[place] == clean
            &&& area == NoiseArea::AllButLines(region) && inside && lines[place]
                ==> levels[place] == clean
            &&& area == NoiseArea::AllButLines(region) && !inside ==> levels[place]
                == images[batch].level
            &&& area == NoiseArea::AllButLines(region) && !lines[place] ==> levels[place]
                == images[batch].level
        }),
{
    assert(levels[pixel_index(batch, height, width, y, x)] == levels[(batch * height + y) * width
        + x]);
}

/// The noise of an image has the level that was drawn and the kind of area that its pattern
/// stands for.
pub proof fn law_the_area_is_that_of_the_pattern<T, D: Fn(usize, RegionDraw, usize) -> usize>(
    image: ImageNoise<T>,
    draws: NoiseDraws<T>,
    batch: usize,
    height: usize,
    width: usize,
    draw: D,
)
    requires
        is_drawn_noise(image, draws, batch, height, width, draw),
    ensures
        image.level == draws.level,
        draws.pattern == NoiseLevelPattern::Full <==> image.area == NoiseArea::Full,
        draws.pattern == NoiseLevelPattern::RegionLineClean <==> image.area is AllButLines,
        draws.pattern == NoiseLevelPattern::Band ==> (image.area matches NoiseArea::Region(region)
            && region is Band),
        draws.pattern == NoiseLevelPattern::Rectangle ==> (
        image.area matches NoiseArea::Region(region) && region is Rectangle),
        draws.pattern == NoiseLevelPattern::RegionLineClean ==> (
        image.area matches NoiseArea::AllButLines(region) && (region is Band
            <==> draws.prefers_band)),
{
}

/// A band lies along the drawn side and reaches as far across the image as was drawn.
pub proof fn law_bands_follow_their_draws<T, D: Fn(usize, RegionDraw, usize) -> usize>(
    image: ImageNoise<T>,
    draws: NoiseDraws<T>,
    batch: usize,
    height: usize,
    width: usize,
    draw: D,
    side: BandSide,
    span: usize,
    size: usize,
)
    requires
        height > 0,
        width > 0,
        is_drawn_noise(image, draws, batch, height, width, draw),
        image.area == NoiseArea::Region(NoiseRegion::Band { side, span }) || image.area
            == NoiseArea::AllButLines(NoiseRegion::Band { side, span }),
        side == BandSide::Left || side == BandSide::Right ==> size == width,
        side == BandSide::Top || side == BandSide::Bottom ==> size == height,
    ensures
        draws.side == 0 ==> side == BandSide::Left,
        draws.side == 1 ==> side == BandSide::Right,
        draws.side == 2 ==> side == BandSide::Top,
        draws.side == 3 ==> side == BandSide::Bottom,
        1 <= span <= size,
        exists|drawn: usize|
            {
                &&& #[trigger] call_ensures(draw, (batch, RegionDraw::BandSpan, size), drawn)
                &&& 1 <= drawn <= size ==> span == drawn
                &&& drawn > size ==> span == size
            },
{
    let region = NoiseRegion::Band { side, span };
    assert(is_band_of(region, draws, batch, height, width, draw));
    let drawn = choose|drawn: usize|
        {
            &&& call_ensures(
                draw,
                (
                    batch,
                    RegionDraw::BandSpan,
                    size_across(drawn_side(draws.side), height, width),
                ),
                drawn,
            )
            &&& region == #[trigger] drawn_band(drawn_side(draws.side), height, width, drawn)
        };
    assert(call_ensures(draw, (batch, RegionDraw::BandSpan, size), drawn));
}

/// A rectangle has the drawn width and height and lies at the drawn place. Its left edge is
/// drawn from those at which its width fits, and its top edge from those at which its height
/// fits.
pub proof fn law_rectangles_follow_their_draws<T, D: Fn(usize, RegionDraw, usize) -> usize>(
    image: ImageNoise<T>,
    draws: NoiseDraws<T>,
    batch: usize,
    height: usize,
    width: usize,
    draw: D,
    y_start: usize,
    x_start: usize,
    rows: usize,
    columns: usize,
    x_starts: usize,
    y_starts: usize,
)
    requires
        height > 0,
        width > 0,
        is_drawn_noise(image, draws, batch, height, width, draw),
        ({
            let region = NoiseRegion::Rectangle { y_start, x_start, height: rows, width: columns };
            image.area == NoiseArea::Region(region) || image.area == NoiseArea::AllButLines(region)
        }),
        x_starts == width - columns + 1,
        y_starts == height - rows + 1,
    ensures
        1 <= columns && x_start + columns <= width,
        1 <= rows && y_start + rows <= height,
        exists|wide: usize|
            #[trigger] call_ensures(draw, (batch, RegionDraw::RectangleWidth, width), wide) && (1
                <= wide <= width ==> columns == wide) && (wide > width ==> columns == width),
        exists|high: usize|
            #[trigger] call_ensures(draw, (batch, RegionDraw::RectangleHeight, height), high) && (1
                <= high <= height ==> rows == high) && (high > height ==> rows == height),
        exists|x: usize|
            #[trigger] call_ensures(draw, (batch, RegionDraw::RectangleX, x_starts), x) && (x
                < x_starts ==> x_start == x) && (x >= x_starts ==> x_start + columns == width),
        exists|y: usize|
            #[trigger] call_ensures(draw, (batch, RegionDraw::RectangleY, y_starts), y) && (y
                < y_starts ==> y_start == y) && (y >= y_starts ==> y_start + rows == height),
{
    let region = NoiseRegion::Rectangle { y_start, x_start, height: rows, width: columns };
    assert(is_rectangle_of(region, batch, height, width, draw));
    let (wide, high, x, y) = choose|wide: usize, high: usize, x: usize, y: usize|
        {
            &&& call_ensures(draw, (batch, RegionDraw::RectangleWidth, width), wide)
            &&& call_ensures(draw, (batch, RegionDraw::RectangleHeight, height), high)
            &&& call_ensures(draw, (batch, RegionDraw::RectangleX, starts_for(width, wide)), x)
            &&& call_ensures(draw, (batch, RegionDraw::RectangleY, starts_for(height, high)), y)
            &&& region == #[trigger] drawn_rectangle(height, width, wide, high, x, y)
        };
    assert(starts_for(width, wide) == x_starts);
    assert(starts_for(height, high) == y_starts);
    assert(call_ensures(draw, (batch, RegionDraw::RectangleWidth, width), wide));
    assert(call_ensures(draw, (batch, RegionDraw::RectangleHeight, height), high));
    assert(call_ensures(draw, (batch, RegionDraw::RectangleX, x_starts), x));
    assert(call_ensures(draw, (batch, RegionDraw::RectangleY, y_starts), y));
}

/// The weights are laid end to end, and the pattern is that of the weight which the
/// threshold falls into: here for whole numbers.
pub proof fn law_the_pattern_is_where_the_threshold_falls<
    C: Fn(&int, &int) -> bool,
    M: Fn(int, &int) -> int,
>(
    pattern: NoiseLevelPattern,
    behind_full: int,
    band_weight: int,
    rectangle_weight: int,
    below: C,
    less: M,
)
    requires
        forall|one: int, other: int, result: bool| #[trigger]
            call_ensures(below, (&one, &other), result) ==> result == (one < other),
        forall|one: int, other: int, result: int| #[trigger]
            call_ensures(less, (one, &other), result) ==> result == one - other,
        is_behind_full(pattern, behind_full, band_weight, rectangle_weight, below, less),
    ensures
        pattern != NoiseLevelPattern::Full,
        pattern == NoiseLevelPattern::Band <==> behind_full < band_weight,
        pattern == NoiseLevelPattern::Rectangle <==> band_weight <= behind_full < band_weight
            + rectangle_weight,
        pattern == NoiseLevelPattern::RegionLineClean <==> behind_full >= band_weight
            && behind_full >= band_weight + rectangle_weight,
{
}

/// A sample takes noise everywhere, in its right half, in its middle, or everywhere but on
/// the lines in its middle. The halves are rounded up, and the middle lies a quarter in from
/// the top and the left, rounded down.
pub proof fn law_samples_take_noise_by_their_kind<T>(
    levels: Seq<T>,
    lines: Seq<bool>,
    height: usize,
    width: usize,
    noise_level: T,
    kind: SampleNoiseKind,
    clean: T,
    y: int,
    x: int,
)
    requires
        are_noise_levels(
            levels,
            seq![ImageNoise { level: noise_level, area: sample_area(kind, height, width) }],
            lines,
            height as int,
            width as int,
            clean,
        ),
        0 <= y < height,
        0 <= x < width,
    ensures
        ({
            let place = y * width + x;
            let top = (height / 2) as int / 2;
            let left = (width / 2) as int / 2;
            let middle = top <= y && 2 * (y - top) < height && left <= x && 2 * (x - left) < width;
            &&& kind == SampleNoiseKind::Full ==> levels[place] == noise_level
            &&& kind == SampleNoiseKind::Band ==> levels[place] == if x >= width / 2 {
                noise_level
            } else {
                clean
            }
            &&& kind == SampleNoiseKind::Rectangle ==> levels[place] == if middle {
                noise_level
            } else {
                clean
            }
            &&& kind == SampleNoiseKind::RegionLineClean ==> levels[place] == if middle
                && lines[place] {
                clean
            } else {
                noise_level
            }
        }),
{
    let images = seq![ImageNoise { level: noise_level, area: sample_area(kind, height, width) }];
    assert(images[0].level == noise_level);
    assert(pixel_index(0, height as int, width as int, y, x) == y * width + x) by (nonlinear_arith)
        requires
            0 <= y < height,
            0 <= x < width,
    ;
    let region = match sample_area(kind, height, width) {
        NoiseArea::Region(region) => region,
        NoiseArea::AllButLines(region) => region,
        NoiseArea::Full => NoiseRegion::Band { side: BandSide::Left, span: 0 },
    };
    law_noise_lies_in_its_area(
        levels,
        images,
        lines,
        height as int,
        width as int,
        clean,
        0,
        y,
        x,
        region,
    );
}

} // verus!
