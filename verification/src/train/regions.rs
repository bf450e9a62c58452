//! The parts of an image that noise is put on.
use vstd::prelude::*;

verus! {

/// A side of an image.
#[derive(Clone, Copy, Debug, PartialEq, Eq, Structural)]
pub enum BandSide {
    Left,
    Right,
    Top,
    Bottom,
}

/// A part of an image.
#[derive(Clone, Copy, Debug, PartialEq, Eq, Structural)]
pub enum NoiseRegion {
    /// All pixels that are less than `span` away from a side.
    Band { side: BandSide, span: usize },
    Rectangle { y_start: usize, x_start: usize, height: usize, width: usize },
}

/// A pixel lies in the region of an image of this size.
pub open spec fn in_region(region: NoiseRegion, height: int, width: int, y: int, x: int) -> bool {
    match region {
        NoiseRegion::Band { side, span } => match side {
            BandSide::Left => x < span,
            BandSide::Right => x >= width - span,
            BandSide::Top => y < span,
            BandSide::Bottom => y >= height - span,
        },
        NoiseRegion::Rectangle { y_start, x_start, height, width } => y_start <= y < y_start
            + height && x_start <= x < x_start + width,
    }
}

/// The region does not reach out of an image of this size.
pub open spec fn region_fits(region: NoiseRegion, height: nat, width: nat) -> bool {
    match region {
        NoiseRegion::Band { side, span } => match side {
            BandSide::Left | BandSide::Right => span <= width,
            BandSide::Top | BandSide::Bottom => span <= height,
        },
        NoiseRegion::Rectangle { y_start, x_start, height: rows, width: columns } => y_start + rows
            <= height && x_start + columns <= width,
    }
}

/// Where a pixel of an image in a batch is stored.
pub open spec fn pixel_index(batch: int, height: int, width: int, y: int, x: int) -> int {
    (batch * height + y) * width + x
}

/// A place in a batch is that of a pixel that `inside` holds of, in the image at
/// `batch`.
pub open spec fn is_place_of(
    place: int,
    batch: int,
    height: int,
    width: int,
    inside: spec_fn(int, int) -> bool,
) -> bool {
    let y = place / width - batch * height;
    width > 0 && 0 <= y < height && inside(y, place % width)
}

/// `values` is `before` with `value` at the pixels of one image that `inside` holds
/// of.
pub open spec fn is_filled<T>(
    values: Seq<T>,
    before: Seq<T>,
    batch: int,
    height: int,
    width: int,
    inside: spec_fn(int, int) -> bool,
    value: T,
) -> bool {
    &&& values.len() == before.len()
    &&& forall|place: int|
        0 <= place < before.len() ==> #[trigger] values[place] == if is_place_of(
            place,
            batch,
            height,
            width,
            inside,
        ) {
            value
        } else {
            before[place]
        }
}

/// The place of a pixel lies inside its batch, and the pixel can be told from it.
pub proof fn lemma_pixel_index(batch: int, count: int, height: int, width: int, y: int, x: int)
    requires
        0 <= batch < count,
        0 <= y < height,
        0 <= x < width,
    ensures
        0 <= pixel_index(batch, height, width, y, x) < count * height * width,
        0 <= batch * height,
        0 <= (batch * height + y) * width,
        pixel_index(batch, height, width, y, x) / width == batch * height + y,
        pixel_index(batch, height, width, y, x) % width == x,
{
    let row = batch * height + y;
    assert(0 <= batch * height && row + 1 <= count * height) by (nonlinear_arith)
        requires
            0 <= batch < count,
            0 <= y < height,
            row == batch * height + y,
    ;
    assert(0 <= row * width && row * width + width <= (count * height) * width)
        by (nonlinear_arith)
        requires
            0 <= row,
            row + 1 <= count * height,
            0 < width,
    ;
    vstd::arithmetic::div_mod::lemma_fundamental_div_mod_converse(row * width + x, width, row, x);
}

/// Where a pixel of an image in a batch is stored.
pub fn noise_value_index(batch: usize, height: usize, width: usize, y: usize, x: usize) -> (index: usize)
    requires
        batch * height + y <= usize::MAX,
        pixel_index(
            batch as int,
            height as int,
            width as int,
            y as int,
            x as int,
        ) <= usize::MAX,
    ensures
        index == pixel_index(
            batch as int,
            height as int,
            width as int,
            y as int,
            x as int,
        ),
{
    proof {
        assert(0 <= batch * height) by (nonlinear_arith);
        assert(0 <= (batch * height + y) * width) by (nonlinear_arith)
            requires
                0 <= batch * height + y,
                0 <= width,
        ;
    }
    (batch * height + y) * width + x
}

/// Puts a value on a rectangle of the image at `batch`.
pub fn fill_rectangle<T: Copy>(
    values: &mut Vec<T>,
    batch: usize,
    image_height: usize,
    image_width: usize,
    y_start: usize,
    x_start: usize,
    height: usize,
    width: usize,
    value: T,
)
    requires
        y_start + height <= image_height,
        x_start + width <= image_width,
        (batch + 1) * image_height * image_width <= old(values)@.len(),
    ensures
        is_filled(
            final(values)@,
            old(values)@,
            batch as int,
            image_height as int,
            image_width as int,
            |y: int, x: int| y_start <= y < y_start + height && x_start <= x < x_start + width,
            value,
        ),
{
    let ghost before = values@;
    let ghost columns = image_width as int;
    proof {
        assert(values@.len() == values.len());
    }
    let ghost start = batch * image_height;
    let mut y: usize = y_start;
    while y < y_start + height
        invariant
            y_start <= y <= y_start + height,
            y_start + height <= image_height,
            x_start + width <= image_width,
            start == batch * image_height,
            columns == image_width,
            (batch + 1) * image_height * image_width <= before.len(),
            values@.len() == before.len(),
            before.len() <= usize::MAX,
            forall|place: int|
                0 <= place < before.len() ==> #[trigger] values@[place] == if y_start <= place
                    / columns - start < y && x_start <= place % columns
                    < x_start + width {
                    value
                } else {
                    before[place]
                },
        decreases y_start + height - y,
    {
        let mut x: usize = x_start;
        while x < x_start + width
            invariant
                y_start <= y < y_start + height,
                x_start <= x <= x_start + width,
                y_start + height <= image_height,
                x_start + width <= image_width,
                start == batch * image_height,
                columns == image_width,
                (batch + 1) * image_height * image_width <= before.len(),
                values@.len() == before.len(),
                before.len() <= usize::MAX,
                forall|place: int|
                    0 <= place < before.len() ==> #[trigger] values@[place] == if (y_start <= place
                        / columns - start < y && x_start <= place % columns
                        < x_start + width) || (place / columns - start == y && x_start
                        <= place % columns < x) {
                        value
                    } else {
                        before[place]
                    },
            decreases x_start + width - x,
        {
            let ghost now = values@;
            proof {
                lemma_pixel_index(
                    batch as int,
                    batch + 1,
                    image_height as int,
                    image_width as int,
                    y as int,
                    x as int,
                );
                let row = start + y;
                assert(row <= row * image_width) by (nonlinear_arith)
                    requires
                        row >= 0,
                        image_width > 0,
                ;
            }
            let index: usize = noise_value_index(batch, image_height, image_width, y, x);
            values.set(index, value);
            proof {
                assert forall|place: int| 0 <= place < before.len() implies #[trigger] values@[place]
                    == if (y_start <= place / columns - start < y && x_start <= place
                    % columns < x_start + width) || (place / columns - start
                    == y && x_start <= place % columns < x + 1) {
                    value
                } else {
                    before[place]
                } by {
                    vstd::arithmetic::div_mod::lemma_fundamental_div_mod(
                        place,
                        image_width as int,
                    );
                    if place / columns - start == y && place % columns == x {
                        assert(image_width * (start + y) == (start + y) * image_width)
                            by (nonlinear_arith);
                        assert(place == index);
                    } else {
                        assert(place != index);
                        assert(values@[place] == now[place]);
                    }
                }
            }
            x = x + 1;
        }
        y = y + 1;
    }
}

/// Puts a value on all of the image at `batch`.
pub fn fill_image<T: Copy>(values: &mut Vec<T>, batch: usize, height: usize, width: usize, value: T)
    requires
        (batch + 1) * height * width <= old(values)@.len(),
    ensures
        is_filled(
            final(values)@,
            old(values)@,
            batch as int,
            height as int,
            width as int,
            |y: int, x: int| true,
            value,
        ),
{
    let ghost before = values@;
    fill_rectangle(values, batch, height, width, 0, 0, height, width, value);
    proof {
        lemma_same_fill(
            values@,
            before,
            batch as int,
            height as int,
            width as int,
            |y: int, x: int| 0 <= y < 0 + height && 0 <= x < 0 + width,
            |y: int, x: int| true,
            value,
        );
    }
}

/// What agrees inside the image fills the same.
proof fn lemma_same_fill<T>(
    values: Seq<T>,
    before: Seq<T>,
    batch: int,
    height: int,
    width: int,
    inside: spec_fn(int, int) -> bool,
    other: spec_fn(int, int) -> bool,
    value: T,
)
    requires
        is_filled(values, before, batch, height, width, inside, value),
        0 <= height,
        0 <= width,
        forall|y: int, x: int|
            0 <= y < height && 0 <= x < width ==> #[trigger] inside(y, x) == other(
                y,
                x,
            ),
    ensures
        is_filled(values, before, batch, height, width, other, value),
{
    assert forall|place: int| 0 <= place < before.len() implies #[trigger] values[place]
        == if is_place_of(place, batch, height, width, other) {
        value
    } else {
        before[place]
    } by {
        let y = place / width - batch * height;
        if width > 0 && 0 <= y < height {
            vstd::arithmetic::div_mod::lemma_mod_bound(place, width);
            assert(inside(y, place % width) == other(y, place % width));
        }
    }
}

/// Puts a value on a region of the image at `batch`.
pub fn fill_region<T: Copy>(
    values: &mut Vec<T>,
    batch: usize,
    height: usize,
    width: usize,
    region: NoiseRegion,
    value: T,
)
    requires
        region_fits(region, height as nat, width as nat),
        (batch + 1) * height * width <= old(values)@.len(),
    ensures
        is_filled(
            final(values)@,
            old(values)@,
            batch as int,
            height as int,
            width as int,
            |y: int, x: int| in_region(region, height as int, width as int, y, x),
            value,
        ),
{
    let ghost before = values@;
    let (y_start, x_start, rows, columns): (usize, usize, usize, usize) = match region {
        NoiseRegion::Band { side, span } => match side {
            BandSide::Left => (0, 0, height, span),
            BandSide::Right => (0, width - span, height, span),
            BandSide::Top => (0, 0, span, width),
            BandSide::Bottom => (height - span, 0, span, width),
        },
        NoiseRegion::Rectangle { y_start, x_start, height: rows, width: columns } => (
            y_start,
            x_start,
            rows,
            columns,
        ),
    };
    fill_rectangle(values, batch, height, width, y_start, x_start, rows, columns, value);
    proof {
        lemma_same_fill(
            values@,
            before,
            batch as int,
            height as int,
            width as int,
            |y: int, x: int| y_start <= y < y_start + rows && x_start <= x < x_start + columns,
            |y: int, x: int| in_region(region, height as int, width as int, y, x),
            value,
        );
    }
}

/// The side that a draw from `0..4` stands for.
pub open spec fn drawn_side(draw: usize) -> BandSide {
    if draw == 0 {
        BandSide::Left
    } else if draw == 1 {
        BandSide::Right
    } else if draw == 2 {
        BandSide::Top
    } else {
        BandSide::Bottom
    }
}

/// The size of an image across a side.
pub open spec fn size_across(side: BandSide, height: usize, width: usize) -> usize {
    match side {
        BandSide::Left | BandSide::Right => width,
        BandSide::Top | BandSide::Bottom => height,
    }
}

/// A span that is at least one and at most `size`.
pub open spec fn limited_span(size: usize, span: usize) -> usize {
    if span < 1 {
        1
    } else if span > size {
        size
    } else {
        span
    }
}

/// A start at which `span` still fits into `size`.
pub open spec fn limited_start(size: usize, span: usize, start: usize) -> int {
    let last = if span <= size {
        size - span
    } else {
        0
    };
    if start <= last {
        start as int
    } else {
        last
    }
}

/// Limits a span that was drawn for `size`.
pub fn random_span(size: usize, drawn: usize) -> (span: usize)
    requires
        size > 0,
    ensures
        span == limited_span(size, drawn),
        1 <= span <= size,
{
    if drawn < 1 {
        1
    } else if drawn > size {
        size
    } else {
        drawn
    }
}

/// Limits a start that was drawn for `span` in `size`.
pub fn random_start(size: usize, span: usize, drawn: usize) -> (start: usize)
    ensures
        start == limited_start(size, span, drawn),
        span <= size ==> start + span <= size,
{
    let last: usize = if span <= size {
        size - span
    } else {
        0
    };
    if drawn <= last {
        drawn
    } else {
        last
    }
}

/// The band along a side for which this span was drawn.
pub open spec fn drawn_band(
    side: BandSide,
    height: usize,
    width: usize,
    drawn: usize,
) -> NoiseRegion {
    NoiseRegion::Band { side, span: limited_span(size_across(side, height, width), drawn) }
}

/// A band along a drawn side. `draw_span` draws a span for the size across it.
pub fn band_region<F: Fn(usize) -> usize>(
    height: usize,
    width: usize,
    side_draw: usize,
    draw_span: F,
) -> (region: NoiseRegion)
    requires
        height > 0,
        width > 0,
        forall|size: usize| #[trigger] call_requires(draw_span, (size,)),
    ensures
        region_fits(region, height as nat, width as nat),
        exists|drawn: usize|
            {
                &&& call_ensures(
                    draw_span,
                    (size_across(drawn_side(side_draw), height, width),),
                    drawn,
                )
                &&& region == #[trigger] drawn_band(drawn_side(side_draw), height, width, drawn)
            },
{
    let side: BandSide = match side_draw {
        0 => BandSide::Left,
        1 => BandSide::Right,
        2 => BandSide::Top,
        _ => BandSide::Bottom,
    };
    let size: usize = match side {
        BandSide::Left | BandSide::Right => width,
        BandSide::Top | BandSide::Bottom => height,
    };
    let drawn: usize = draw_span(size);
    let region = NoiseRegion::Band { side, span: random_span(size, drawn) };
    proof {
        assert(region == drawn_band(drawn_side(side_draw), height, width, drawn));
    }
    region
}

/// At how many places a span that was drawn for `size` can start.
pub open spec fn starts_for(size: usize, drawn: usize) -> usize {
    (size - limited_span(size, drawn) + 1) as usize
}

/// The rectangle for which these spans and starts were drawn.
pub open spec fn drawn_rectangle(
    height: usize,
    width: usize,
    columns: usize,
    rows: usize,
    x: usize,
    y: usize,
) -> NoiseRegion {
    let span_x = limited_span(width, columns);
    let span_y = limited_span(height, rows);
    NoiseRegion::Rectangle {
        y_start: limited_start(height, span_y, y) as usize,
        x_start: limited_start(width, span_x, x) as usize,
        height: span_y,
        width: span_x,
    }
}

/// A rectangle of drawn sizes at a drawn place. `draw_width` and `draw_height` draw
/// a span for a size; `draw_x` and `draw_y` draw a start from so many.
pub fn rectangle_region<
    W: Fn(usize) -> usize,
    H: Fn(usize) -> usize,
    X: Fn(usize) -> usize,
    Y: Fn(usize) -> usize,
>(
    height: usize,
    width: usize,
    draw_width: W,
    draw_height: H,
    draw_x: X,
    draw_y: Y,
) -> (region: NoiseRegion)
    requires
        height > 0,
        width > 0,
        forall|size: usize| #[trigger] call_requires(draw_width, (size,)),
        forall|size: usize| #[trigger] call_requires(draw_height, (size,)),
        forall|count: usize| #[trigger] call_requires(draw_x, (count,)),
        forall|count: usize| #[trigger] call_requires(draw_y, (count,)),
    ensures
        region_fits(region, height as nat, width as nat),
        exists|columns: usize, rows: usize, x: usize, y: usize|
            {
                &&& call_ensures(draw_width, (width,), columns)
                &&& call_ensures(draw_height, (height,), rows)
                &&& call_ensures(draw_x, (starts_for(width, columns),), x)
                &&& call_ensures(draw_y, (starts_for(height, rows),), y)
                &&& region == #[trigger] drawn_rectangle(height, width, columns, rows, x, y)
            },
{
    let columns: usize = draw_width(width);
    let span_x: usize = random_span(width, columns);
    let rows: usize = draw_height(height);
    let span_y: usize = random_span(height, rows);
    let x: usize = draw_x(width - span_x + 1);
    let x_start: usize = random_start(width, span_x, x);
    let y: usize = draw_y(height - span_y + 1);
    let y_start: usize = random_start(height, span_y, y);
    proof {
        assert(starts_for(width, columns) == width - span_x + 1);
        assert(starts_for(height, rows) == height - span_y + 1);
        assert(drawn_rectangle(height, width, columns, rows, x, y) == (NoiseRegion::Rectangle {
            y_start,
            x_start,
            height: span_y,
            width: span_x,
        }));
    }
    NoiseRegion::Rectangle { y_start, x_start, height: span_y, width: span_x }
}

/// The middle of an image: half of each size, rounded up.
pub open spec fn middle(height: usize, width: usize) -> NoiseRegion {
    let rows = (height + 1) / 2;
    let columns = (width + 1) / 2;
    NoiseRegion::Rectangle {
        y_start: ((height - rows) / 2) as usize,
        x_start: ((width - columns) / 2) as usize,
        height: rows as usize,
        width: columns as usize,
    }
}

/// Half of `size`, rounded up.
fn half_up(size: usize) -> (half: usize)
    ensures
        half == (size + 1) / 2,
        half <= size,
{
    size / 2 + size % 2
}

/// The middle of an image.
pub fn centered_rectangle_region(height: usize, width: usize) -> (region: NoiseRegion)
    ensures
        region == middle(height, width),
        region_fits(region, height as nat, width as nat),
{
    let rows: usize = half_up(height);
    let columns: usize = half_up(width);
    NoiseRegion::Rectangle {
        y_start: (height - rows) / 2,
        x_start: (width - columns) / 2,
        height: rows,
        width: columns,
    }
}

/// A pixel lies in a band exactly if fewer than `span` pixels lie between it and the
/// band's side.
pub proof fn law_a_band_lies_along_its_side(
    span: usize,
    height: int,
    width: int,
    y: int,
    x: int,
)
    requires
        0 <= y < height,
        0 <= x < width,
    ensures
        in_region(NoiseRegion::Band { side: BandSide::Left, span }, height, width, y, x) <==> x
            < span,
        in_region(NoiseRegion::Band { side: BandSide::Right, span }, height, width, y, x) <==> width
            - 1 - x < span,
        in_region(NoiseRegion::Band { side: BandSide::Top, span }, height, width, y, x) <==> y
            < span,
        in_region(NoiseRegion::Band { side: BandSide::Bottom, span }, height, width, y, x)
            <==> height - 1 - y < span,
{
}

/// The bands along opposite sides are mirror images of each other, and those of a turned
/// image are the bands along the turned sides.
pub proof fn law_bands_are_mirrored(span: usize, height: int, width: int, y: int, x: int)
    requires
        0 <= y < height,
        0 <= x < width,
    ensures
        in_region(NoiseRegion::Band { side: BandSide::Top, span }, height, width, y, x)
            == in_region(
            NoiseRegion::Band { side: BandSide::Bottom, span },
            height,
            width,
            height - 1 - y,
            x,
        ),
        in_region(NoiseRegion::Band { side: BandSide::Left, span }, height, width, y, x)
            == in_region(
            NoiseRegion::Band { side: BandSide::Right, span },
            height,
            width,
            y,
            width - 1 - x,
        ),
        in_region(NoiseRegion::Band { side: BandSide::Top, span }, height, width, y, x)
            == in_region(NoiseRegion::Band { side: BandSide::Left, span }, width, height, x, y),
        in_region(NoiseRegion::Band { side: BandSide::Bottom, span }, height, width, y, x)
            == in_region(NoiseRegion::Band { side: BandSide::Right, span }, width, height, x, y),
{
}

/// A band that is not empty holds the first row or column at its side, and one that does
/// not reach across leaves the last one on the other side out.
pub proof fn law_a_band_touches_its_side(span: usize, height: int, width: int, y: int, x: int)
    requires
        0 <= y < height,
        0 <= x < width,
        0 < span,
    ensures
        in_region(NoiseRegion::Band { side: BandSide::Top, span }, height, width, 0, x),
        in_region(NoiseRegion::Band { side: BandSide::Bottom, span }, height, width, height - 1, x),
        in_region(NoiseRegion::Band { side: BandSide::Left, span }, height, width, y, 0),
        in_region(NoiseRegion::Band { side: BandSide::Right, span }, height, width, y, width - 1),
        span < height ==> !in_region(
            NoiseRegion::Band { side: BandSide::Top, span },
            height,
            width,
            height - 1,
            x,
        ) && !in_region(NoiseRegion::Band { side: BandSide::Bottom, span }, height, width, 0, x),
        span < width ==> !in_region(
            NoiseRegion::Band { side: BandSide::Left, span },
            height,
            width,
            y,
            width - 1,
        ) && !in_region(NoiseRegion::Band { side: BandSide::Right, span }, height, width, y, 0),
{
}

/// A rectangle holds the pixels from its first row and column on, as many of either as its
/// height and its width say.
pub proof fn law_a_rectangle_has_its_size(
    y_start: usize,
    x_start: usize,
    rows: usize,
    columns: usize,
    height: int,
    width: int,
    y: int,
    x: int,
)
    ensures
        in_region(
            NoiseRegion::Rectangle { y_start, x_start, height: rows, width: columns },
            height,
            width,
            y,
            x,
        ) <==> (0 <= y - y_start && y - y_start < rows && 0 <= x - x_start && x - x_start
            < columns),
{
}

/// Filling puts the value on the pixels of the region, and leaves every other pixel of the
/// image and all other images as they were.
pub proof fn law_only_the_region_is_filled<T>(
    values: Seq<T>,
    before: Seq<T>,
    batch: int,
    count: int,
    height: int,
    width: int,
    inside: spec_fn(int, int) -> bool,
    value: T,
    image: int,
    y: int,
    x: int,
)
    requires
        is_filled(values, before, batch, height, width, inside, value),
        0 <= batch < count,
        0 <= image < count,
        0 <= y < height,
        0 <= x < width,
        count * height * width <= before.len(),
    ensures
        values.len() == before.len(),
        ({
            let place = (image * height + y) * width + x;
            &&& image == batch && inside(y, x) ==> values[place] == value
            &&& image != batch || !inside(y, x) ==> values[place] == before[place]
        }),
{
    lemma_pixel_index(image, count, height, width, y, x);
    let place = (image * height + y) * width + x;
    assert(values[place] == if is_place_of(place, batch, height, width, inside) {
        value
    } else {
        before[place]
    });
    if image != batch {
        assert(image * height + y - batch * height < 0 || image * height + y - batch * height
            >= height) by (nonlinear_arith)
            requires
                image != batch,
                0 <= y < height,
        ;
    }
}

/// The four draws stand for left, right, top and bottom.
pub proof fn law_draws_stand_for_sides()
    ensures
        drawn_side(0) == BandSide::Left,
        drawn_side(1) == BandSide::Right,
        drawn_side(2) == BandSide::Top,
        drawn_side(3) == BandSide::Bottom,
{
}

/// A span is taken as it was drawn, unless it is below one or above the size: then it is
/// the nearest that is neither.
pub proof fn law_spans_are_limited_to_the_size(size: usize, drawn: usize)
    requires
        size > 0,
    ensures
        1 <= limited_span(size, drawn) <= size,
        drawn < 1 ==> limited_span(size, drawn) == 1,
        1 <= drawn <= size ==> limited_span(size, drawn) == drawn,
        drawn > size ==> limited_span(size, drawn) == size,
        starts_for(size, drawn) + limited_span(size, drawn) == size + 1,
{
}

/// A start is taken as it was drawn, unless the span does not fit behind it: then it is the
/// last at which it fits.
pub proof fn law_starts_are_limited_to_the_size(size: usize, span: usize, drawn: usize)
    requires
        span <= size,
    ensures
        drawn + span <= size ==> limited_start(size, span, drawn) == drawn,
        drawn + span > size ==> limited_start(size, span, drawn) + span == size,
{
}

/// A band reaches across the width from the left or the right, and across the height from
/// the top or the bottom, as far as was drawn.
pub proof fn law_bands_are_drawn_across(side: BandSide, height: usize, width: usize, drawn: usize)
    requires
        height > 0,
        width > 0,
    ensures
        drawn_band(side, height, width, drawn) matches NoiseRegion::Band { side: found, span } && {
            &&& found == side
            &&& 1 <= span
            &&& side == BandSide::Left || side == BandSide::Right ==> span <= width && (1 <= drawn
                <= width ==> span == drawn) && (drawn > width ==> span == width)
            &&& side == BandSide::Top || side == BandSide::Bottom ==> span <= height && (1 <= drawn
                <= height ==> span == drawn) && (drawn > height ==> span == height)
        },
        side == BandSide::Left || side == BandSide::Right ==> size_across(side, height, width)
            == width,
        side == BandSide::Top || side == BandSide::Bottom ==> size_across(side, height, width)
            == height,
{
}

/// A rectangle is as wide and as high and lies where it was drawn, each by its own draw and
/// its own dimension; draws that do not fit are limited to what does.
pub proof fn law_rectangles_are_drawn_by_dimension(
    height: usize,
    width: usize,
    columns: usize,
    rows: usize,
    x: usize,
    y: usize,
)
    requires
        height > 0,
        width > 0,
    ensures
        drawn_rectangle(height, width, columns, rows, x, y) matches NoiseRegion::Rectangle {
            y_start,
            x_start,
            height: high,
            width: wide,
        } && {
            &&& 1 <= wide && x_start + wide <= width
            &&& 1 <= high && y_start + high <= height
            &&& 1 <= columns <= width ==> wide == columns
            &&& columns > width ==> wide == width
            &&& 1 <= rows <= height ==> high == rows
            &&& rows > height ==> high == height
            &&& x + wide <= width ==> x_start == x
            &&& x + wide > width ==> x_start + wide == width
            &&& y + high <= height ==> y_start == y
            &&& y + high > height ==> y_start + high == height
        },
{
}

/// The middle of an image is half as high and half as wide, rounded up, and the margins on
/// opposite sides are equal but for one pixel that the last side may have more.
pub proof fn law_the_middle_is_centered(height: usize, width: usize)
    ensures
        middle(height, width) matches NoiseRegion::Rectangle {
            y_start,
            x_start,
            height: rows,
            width: columns,
        } && {
            &&& 0 <= 2 * rows - height <= 1
            &&& 0 <= 2 * columns - width <= 1
            &&& 0 <= (height - y_start - rows) - y_start <= 1
            &&& 0 <= (width - x_start - columns) - x_start <= 1
        },
{
}

} // verus!
