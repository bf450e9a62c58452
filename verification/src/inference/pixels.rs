//! The pixels that go into an inference and come out of it.
use crate::grid::lemma_position;
use crate::inference::{checked_bgra_len, InferenceError, InferenceErrorView};
use crate::inference::pyramid::PyramidPlan;
use crate::text::{decimal, push_decimal};
use vstd::prelude::*;

verus! {

/// The luma of an opaque white pixel, in the unit of [`bgra_luma`].
pub const PIXEL_WHITE: u64 = 2_550_000;

/// The luma of white in a [`PreparedInput`].
pub const PREPARED_WHITE: u64 = 165_813_750_000;

/// The luma of the BGRA pixel that starts at `offset`: ten thousand times its
/// weighted mean, whose weights are 0.2126 for red, 0.7152 for green and 0.0722
/// for blue.
pub open spec fn luma_at(image: Seq<u8>, offset: int) -> int {
    2126 * image[offset + 2] + 7152 * image[offset + 1] + 722 * image[offset]
}

/// 255 times the mix of a background with a foreground that covers `alpha`
/// parts of 255.
pub open spec fn alpha_over(background: int, foreground: int, alpha: int) -> int {
    foreground * alpha + background * (255 - alpha)
}

/// The luma of a pixel of the prepared input: the scribble over white, and the
/// lineart over that. Both images are read at `offset`.
pub open spec fn combined_luma(scribble: Seq<u8>, lineart: Seq<u8>, offset: int) -> int {
    alpha_over(
        alpha_over(
            PIXEL_WHITE as int,
            luma_at(scribble, offset),
            scribble[offset + 3] as int,
        ),
        255 * luma_at(lineart, offset),
        lineart[offset + 3] as int,
    )
}

/// The pixels that an inference starts from, row by row over the padded size.
#[derive(Debug, Clone, PartialEq, Eq)]
pub struct PreparedInput {
    /// The luma of each pixel, from zero to [`PREPARED_WHITE`].
    pub luma: Vec<u64>,
    /// How much of the strength's noise each pixel takes, in parts of 255.
    pub noise_share: Vec<u8>,
}

/// `prepared` holds the combined image at the top left of the padded size,
/// takes noise where the lineart is transparent, and is white and without noise
/// in the padding.
pub open spec fn is_prepared(
    prepared: PreparedInput,
    scribble: Seq<u8>,
    lineart: Seq<u8>,
    width: int,
    height: int,
    padded_size: [usize; 2],
) -> bool {
    let padded_width = padded_size[1] as int;
    &&& prepared.luma@.len() == padded_size[0] * padded_width
    &&& prepared.noise_share@.len() == padded_size[0] * padded_width
    &&& forall|y: int, x: int|
        0 <= y < padded_size[0] && 0 <= x < padded_width ==> {
            let inside = y < height && x < width;
            let source = (y * width + x) * 4;
            let target = #[trigger] (y * padded_width + x);
            &&& prepared.luma@[target] == if inside {
                combined_luma(scribble, lineart, source)
            } else {
                PREPARED_WHITE as int
            }
            &&& prepared.noise_share@[target] == if inside {
                255 - lineart[source + 3]
            } else {
                0
            }
        }
}

/// Mixing never leaves the range between black and white.
pub proof fn law_luma_stays_in_range(scribble: Seq<u8>, lineart: Seq<u8>, offset: int)
    requires
        0 <= offset,
        offset + 4 <= scribble.len(),
        offset + 4 <= lineart.len(),
    ensures
        0 <= luma_at(scribble, offset) <= PIXEL_WHITE,
        0 <= luma_at(lineart, offset) <= PIXEL_WHITE,
        0 <= alpha_over(
            PIXEL_WHITE as int,
            luma_at(scribble, offset),
            scribble[offset + 3] as int,
        ) <= 255 * PIXEL_WHITE,
        0 <= combined_luma(scribble, lineart, offset) <= PREPARED_WHITE,
{
    let first = luma_at(scribble, offset);
    let second = luma_at(lineart, offset);
    lemma_alpha_over_range(PIXEL_WHITE as int, first, scribble[offset + 3] as int, 2_550_000);
    lemma_alpha_over_range(
        alpha_over(PIXEL_WHITE as int, first, scribble[offset + 3] as int),
        255 * second,
        lineart[offset + 3] as int,
        650_250_000,
    );
}

proof fn lemma_alpha_over_range(background: int, foreground: int, alpha: int, limit: int)
    requires
        0 <= background <= limit,
        0 <= foreground <= limit,
        0 <= alpha <= 255,
    ensures
        0 <= foreground * alpha <= limit * alpha,
        0 <= background * (255 - alpha) <= limit * (255 - alpha),
        0 <= alpha_over(background, foreground, alpha) <= 255 * limit,
{
    assert(0 <= foreground * alpha <= limit * alpha) by (nonlinear_arith)
        requires
            0 <= foreground <= limit,
            0 <= alpha,
    ;
    assert(0 <= background * (255 - alpha) <= limit * (255 - alpha)) by (nonlinear_arith)
        requires
            0 <= background <= limit,
            alpha <= 255,
    ;
    assert(limit * alpha + limit * (255 - alpha) == 255 * limit) by (nonlinear_arith);
}

fn bgra_luma(image: &[u8], offset: usize) -> (luma: u64)
    requires
        offset + 4 <= image@.len(),
    ensures
        luma == luma_at(image@, offset as int),
{
    proof {
        assert(image@.len() == image.len());
    }
    2126 * image[offset + 2] as u64 + 7152 * image[offset + 1] as u64 + 722 * image[offset] as u64
}

fn mix(background: u64, foreground: u64, alpha: u8) -> (mixed: u64)
    requires
        background <= 650_250_000,
        foreground <= 650_250_000,
    ensures
        mixed == alpha_over(background as int, foreground as int, alpha as int),
{
    proof {
        lemma_alpha_over_range(background as int, foreground as int, alpha as int, 650_250_000);
    }
    foreground * alpha as u64 + background * (255 - alpha as u64)
}

fn combine(scribble: &[u8], lineart: &[u8], offset: usize) -> (luma: u64)
    requires
        offset + 4 <= scribble@.len(),
        offset + 4 <= lineart@.len(),
    ensures
        luma == combined_luma(scribble@, lineart@, offset as int),
        luma <= PREPARED_WHITE,
{
    proof {
        assert(scribble@.len() == scribble.len());
        law_luma_stays_in_range(scribble@, lineart@, offset as int);
    }
    let over_white: u64 = mix(PIXEL_WHITE, bgra_luma(scribble, offset), scribble[offset + 3]);
    mix(over_white, 255 * bgra_luma(lineart, offset), lineart[offset + 3])
}

/// Lays the two images over each other on a white background of the padded
/// size.
pub fn prepare_input(
    scribble: &[u8],
    lineart: &[u8],
    width: usize,
    height: usize,
    plan: &PyramidPlan,
) -> (result: Result<PreparedInput, InferenceError>)
    requires
        width * height * 4 <= scribble@.len(),
        width * height * 4 <= lineart@.len(),
        height <= plan.padded_size[0],
        width <= plan.padded_size[1],
    ensures
        match result {
            Ok(prepared) => plan.padded_size[0] * plan.padded_size[1] <= usize::MAX && is_prepared(
                prepared,
                scribble@,
                lineart@,
                width as int,
                height as int,
                plan.padded_size,
            ),
            Err(error) => plan.padded_size[0] * plan.padded_size[1] > usize::MAX && error@
                == InferenceErrorView::InvalidArgument("padded image area overflowed"@),
        },
{
    let padded_height: usize = plan.padded_size[0];
    let padded_width: usize = plan.padded_size[1];
    let padded_pixels: usize = match padded_height.checked_mul(padded_width) {
        Some(pixels) => pixels,
        None => {
            return Err(
                InferenceError::InvalidArgument("padded image area overflowed".to_owned()),
            );
        },
    };
    let mut luma: Vec<u64> = Vec::new();
    let mut noise_share: Vec<u8> = Vec::new();
    let mut y: usize = 0;
    while y < padded_height
        invariant
            y <= padded_height,
            padded_height == plan.padded_size[0],
            padded_width == plan.padded_size[1],
            padded_pixels == padded_height * padded_width,
            height <= padded_height,
            width <= padded_width,
            width * height * 4 <= scribble@.len(),
            width * height * 4 <= lineart@.len(),
            luma@.len() == y * padded_width,
            noise_share@.len() == y * padded_width,
            rows_prepared(
                luma@,
                noise_share@,
                scribble@,
                lineart@,
                width as int,
                height as int,
                padded_width as int,
            ),
        decreases padded_height - y,
    {
        let mut x: usize = 0;
        while x < padded_width
            invariant
                x <= padded_width,
                y < padded_height,
                padded_pixels == padded_height * padded_width,
                height <= padded_height,
                width <= padded_width,
                width * height * 4 <= scribble@.len(),
                width * height * 4 <= lineart@.len(),
                luma@.len() == y * padded_width + x,
                noise_share@.len() == y * padded_width + x,
                rows_prepared(
                    luma@,
                    noise_share@,
                    scribble@,
                    lineart@,
                    width as int,
                    height as int,
                    padded_width as int,
                ),
            decreases padded_width - x,
        {
            let ghost before_luma = luma@;
            let ghost before_share = noise_share@;
            proof {
                lemma_position(y as int, x as int, padded_height as int, padded_width as int);
            }
            if y < height && x < width {
                proof {
                    lemma_position(y as int, x as int, height as int, width as int);
                    assert(height * width == width * height) by (nonlinear_arith);
                    assert(lineart@.len() == lineart.len());
                }
                let source: usize = (y * width + x) * 4;
                luma.push(combine(scribble, lineart, source));
                noise_share.push(255 - lineart[source + 3]);
            } else {
                luma.push(PREPARED_WHITE);
                noise_share.push(0);
            }
            x = x + 1;
        }
        proof {
            assert((y + 1) * padded_width == y * padded_width + padded_width) by (nonlinear_arith);
        }
        y = y + 1;
    }
    let prepared = PreparedInput { luma, noise_share };
    proof {
        assert forall|y: int, x: int|
            0 <= y < plan.padded_size[0] && 0 <= x < plan.padded_size[1] implies {
            let inside = y < height && x < width;
            let source = (y * width + x) * 4;
            let target = #[trigger] (y * plan.padded_size[1] + x);
            &&& prepared.luma@[target] == if inside {
                combined_luma(scribble@, lineart@, source)
            } else {
                PREPARED_WHITE as int
            }
            &&& prepared.noise_share@[target] == if inside {
                255 - lineart@[source + 3]
            } else {
                0
            }
        } by {
            lemma_position(y, x, padded_height as int, padded_width as int);
            let target = y * padded_width + x;
            assert(prepared.luma@[target] >= 0);
        }
    }
    Ok(prepared)
}

/// Every entry is that of the pixel at its position.
spec fn rows_prepared(
    luma: Seq<u64>,
    noise_share: Seq<u8>,
    scribble: Seq<u8>,
    lineart: Seq<u8>,
    width: int,
    height: int,
    padded_width: int,
) -> bool {
    forall|target: int|
        0 <= target < luma.len() ==> {
            let y = target / padded_width;
            let x = target % padded_width;
            let inside = y < height && x < width;
            let source = (y * width + x) * 4;
            &&& #[trigger] luma[target] == if inside {
                combined_luma(scribble, lineart, source)
            } else {
                PREPARED_WHITE as int
            }
            &&& noise_share[target] == if inside {
                255 - lineart[source + 3]
            } else {
                0
            }
        }
}

/// Why a prediction cannot be written as an image, if it cannot.
pub open spec fn output_error(
    value_count: nat,
    padded_size: [usize; 2],
    original_size: [usize; 2],
) -> Option<InferenceErrorView> {
    let expected = padded_size[0] * padded_size[1];
    if expected > usize::MAX {
        Some(InferenceErrorView::Backend("prediction shape overflowed"@))
    } else if value_count != expected {
        Some(
            InferenceErrorView::Backend(
                "prediction contains "@ + decimal(value_count) + " values, expected "@ + decimal(
                    expected as nat,
                ),
            ),
        )
    } else if original_size[1] * original_size[0] * 4 > usize::MAX {
        Some(InferenceErrorView::InvalidArgument("output byte length overflowed"@))
    } else {
        None
    }
}

/// How opaque a pixel of this luma is: the darker the more, and not at all
/// below a tenth of full opacity.
pub open spec fn output_alpha(luma: u8) -> u8 {
    let alpha = 255 - luma;
    if 10 * alpha < 255 {
        0
    } else {
        alpha as u8
    }
}

/// `output` is a black BGRA image of the original size whose opacity comes from
/// the top left part of the prediction.
pub open spec fn is_output(
    output: Seq<u8>,
    lumas: Seq<u8>,
    padded_size: [usize; 2],
    original_size: [usize; 2],
) -> bool {
    let width = original_size[1] as int;
    &&& output.len() == original_size[0] * width * 4
    &&& forall|y: int, x: int|
        0 <= y < original_size[0] && 0 <= x < width ==> {
            let target = #[trigger] (y * width + x) * 4;
            &&& output[target] == 0
            &&& output[target + 1] == 0
            &&& output[target + 2] == 0
            &&& output[target + 3] == output_alpha(lumas[y * padded_size[1] + x])
        }
}

/// The prediction, given as one luma per pixel of the padded size, as a black
/// BGRA image of the original size.
pub fn predicted_values_to_bgra(
    lumas: &Vec<u8>,
    padded_size: [usize; 2],
    original_size: [usize; 2],
) -> (result: Result<Vec<u8>, InferenceError>)
    requires
        original_size[0] > 0 && original_size[1] > 0 ==> (original_size[0] - 1) * padded_size[1]
            + original_size[1] <= padded_size[0] * padded_size[1],
    ensures
        match output_error(lumas@.len(), padded_size, original_size) {
            Some(expected) => result matches Err(error) && error@ == expected,
            None => result matches Ok(output) && is_output(
                output@,
                lumas@,
                padded_size,
                original_size,
            ),
        },
{
    let padded_width: usize = padded_size[1];
    let height: usize = original_size[0];
    let width: usize = original_size[1];
    let expected_values: usize = match padded_size[0].checked_mul(padded_width) {
        Some(expected) => expected,
        None => {
            return Err(InferenceError::Backend("prediction shape overflowed".to_owned()));
        },
    };
    if lumas.len() != expected_values {
        let mut message: String = "prediction contains ".to_owned();
        push_decimal(&mut message, lumas.len());
        message.append(" values, expected ");
        push_decimal(&mut message, expected_values);
        return Err(InferenceError::Backend(message));
    }
    let output_len: usize = match checked_bgra_len(width, height) {
        Some(len) => len,
        None => {
            return Err(
                InferenceError::InvalidArgument("output byte length overflowed".to_owned()),
            );
        },
    };
    let mut output: Vec<u8> = Vec::with_capacity(output_len);
    let mut y: usize = 0;
    proof {
        assert(width * height == height * width) by (nonlinear_arith);
    }
    while y < height
        invariant
            y <= height,
            height == original_size[0],
            width == original_size[1],
            padded_width == padded_size[1],
            height > 0 && width > 0 ==> (height - 1) * padded_width + width <= lumas@.len(),
            output@.len() == y * width * 4,
            rows_written(output@, lumas@, padded_width as int, width as int),
        decreases height - y,
    {
        let mut x: usize = 0;
        proof {
            assert(y * padded_width <= (height - 1) * padded_width) by (nonlinear_arith)
                requires
                    y <= height - 1,
            ;
        }
        while x < width
            invariant
                x <= width,
                width > 0 ==> y * padded_width + width <= lumas@.len(),
                output@.len() == (y * width + x) * 4,
                rows_written(output@, lumas@, padded_width as int, width as int),
            decreases width - x,
        {
            proof {
                assert(0 <= y * padded_width) by (nonlinear_arith);
                lemma_position(y as int, x as int, y + 1, width as int);
                assert(lumas@.len() == lumas.len());
            }
            let ghost before = output@;
            let luma: u8 = lumas[y * padded_width + x];
            let mut alpha: u8 = 255 - luma;
            if alpha < 26 {
                alpha = 0;
            }
            output.push(0);
            output.push(0);
            output.push(0);
            output.push(alpha);
            proof {
                let pixels = y * width + x;
                assert forall|pixel: int| 0 <= pixel && pixel * 4 < output@.len() implies #[trigger] pixel_written(
                    output@,
                    lumas@,
                    padded_width as int,
                    width as int,
                    pixel,
                ) by {
                    if pixel < pixels {
                        assert(pixel_written(
                            before,
                            lumas@,
                            padded_width as int,
                            width as int,
                            pixel,
                        ));
                        assert(output@[pixel * 4] == before[pixel * 4]);
                        assert(output@[pixel * 4 + 3] == before[pixel * 4 + 3]);
                    } else {
                        assert(pixel == pixels);
                    }
                }
            }
            x = x + 1;
        }
        proof {
            assert((y + 1) * width == y * width + width) by (nonlinear_arith);
        }
        y = y + 1;
    }
    proof {
        assert forall|y: int, x: int| 0 <= y < original_size[0] && 0 <= x < width implies {
            let target = #[trigger] (y * width + x) * 4;
            &&& output@[target] == 0
            &&& output@[target + 1] == 0
            &&& output@[target + 2] == 0
            &&& output@[target + 3] == output_alpha(lumas@[y * padded_size[1] + x])
        } by {
            lemma_position(y, x, height as int, width as int);
            let pixel = y * width + x;
            assert(pixel_written(output@, lumas@, padded_width as int, width as int, pixel));
        }
    }
    Ok(output)
}

/// The four bytes of a pixel are those of the prediction at its place.
spec fn pixel_written(
    output: Seq<u8>,
    lumas: Seq<u8>,
    padded_width: int,
    width: int,
    pixel: int,
) -> bool {
    let target = pixel * 4;
    &&& output[target] == 0
    &&& output[target + 1] == 0
    &&& output[target + 2] == 0
    &&& output[target + 3] == output_alpha(lumas[(pixel / width) * padded_width + pixel % width])
}

/// Every whole pixel of the output is that of the prediction at its place.
spec fn rows_written(output: Seq<u8>, lumas: Seq<u8>, padded_width: int, width: int) -> bool {
    forall|pixel: int|
        0 <= pixel && pixel * 4 < output.len() ==> #[trigger] pixel_written(
            output,
            lumas,
            padded_width,
            width,
            pixel,
        )
}

/// Where the lineart is opaque, the scribble does not show and the pixel takes
/// no noise. Where it is transparent, only the scribble shows and the pixel
/// takes all of it. Where both are transparent, the pixel is white.
pub proof fn law_lineart_covers_the_scribble(
    prepared: PreparedInput,
    scribble: Seq<u8>,
    lineart: Seq<u8>,
    width: int,
    height: int,
    padded_size: [usize; 2],
    y: int,
    x: int,
)
    requires
        is_prepared(prepared, scribble, lineart, width, height, padded_size),
        0 <= y < height <= padded_size[0],
        0 <= x < width <= padded_size[1],
    ensures
        ({
            let offset = (y * width + x) * 4;
            let luma = prepared.luma@[y * padded_size[1] + x];
            let noise_share = prepared.noise_share@[y * padded_size[1] + x];
            let alpha = lineart[offset + 3];
            &&& alpha == 255 ==> luma == 255 * 255 * luma_at(lineart, offset) && noise_share == 0
            &&& alpha == 0 ==> luma == 255 * alpha_over(
                PIXEL_WHITE as int,
                luma_at(scribble, offset),
                scribble[offset + 3] as int,
            ) && noise_share == 255
            &&& alpha == 0 && scribble[offset + 3] == 0 ==> luma == PREPARED_WHITE
        }),
{
    let offset = (y * width + x) * 4;
    let target = y * padded_size[1] + x;
    let below = alpha_over(
        PIXEL_WHITE as int,
        luma_at(scribble, offset),
        scribble[offset + 3] as int,
    );
    let above = luma_at(lineart, offset);
    assert(prepared.luma@[target] == combined_luma(scribble, lineart, offset));
    assert(alpha_over(below, 255 * above, 255) == 255 * 255 * above) by (nonlinear_arith);
    assert(alpha_over(below, 255 * above, 0) == 255 * below) by (nonlinear_arith);
    assert(luma_at(scribble, offset) * 0 == 0);
}

/// A darker pixel is never less opaque than a lighter one; black is opaque and
/// white is transparent.
pub proof fn law_darker_is_more_opaque(darker: u8, lighter: u8)
    requires
        darker <= lighter,
    ensures
        output_alpha(lighter) <= output_alpha(darker),
        output_alpha(0) == 255,
        output_alpha(255) == 0,
{
}

/// Mixing is in proportion to the opacities: a pixel is the lineart to the extent that
/// the lineart is opaque, and for the rest the scribble to the extent that the scribble is
/// opaque, and for the rest of that white paper. The noise is the rest that the lineart
/// leaves.
pub proof fn law_pixels_are_mixed_by_their_opacity(
    prepared: PreparedInput,
    scribble: Seq<u8>,
    lineart: Seq<u8>,
    width: int,
    height: int,
    padded_size: [usize; 2],
    y: int,
    x: int,
)
    requires
        is_prepared(prepared, scribble, lineart, width, height, padded_size),
        0 <= y < height <= padded_size[0],
        0 <= x < width <= padded_size[1],
    ensures
        ({
            let offset = 4 * (y * width + x);
            let place = y * padded_size[1] + x;
            let stroke = 722 * scribble[offset] + 7152 * scribble[offset + 1] + 2126
                * scribble[offset + 2];
            let line = 722 * lineart[offset] + 7152 * lineart[offset + 1] + 2126
                * lineart[offset + 2];
            let stroke_opacity = scribble[offset + 3];
            let line_opacity = lineart[offset + 3];
            let paper = 255 * 10_000;
            &&& prepared.luma@[place] == line_opacity * (255 * line) + (255 - line_opacity) * (
            stroke_opacity * stroke + (255 - stroke_opacity) * paper)
            &&& prepared.noise_share@[place] + line_opacity == 255
        }),
{
    let offset = (y * width + x) * 4;
    let target = y * padded_size[1] + x;
    assert(offset == 4 * (y * width + x));
    assert(prepared.luma@[target] == combined_luma(scribble, lineart, offset));
    let stroke = luma_at(scribble, offset);
    let line = luma_at(lineart, offset);
    let a = scribble[offset + 3] as int;
    let b = lineart[offset + 3] as int;
    let below = a * stroke + (255 - a) * 2_550_000;
    assert(alpha_over(2_550_000, stroke, a) == below) by (nonlinear_arith)
        requires
            below == a * stroke + (255 - a) * 2_550_000,
    ;
    assert(alpha_over(below, 255 * line, b) == b * (255 * line) + (255 - b) * below)
        by (nonlinear_arith);
}

/// One more step of a scribble's opacity, of 255, takes the pixel the same way from white
/// to the scribble wherever it starts: by what they differ in, as far as the lineart
/// leaves it free.
pub proof fn law_each_step_of_opacity_counts_the_same(
    prepared: PreparedInput,
    scribble: Seq<u8>,
    stronger: PreparedInput,
    stronger_scribble: Seq<u8>,
    lineart: Seq<u8>,
    width: int,
    height: int,
    padded_size: [usize; 2],
    y: int,
    x: int,
)
    requires
        is_prepared(prepared, scribble, lineart, width, height, padded_size),
        is_prepared(stronger, stronger_scribble, lineart, width, height, padded_size),
        0 <= y < height <= padded_size[0],
        0 <= x < width <= padded_size[1],
        ({
            let offset = 4 * (y * width + x);
            &&& stronger_scribble[offset] == scribble[offset]
            &&& stronger_scribble[offset + 1] == scribble[offset + 1]
            &&& stronger_scribble[offset + 2] == scribble[offset + 2]
            &&& stronger_scribble[offset + 3] == scribble[offset + 3] + 1
        }),
    ensures
        ({
            let offset = 4 * (y * width + x);
            let place = y * padded_size[1] + x;
            let stroke = 722 * scribble[offset] + 7152 * scribble[offset + 1] + 2126
                * scribble[offset + 2];
            &&& prepared.luma@[place] - stronger.luma@[place] == (255 - lineart[offset + 3]) * (
            2_550_000 - stroke)
            &&& prepared.noise_share@[place] == stronger.noise_share@[place]
        }),
{
    law_pixels_are_mixed_by_their_opacity(
        prepared,
        scribble,
        lineart,
        width,
        height,
        padded_size,
        y,
        x,
    );
    law_pixels_are_mixed_by_their_opacity(
        stronger,
        stronger_scribble,
        lineart,
        width,
        height,
        padded_size,
        y,
        x,
    );
    let offset = 4 * (y * width + x);
    let stroke = 722 * scribble[offset] + 7152 * scribble[offset + 1] + 2126 * scribble[offset + 2];
    let a = scribble[offset + 3] as int;
    let b = lineart[offset + 3] as int;
    assert((255 - b) * (a * stroke + (255 - a) * 2_550_000) - (255 - b) * ((a + 1) * stroke + (255 - (
    a + 1)) * 2_550_000) == (255 - b) * (2_550_000 - stroke)) by (nonlinear_arith);
}

/// What lies outside the image is white paper without noise, whatever the image holds.
pub proof fn law_padding_is_blank(
    prepared: PreparedInput,
    scribble: Seq<u8>,
    lineart: Seq<u8>,
    width: int,
    height: int,
    padded_size: [usize; 2],
    y: int,
    x: int,
)
    requires
        is_prepared(prepared, scribble, lineart, width, height, padded_size),
        0 <= y < padded_size[0],
        0 <= x < padded_size[1],
        y >= height || x >= width,
    ensures
        prepared.luma@[y * padded_size[1] + x] == 255 * 255 * 255 * 10_000,
        prepared.noise_share@[y * padded_size[1] + x] == 0,
{
    let target = y * padded_size[1] + x;
    assert(prepared.noise_share@[target] == 0);
}

/// An output pixel is black, and its opacity and its luma add up to full; but an opacity
/// below a tenth of full is none.
pub proof fn law_opacity_is_the_darkness(
    output: Seq<u8>,
    lumas: Seq<u8>,
    padded_size: [usize; 2],
    original_size: [usize; 2],
    y: int,
    x: int,
)
    requires
        is_output(output, lumas, padded_size, original_size),
        0 <= y < original_size[0],
        0 <= x < original_size[1],
    ensures
        ({
            let offset = 4 * (y * original_size[1] + x);
            let luma = lumas[y * padded_size[1] + x];
            &&& output[offset] == 0 && output[offset + 1] == 0 && output[offset + 2] == 0
            &&& 10 * (255 - luma) >= 255 ==> output[offset + 3] + luma == 255
            &&& 10 * (255 - luma) < 255 ==> output[offset + 3] == 0
        }),
{
    let target = (y * original_size[1] + x) * 4;
    assert(target == 4 * (y * original_size[1] + x));
    assert(output[target] == 0);
}

/// What the model predicts for the padding does not show.
pub proof fn law_padding_does_not_show(
    output: Seq<u8>,
    lumas: Seq<u8>,
    other_output: Seq<u8>,
    other_lumas: Seq<u8>,
    padded_size: [usize; 2],
    original_size: [usize; 2],
)
    requires
        is_output(output, lumas, padded_size, original_size),
        is_output(other_output, other_lumas, padded_size, original_size),
        forall|y: int, x: int|
            0 <= y < original_size[0] && 0 <= x < original_size[1] ==> lumas[#[trigger] (y
                * padded_size[1] + x)] == other_lumas[y * padded_size[1] + x],
    ensures
        output == other_output,
{
    let width = original_size[1] as int;
    let height = original_size[0] as int;
    assert forall|place: int| 0 <= place < output.len() implies output[place]
        == other_output[place] by {
        let pixel = place / 4;
        assert(pixel < height * width) by (nonlinear_arith)
            requires
                place < height * width * 4,
                pixel == place / 4,
        ;
        assert(width > 0) by (nonlinear_arith)
            requires
                0 <= pixel < height * width,
                height >= 0,
                width >= 0,
        ;
        let y = pixel / width;
        let x = pixel % width;
        vstd::arithmetic::div_mod::lemma_fundamental_div_mod(pixel, width);
        vstd::arithmetic::div_mod::lemma_mod_bound(pixel, width);
        vstd::arithmetic::div_mod::lemma_div_pos_is_pos(pixel, width);
        assert(y < height) by (nonlinear_arith)
            requires
                pixel == width * y + x,
                pixel < height * width,
                0 <= x,
                0 < width,
        ;
        assert(width * y == y * width) by (nonlinear_arith);
        law_opacity_is_the_darkness(output, lumas, padded_size, original_size, y, x);
        law_opacity_is_the_darkness(other_output, other_lumas, padded_size, original_size, y, x);
        assert(lumas[y * padded_size[1] + x] == other_lumas[y * padded_size[1] + x]);
    }
    assert(output =~= other_output);
}

/// A prediction is written exactly if it has a value for each pixel of the padded size and
/// the bytes of the image can be counted. What the model gave is at fault for the first.
pub proof fn law_predictions_are_accepted_exactly(
    value_count: nat,
    padded_size: [usize; 2],
    original_size: [usize; 2],
)
    ensures
        output_error(value_count, padded_size, original_size) is None <==> {
            &&& padded_size[0] * padded_size[1] <= usize::MAX
            &&& value_count == padded_size[0] * padded_size[1]
            &&& 4 * (original_size[1] * original_size[0]) <= usize::MAX
        },
        value_count != padded_size[0] * padded_size[1] ==> (output_error(
            value_count,
            padded_size,
            original_size,
        ) matches Some(error) && error is Backend),
{
}

} // verus!
