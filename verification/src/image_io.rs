//! Reading and writing images.
use crate::error::{DataError, ErrorKind};
use crate::text::{decimal, joined, push_decimal};
use image::codecs::png::PngEncoder;
use image::{ColorType, ImageEncoder, ImageError, ImageFormat, Pixel, Rgb};
use png::DecodingError;
use vstd::prelude::*;

pub mod crops;
pub mod png_rows;

verus! {

/// `image::ImageError`, why an image could not be decoded or encoded.
#[verifier::external_type_specification]
#[verifier::external_body]
pub struct ExImageError(ImageError);

/// Why an image could not be read or written.
#[derive(Debug)]
pub enum ImageIoError {
    /// The image crate failed.
    Image(ImageError),
    /// The png crate failed.
    Png(DecodingError),
    /// The values were refused.
    Data(DataError),
}

/// A decoded image, one luma for each pixel, row by row.
#[derive(Debug, Clone, PartialEq, Eq)]
pub struct LumaImage {
    pub pixels: Vec<u8>,
    pub width: u32,
    pub height: u32,
}

impl LumaImage {
    /// There are as many lumas as pixels.
    pub open spec fn wf(&self) -> bool {
        self.pixels@.len() == self.width * self.height
    }
}

/// The image that encoded bytes stand for, where they can be decoded: its width, its
/// height and, if it is an 8-bit grayscale image, its lumas.
pub uninterp spec fn decoded_image(bytes: Seq<u8>) -> Option<(u32, u32, Option<Seq<u8>>)>;

/// The image that encoded bytes stand for in the format of a path's extension, where
/// they can be decoded: its width, its height and, if it is an 8-bit grayscale image, its
/// lumas.
pub uninterp spec fn decoded_image_at(bytes: Seq<u8>, path: Seq<char>) -> Option<
    (u32, u32, Option<Seq<u8>>),
>;

/// The bytes of a grayscale PNG image with these lumas.
pub uninterp spec fn encoded_luma_png(pixels: Seq<u8>, width: u32, height: u32) -> Seq<u8>;

/// `result` is what decoding gives: an image of the decoded size, with the decoded lumas
/// where these are known, or an error where there is nothing to decode.
pub open spec fn is_decoding(
    result: Result<LumaImage, ImageError>,
    decoded: Option<(u32, u32, Option<Seq<u8>>)>,
) -> bool {
    match decoded {
        Some((width, height, lumas)) => result matches Ok(image) && {
            &&& image.wf()
            &&& image.width == width
            &&& image.height == height
            &&& lumas matches Some(lumas) ==> image.pixels@ == lumas
        },
        None => result is Err,
    }
}

/// An image of this size can be decoded from its PNG: it fits into the 512 MiB that the
/// decoder may allocate, and so does a row besides.
pub open spec fn is_decodable(width: u32, height: u32) -> bool {
    width * height <= 0x2000_0000 && width <= 0x1000_0000
}

/// `image::load_from_memory`, its result turned to grayscale by `to_luma8`: whether the
/// bytes can be decoded, and to what size, follows from them, and so do the lumas of an
/// 8-bit grayscale image. Other images are turned to lumas with floating-point numbers,
/// for which a fused multiplication is used on some targets, so nothing is claimed of their
/// lumas but that there is one for each pixel.
#[verifier::external_body]
fn decode_luma8(bytes: &[u8]) -> (result: Result<LumaImage, ImageError>)
    ensures
        is_decoding(result, decoded_image(bytes@)),
{
    let image = image::load_from_memory(bytes)?.to_luma8();
    let (width, height) = image.dimensions();
    let pixels = image.pixels().map(|pixel| pixel[0]).collect();
    Ok(LumaImage { pixels, width, height })
}

/// `image::load_from_memory_with_format`, with the format that `ImageFormat::from_path`
/// gives, its result turned to grayscale by `to_luma8`: the same as for
/// [`decode_luma8`], but by the bytes and the path.
#[verifier::external_body]
pub(crate) fn decode_luma8_at(bytes: &[u8], path: &str) -> (result: Result<LumaImage, ImageError>)
    ensures
        is_decoding(result, decoded_image_at(bytes@, path@)),
{
    let format = ImageFormat::from_path(path)?;
    let image = image::load_from_memory_with_format(bytes, format)?.to_luma8();
    let (width, height) = image.dimensions();
    let pixels = image.pixels().map(|pixel| pixel[0]).collect();
    Ok(LumaImage { pixels, width, height })
}

/// `PngEncoder::write_image` on 8-bit grayscale: it refuses an image without pixels and
/// no other. The bytes follow from the image and, PNG being lossless, are decoded to it,
/// as far as the decoder's limit allows. A buffer of another length panics.
#[verifier::external_body]
fn encode_luma_png(pixels: &Vec<u8>, width: u32, height: u32) -> (result: Result<
    Vec<u8>,
    ImageError,
>)
    requires
        pixels@.len() == width * height,
    ensures
        match result {
            Ok(bytes) => {
                &&& width > 0
                &&& height > 0
                &&& bytes@ == encoded_luma_png(pixels@, width, height)
                &&& is_decodable(width, height) ==> decoded_image(bytes@) == Some(
                    (width, height, Some(pixels@)),
                )
            },
            Err(_) => width == 0 || height == 0,
        },
{
    let mut bytes = Vec::new();
    PngEncoder::new(&mut bytes).write_image(pixels, width, height, ColorType::L8.into())?;
    Ok(bytes)
}

/// The luma of a color: its weighted mean, rounded down. The weights are 0.2126
/// for red, 0.7152 for green and 0.0722 for blue.
pub open spec fn color_luma(red: u8, green: u8, blue: u8) -> u8 {
    ((2126 * red + 7152 * green + 722 * blue) / 10000) as u8
}

/// `Pixel::to_luma` of an `image::Rgb`: the weighted mean of the channels.
#[verifier::external_body]
fn rgb_luma(red: u8, green: u8, blue: u8) -> (luma: u8)
    ensures
        luma == color_luma(red, green, blue),
{
    Rgb([red, green, blue]).to_luma()[0]
}

/// A square part of an image.
#[derive(Clone, Copy, Debug, PartialEq, Eq, Structural)]
pub struct ImageCrop {
    pub x: usize,
    pub y: usize,
    pub size: usize,
}

/// The crop is not empty and lies inside an image of this size.
pub open spec fn crop_fits(crop: ImageCrop, width: nat, height: nat) -> bool {
    crop.size > 0 && crop.x + crop.size <= width && crop.y + crop.size <= height
}

/// Why a crop of an image is refused, if it is.
pub open spec fn crop_error(crop: ImageCrop, width: usize, height: usize, path: Seq<char>) -> Option<
    (ErrorKind, Seq<char>),
> {
    if crop_fits(crop, width as nat, height as nat) {
        None
    } else {
        Some(
            (
                ErrorKind::InvalidInput,
                "crop x="@ + decimal(crop.x as nat) + ", y="@ + decimal(crop.y as nat) + ", size="@
                    + decimal(crop.size as nat) + " is outside "@ + decimal(width as nat) + "x"@
                    + decimal(height as nat) + " image "@ + path,
            ),
        )
    }
}

/// Refuses a crop that is empty or not inside the image.
pub fn validate_crop(crop: ImageCrop, width: usize, height: usize, path: &str) -> (result: Result<
    (),
    DataError,
>)
    ensures
        match crop_error(crop, width, height, path@) {
            Some(expected) => result matches Err(error) && error@ == expected,
            None => result is Ok,
        },
{
    let right_fits: bool = match crop.x.checked_add(crop.size) {
        Some(right) => right <= width,
        None => false,
    };
    let bottom_fits: bool = match crop.y.checked_add(crop.size) {
        Some(bottom) => bottom <= height,
        None => false,
    };
    if crop.size == 0 || !right_fits || !bottom_fits {
        let mut message: String = "crop x=".to_owned();
        push_decimal(&mut message, crop.x);
        message.append(", y=");
        push_decimal(&mut message, crop.y);
        message.append(", size=");
        push_decimal(&mut message, crop.size);
        message.append(" is outside ");
        push_decimal(&mut message, width);
        message.append("x");
        push_decimal(&mut message, height);
        message.append(" image ");
        message.append(path);
        return Err(DataError { kind: ErrorKind::InvalidInput, message });
    }
    Ok(())
}

/// The lumas, height and width of an image that was decoded, if it was.
pub fn lineart_values(decoded: Result<LumaImage, ImageError>) -> (result: Result<
    (Vec<u8>, usize, usize),
    ImageIoError,
>)
    ensures
        match decoded {
            Ok(image) => result matches Ok((lumas, height, width)) && lumas@ == image.pixels@
                && height == image.height && width == image.width,
            Err(error) => result == Err::<(Vec<u8>, usize, usize), ImageIoError>(
                ImageIoError::Image(error),
            ),
        },
{
    match decoded {
        Ok(image) => Ok((image.pixels, image.height as usize, image.width as usize)),
        Err(error) => Err(ImageIoError::Image(error)),
    }
}

/// `result` is what [`read_lineart_values`] gives for these bytes.
pub open spec fn is_read(result: Result<(Vec<u8>, usize, usize), ImageIoError>, bytes: Seq<u8>) -> bool {
    match decoded_image(bytes) {
        Some((image_width, image_height, image_lumas)) => result matches Ok((lumas, height, width))
            && {
            &&& height == image_height
            &&& width == image_width
            &&& lumas@.len() == height * width
            &&& image_lumas matches Some(expected) ==> lumas@ == expected
        },
        None => result matches Err(error) && error is Image,
    }
}

/// Reads an encoded image: its lumas, row by row, its height and its width. What the
/// lumas of an image in color are is left to the image crate.
pub fn read_lineart_values(bytes: &[u8]) -> (result: Result<(Vec<u8>, usize, usize), ImageIoError>)
    ensures
        is_read(result, bytes@),
{
    let decoded: Result<LumaImage, ImageError> = decode_luma8(bytes);
    proof {
        let image = decoded->Ok_0;
        assert(image.height * image.width == image.width * image.height) by (nonlinear_arith);
    }
    lineart_values(decoded)
}

/// A list of sizes as `[a, b, c]`.
pub open spec fn shape_text(shape: Seq<usize>) -> Seq<char> {
    "["@ + joined(shape.map_values(|size: usize| decimal(size as nat)), ", "@) + "]"@
}

fn push_shape(out: &mut String, shape: &Vec<usize>)
    ensures
        final(out)@ == old(out)@ + shape_text(shape@),
{
    let ghost start = out@ + "["@;
    let ghost parts = shape@.map_values(|size: usize| decimal(size as nat));
    out.append("[");
    let mut index: usize = 0;
    proof {
        assert(parts.take(0) =~= Seq::<Seq<char>>::empty());
        assert(start + joined(parts.take(0), ", "@) =~= start);
    }
    while index < shape.len()
        invariant
            index <= shape@.len(),
            parts == shape@.map_values(|size: usize| decimal(size as nat)),
            out@ == start + joined(parts.take(index as int), ", "@),
        decreases shape@.len() - index,
    {
        let ghost before = joined(parts.take(index as int), ", "@);
        proof {
            assert(parts.take(index + 1).drop_last() =~= parts.take(index as int));
            assert(parts.take(index + 1).last() == decimal(shape@[index as int] as nat));
        }
        if index > 0 {
            out.append(", ");
        }
        push_decimal(out, shape[index]);
        proof {
            if index == 0 {
                assert(joined(parts.take(1), ", "@) == parts.take(1)[0]);
                assert(before =~= Seq::<char>::empty());
            }
            assert(out@ =~= start + joined(parts.take(index + 1), ", "@));
        }
        index = index + 1;
    }
    out.append("]");
    proof {
        assert(parts.take(shape@.len() as int) =~= parts);
        assert(out@ =~= old(out)@ + shape_text(shape@));
    }
}

/// Why an image of this shape cannot be written, if it cannot.
pub open spec fn write_error(pixel_count: nat, shape: Seq<usize>) -> Option<(ErrorKind, Seq<char>)> {
    if shape.len() != 2 {
        Some(
            (
                ErrorKind::InvalidInput,
                "expected a 2D image tensor, got shape "@ + shape_text(shape),
            ),
        )
    } else if pixel_count < shape[0] * shape[1] {
        Some((ErrorKind::InvalidData, "tensor data length does not match shape"@))
    } else {
        None
    }
}

/// `result` is what [`write_lineart_image`] gives for these lumas and this shape.
pub open spec fn is_written(
    result: Result<Vec<u8>, ImageIoError>,
    pixels: Seq<u8>,
    shape: Seq<usize>,
) -> bool {
    match write_error(pixels.len(), shape) {
        Some(expected) => result matches Err(ImageIoError::Data(error)) && error@ == expected,
        None => {
            let width = shape[1] as u32;
            let height = shape[0] as u32;
            match result {
                Ok(bytes) => {
                    &&& width > 0
                    &&& height > 0
                    &&& bytes@ == encoded_luma_png(pixels, width, height)
                    &&& is_decodable(width, height) ==> decoded_image(bytes@) == Some(
                        (width, height, Some(pixels)),
                    )
                },
                Err(error) => error is Image && (width == 0 || height == 0),
            }
        },
    }
}

/// Encodes an image, given by its lumas and its height and width, as a PNG.
pub fn write_lineart_image(pixels: &Vec<u8>, shape: &Vec<usize>) -> (result: Result<
    Vec<u8>,
    ImageIoError,
>)
    requires
        shape@.len() == 2 ==> {
            &&& shape@[0] <= u32::MAX
            &&& shape@[1] <= u32::MAX
            &&& pixels@.len() <= shape@[0] * shape@[1]
        },
    ensures
        is_written(result, pixels@, shape@),
{
    if shape.len() != 2 {
        let mut message: String = "expected a 2D image tensor, got shape ".to_owned();
        push_shape(&mut message, shape);
        return Err(ImageIoError::Data(DataError { kind: ErrorKind::InvalidInput, message }));
    }
    let height: usize = shape[0];
    let width: usize = shape[1];
    proof {
        assert(height * width == width * height) by (nonlinear_arith);
        assert(pixels@.len() == pixels.len());
    }
    let too_short: bool = match height.checked_mul(width) {
        Some(area) => pixels.len() < area,
        None => true,
    };
    if too_short {
        return Err(
            ImageIoError::Data(
                DataError {
                    kind: ErrorKind::InvalidData,
                    message: "tensor data length does not match shape".to_owned(),
                },
            ),
        );
    }
    match encode_luma_png(pixels, width as u32, height as u32) {
        Ok(bytes) => Ok(bytes),
        Err(error) => Err(ImageIoError::Image(error)),
    }
}

/// What was written reads back: an image with pixels is written, and within the limit of
/// the decoder the bytes are read as the same lumas, height and width.
pub proof fn law_written_images_read_back(
    written: Result<Vec<u8>, ImageIoError>,
    read: Result<(Vec<u8>, usize, usize), ImageIoError>,
    pixels: Seq<u8>,
    shape: Seq<usize>,
)
    requires
        shape.len() == 2,
        0 < shape[0] <= u32::MAX,
        0 < shape[1] <= u32::MAX,
        pixels.len() == shape[0] * shape[1],
        is_decodable(shape[1] as u32, shape[0] as u32),
        is_written(written, pixels, shape),
        written matches Ok(bytes) ==> is_read(read, bytes@),
    ensures
        written is Ok,
        read matches Ok((lumas, height, width)) && lumas@ == pixels && height == shape[0] && width
            == shape[1],
{
}

/// How the samples of a decoded PNG row are to be read.
#[derive(Clone, Copy, Debug, PartialEq, Eq, Structural)]
pub enum PngColor {
    Grayscale,
    GrayscaleAlpha,
    Rgb,
    Rgba,
    Indexed,
}

/// The number of samples in a pixel.
pub open spec fn samples_of(color: PngColor) -> nat {
    match color {
        PngColor::Grayscale => 1,
        PngColor::GrayscaleAlpha => 2,
        PngColor::Rgb => 3,
        PngColor::Rgba => 4,
        PngColor::Indexed => 1,
    }
}

/// The luma of the pixel whose samples start at `offset`.
pub open spec fn row_luma(row: Seq<u8>, color: PngColor, offset: int) -> u8 {
    if color == PngColor::Rgb || color == PngColor::Rgba {
        color_luma(row[offset], row[offset + 1], row[offset + 2])
    } else {
        row[offset]
    }
}

/// The lumas of the part of a row that lies in the crop.
pub open spec fn row_lumas(row: Seq<u8>, color: PngColor, crop: ImageCrop) -> Seq<u8> {
    Seq::new(crop.size as nat, |i: int| row_luma(row, color, (crop.x + i) * samples_of(color)))
}

/// Why a row cannot be cropped, if it cannot.
pub open spec fn row_error(
    row_len: nat,
    color: PngColor,
    crop: ImageCrop,
    path: Seq<char>,
) -> Option<(ErrorKind, Seq<char>)> {
    let end = (crop.x + crop.size) * samples_of(color);
    if end > usize::MAX {
        Some((ErrorKind::InvalidInput, "crop byte offset overflowed for "@ + path))
    } else if end > row_len {
        Some((ErrorKind::InvalidData, "decoded PNG row is shorter than expected: "@ + path))
    } else if color == PngColor::Indexed {
        Some((ErrorKind::InvalidData, "PNG palette expansion failed for "@ + path))
    } else {
        None
    }
}

/// An error about the file at `path`.
pub(crate) fn data_error(kind: ErrorKind, text: &str, path: &str) -> (error: DataError)
    ensures
        error@ == (kind, text@ + path@),
{
    let mut message: String = text.to_owned();
    message.append(path);
    DataError { kind, message }
}

fn samples(color: PngColor) -> (count: usize)
    ensures
        count == samples_of(color),
{
    match color {
        PngColor::Grayscale => 1,
        PngColor::GrayscaleAlpha => 2,
        PngColor::Rgb => 3,
        PngColor::Rgba => 4,
        PngColor::Indexed => 1,
    }
}

/// Appends the lumas of the part of a decoded row that lies in the crop.
pub fn append_png_crop_row(
    values: &mut Vec<u8>,
    row: &[u8],
    color: PngColor,
    crop: ImageCrop,
    path: &str,
) -> (result: Result<(), DataError>)
    requires
        crop.x + crop.size <= usize::MAX,
    ensures
        match row_error(row@.len(), color, crop, path@) {
            Some(expected) => {
                &&& result matches Err(error)
                &&& error@ == expected
                &&& final(values)@ == old(values)@
            },
            None => result is Ok && final(values)@ == old(values)@ + row_lumas(row@, color, crop),
        },
{
    let channels: usize = samples(color);
    let start: Option<usize> = crop.x.checked_mul(channels);
    let end: Option<usize> = (crop.x + crop.size).checked_mul(channels);
    proof {
        assert(crop.x * channels <= (crop.x + crop.size) * channels) by (nonlinear_arith)
            requires
                crop.x >= 0,
                crop.size >= 0,
                channels >= 0,
        ;
    }
    let end: usize = match (start, end) {
        (Some(_), Some(end)) => end,
        _ => {
            return Err(
                data_error(ErrorKind::InvalidInput, "crop byte offset overflowed for ", path),
            );
        },
    };
    if end > row.len() {
        return Err(
            data_error(
                ErrorKind::InvalidData,
                "decoded PNG row is shorter than expected: ",
                path,
            ),
        );
    }
    if matches!(color, PngColor::Indexed) {
        return Err(data_error(ErrorKind::InvalidData, "PNG palette expansion failed for ", path));
    }
    let ghost before = values@;
    let mut column: usize = 0;
    while column < crop.size
        invariant
            column <= crop.size,
            crop.x + crop.size <= usize::MAX,
            color != PngColor::Indexed,
            channels == samples_of(color),
            end == (crop.x + crop.size) * channels,
            end <= row@.len(),
            row@.len() <= usize::MAX,
            values@.len() == before.len() + column,
            forall|i: int| 0 <= i < before.len() ==> #[trigger] values@[i] == before[i],
            forall|i: int|
                before.len() <= i < values@.len() ==> #[trigger] values@[i] == row_luma(
                    row@,
                    color,
                    (crop.x + (i - before.len())) * channels,
                ),
        decreases crop.size - column,
    {
        proof {
            assert((crop.x + column) * channels + channels <= end) by (nonlinear_arith)
                requires
                    column + 1 <= crop.size,
                    end == (crop.x + crop.size) * channels,
                    channels >= 0,
            ;
            assert((crop.x + column) * channels >= 0) by (nonlinear_arith)
                requires
                    crop.x >= 0,
                    column >= 0,
                    channels >= 0,
            ;
        }
        let offset: usize = (crop.x + column) * channels;
        let luma: u8 = match color {
            PngColor::Rgb | PngColor::Rgba => rgb_luma(
                row[offset],
                row[offset + 1],
                row[offset + 2],
            ),
            _ => row[offset],
        };
        values.push(luma);
        column = column + 1;
    }
    proof {
        assert(values@ =~= before + row_lumas(row@, color, crop));
    }
    Ok(())
}

/// A crop is accepted exactly if it holds pixels and ends inside the image on the right and
/// at the bottom.
pub proof fn law_crops_lie_inside_the_image(
    crop: ImageCrop,
    width: usize,
    height: usize,
    path: Seq<char>,
)
    ensures
        crop_error(crop, width, height, path) is None <==> {
            &&& crop.size > 0
            &&& crop.x + crop.size <= width
            &&& crop.y + crop.size <= height
        },
        crop_error(crop, width, height, path) matches Some(error) ==> error.0
            == ErrorKind::InvalidInput,
{
}

/// A row has one, two, three or four samples for each pixel, and a crop takes its pixels
/// from the crop's left edge on: the first sample of a gray pixel, and the mean of the first
/// three of one in color.
pub proof fn law_rows_are_cropped_pixel_by_pixel(
    row: Seq<u8>,
    color: PngColor,
    crop: ImageCrop,
    pixel: int,
)
    requires
        0 <= pixel < crop.size,
    ensures
        ({
            let lumas = row_lumas(row, color, crop);
            let x = crop.x + pixel;
            &&& lumas.len() == crop.size
            &&& color == PngColor::Grayscale ==> lumas[pixel] == row[x]
            &&& color == PngColor::GrayscaleAlpha ==> lumas[pixel] == row[2 * x]
            &&& color == PngColor::Rgb ==> lumas[pixel] == (2126 * row[3 * x] + 7152 * row[3 * x
                + 1] + 722 * row[3 * x + 2]) / 10_000
            &&& color == PngColor::Rgba ==> lumas[pixel] == (2126 * row[4 * x] + 7152 * row[4 * x
                + 1] + 722 * row[4 * x + 2]) / 10_000
        }),
{
    let x = crop.x + pixel;
    assert(x * 1 == x && x * 2 == 2 * x && x * 3 == 3 * x && x * 4 == 4 * x);
    assert(row_lumas(row, color, crop)[pixel] == row_luma(row, color, x * samples_of(color)));
}

/// A row can be cropped exactly if it is not of a palette and reaches as far as the crop.
pub proof fn law_rows_reach_the_crop(
    row_len: nat,
    color: PngColor,
    crop: ImageCrop,
    path: Seq<char>,
)
    requires
        row_len <= usize::MAX,
    ensures
        ({
            let end = crop.x + crop.size;
            row_error(row_len, color, crop, path) is None <==> {
                ||| color == PngColor::Grayscale && end <= row_len
                ||| color == PngColor::GrayscaleAlpha && 2 * end <= row_len
                ||| color == PngColor::Rgb && 3 * end <= row_len
                ||| color == PngColor::Rgba && 4 * end <= row_len
            }
        }),
{
    let end = crop.x + crop.size;
    assert(end * 1 == end && end * 2 == 2 * end && end * 3 == 3 * end && end * 4 == 4 * end);
}

/// An image can be written if it has a height and a width and no pixel is missing; other
/// shapes are refused as such.
pub proof fn law_images_have_two_dimensions(pixel_count: nat, shape: Seq<usize>)
    ensures
        write_error(pixel_count, shape) is None <==> shape.len() == 2 && pixel_count >= shape[0]
            * shape[1],
        shape.len() != 2 ==> (write_error(pixel_count, shape) matches Some(error) && error.0
            == ErrorKind::InvalidInput),
{
}

/// What is read has the size of the decoded image, with a luma for each pixel, and is the
/// image itself where that is gray.
pub proof fn law_reading_keeps_the_image(
    result: Result<(Vec<u8>, usize, usize), ImageIoError>,
    bytes: Seq<u8>,
    width: u32,
    height: u32,
    lumas: Seq<u8>,
)
    requires
        is_read(result, bytes),
        decoded_image(bytes) == Some((width, height, Some(lumas))),
    ensures
        result matches Ok((values, rows, columns)) && values@ == lumas && rows == height && columns
            == width,
{
}

/// Bytes that cannot be decoded are the image crate's error, and all others are read with as
/// many lumas as the image has pixels.
pub proof fn law_reading_gives_every_pixel(
    result: Result<(Vec<u8>, usize, usize), ImageIoError>,
    bytes: Seq<u8>,
)
    requires
        is_read(result, bytes),
    ensures
        decoded_image(bytes) is None <==> result is Err,
        result matches Err(error) ==> error is Image,
        result matches Ok((lumas, height, width)) ==> (decoded_image(bytes) matches Some(decoded)
            && width == decoded.0 && height == decoded.1 && lumas@.len() == width * height),
{
    assert(forall|width: usize, height: usize| #[trigger] (width * height) == height * width)
        by (nonlinear_arith);
}

} // verus!
