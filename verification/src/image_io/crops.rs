//! Reading a part of an image: from the rows of a PNG as they are decoded, or
//! from a whole decoded image.
use crate::error::{DataError, ErrorKind};
use crate::grid::lemma_position;
use crate::image_io::{
    append_png_crop_row, crop_error, crop_fits, data_error, decode_luma8_at, decoded_image_at,
    row_error, row_luma, row_lumas, samples_of, validate_crop, ImageCrop, ImageIoError, LumaImage,
    PngColor,
};
use crate::image_io::png_rows::{
    header_of, next_row, open_png, png_header, png_row, rows_of, PngRows,
};
use crate::paths::{extension_is, has_extension};
use crate::text::{decimal, push_decimal};
use vstd::prelude::*;

verus! {

/// How a part of an image is read.
#[derive(Clone, Copy, Debug, PartialEq, Eq, Structural)]
pub enum CropSource {
    /// Row by row, as far as the part reaches down.
    PngRows,
    /// From the whole image.
    WholeImage,
}

/// How a part of the image at `path` is read: row by row if its extension is that
/// of a PNG.
pub fn crop_source(path: &str) -> (source: CropSource)
    ensures
        source == if extension_is(path@, "png"@) {
            CropSource::PngRows
        } else {
            CropSource::WholeImage
        },
{
    if has_extension(path, "png") {
        CropSource::PngRows
    } else {
        CropSource::WholeImage
    }
}

/// What a PNG says of itself, and how its rows are decoded.
#[derive(Clone, Copy, Debug, PartialEq, Eq, Structural)]
pub struct PngHeader {
    pub width: u32,
    pub height: u32,
    pub interlaced: bool,
    /// The color of decoded rows.
    pub color: PngColor,
    /// The bits of a sample in decoded rows.
    pub bit_depth: u8,
}

/// Why a PNG cannot be read row by row, if it cannot.
pub open spec fn header_error(header: PngHeader, crop: ImageCrop, path: Seq<char>) -> Option<
    (ErrorKind, Seq<char>),
> {
    if header.interlaced {
        Some(
            (
                ErrorKind::InvalidData,
                "interlaced PNGs are not supported for streaming crops: "@ + path,
            ),
        )
    } else if crop_error(crop, header.width as usize, header.height as usize, path) is Some {
        crop_error(crop, header.width as usize, header.height as usize, path)
    } else if header.bit_depth != 8 {
        Some(
            (ErrorKind::InvalidData, "PNG decoder did not produce 8-bit samples for "@ + path),
        )
    } else {
        None
    }
}

/// A part of a PNG that is being read row by row.
#[derive(Clone, Debug, PartialEq, Eq)]
pub struct PngCropReader {
    pub crop: ImageCrop,
    pub color: PngColor,
    pub path: String,
    /// The number of rows that were taken.
    pub next_row: usize,
    /// The lumas that were found so far.
    pub values: Vec<u8>,
}

/// Why the next row is refused, if it is.
pub open spec fn next_row_error(reader: PngCropReader, row: Option<Seq<u8>>) -> Option<
    (ErrorKind, Seq<char>),
> {
    match row {
        None => Some(
            (
                ErrorKind::UnexpectedEof,
                "PNG ended before row "@ + decimal(reader.next_row as nat) + ": "@ + reader.path@,
            ),
        ),
        Some(row) => if reader.next_row >= reader.crop.y {
            row_error(row.len(), reader.color, reader.crop, reader.path@)
        } else {
            None
        },
    }
}

impl PngCropReader {
    /// The ends of the crop are representable, and no row behind it was taken.
    pub open spec fn wf(&self) -> bool {
        &&& self.crop.x + self.crop.size <= usize::MAX
        &&& self.crop.y + self.crop.size <= usize::MAX
        &&& self.next_row <= self.crop.y + self.crop.size
    }

    /// Starts reading a part of a PNG.
    pub fn start(header: PngHeader, crop: ImageCrop, path: &str) -> (result: Result<
        Self,
        DataError,
    >)
        ensures
            match header_error(header, crop, path@) {
                Some(expected) => result matches Err(error) && error@ == expected,
                None => result matches Ok(reader) && {
                    &&& reader.wf()
                    &&& reader.crop == crop
                    &&& reader.color == header.color
                    &&& reader.path@ == path@
                    &&& reader.next_row == 0
                    &&& reader.values@ == Seq::<u8>::empty()
                },
            },
    {
        if header.interlaced {
            return Err(
                data_error(
                    ErrorKind::InvalidData,
                    "interlaced PNGs are not supported for streaming crops: ",
                    path,
                ),
            );
        }
        match validate_crop(crop, header.width as usize, header.height as usize, path) {
            Ok(_) => {},
            Err(error) => {
                return Err(error);
            },
        }
        if header.bit_depth != 8 {
            return Err(
                data_error(
                    ErrorKind::InvalidData,
                    "PNG decoder did not produce 8-bit samples for ",
                    path,
                ),
            );
        }
        Ok(
            PngCropReader {
                crop,
                color: header.color,
                path: path.to_owned(),
                next_row: 0,
                values: Vec::new(),
            },
        )
    }

    /// Tests whether a row of the crop is still to come.
    pub fn wants_row(&self) -> (wants: bool)
        requires
            self.wf(),
        ensures
            wants == (self.next_row < self.crop.y + self.crop.size),
    {
        self.next_row < self.crop.y + self.crop.size
    }

    /// Takes the next row, or that there is none.
    pub fn push_row(&mut self, row: Option<&[u8]>) -> (result: Result<(), DataError>)
        requires
            old(self).wf(),
            old(self).next_row < old(self).crop.y + old(self).crop.size,
        ensures
            final(self).wf(),
            final(self).crop == old(self).crop,
            final(self).color == old(self).color,
            final(self).path == old(self).path,
            ({
                let taken = match row {
                    Some(row) => Some(row@),
                    None => None,
                };
                match next_row_error(*old(self), taken) {
                    Some(expected) => {
                        &&& result matches Err(error)
                        &&& error@ == expected
                        &&& final(self).next_row == old(self).next_row
                        &&& final(self).values@ == old(self).values@
                    },
                    None => {
                        &&& result is Ok
                        &&& final(self).next_row == old(self).next_row + 1
                        &&& final(self).values@ == old(self).values@ + part_of_row(
                            taken->Some_0,
                            old(self).next_row as int,
                            old(self).color,
                            old(self).crop,
                        )
                    },
                }
            }),
    {
        let row: &[u8] = match row {
            Some(row) => row,
            None => {
                let mut message: String = "PNG ended before row ".to_owned();
                push_decimal(&mut message, self.next_row);
                message.append(": ");
                message.append(self.path.as_str());
                return Err(DataError { kind: ErrorKind::UnexpectedEof, message });
            },
        };
        if self.next_row >= self.crop.y {
            match append_png_crop_row(
                &mut self.values,
                row,
                self.color,
                self.crop,
                self.path.as_str(),
            ) {
                Ok(_) => {},
                Err(error) => {
                    return Err(error);
                },
            }
        } else {
            proof {
                assert(self.values@ + Seq::<u8>::empty() =~= self.values@);
            }
        }
        self.next_row = self.next_row + 1;
        Ok(())
    }
}

/// What a row adds to a crop: nothing above it, and its part of the row in it.
pub open spec fn part_of_row(row: Seq<u8>, index: int, color: PngColor, crop: ImageCrop) -> Seq<u8> {
    if index >= crop.y {
        row_lumas(row, color, crop)
    } else {
        Seq::empty()
    }
}

/// What the first `count` rows add to a crop.
pub open spec fn part_of_rows(
    rows: Seq<Seq<u8>>,
    color: PngColor,
    crop: ImageCrop,
    count: nat,
) -> Seq<u8>
    decreases count,
{
    if count == 0 {
        Seq::empty()
    } else {
        part_of_rows(rows, color, crop, (count - 1) as nat) + part_of_row(
            rows[count - 1],
            count - 1,
            color,
            crop,
        )
    }
}

/// Why one of the first `count` rows is refused, if one is: the first error that
/// there is.
pub open spec fn rows_error(
    rows: Seq<Seq<u8>>,
    color: PngColor,
    crop: ImageCrop,
    path: Seq<char>,
    count: nat,
) -> Option<(ErrorKind, Seq<char>)>
    decreases count,
{
    if count == 0 {
        None
    } else if rows_error(rows, color, crop, path, (count - 1) as nat) is Some {
        rows_error(rows, color, crop, path, (count - 1) as nat)
    } else if count > rows.len() {
        Some(
            (
                ErrorKind::UnexpectedEof,
                "PNG ended before row "@ + decimal((count - 1) as nat) + ": "@ + path,
            ),
        )
    } else if count - 1 >= crop.y {
        row_error(rows[count - 1].len(), color, crop, path)
    } else {
        None
    }
}

/// Rows as sequences of samples.
pub open spec fn row_views(rows: Seq<Vec<u8>>) -> Seq<Seq<u8>> {
    rows.map_values(|row: Vec<u8>| row@)
}

proof fn lemma_rows_error_stays(
    rows: Seq<Seq<u8>>,
    color: PngColor,
    crop: ImageCrop,
    path: Seq<char>,
    count: nat,
    whole: nat,
)
    requires
        count <= whole,
        rows_error(rows, color, crop, path, count) is Some,
    ensures
        rows_error(rows, color, crop, path, whole) == rows_error(rows, color, crop, path, count),
    decreases whole - count,
{
    if count < whole {
        lemma_rows_error_stays(rows, color, crop, path, count + 1, whole);
    }
}

/// Takes a part of a PNG from its decoded rows: its lumas, its height and its
/// width.
pub fn crop_png_rows(
    header: PngHeader,
    rows: &Vec<Vec<u8>>,
    crop: ImageCrop,
    path: &str,
) -> (result: Result<(Vec<u8>, usize, usize), DataError>)
    ensures
        ({
            let bottom = (crop.y + crop.size) as nat;
            let views = row_views(rows@);
            if header_error(header, crop, path@) is Some {
                result matches Err(error) && header_error(header, crop, path@) == Some(error@)
            } else if rows_error(views, header.color, crop, path@, bottom) is Some {
                result matches Err(error) && rows_error(views, header.color, crop, path@, bottom)
                    == Some(error@)
            } else {
                result matches Ok((values, height, width)) && {
                    &&& values@ == part_of_rows(views, header.color, crop, bottom)
                    &&& height == crop.size
                    &&& width == crop.size
                }
            }
        }),
{
    let mut reader: PngCropReader = match PngCropReader::start(header, crop, path) {
        Ok(reader) => reader,
        Err(error) => {
            return Err(error);
        },
    };
    let ghost views = row_views(rows@);
    while reader.wants_row()
        invariant
            reader.wf(),
            reader.crop == crop,
            reader.color == header.color,
            reader.path@ == path@,
            views == row_views(rows@),
            header_error(header, crop, path@) is None,
            rows_error(views, header.color, crop, path@, reader.next_row as nat) is None,
            reader.values@ == part_of_rows(views, header.color, crop, reader.next_row as nat),
        decreases crop.y + crop.size - reader.next_row,
    {
        let ghost index = reader.next_row;
        let row: Option<&[u8]> = if reader.next_row < rows.len() {
            Some(rows[reader.next_row].as_slice())
        } else {
            None
        };
        proof {
            if index < rows@.len() {
                assert(views[index as int] == rows@[index as int]@);
            }
        }
        match reader.push_row(row) {
            Ok(_) => {},
            Err(error) => {
                proof {
                    lemma_rows_error_stays(
                        views,
                        header.color,
                        crop,
                        path@,
                        (index + 1) as nat,
                        (crop.y + crop.size) as nat,
                    );
                }
                return Err(error);
            },
        }
    }
    Ok((reader.values, crop.size, crop.size))
}

/// Why a part of an encoded PNG is not given.
pub enum RowProblem {
    /// A row cannot be decoded.
    Undecodable,
    /// A row is missing or cannot be cropped, with the error that says so.
    Refused((ErrorKind, Seq<char>)),
}

/// The first problem among the first `count` rows of an encoded PNG, if there is one.
pub open spec fn row_problem(
    bytes: Seq<u8>,
    color: PngColor,
    crop: ImageCrop,
    path: Seq<char>,
    count: nat,
) -> Option<RowProblem>
    decreases count,
{
    if count == 0 {
        None
    } else if row_problem(bytes, color, crop, path, (count - 1) as nat) is Some {
        row_problem(bytes, color, crop, path, (count - 1) as nat)
    } else {
        match png_row(bytes, usize::MAX, (count - 1) as nat) {
            None => Some(RowProblem::Undecodable),
            Some(None) => Some(
                RowProblem::Refused(
                    (
                        ErrorKind::UnexpectedEof,
                        "PNG ended before row "@ + decimal((count - 1) as nat) + ": "@ + path,
                    ),
                ),
            ),
            Some(Some(row)) => if count - 1 >= crop.y && row_error(
                row.len(),
                color,
                crop,
                path,
            ) is Some {
                Some(RowProblem::Refused(row_error(row.len(), color, crop, path)->Some_0))
            } else {
                None
            },
        }
    }
}

proof fn lemma_row_problem_stays(
    bytes: Seq<u8>,
    color: PngColor,
    crop: ImageCrop,
    path: Seq<char>,
    count: nat,
    whole: nat,
)
    requires
        count <= whole,
        row_problem(bytes, color, crop, path, count) is Some,
    ensures
        row_problem(bytes, color, crop, path, whole) == row_problem(
            bytes,
            color,
            crop,
            path,
            count,
        ),
    decreases whole - count,
{
    if count < whole {
        lemma_row_problem_stays(bytes, color, crop, path, count + 1, whole);
    }
}

/// The first `count` rows of an encoded PNG.
pub open spec fn decoded_rows(bytes: Seq<u8>, count: nat) -> Seq<Seq<u8>> {
    Seq::new(count, |index: int| png_row(bytes, usize::MAX, index as nat)->Some_0->Some_0)
}

/// What one more decoded row adds to a crop does not touch what those before it did.
proof fn lemma_part_of_decoded_rows(
    bytes: Seq<u8>,
    color: PngColor,
    crop: ImageCrop,
    count: nat,
    whole: nat,
)
    requires
        count <= whole,
    ensures
        part_of_rows(decoded_rows(bytes, whole), color, crop, count) == part_of_rows(
            decoded_rows(bytes, count),
            color,
            crop,
            count,
        ),
    decreases count,
{
    if count > 0 {
        let before = (count - 1) as nat;
        lemma_part_of_decoded_rows(bytes, color, crop, before, whole);
        lemma_part_of_decoded_rows(bytes, color, crop, before, count);
    }
}

/// `result` is a part of an encoded PNG, or why there is none: the first of what is wrong
/// with the PNG, with its header, and with its rows as far down as the part reaches.
pub open spec fn is_png_crop(
    result: Result<(Vec<u8>, usize, usize), ImageIoError>,
    bytes: Seq<u8>,
    crop: ImageCrop,
    path: Seq<char>,
) -> bool {
    let bottom = (crop.y + crop.size) as nat;
    match png_header(bytes, usize::MAX) {
        None => result matches Err(error) && error is Png,
        Some(header) => match header_error(header, crop, path) {
            Some(expected) => result matches Err(ImageIoError::Data(error)) && error@ == expected,
            None => match row_problem(bytes, header.color, crop, path, bottom) {
                Some(RowProblem::Undecodable) => result matches Err(error) && error is Png,
                Some(RowProblem::Refused(expected)) => result matches Err(
                    ImageIoError::Data(error),
                ) && error@ == expected,
                None => result matches Ok((values, height, width)) && {
                    &&& values@ == part_of_rows(
                        decoded_rows(bytes, bottom),
                        header.color,
                        crop,
                        bottom,
                    )
                    &&& height == crop.size
                    &&& width == crop.size
                },
            },
        },
    }
}

/// Reads a part of an encoded PNG row by row, as far down as the part reaches: the lumas
/// of the part, its height and its width.
pub fn read_png_crop_values(bytes: &[u8], crop: ImageCrop, path: &str) -> (result: Result<
    (Vec<u8>, usize, usize),
    ImageIoError,
>)
    ensures
        is_png_crop(result, bytes@, crop, path@),
{
    let mut rows: PngRows = match open_png(bytes) {
        Ok(rows) => rows,
        Err(error) => {
            return Err(ImageIoError::Png(error));
        },
    };
    let header: PngHeader = header_of(&rows);
    let mut reader: PngCropReader = match PngCropReader::start(header, crop, path) {
        Ok(reader) => reader,
        Err(error) => {
            return Err(ImageIoError::Data(error));
        },
    };
    let ghost bottom = (crop.y + crop.size) as nat;
    while reader.wants_row()
        invariant
            png_header(bytes@, usize::MAX) == Some(header),
            header_error(header, crop, path@) is None,
            bottom == crop.y + crop.size,
            reader.wf(),
            reader.crop == crop,
            reader.color == header.color,
            reader.path@ == path@,
            rows_of(rows) == (bytes@, reader.next_row as nat),
            row_problem(bytes@, header.color, crop, path@, reader.next_row as nat) is None,
            reader.values@ == part_of_rows(
                decoded_rows(bytes@, reader.next_row as nat),
                header.color,
                crop,
                reader.next_row as nat,
            ),
        decreases crop.y + crop.size - reader.next_row,
    {
        let ghost index = reader.next_row as nat;
        let row: Option<Vec<u8>> = match next_row(&mut rows) {
            Ok(row) => row,
            Err(error) => {
                proof {
                    lemma_row_problem_stays(
                        bytes@,
                        header.color,
                        crop,
                        path@,
                        index + 1,
                        bottom,
                    );
                }
                return Err(ImageIoError::Png(error));
            },
        };
        let samples: Option<&[u8]> = match &row {
            Some(row) => Some(row.as_slice()),
            None => None,
        };
        match reader.push_row(samples) {
            Ok(_) => {},
            Err(error) => {
                proof {
                    lemma_row_problem_stays(
                        bytes@,
                        header.color,
                        crop,
                        path@,
                        index + 1,
                        bottom,
                    );
                }
                return Err(ImageIoError::Data(error));
            },
        }
        proof {
            lemma_part_of_decoded_rows(bytes@, header.color, crop, index, index + 1);
            assert(decoded_rows(bytes@, index + 1)[index as int] == row->Some_0@);
        }
    }
    Ok((reader.values, crop.size, crop.size))
}

/// `values` are the lumas of the part of an image that lies in the crop.
pub open spec fn is_crop_of_image(
    values: Seq<u8>,
    lumas: Seq<u8>,
    width: int,
    crop: ImageCrop,
) -> bool {
    &&& values.len() == crop.size * crop.size
    &&& forall|y: int, x: int|
        0 <= y < crop.size && 0 <= x < crop.size ==> values[#[trigger] (y * crop.size + x)]
            == lumas[(crop.y + y) * width + (crop.x + x)]
}

/// Takes a part of a decoded image: its lumas, its height and its width.
pub fn crop_image_values(image: &LumaImage, crop: ImageCrop, path: &str) -> (result: Result<
    (Vec<u8>, usize, usize),
    DataError,
>)
    requires
        image.wf(),
    ensures
        match crop_error(crop, image.width as usize, image.height as usize, path@) {
            Some(expected) => result matches Err(error) && error@ == expected,
            None => result matches Ok((values, height, width)) && {
                &&& is_crop_of_image(values@, image.pixels@, image.width as int, crop)
                &&& height == crop.size
                &&& width == crop.size
            },
        },
{
    let width: usize = image.width as usize;
    match validate_crop(crop, width, image.height as usize, path) {
        Ok(_) => {},
        Err(error) => {
            return Err(error);
        },
    }
    let mut values: Vec<u8> = Vec::new();
    let mut y: usize = 0;
    proof {
        assert(image.width * image.height == image.height * image.width) by (nonlinear_arith);
        assert(image.pixels@.len() == image.pixels.len());
    }
    while y < crop.size
        invariant
            y <= crop.size,
            width == image.width,
            crop_fits(crop, width as nat, image.height as nat),
            image.pixels@.len() == image.height * image.width,
            image.pixels@.len() <= usize::MAX,
            values@.len() == y * crop.size,
            is_crop_prefix(values@, image.pixels@, width as int, crop),
        decreases crop.size - y,
    {
        let mut x: usize = 0;
        while x < crop.size
            invariant
                x <= crop.size,
                y < crop.size,
                width == image.width,
                crop_fits(crop, width as nat, image.height as nat),
                image.pixels@.len() == image.height * image.width,
                image.pixels@.len() <= usize::MAX,
                values@.len() == y * crop.size + x,
                is_crop_prefix(values@, image.pixels@, width as int, crop),
            decreases crop.size - x,
        {
            let ghost before = values@;
            proof {
                lemma_position(
                    crop.y + y,
                    crop.x + x,
                    image.height as int,
                    width as int,
                );
                lemma_position(y as int, x as int, crop.size as int, crop.size as int);
                assert(0 <= (crop.y + y) * width) by (nonlinear_arith)
                    requires
                        crop.y >= 0,
                        y >= 0,
                        width >= 0,
                ;
            }
            values.push(image.pixels[(crop.y + y) * width + (crop.x + x)]);
            x = x + 1;
        }
        proof {
            assert((y + 1) * crop.size == y * crop.size + crop.size) by (nonlinear_arith);
        }
        y = y + 1;
    }
    proof {
        assert forall|y: int, x: int| 0 <= y < crop.size && 0 <= x < crop.size implies values@[#[trigger] (
        y * crop.size + x)] == image.pixels@[(crop.y + y) * width + (crop.x + x)] by {
            lemma_position(y, x, crop.size as int, crop.size as int);
            let place = y * crop.size + x;
            assert(values@[place] == image.pixels@[(crop.y + place / crop.size as int) * width + (
            crop.x + place % crop.size as int)]);
        }
    }
    Ok((values, crop.size, crop.size))
}

/// `result` is a part of a decoded image, or why there is none: the image could not be
/// decoded, or the crop is refused.
pub open spec fn is_decoded_crop(
    result: Result<(Vec<u8>, usize, usize), ImageIoError>,
    decoded: Option<(u32, u32, Option<Seq<u8>>)>,
    crop: ImageCrop,
    path: Seq<char>,
) -> bool {
    match decoded {
        None => result matches Err(error) && error is Image,
        Some((image_width, image_height, image_lumas)) => match crop_error(
            crop,
            image_width as usize,
            image_height as usize,
            path,
        ) {
            Some(expected) => result matches Err(ImageIoError::Data(error)) && error@ == expected,
            None => result matches Ok((values, height, width)) && {
                &&& height == crop.size
                &&& width == crop.size
                &&& exists|lumas: Seq<u8>|
                    {
                        &&& lumas.len() == image_width * image_height
                        &&& image_lumas matches Some(expected) ==> lumas == expected
                        &&& #[trigger] is_crop_of_image(values@, lumas, image_width as int, crop)
                    }
            },
        },
    }
}

/// Reads a part of an encoded image, whose format is that of its path's extension: the
/// lumas of the part, its height and its width.
pub fn read_fully_decoded_crop_values(bytes: &[u8], crop: ImageCrop, path: &str) -> (result: Result<
    (Vec<u8>, usize, usize),
    ImageIoError,
>)
    ensures
        is_decoded_crop(result, decoded_image_at(bytes@, path@), crop, path@),
{
    match decode_luma8_at(bytes, path) {
        Ok(image) => match crop_image_values(&image, crop, path) {
            Ok((values, height, width)) => {
                proof {
                    assert(is_crop_of_image(
                        values@,
                        image.pixels@,
                        image.width as int,
                        crop,
                    ));
                }
                Ok((values, height, width))
            },
            Err(error) => Err(ImageIoError::Data(error)),
        },
        Err(error) => Err(ImageIoError::Image(error)),
    }
}

/// Reads a part of an encoded image, by its path's extension: a PNG row by row, and any
/// other image as a whole. The result holds the lumas of the part, its height and its width.
pub fn read_lineart_crop_values(bytes: &[u8], crop: ImageCrop, path: &str) -> (result: Result<
    (Vec<u8>, usize, usize),
    ImageIoError,
>)
    ensures
        if extension_is(path@, "png"@) {
            is_png_crop(result, bytes@, crop, path@)
        } else {
            is_decoded_crop(result, decoded_image_at(bytes@, path@), crop, path@)
        },
{
    match crop_source(path) {
        CropSource::PngRows => read_png_crop_values(bytes, crop, path),
        CropSource::WholeImage => read_fully_decoded_crop_values(bytes, crop, path),
    }
}

/// Every value is that of the pixel at its place.
spec fn is_crop_prefix(values: Seq<u8>, lumas: Seq<u8>, width: int, crop: ImageCrop) -> bool {
    forall|place: int|
        0 <= place < values.len() ==> #[trigger] values[place] == lumas[(crop.y + place
            / crop.size as int) * width + (crop.x + place % crop.size as int)]
}

/// Reading row by row gives the same part as cutting it out of the whole image:
/// what the rows up to the bottom of the crop add to it is the crop of the image
/// that all rows make.
pub proof fn law_streaming_matches_the_whole_image(
    rows: Seq<Seq<u8>>,
    color: PngColor,
    crop: ImageCrop,
    lumas: Seq<u8>,
    width: int,
    height: int,
)
    requires
        crop_fits(crop, width as nat, height as nat),
        0 <= width,
        0 <= height <= rows.len(),
        forall|y: int, x: int|
            0 <= y < height && 0 <= x < width ==> lumas[#[trigger] (y * width + x)] == row_luma(
                rows[y],
                color,
                x * samples_of(color),
            ),
    ensures
        is_crop_of_image(
            part_of_rows(rows, color, crop, (crop.y + crop.size) as nat),
            lumas,
            width,
            crop,
        ),
{
    let bottom = (crop.y + crop.size) as nat;
    let values = part_of_rows(rows, color, crop, bottom);
    lemma_part_of_rows(rows, color, crop, bottom);
    assert forall|y: int, x: int| 0 <= y < crop.size && 0 <= x < crop.size implies values[#[trigger] (
    y * crop.size + x)] == lumas[(crop.y + y) * width + (crop.x + x)] by {
        assert(values[y * crop.size + x] == row_luma(
            rows[crop.y + y],
            color,
            (crop.x + x) * samples_of(color),
        ));
        let source_y = crop.y + y;
        let source_x = crop.x + x;
        assert(lumas[source_y * width + source_x] == row_luma(
            rows[source_y],
            color,
            source_x * samples_of(color),
        ));
    }
}

proof fn lemma_part_of_rows(rows: Seq<Seq<u8>>, color: PngColor, crop: ImageCrop, count: nat)
    requires
        count <= crop.y + crop.size,
    ensures
        ({
            let values = part_of_rows(rows, color, crop, count);
            let taken = if count <= crop.y {
                0
            } else {
                count - crop.y
            };
            &&& values.len() == taken * crop.size
            &&& forall|y: int, x: int|
                0 <= y < taken && 0 <= x < crop.size ==> values[#[trigger] (y * crop.size + x)]
                    == row_luma(rows[crop.y + y], color, (crop.x + x) * samples_of(color))
        }),
    decreases count,
{
    if count > 0 {
        lemma_part_of_rows(rows, color, crop, (count - 1) as nat);
        let before = part_of_rows(rows, color, crop, (count - 1) as nat);
        let values = part_of_rows(rows, color, crop, count);
        if count > crop.y {
            let last = count - 1 - crop.y;
            let added = row_lumas(rows[count - 1], color, crop);
            assert((last + 1) * crop.size == last * crop.size + crop.size) by (nonlinear_arith);
            assert forall|y: int, x: int| 0 <= y < last + 1 && 0 <= x < crop.size implies values[#[trigger] (
            y * crop.size + x)] == row_luma(
                rows[crop.y + y],
                color,
                (crop.x + x) * samples_of(color),
            ) by {
                assert(0 <= y * crop.size) by (nonlinear_arith)
                    requires
                        0 <= y,
                        0 <= crop.size,
                ;
                if y < last {
                    assert(y * crop.size + crop.size <= last * crop.size) by (nonlinear_arith)
                        requires
                            y + 1 <= last,
                            0 <= crop.size,
                    ;
                    assert(values[y * crop.size + x] == before[y * crop.size + x]);
                } else {
                    assert(values[y * crop.size + x] == added[x]);
                }
            }
        } else {
            assert(values =~= before);
            assert(0 * crop.size == 0);
        }
    } else {
        assert(0 * crop.size == 0);
    }
}

/// A PNG is read row by row exactly if it is not interlaced, the crop lies inside it and its
/// samples have eight bits.
pub proof fn law_headers_are_accepted_exactly(
    header: PngHeader,
    crop: ImageCrop,
    path: Seq<char>,
)
    ensures
        header_error(header, crop, path) is None <==> {
            &&& !header.interlaced
            &&& crop.size > 0
            &&& crop.x + crop.size <= header.width
            &&& crop.y + crop.size <= header.height
            &&& header.bit_depth == 8
        },
{
}

/// What is cropped from rows is square, and its pixel at `y`, `x` is that of the row `y`
/// below the top of the crop, `x` from its left edge: for gray and for color.
pub proof fn law_rows_are_cropped_from_the_top_edge(
    rows: Seq<Seq<u8>>,
    color: PngColor,
    crop: ImageCrop,
    y: int,
    x: int,
)
    requires
        0 <= y < crop.size,
        0 <= x < crop.size,
    ensures
        ({
            let values = part_of_rows(rows, color, crop, (crop.y + crop.size) as nat);
            let luma = values[y * crop.size + x];
            let row = rows[crop.y + y];
            let place = crop.x + x;
            &&& values.len() == crop.size * crop.size
            &&& color == PngColor::Grayscale ==> luma == row[place]
            &&& color == PngColor::GrayscaleAlpha ==> luma == row[2 * place]
            &&& color == PngColor::Rgb ==> luma == (2126 * row[3 * place] + 7152 * row[3 * place
                + 1] + 722 * row[3 * place + 2]) / 10_000
            &&& color == PngColor::Rgba ==> luma == (2126 * row[4 * place] + 7152 * row[4 * place
                + 1] + 722 * row[4 * place + 2]) / 10_000
        }),
{
    lemma_part_of_rows(rows, color, crop, (crop.y + crop.size) as nat);
    let place = crop.x + x;
    assert(place * 1 == place && place * 2 == 2 * place && place * 3 == 3 * place && place * 4 == 4
        * place);
    let values = part_of_rows(rows, color, crop, (crop.y + crop.size) as nat);
    assert(values[y * crop.size + x] == row_luma(rows[crop.y + y], color, place * samples_of(
        color,
    )));
}

/// Only the rows that the crop lies in matter: what stands above and below it may differ.
pub proof fn law_other_rows_do_not_show(
    rows: Seq<Seq<u8>>,
    other: Seq<Seq<u8>>,
    color: PngColor,
    crop: ImageCrop,
    count: nat,
)
    requires
        forall|index: int|
            crop.y <= index < crop.y + crop.size ==> #[trigger] rows[index] == other[index],
        count <= crop.y + crop.size,
    ensures
        part_of_rows(rows, color, crop, count) == part_of_rows(other, color, crop, count),
    decreases count,
{
    if count > 0 {
        law_other_rows_do_not_show(rows, other, color, crop, (count - 1) as nat);
        if count - 1 >= crop.y {
            assert(rows[count - 1] == other[count - 1]);
        }
    }
}

/// A part of an image is square, and its pixel at `y`, `x` is that of the image as far below
/// and to the right of the crop's corner.
pub proof fn law_parts_are_cut_from_their_corner(
    values: Seq<u8>,
    lumas: Seq<u8>,
    width: int,
    crop: ImageCrop,
    y: int,
    x: int,
)
    requires
        is_crop_of_image(values, lumas, width, crop),
        0 <= y < crop.size,
        0 <= x < crop.size,
    ensures
        values.len() == crop.size * crop.size,
        values[y * crop.size + x] == lumas[(crop.y + y) * width + crop.x + x],
{
    assert(values[y * crop.size + x] == lumas[(crop.y + y) * width + (crop.x + x)]);
}

/// Rows are missing, or too short where the crop lies, or else the crop is given: there is no
/// other error, and rows above the crop may be of any length.
pub proof fn law_rows_are_accepted_exactly(
    rows: Seq<Seq<u8>>,
    color: PngColor,
    crop: ImageCrop,
    path: Seq<char>,
    count: nat,
)
    ensures
        rows_error(rows, color, crop, path, count) is None <==> {
            &&& count <= rows.len()
            &&& forall|index: int|
                crop.y <= index < count ==> row_error(
                    (#[trigger] rows[index]).len(),
                    color,
                    crop,
                    path,
                ) is None
        },
    decreases count,
{
    if count > 0 {
        law_rows_are_accepted_exactly(rows, color, crop, path, (count - 1) as nat);
        if rows_error(rows, color, crop, path, count) is None {
            assert forall|index: int| crop.y <= index < count implies row_error(
                (#[trigger] rows[index]).len(),
                color,
                crop,
                path,
            ) is None by {
                if index == count - 1 {
                    assert(row_error(rows[count - 1].len(), color, crop, path) is None);
                }
            }
        } else if count <= rows.len() && (forall|index: int|
            crop.y <= index < count ==> row_error(
                (#[trigger] rows[index]).len(),
                color,
                crop,
                path,
            ) is None) {
            if count - 1 >= crop.y {
                assert(row_error(rows[count - 1].len(), color, crop, path) is None);
            }
        }
    }
}

/// A part of an encoded PNG is given exactly if the PNG can be opened, its header is
/// accepted, and every row down to the bottom of the crop can be decoded and, from its top
/// on, cropped. Each pixel is then that of its row.
pub proof fn law_encoded_parts_are_given_exactly(
    result: Result<(Vec<u8>, usize, usize), ImageIoError>,
    bytes: Seq<u8>,
    crop: ImageCrop,
    path: Seq<char>,
)
    requires
        is_png_crop(result, bytes, crop, path),
    ensures
        result is Ok <==> (png_header(bytes, usize::MAX) matches Some(header) && {
            &&& header_error(header, crop, path) is None
            &&& forall|index: nat|
                index < crop.y + crop.size ==> (#[trigger] png_row(
                    bytes,
                    usize::MAX,
                    index,
                ) matches Some(Some(row)) && (index >= crop.y ==> row_error(
                    row.len(),
                    header.color,
                    crop,
                    path,
                ) is None))
        }),
        result matches Ok((values, height, width)) ==> height == crop.size && width == crop.size
            && values@.len() == crop.size * crop.size,
{
    if let Some(header) = png_header(bytes, usize::MAX) {
        let bottom = (crop.y + crop.size) as nat;
        lemma_no_problem(bytes, header.color, crop, path, bottom);
        lemma_part_of_rows(decoded_rows(bytes, bottom), header.color, crop, bottom);
    }
}

/// There is no problem exactly if no row has one.
proof fn lemma_no_problem(
    bytes: Seq<u8>,
    color: PngColor,
    crop: ImageCrop,
    path: Seq<char>,
    count: nat,
)
    ensures
        row_problem(bytes, color, crop, path, count) is None <==> forall|index: nat|
            index < count ==> (#[trigger] png_row(bytes, usize::MAX, index) matches Some(Some(row))
                && (index >= crop.y ==> row_error(row.len(), color, crop, path) is None)),
    decreases count,
{
    if count > 0 {
        let last = (count - 1) as nat;
        lemma_no_problem(bytes, color, crop, path, last);
        if row_problem(bytes, color, crop, path, count) is Some && row_problem(
            bytes,
            color,
            crop,
            path,
            last,
        ) is None {
            assert(!(png_row(bytes, usize::MAX, last) matches Some(Some(row)) && (last >= crop.y
                ==> row_error(row.len(), color, crop, path) is None)));
        }
    }
}

/// Rows that end too early are refused at the first that is missing.
pub proof fn law_the_first_missing_row_is_named(
    rows: Seq<Seq<u8>>,
    color: PngColor,
    crop: ImageCrop,
    path: Seq<char>,
    count: nat,
)
    requires
        rows_error(rows, color, crop, path, rows.len()) is None,
        rows.len() < count,
    ensures
        rows_error(rows, color, crop, path, count) == Some(
            (
                ErrorKind::UnexpectedEof,
                "PNG ended before row "@ + decimal(rows.len()) + ": "@ + path,
            ),
        ),
    decreases count,
{
    if count > rows.len() + 1 {
        law_the_first_missing_row_is_named(rows, color, crop, path, (count - 1) as nat);
    }
}

/// The next row is refused if there is none, or if it lies in the crop and cannot be
/// cropped; above the crop any row will do.
pub proof fn law_rows_above_the_crop_are_passed_over(reader: PngCropReader, row: Seq<u8>)
    ensures
        reader.next_row < reader.crop.y ==> next_row_error(reader, Some(row)) is None,
        reader.next_row >= reader.crop.y ==> next_row_error(reader, Some(row)) == row_error(
            row.len(),
            reader.color,
            reader.crop,
            reader.path@,
        ),
        next_row_error(reader, None) matches Some(error) && error.0 == ErrorKind::UnexpectedEof,
{
}

/// A part of a decoded image is given exactly if the image can be decoded and the crop lies
/// inside it. It is then square, and where the image is gray each of its pixels is that of
/// the image as far below and to the right of the crop's corner.
pub proof fn law_decoded_parts_are_given_exactly(
    result: Result<(Vec<u8>, usize, usize), ImageIoError>,
    decoded: Option<(u32, u32, Option<Seq<u8>>)>,
    crop: ImageCrop,
    path: Seq<char>,
    y: int,
    x: int,
)
    requires
        is_decoded_crop(result, decoded, crop, path),
        0 <= y < crop.size,
        0 <= x < crop.size,
    ensures
        result is Ok <==> (decoded matches Some((width, height, _)) && crop.x + crop.size <= width
            && crop.y + crop.size <= height),
        result matches Ok((values, height, width)) ==> {
            &&& height == crop.size
            &&& width == crop.size
            &&& values@.len() == crop.size * crop.size
            &&& decoded matches Some((image_width, _, Some(lumas))) ==> values@[y * crop.size + x]
                == lumas[(crop.y + y) * image_width + crop.x + x]
        },
{
    if let Some((image_width, image_height, image_lumas)) = decoded {
        if let Ok((values, height, width)) = result {
            let lumas = choose|lumas: Seq<u8>|
                {
                    &&& lumas.len() == image_width * image_height
                    &&& image_lumas matches Some(expected) ==> lumas == expected
                    &&& #[trigger] is_crop_of_image(values@, lumas, image_width as int, crop)
                };
            law_parts_are_cut_from_their_corner(values@, lumas, image_width as int, crop, y, x);
        }
    }
}

} // verus!
