//! The rows of an encoded PNG, decoded one after the other.
//!
//! The decoder is that of the `png` crate. What it returns is named, not stated: each
//! name is a function of the encoded bytes and of the largest `usize`, since the decoder
//! refuses what a target cannot address.
use crate::image_io::crops::PngHeader;
use crate::image_io::PngColor;
use png::{ColorType, Decoder, DecodingError, Reader, Transformations};
use std::io::Cursor;
use vstd::prelude::*;

verus! {

/// `png::DecodingError`, why a PNG could not be decoded.
#[verifier::external_type_specification]
#[verifier::external_body]
pub struct ExDecodingError(DecodingError);

/// `png::Reader` over bytes in memory: the rows that are still to be decoded. The
/// crate's own type cannot be declared, since its parameter is bound by traits of `std::io`.
#[verifier::external_body]
pub struct PngRows {
    reader: Reader<Cursor<Vec<u8>>>,
}

/// The bytes that are decoded, and the number of rows that were taken.
pub uninterp spec fn rows_of(rows: PngRows) -> (Seq<u8>, nat);

/// What an encoded PNG says of itself and of its decoded rows, where it can be opened.
pub uninterp spec fn png_header(bytes: Seq<u8>, largest: usize) -> Option<PngHeader>;

/// A decoded row of an encoded PNG: `None` where it cannot be decoded, and `Some(None)`
/// where no row is left.
pub uninterp spec fn png_row(bytes: Seq<u8>, largest: usize, index: nat) -> Option<Option<Seq<u8>>>;

/// `Decoder::read_info`, with rows to be expanded to 8-bit samples: whether a PNG can be
/// opened follows from the bytes and the largest `usize`, and no row is taken yet.
#[verifier::external_body]
pub(crate) fn open_png(bytes: &[u8]) -> (result: Result<PngRows, DecodingError>)
    ensures
        match result {
            Ok(rows) => png_header(bytes@, usize::MAX) is Some && rows_of(rows) == (bytes@, 0nat),
            Err(_) => png_header(bytes@, usize::MAX) is None,
        },
{
    let mut decoder = Decoder::new(Cursor::new(bytes.to_vec()));
    decoder.set_transformations(Transformations::normalize_to_color8());
    Ok(PngRows { reader: decoder.read_info()? })
}

/// `Reader::info` and `Reader::output_color_type` of a PNG that was just opened: the header
/// follows from the bytes and the largest `usize`.
#[verifier::external_body]
pub(crate) fn header_of(rows: &PngRows) -> (header: PngHeader)
    requires
        rows_of(*rows).1 == 0,
    ensures
        png_header(rows_of(*rows).0, usize::MAX) == Some(header),
{
    let info = rows.reader.info();
    let (color, depth) = rows.reader.output_color_type();
    let color = match color {
        ColorType::Grayscale => PngColor::Grayscale,
        ColorType::GrayscaleAlpha => PngColor::GrayscaleAlpha,
        ColorType::Rgb => PngColor::Rgb,
        ColorType::Rgba => PngColor::Rgba,
        ColorType::Indexed => PngColor::Indexed,
    };
    let (width, height, interlaced) = (info.width, info.height, info.interlaced);
    PngHeader { width, height, interlaced, color, bit_depth: depth as u8 }
}

/// `Reader::next_row`: what it gives follows from the bytes, the largest `usize` and the
/// number of rows that were taken, and a row that it gives is taken. Nothing is claimed of
/// what follows an error or the end.
#[verifier::external_body]
pub(crate) fn next_row(rows: &mut PngRows) -> (result: Result<Option<Vec<u8>>, DecodingError>)
    ensures
        match result {
            Ok(Some(row)) => {
                &&& png_row(rows_of(*old(rows)).0, usize::MAX, rows_of(*old(rows)).1) == Some(Some(row@))
                &&& rows_of(*final(rows)) == (rows_of(*old(rows)).0, rows_of(*old(rows)).1 + 1)
            },
            Ok(None) => png_row(rows_of(*old(rows)).0, usize::MAX, rows_of(*old(rows)).1) == Some(
                None::<Seq<u8>>,
            ),
            Err(_) => png_row(rows_of(*old(rows)).0, usize::MAX, rows_of(*old(rows)).1) is None,
        },
{
    Ok(rows.reader.next_row()?.map(|row| row.data().to_vec()))
}

} // verus!
