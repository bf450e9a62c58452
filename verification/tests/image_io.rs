use image::codecs::jpeg::JpegEncoder;
use image::codecs::png::PngEncoder;
use image::{ColorType, ImageEncoder, Pixel, Rgb};
use lineartgen::error::ErrorKind;
use lineartgen::image_io::crops::{
    crop_image_values, crop_png_rows, read_fully_decoded_crop_values, read_lineart_crop_values,
    read_png_crop_values, PngHeader,
};
use lineartgen::image_io::{
    append_png_crop_row, lineart_values, read_lineart_values, validate_crop, write_lineart_image,
    ImageCrop, ImageIoError, LumaImage, PngColor,
};

fn normalize_luma(value: u8) -> f32 {
    ((f32::from(value) / 255.0 * 2.0 - 1.0) * 1.1).clamp(-1.0, 1.0)
}

fn read_normalized(bytes: &[u8], crop: ImageCrop, path: &str) -> (Vec<f32>, usize, usize) {
    let (values, height, width) = read_lineart_crop_values(bytes, crop, path).unwrap();
    (values.into_iter().map(normalize_luma).collect(), height, width)
}

/// Encodes a PNG with the given header fields and raw image data.
fn encode(width: u32, height: u32, color: png::ColorType, depth: png::BitDepth, data: &[u8]) -> Vec<u8> {
    let mut bytes = Vec::new();
    let mut encoder = png::Encoder::new(&mut bytes, width, height);
    encoder.set_color(color);
    encoder.set_depth(depth);
    if color == png::ColorType::Indexed {
        encoder.set_palette(vec![0, 0, 0, 10, 20, 30, 250, 250, 250]);
    }
    let mut writer = encoder.write_header().unwrap();
    writer.write_image_data(data).unwrap();
    writer.finish().unwrap();
    bytes
}

/// The same PNG with its header marked as interlaced.
fn interlaced(mut bytes: Vec<u8>) -> Vec<u8> {
    bytes[28] = 1;
    let sum = bytes[12..29].iter().fold(u32::MAX, |sum, byte| {
        (0..8).fold(sum ^ u32::from(*byte), |sum, _| if sum & 1 == 1 { (sum >> 1) ^ 0xEDB8_8320 } else { sum >> 1 })
    });
    bytes[29..33].copy_from_slice(&(!sum).to_be_bytes());
    bytes
}

#[test]
fn streams_exact_rgb_png_crop() {
    let pixels = (0..12)
        .flat_map(|index| {
            let value = index as u8 * 20;
            [value, value.saturating_add(5), value.saturating_add(10)]
        })
        .collect::<Vec<_>>();
    let mut bytes = Vec::new();
    PngEncoder::new(&mut bytes).write_image(&pixels, 4, 3, ColorType::Rgb8.into()).unwrap();

    let (values, height, width) = read_normalized(&bytes, ImageCrop { x: 1, y: 1, size: 2 }, "rgb.png");
    let expected = [5usize, 6, 9, 10]
        .into_iter()
        .map(|index| {
            let offset = index * 3;
            normalize_luma(Rgb([pixels[offset], pixels[offset + 1], pixels[offset + 2]]).to_luma()[0])
        })
        .collect::<Vec<_>>();

    assert_eq!((height, width), (2, 2));
    assert_eq!(values, expected);
}

#[test]
fn streams_exact_grayscale_png_crop() {
    let pixels = (0..16).map(|index| index as u8 * 16).collect::<Vec<_>>();
    let mut bytes = Vec::new();
    PngEncoder::new(&mut bytes).write_image(&pixels, 4, 4, ColorType::L8.into()).unwrap();

    let (values, height, width) = read_normalized(&bytes, ImageCrop { x: 2, y: 1, size: 2 }, "gray.png");
    let expected = [6usize, 7, 10, 11]
        .into_iter()
        .map(|index| normalize_luma(pixels[index]))
        .collect::<Vec<_>>();

    assert_eq!((height, width), (2, 2));
    assert_eq!(values, expected);
}

#[test]
fn jpeg_crop_uses_full_decode_fallback() {
    let pixels = (0..16).map(|index| index as u8 * 16).collect::<Vec<_>>();
    let mut bytes = Vec::new();
    JpegEncoder::new_with_quality(&mut bytes, 100).encode(&pixels, 4, 4, ColorType::L8.into()).unwrap();
    let (lumas, _, _) = read_lineart_values(&bytes).unwrap();

    let (values, height, width) =
        read_lineart_crop_values(&bytes, ImageCrop { x: 1, y: 1, size: 2 }, "image.jpg").unwrap();

    assert_eq!((height, width), (2, 2));
    assert_eq!(values.len(), 4);
    assert_eq!(values, [lumas[5], lumas[6], lumas[9], lumas[10]]);
    assert!(values.into_iter().map(normalize_luma).all(|value| (-1.0..=1.0).contains(&value)));
}

#[test]
fn streaming_matches_the_whole_image() {
    let pixels = (0..5 * 4 * 3).map(|index| (index * 37 % 256) as u8).collect::<Vec<_>>();
    let rows = pixels.chunks_exact(15).map(|row| row.to_vec()).collect::<Vec<_>>();
    let lumas = pixels
        .chunks_exact(3)
        .map(|pixel| {
            let [red, green, blue] = [pixel[0], pixel[1], pixel[2]].map(u32::from);
            ((2126 * red + 7152 * green + 722 * blue) / 10_000) as u8
        })
        .collect::<Vec<_>>();
    let header = PngHeader { width: 5, height: 4, interlaced: false, color: PngColor::Rgb, bit_depth: 8 };
    let image = LumaImage { pixels: lumas, width: 5, height: 4 };
    for crop in [
        ImageCrop { x: 0, y: 0, size: 4 },
        ImageCrop { x: 2, y: 1, size: 3 },
        ImageCrop { x: 4, y: 3, size: 1 },
    ] {
        assert_eq!(
            crop_png_rows(header, &rows, crop, "a.png").unwrap(),
            crop_image_values(&image, crop, "a.png").unwrap()
        );
    }
}

#[test]
fn encoded_rows_are_expanded_to_eight_bits() {
    let gray = png::ColorType::Grayscale;
    let read = |bytes: &[u8], x: usize| {
        read_png_crop_values(bytes, ImageCrop { x, y: 0, size: 1 }, "a.png").unwrap()
    };
    assert_eq!(read(&encode(2, 1, gray, png::BitDepth::Sixteen, &[7, 1, 9, 2]), 1), (vec![9], 1, 1));
    assert_eq!(read(&encode(8, 1, gray, png::BitDepth::One, &[0b0100_0000]), 1), (vec![255], 1, 1));
    let palette = encode(2, 1, png::ColorType::Indexed, png::BitDepth::Eight, &[2, 1]);
    let luma = ((2126 * 10 + 7152 * 20 + 722 * 30) / 10_000) as u8;
    assert_eq!(read(&palette, 0), (vec![250], 1, 1));
    assert_eq!(read(&palette, 1), (vec![luma], 1, 1));
    let alpha = encode(2, 1, png::ColorType::GrayscaleAlpha, png::BitDepth::Eight, &[3, 0, 4, 255]);
    assert_eq!(read(&alpha, 0), (vec![3], 1, 1));
}

#[test]
fn encoded_rows_match_given_rows() {
    let pixels = (0..5 * 4 * 4).map(|index| (index * 29 % 256) as u8).collect::<Vec<_>>();
    let bytes = encode(5, 4, png::ColorType::Rgba, png::BitDepth::Eight, &pixels);
    let rows = pixels.chunks_exact(20).map(|row| row.to_vec()).collect::<Vec<_>>();
    let header = PngHeader { width: 5, height: 4, interlaced: false, color: PngColor::Rgba, bit_depth: 8 };
    for crop in [ImageCrop { x: 0, y: 0, size: 4 }, ImageCrop { x: 2, y: 1, size: 3 }] {
        assert_eq!(
            read_png_crop_values(&bytes, crop, "a.png").unwrap(),
            crop_png_rows(header, &rows, crop, "a.png").unwrap()
        );
    }
}

#[test]
fn encoded_pngs_are_refused_for_the_first_reason() {
    let pixels = (0..64 * 64).map(|index| (index * index * 31 % 251) as u8).collect::<Vec<_>>();
    let bytes = encode(64, 64, png::ColorType::Grayscale, png::BitDepth::Eight, &pixels);
    let message = |bytes: &[u8], crop: ImageCrop| match read_png_crop_values(bytes, crop, "a.png") {
        Err(ImageIoError::Data(error)) => error.message,
        _ => panic!("the crop is refused"),
    };
    let top = ImageCrop { x: 3, y: 0, size: 1 };
    let whole = ImageCrop { x: 0, y: 0, size: 64 };
    let outside = ImageCrop { x: 0, y: 64, size: 1 };

    assert_eq!(
        message(&interlaced(bytes.clone()), outside),
        "interlaced PNGs are not supported for streaming crops: a.png"
    );
    assert_eq!(message(&bytes, outside), "crop x=0, y=64, size=1 is outside 64x64 image a.png");
    for broken in [&b""[..], b"no image", &bytes[..20]] {
        assert!(matches!(read_png_crop_values(broken, outside, "a.png"), Err(ImageIoError::Png(_))));
    }

    assert_eq!(read_png_crop_values(&bytes, whole, "a.png").unwrap(), (pixels.clone(), 64, 64));
    let cut = &bytes[..bytes.len() / 2];
    assert!(matches!(read_png_crop_values(cut, whole, "a.png"), Err(ImageIoError::Png(_))));
    assert_eq!(message(cut, outside), "crop x=0, y=64, size=1 is outside 64x64 image a.png");
    assert_eq!(read_png_crop_values(&bytes, top, "a.png").unwrap(), (vec![pixels[3]], 1, 1));
}

#[test]
fn crops_are_read_by_the_extension() {
    let pixels = (0..12).map(|index| index as u8 * 20).collect::<Vec<_>>();
    let bytes = write_lineart_image(&pixels, &vec![3, 4]).unwrap();
    let crop = ImageCrop { x: 1, y: 0, size: 2 };
    let part = (vec![20, 40, 100, 120], 2, 2);

    assert_eq!(read_lineart_crop_values(&bytes, crop, "a.png").unwrap(), part);
    assert_eq!(read_lineart_crop_values(&bytes, crop, "x/a.PNG").unwrap(), part);
    assert!(matches!(read_lineart_crop_values(&bytes, crop, "a.jpg"), Err(ImageIoError::Image(_))));
    assert!(matches!(read_lineart_crop_values(b"", crop, "a.png"), Err(ImageIoError::Png(_))));
    assert!(matches!(read_lineart_crop_values(b"", crop, "a.jpg"), Err(ImageIoError::Image(_))));
    let marked = interlaced(bytes);
    let Err(ImageIoError::Data(error)) = read_lineart_crop_values(&marked, crop, "a.png") else {
        panic!("an interlaced PNG is refused")
    };
    assert_eq!(error.kind, ErrorKind::InvalidData);
}

#[test]
fn whole_images_are_decoded_by_their_extension() {
    let pixels = (0..12).map(|index| index as u8 * 20).collect::<Vec<_>>();
    let bytes = write_lineart_image(&pixels, &vec![3, 4]).unwrap();
    let crop = ImageCrop { x: 1, y: 0, size: 2 };

    assert_eq!(
        read_fully_decoded_crop_values(&bytes, crop, "x/a.PNG").unwrap(),
        (vec![20, 40, 100, 120], 2, 2)
    );
    assert!(matches!(read_fully_decoded_crop_values(&bytes, crop, "a.jpg"), Err(ImageIoError::Image(_))));
    assert!(matches!(read_fully_decoded_crop_values(&bytes, crop, "a"), Err(ImageIoError::Image(_))));
    assert!(matches!(read_fully_decoded_crop_values(&[], crop, "a.png"), Err(ImageIoError::Image(_))));
    let outside = ImageCrop { x: 3, y: 0, size: 2 };
    let Err(ImageIoError::Data(error)) = read_fully_decoded_crop_values(&bytes, outside, "a.png") else {
        panic!("the crop is refused")
    };
    assert_eq!(error.message, "crop x=3, y=0, size=2 is outside 4x3 image a.png");
}

#[test]
fn rows_are_read_by_their_color() {
    let row = [10, 20, 30, 40, 50, 60, 70, 80];
    let crop = ImageCrop { x: 1, y: 0, size: 1 };
    let part = |color: PngColor| {
        let mut values = vec![7];
        append_png_crop_row(&mut values, &row, color, crop, "a.png").unwrap();
        values
    };
    assert_eq!(part(PngColor::Grayscale), [7, 20]);
    assert_eq!(part(PngColor::GrayscaleAlpha), [7, 30]);
    assert_eq!(part(PngColor::Rgb), [7, ((2126 * 40 + 7152 * 50 + 722 * 60) / 10_000) as u8]);
    assert_eq!(part(PngColor::Rgba), [7, ((2126 * 50 + 7152 * 60 + 722 * 70) / 10_000) as u8]);
}

#[test]
fn crop_errors_have_their_messages() {
    let crop = ImageCrop { x: 3, y: 1, size: 2 };
    let error = validate_crop(crop, 4, 4, "a.png").unwrap_err();
    assert_eq!(error.kind, ErrorKind::InvalidInput);
    assert_eq!(error.message, "crop x=3, y=1, size=2 is outside 4x4 image a.png");
    assert!(validate_crop(ImageCrop { x: 0, y: 0, size: 0 }, 4, 4, "a.png").is_err());
    assert!(validate_crop(ImageCrop { x: usize::MAX, y: 0, size: 1 }, 4, 4, "a.png").is_err());
    assert!(validate_crop(ImageCrop { x: 0, y: usize::MAX, size: 1 }, 4, 4, "a.png").is_err());
    assert!(validate_crop(ImageCrop { x: 2, y: 2, size: 2 }, 4, 4, "a.png").is_ok());

    let mut values = Vec::new();
    let error = append_png_crop_row(&mut values, &[1, 2, 3], PngColor::Rgb, crop, "a.png").unwrap_err();
    assert_eq!(error.message, "decoded PNG row is shorter than expected: a.png");
    let error = append_png_crop_row(&mut values, &[0; 9], PngColor::Indexed, crop, "a.png").unwrap_err();
    assert_eq!(error.message, "PNG palette expansion failed for a.png");
    let far = ImageCrop { x: usize::MAX - 1, y: 0, size: 1 };
    let error = append_png_crop_row(&mut values, &[0; 9], PngColor::Rgba, far, "a.png").unwrap_err();
    assert_eq!(error.kind, ErrorKind::InvalidInput);
    assert_eq!(error.message, "crop byte offset overflowed for a.png");
    assert!(values.is_empty());
}

#[test]
fn headers_and_missing_rows_are_refused() {
    let crop = ImageCrop { x: 0, y: 1, size: 1 };
    let header = PngHeader { width: 2, height: 2, interlaced: false, color: PngColor::Grayscale, bit_depth: 8 };
    let text = |header: PngHeader, rows: Vec<Vec<u8>>| {
        crop_png_rows(header, &rows, crop, "a.png").unwrap_err().message
    };
    assert_eq!(
        text(PngHeader { interlaced: true, ..header }, Vec::new()),
        "interlaced PNGs are not supported for streaming crops: a.png"
    );
    assert_eq!(
        text(PngHeader { bit_depth: 16, ..header }, Vec::new()),
        "PNG decoder did not produce 8-bit samples for a.png"
    );
    assert_eq!(
        text(PngHeader { height: 1, ..header }, Vec::new()),
        "crop x=0, y=1, size=1 is outside 2x1 image a.png"
    );
    assert_eq!(text(header, vec![vec![1, 2]]), "PNG ended before row 1: a.png");
    assert_eq!(
        text(header, vec![vec![1, 2], vec![]]),
        "decoded PNG row is shorter than expected: a.png"
    );
    assert_eq!(
        crop_png_rows(header, &vec![vec![], vec![9, 8]], crop, "a.png").unwrap(),
        (vec![9], 1, 1)
    );
}

#[test]
fn written_images_read_back() {
    let pixels = (0..15).map(|index| (index * 17) as u8).collect::<Vec<_>>();
    let bytes = write_lineart_image(&pixels, &vec![3, 5]).unwrap();

    assert_ne!(bytes, pixels);
    assert_eq!(bytes[..4], [0x89, b'P', b'N', b'G']);
    assert_eq!(read_lineart_values(&bytes).unwrap(), (pixels, 3, 5));
}

#[test]
fn colors_are_read_as_luma() {
    let mut bytes = Vec::new();
    PngEncoder::new(&mut bytes).write_image(&[255, 255, 255, 0, 0, 0], 2, 1, ColorType::Rgb8.into()).unwrap();
    assert_eq!(read_lineart_values(&bytes).unwrap(), (vec![255, 0], 1, 2));
}

#[test]
fn images_that_are_none_are_refused() {
    assert!(matches!(read_lineart_values(b"no image"), Err(ImageIoError::Image(_))));
    assert!(matches!(
        lineart_values(image::load_from_memory(b"").map(|_| panic!("nothing to decode"))),
        Err(ImageIoError::Image(_))
    ));
    let image = LumaImage { pixels: vec![1, 2], width: 2, height: 1 };
    assert_eq!(lineart_values(Ok(image)).unwrap(), (vec![1, 2], 1, 2));
}

#[test]
fn write_errors_have_their_messages() {
    let error = write_lineart_image(&vec![0; 8], &vec![2, 2, 2]).unwrap_err();
    let ImageIoError::Data(error) = error else { panic!("the shape is refused") };
    assert_eq!(error.kind, ErrorKind::InvalidInput);
    assert_eq!(error.message, "expected a 2D image tensor, got shape [2, 2, 2]");
    let error = write_lineart_image(&vec![0; 3], &vec![2, 2]).unwrap_err();
    let ImageIoError::Data(error) = error else { panic!("the length is refused") };
    assert_eq!(error.kind, ErrorKind::InvalidData);
    assert_eq!(error.message, "tensor data length does not match shape");
    for shape in [vec![0, 0], vec![0, 3], vec![3, 0]] {
        assert!(matches!(write_lineart_image(&vec![], &shape), Err(ImageIoError::Image(_))));
    }
    for shape in [vec![1, 1], vec![1, 70_000], vec![70_000, 1]] {
        let pixels = vec![9; shape[0] * shape[1]];
        let bytes = write_lineart_image(&pixels, &shape).unwrap();
        assert_eq!(read_lineart_values(&bytes).unwrap(), (pixels, shape[0], shape[1]));
    }
}
