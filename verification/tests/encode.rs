use image::ImageError;
use mandelbrot::encode::{encode_image, outcome_of, EncodeError};
use mandelbrot::geometry::GeometryError;
use mandelbrot::render::render;

const PNG_SIGNATURE: [u8; 8] = [137, 80, 78, 71, 13, 10, 26, 10];

/// Reads a PNG file held in memory back into (width, height, grey levels).
fn decode(bytes: &[u8]) -> (u32, u32, Vec<u8>) {
    let picture = image::load_from_memory(bytes).unwrap();
    assert_eq!(picture.color(), image::ColorType::L8);
    (picture.width(), picture.height(), picture.into_luma8().into_raw())
}

#[test]
fn encode_image_writes_a_png_file() {
    let pixels: Vec<u8> = vec![0, 64, 128, 255, 1, 2];
    let bytes = encode_image(&pixels, (3, 2)).unwrap();
    assert_eq!(&bytes[..8], &PNG_SIGNATURE);
    // The header chunk follows: its length, its name, then width and height.
    assert_eq!(&bytes[8..16], &[0, 0, 0, 13, b'I', b'H', b'D', b'R']);
    assert_eq!(&bytes[16..24], &[0, 0, 0, 3, 0, 0, 0, 2]);
    // Eight bits deep, colour type 0: grayscale.
    assert_eq!(&bytes[24..26], &[8, 0]);
    assert_ne!(bytes, pixels);
}

#[test]
fn encoding_and_decoding_gives_the_pixels_back() {
    let pixels: Vec<u8> = (0..=255u8).chain((0..=255u8).rev()).collect();
    let bytes = encode_image(&pixels, (32, 16)).unwrap();
    assert_eq!(decode(&bytes), (32, 16, pixels));
}

#[test]
fn a_rendered_picture_survives_the_round_trip() {
    let bounds = (24, 18);
    let mut pixels = vec![0u8; 24 * 18];
    render(&mut pixels, bounds, 255, |(column, row)| {
        if (column + row) % 5 == 0 {
            None
        } else {
            Some((7 * column + 3 * row) as u32)
        }
    });
    let bytes = encode_image(&pixels, bounds).unwrap();
    assert_eq!(decode(&bytes), (24, 18, pixels));
}

#[test]
fn width_and_height_are_not_swapped() {
    let pixels: Vec<u8> = (0..15u8).collect();
    let (width, height, levels) = decode(&encode_image(&pixels, (5, 3)).unwrap());
    assert_eq!((width, height), (5, 3));
    assert_eq!(levels, pixels);
}

#[test]
fn encoding_the_same_picture_twice_gives_the_same_file() {
    let pixels: Vec<u8> = (0..200u8).collect();
    assert_eq!(encode_image(&pixels, (20, 10)), encode_image(&pixels, (20, 10)));
}

#[test]
fn encode_image_refuses_empty_bounds() {
    assert_eq!(
        encode_image(&[], (0, 3)),
        Err(EncodeError::Geometry(GeometryError::ZeroWidth))
    );
    assert_eq!(
        encode_image(&[], (3, 0)),
        Err(EncodeError::Geometry(GeometryError::ZeroHeight))
    );
    assert_eq!(
        encode_image(&[1, 2, 3], (0, 0)),
        Err(EncodeError::Geometry(GeometryError::ZeroWidth))
    );
}

#[test]
fn encode_image_refuses_bounds_past_counting() {
    assert_eq!(
        encode_image(&[], (usize::MAX, 2)),
        Err(EncodeError::Geometry(GeometryError::TooLarge))
    );
}

#[test]
fn encode_image_refuses_a_side_too_long_for_the_header() {
    let side = u32::MAX as usize + 1;
    assert_eq!(encode_image(&[], (side, 1)), Err(EncodeError::TooLarge));
    assert_eq!(encode_image(&[], (1, side)), Err(EncodeError::TooLarge));
}

#[test]
fn encode_image_refuses_a_buffer_of_the_wrong_length() {
    assert_eq!(encode_image(&[0; 5], (3, 2)), Err(EncodeError::WrongLength));
    assert_eq!(encode_image(&[0; 7], (3, 2)), Err(EncodeError::WrongLength));
    assert_eq!(encode_image(&[], (3, 2)), Err(EncodeError::WrongLength));
}

#[test]
fn outcome_of_keeps_the_bytes() {
    assert_eq!(outcome_of(Ok(vec![1, 2, 3])), Ok(vec![1, 2, 3]));
    assert_eq!(outcome_of(Ok(Vec::new())), Ok(Vec::new()));
}

#[test]
fn outcome_of_files_encoder_errors_as_rejected() {
    let failure = ImageError::IoError(std::io::Error::new(std::io::ErrorKind::Other, "full"));
    assert_eq!(outcome_of(Err(failure)), Err(EncodeError::Rejected));
}
