use egui_pixels::decode::{load_decoded, load_image, DecodedImage, Layout, LoadError, Samples};
use std::io::Cursor;

fn png<P: image::PixelWithColorType>(img: image::ImageBuffer<P, Vec<P::Subpixel>>) -> Vec<u8>
where
    [P::Subpixel]: image::EncodableLayout,
{
    let mut bytes = Cursor::new(Vec::new());
    img.write_to(&mut bytes, image::ImageFormat::Png).unwrap();
    bytes.into_inner()
}

fn keep(p: u16, _lower: u16, _upper: u16) -> u16 {
    p
}

fn invert8(p: u16, _lower: u16, _upper: u16) -> u16 {
    255 - p
}

fn decoded(width: u32, height: u32, samples: Samples) -> DecodedImage {
    DecodedImage { width, height, samples }
}

#[test]
fn grey_image_is_shown_in_three_channels_with_its_contrast_stretch() {
    // Twenty values: the window runs from the second to the last value.
    let grey: Vec<u8> = (0..20).map(|i| i * 10).collect();
    let img = image::GrayImage::from_raw(5, 4, grey.clone()).unwrap();
    let loaded = load_image(&png(img), invert8, keep).unwrap();
    assert_eq!((loaded.width, loaded.height), (5, 4));
    match &loaded.original.samples {
        Samples::Bytes8(Layout::Luma, samples) => assert_eq!(samples, &grey),
        _ => panic!("a grey image stays grey"),
    }
    let expected: Vec<u8> = grey.iter().flat_map(|g| [255 - g, 255 - g, 255 - g]).collect();
    assert_eq!(loaded.adjust, expected);
}

#[test]
fn uniform_grey_image_keeps_its_values() {
    let img = image::GrayImage::from_raw(2, 1, vec![7, 7]).unwrap();
    let loaded = load_image(&png(img), invert8, keep).unwrap();
    assert_eq!(loaded.adjust, vec![7, 7, 7, 7, 7, 7]);
}

#[test]
fn rgb_image_is_shown_as_it_is() {
    let samples = vec![1, 2, 3, 4, 5, 6];
    let img = image::RgbImage::from_raw(2, 1, samples.clone()).unwrap();
    let loaded = load_image(&png(img), keep, keep).unwrap();
    assert_eq!(loaded.adjust, samples);
    assert_eq!((loaded.original.width, loaded.original.height), (2, 1));
    assert!(matches!(loaded.original.samples, Samples::Bytes8(Layout::Rgb, _)));
}

#[test]
fn rgba_image_is_converted_to_rgb() {
    let img = image::RgbaImage::from_raw(1, 1, vec![9, 8, 7, 6]).unwrap();
    let loaded = load_image(&png(img), keep, keep).unwrap();
    assert_eq!(loaded.adjust, vec![9, 8, 7]);
    match loaded.original.samples {
        Samples::Bytes8(Layout::Rgb, samples) => assert_eq!(samples, vec![9, 8, 7]),
        _ => panic!("other images are kept as RGB"),
    }
}

#[test]
fn sixteen_bit_grey_image_is_shown_in_eight_bits() {
    let img: image::ImageBuffer<image::Luma<u16>, Vec<u16>> = image::ImageBuffer::from_raw(2, 1, vec![0, 65535]).unwrap();
    let loaded = load_image(&png(img), keep, keep).unwrap();
    assert_eq!(loaded.adjust, vec![0, 0, 0, 255, 255, 255]);
}

#[test]
fn sixteen_bit_rgb_image_is_scaled_to_eight_bits() {
    let img: image::ImageBuffer<image::Rgb<u16>, Vec<u16>> =
        image::ImageBuffer::from_raw(1, 1, vec![385, 386, 65535]).unwrap();
    let loaded = load_image(&png(img), keep, keep).unwrap();
    assert_eq!(loaded.adjust, vec![1, 2, 255]);
    match loaded.original.samples {
        Samples::Bytes8(Layout::Rgb, samples) => assert_eq!(samples, vec![1, 2, 255]),
        _ => panic!("other images are kept as RGB"),
    }
}

#[test]
fn bytes_that_are_no_image_are_refused() {
    assert!(matches!(load_image(&[1, 2, 3, 4], keep, keep), Err(LoadError::Decode)));
}

#[test]
fn decoded_image_without_columns_or_rows_is_refused() {
    let no_columns = decoded(0, 3, Samples::Bytes8(Layout::Luma, vec![]));
    assert!(matches!(load_decoded(no_columns, keep, keep), Err(LoadError::InvalidWidth)));
    let no_rows = decoded(3, 0, Samples::Bytes16(Layout::Rgb, vec![]));
    assert!(matches!(load_decoded(no_rows, keep, keep), Err(LoadError::InvalidHeight)));
}

#[test]
fn sixteen_bit_grey_samples_round_to_the_nearest_eight_bit_value() {
    let image = decoded(2, 1, Samples::Bytes16(Layout::Luma, vec![385, 386]));
    let loaded = load_decoded(image, keep, keep).unwrap();
    assert_eq!(loaded.adjust, vec![1, 1, 1, 2, 2, 2]);
    assert!(matches!(loaded.original.samples, Samples::Bytes16(Layout::Luma, _)));
}

#[test]
fn grey_with_alpha_is_shown_without_alpha() {
    let image = decoded(2, 1, Samples::Bytes16(Layout::LumaAlpha, vec![385, 0, 386, 9]));
    let loaded = load_decoded(image, keep, keep).unwrap();
    assert_eq!(loaded.adjust, vec![1, 1, 1, 2, 2, 2]);
    let image = decoded(1, 1, Samples::Bytes8(Layout::LumaAlpha, vec![5, 200]));
    let loaded = load_decoded(image, keep, keep).unwrap();
    assert_eq!(loaded.adjust, vec![5, 5, 5]);
    match loaded.original.samples {
        Samples::Bytes8(Layout::Rgb, samples) => assert_eq!(samples, vec![5, 5, 5]),
        _ => panic!("other images are kept as RGB"),
    }
}

#[test]
fn converted_image_is_kept_and_shown_as_it_came() {
    let image = decoded(1, 1, Samples::Converted(vec![10, 20, 30]));
    let loaded = load_decoded(image, keep, keep).unwrap();
    assert_eq!(loaded.adjust, vec![10, 20, 30]);
    match loaded.original.samples {
        Samples::Bytes8(Layout::Rgb, samples) => assert_eq!(samples, vec![10, 20, 30]),
        _ => panic!("converted images are kept as RGB"),
    }
}
