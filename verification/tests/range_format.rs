use egui_pixels::pixel_range::PixelRange;
use egui_pixels::range_format::{decode_range, encode_range, field_of_key, RangeField, RangeFields, RangeFormatError};

#[test]
fn encode_leaves_out_full_confidence() {
    assert_eq!(encode_range(&PixelRange::new_total(3, 4)), (3, 4, None));
    assert_eq!(encode_range(&PixelRange::new(3, 4, 17)), (3, 4, Some(17)));
}

#[test]
fn decode_two_and_three_components() {
    assert_eq!(decode_range(3, 4, None), Ok(PixelRange::new_total(3, 4)));
    assert_eq!(decode_range(3, 4, Some(17)), Ok(PixelRange::new(3, 4, 17)));
    assert_eq!(decode_range(3, 0, None), Err(RangeFormatError::ZeroLength));
}

#[test]
fn encode_then_decode_round_trips() {
    for r in [PixelRange::new(0, 1, 0), PixelRange::new(9, 65535, 254), PixelRange::new_total(100, 7)] {
        let (p, l, c) = encode_range(&r);
        assert_eq!(decode_range(p, l, c), Ok(r));
    }
}

#[test]
fn keys_of_the_record_form() {
    assert_eq!(field_of_key("position"), Some(RangeField::Position));
    assert_eq!(field_of_key("length"), Some(RangeField::Length));
    assert_eq!(field_of_key("confidence"), Some(RangeField::Confidence));
    assert_eq!(field_of_key("pos"), None);
}

#[test]
fn record_without_confidence() {
    let mut f = RangeFields::new();
    assert_eq!(f.accept_key("position"), Ok(RangeField::Position));
    f.set_position(10);
    assert_eq!(f.accept_key("length"), Ok(RangeField::Length));
    assert_eq!(f.set_length(2), Ok(()));
    assert_eq!(f.finish(), Ok(PixelRange::new_total(10, 2)));
}

#[test]
fn record_errors() {
    let mut f = RangeFields::new();
    assert_eq!(f.accept_key("colour"), Err(RangeFormatError::UnknownField));
    f.set_confidence(3);
    assert_eq!(f.accept_key("confidence"), Err(RangeFormatError::DuplicateField(RangeField::Confidence)));
    assert_eq!(f.finish(), Err(RangeFormatError::MissingField(RangeField::Position)));
    f.set_position(1);
    assert_eq!(f.finish(), Err(RangeFormatError::MissingField(RangeField::Length)));
    assert_eq!(f.set_length(0), Err(RangeFormatError::ZeroLength));
    assert_eq!(f.set_length(5), Ok(()));
    assert_eq!(f.finish(), Ok(PixelRange::new(1, 5, 3)));
}

/// Reads a record `{ key: value, ... }` of a run through the library.
fn read_record(entries: &[(&str, u32)]) -> Result<PixelRange, RangeFormatError> {
    let mut f = RangeFields::new();
    for (key, value) in entries {
        match f.accept_key(key)? {
            RangeField::Position => f.set_position(*value),
            RangeField::Length => f.set_length(*value as u16)?,
            RangeField::Confidence => f.set_confidence(*value as u8),
        }
    }
    f.finish()
}

#[test]
fn deserialize_two_component() {
    // [[1, 10]]
    assert_eq!(vec![decode_range(1, 10, None).unwrap()], vec![PixelRange::new_total(1, 10)]);
}

#[test]
fn deserialize_pixel_area_with_three_component() {
    // [[1, 10, 42]]
    assert_eq!(vec![decode_range(1, 10, Some(42)).unwrap()], vec![PixelRange::new(1, 10, 42)]);
}

#[test]
fn deserialize_pixel_area_with_two_component_with_default_confidence() {
    // [[5, 3]]
    assert_eq!(vec![decode_range(5, 3, None).unwrap()], vec![PixelRange::new(5, 3, 255)]);
}

#[test]
fn deserialize_named_pixel_area_without_confidence() {
    // [{ "position": 5, "length": 3 }], written back as [[5,3]]
    let pixels = vec![read_record(&[("position", 5), ("length", 3)]).unwrap()];
    assert_eq!(pixels, vec![PixelRange::new(5, 3, 255)]);
    assert_eq!(encode_range(&pixels[0]), (5, 3, None));
}

#[test]
fn deserialize_named_pixel_area_with_confidence() {
    // [{ "position": 5, "length": 3, "confidence": 42 }], written back as [[5,3,42]]
    let pixels = vec![read_record(&[("position", 5), ("length", 3), ("confidence", 42)]).unwrap()];
    assert_eq!(pixels, vec![PixelRange::new(5, 3, 42)]);
    assert_eq!(encode_range(&pixels[0]), (5, 3, Some(42)));
}
