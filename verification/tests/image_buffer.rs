use pil::{PILError, PILFilter, PILImage, PILMode, PILType};

const MODES: [PILMode; 10] = [
    PILMode::Unit,
    PILMode::L,
    PILMode::P,
    PILMode::I,
    PILMode::F,
    PILMode::RGB,
    PILMode::RGBA,
    PILMode::CMYK,
    PILMode::YCbCr,
    PILMode::LAB,
];

#[test]
fn new_rejects_non_positive_dimensions() {
    for mode in MODES {
        for (w, h) in [(0, 1), (1, 0), (-1, 5), (5, -1), (0, 0), (i32::MIN, i32::MIN)] {
            assert!(matches!(PILImage::new(mode, w, h), Err(PILError::InvalidDimension)));
        }
    }
}

#[test]
fn new_image_is_zeroed() {
    let img = PILImage::new(PILMode::RGB, 3, 2).unwrap();
    for y in 0..2 {
        assert_eq!(img.line_u8(y).unwrap().unwrap(), &[0u8; 12][..]);
    }
    let img = PILImage::new(PILMode::I, 3, 2).unwrap();
    for y in 0..2 {
        assert_eq!(img.line_i32(y).unwrap().unwrap(), &[0i32; 3][..]);
    }
    let img = PILImage::new(PILMode::F, 3, 2).unwrap();
    for y in 0..2 {
        assert_eq!(img.line_f32(y).unwrap().unwrap(), &[0u32; 3][..]);
    }
}

#[test]
fn each_mode_has_its_layout() {
    let want = [
        (PILMode::Unit, "1", PILType::Uint8, 1, 1),
        (PILMode::L, "L", PILType::Uint8, 1, 1),
        (PILMode::P, "P", PILType::Uint8, 1, 1),
        (PILMode::I, "I", PILType::Int32, 1, 4),
        (PILMode::F, "F", PILType::Float32, 1, 4),
        (PILMode::RGB, "RGB", PILType::Uint8, 3, 4),
        (PILMode::RGBA, "RGBA", PILType::Uint8, 4, 4),
        (PILMode::CMYK, "CMYK", PILType::Uint8, 4, 4),
        (PILMode::YCbCr, "YCbCr", PILType::Uint8, 3, 4),
        (PILMode::LAB, "LAB", PILType::Uint8, 3, 4),
    ];
    for (mode, name, kind, channels, size) in want {
        assert_eq!(mode.to_raw(), name);
        assert_eq!(mode.element_type(), kind);
        assert_eq!(mode.channel_count(), channels);
        assert_eq!(mode.pixel_bytes(), size);
        let img = PILImage::new(mode, 7, 3).unwrap();
        assert_eq!(img.mode(), mode);
        assert_eq!(img.x_size(), 7);
        assert_eq!(img.y_size(), 3);
        assert_eq!(img.pixel_type(), kind);
        assert_eq!(img.pixel_channels(), channels);
        assert_eq!(img.pixel_size_bytes(), size);
        assert_eq!(img.line_size_bytes(), 7 * size);
    }
}

#[test]
fn typed_rows_exist_only_for_the_stored_type() {
    for mode in MODES {
        let mut img = PILImage::new(mode, 4, 2).unwrap();
        let kind = img.pixel_type();
        assert_eq!(img.line_u8(1).unwrap().is_some(), kind == PILType::Uint8);
        assert_eq!(img.line_i32(1).unwrap().is_some(), kind == PILType::Int32);
        assert_eq!(img.line_f32(1).unwrap().is_some(), kind == PILType::Float32);
        assert_eq!(img.line_u8_mut(1).unwrap().is_some(), kind == PILType::Uint8);
        assert_eq!(img.line_i32_mut(1).unwrap().is_some(), kind == PILType::Int32);
        assert_eq!(img.line_f32_mut(1).unwrap().is_some(), kind == PILType::Float32);
    }
}

#[test]
fn a_row_has_one_element_per_lane() {
    assert_eq!(PILImage::new(PILMode::L, 5, 1).unwrap().line_u8(0).unwrap().unwrap().len(), 5);
    assert_eq!(PILImage::new(PILMode::RGB, 5, 1).unwrap().line_u8(0).unwrap().unwrap().len(), 20);
    assert_eq!(PILImage::new(PILMode::RGBA, 5, 1).unwrap().line_u8(0).unwrap().unwrap().len(), 20);
    assert_eq!(PILImage::new(PILMode::I, 5, 1).unwrap().line_i32(0).unwrap().unwrap().len(), 5);
    assert_eq!(PILImage::new(PILMode::F, 5, 1).unwrap().line_f32(0).unwrap().unwrap().len(), 5);
}

#[test]
fn a_row_outside_the_image_is_out_of_range() {
    let mut bytes = PILImage::new(PILMode::L, 4, 2).unwrap();
    let mut ints = PILImage::new(PILMode::I, 4, 2).unwrap();
    let mut floats = PILImage::new(PILMode::F, 4, 2).unwrap();
    for y in [-1, 2, 3, i32::MAX, i32::MIN] {
        assert!(matches!(bytes.line_u8(y), Err(PILError::OutOfRange)));
        assert!(matches!(bytes.line_u8_mut(y), Err(PILError::OutOfRange)));
        assert!(matches!(ints.line_i32(y), Err(PILError::OutOfRange)));
        assert!(matches!(ints.line_i32_mut(y), Err(PILError::OutOfRange)));
        assert!(matches!(floats.line_f32(y), Err(PILError::OutOfRange)));
        assert!(matches!(floats.line_f32_mut(y), Err(PILError::OutOfRange)));
        assert!(matches!(bytes.line_i32(y), Ok(None)));
        assert!(matches!(ints.line_f32(y), Ok(None)));
        assert!(matches!(floats.line_u8(y), Ok(None)));
    }
}

#[test]
fn writes_through_a_row_are_kept() {
    let mut img = PILImage::new(PILMode::L, 3, 3).unwrap();
    img.line_u8_mut(1).unwrap().unwrap().copy_from_slice(&[7, 8, 9]);
    assert_eq!(img.line_u8(0).unwrap().unwrap(), &[0, 0, 0]);
    assert_eq!(img.line_u8(1).unwrap().unwrap(), &[7, 8, 9]);
    assert_eq!(img.line_u8(2).unwrap().unwrap(), &[0, 0, 0]);
    let mut img = PILImage::new(PILMode::I, 2, 2).unwrap();
    img.line_i32_mut(0).unwrap().unwrap()[1] = i32::MIN;
    assert_eq!(img.line_i32(0).unwrap().unwrap(), &[0, i32::MIN]);
    assert_eq!(img.line_i32(1).unwrap().unwrap(), &[0, 0]);
    let mut img = PILImage::new(PILMode::F, 2, 2).unwrap();
    img.line_f32_mut(1).unwrap().unwrap()[0] = 2.5f32.to_bits();
    assert_eq!(f32::from_bits(img.line_f32(1).unwrap().unwrap()[0]), 2.5);
    assert_eq!(img.line_f32(0).unwrap().unwrap(), &[0, 0]);
}

fn rgb_sample() -> PILImage {
    let mut img = PILImage::new(PILMode::RGB, 2, 2).unwrap();
    img.line_u8_mut(0).unwrap().unwrap().copy_from_slice(&[1, 2, 3, 99, 4, 5, 6, 99]);
    img.line_u8_mut(1).unwrap().unwrap().copy_from_slice(&[7, 8, 9, 99, 10, 11, 12, 99]);
    img
}

#[test]
fn render_pixels_puts_channels_side_by_side() {
    let img = rgb_sample();
    let mut buf = [0u8; 12];
    assert_eq!(img.render_pixels(&mut buf), Ok(12));
    assert_eq!(buf, [1, 2, 3, 4, 5, 6, 7, 8, 9, 10, 11, 12]);
}

#[test]
fn render_planes_puts_each_channel_in_a_plane() {
    let img = rgb_sample();
    let mut buf = [0u8; 12];
    assert_eq!(img.render_planes(&mut buf), Ok(12));
    assert_eq!(buf, [1, 4, 7, 10, 2, 5, 8, 11, 3, 6, 9, 12]);
}

#[test]
fn render_keeps_every_channel_of_four() {
    let mut img = PILImage::new(PILMode::RGBA, 2, 1).unwrap();
    img.line_u8_mut(0).unwrap().unwrap().copy_from_slice(&[1, 2, 3, 4, 5, 6, 7, 8]);
    let mut buf = [0u8; 8];
    assert_eq!(img.render_pixels(&mut buf), Ok(8));
    assert_eq!(buf, [1, 2, 3, 4, 5, 6, 7, 8]);
    assert_eq!(img.render_planes(&mut buf), Ok(8));
    assert_eq!(buf, [1, 5, 2, 6, 3, 7, 4, 8]);
}

#[test]
fn render_of_one_channel_is_the_rows_in_order() {
    let mut img = PILImage::new(PILMode::L, 3, 2).unwrap();
    img.line_u8_mut(0).unwrap().unwrap().copy_from_slice(&[1, 2, 3]);
    img.line_u8_mut(1).unwrap().unwrap().copy_from_slice(&[4, 5, 6]);
    let mut a = [0u8; 6];
    let mut b = [0u8; 6];
    assert_eq!(img.render_pixels(&mut a), Ok(6));
    assert_eq!(img.render_planes(&mut b), Ok(6));
    assert_eq!(a, [1, 2, 3, 4, 5, 6]);
    assert_eq!(a, b);
}

#[test]
fn render_leaves_the_rest_of_the_buffer() {
    let img = rgb_sample();
    let mut buf = [0xeeu8; 15];
    assert_eq!(img.render_pixels(&mut buf), Ok(12));
    assert_eq!(buf[12..], [0xee, 0xee, 0xee]);
    let mut buf = [0xeeu8; 15];
    assert_eq!(img.render_planes(&mut buf), Ok(12));
    assert_eq!(buf[..12], [1, 4, 7, 10, 2, 5, 8, 11, 3, 6, 9, 12]);
    assert_eq!(buf[12..], [0xee, 0xee, 0xee]);
}

#[test]
fn render_into_a_short_buffer_fails_and_writes_nothing() {
    let img = rgb_sample();
    let mut buf = [0xeeu8; 11];
    assert_eq!(img.render_pixels(&mut buf), Err(PILError::BufferTooSmall));
    assert_eq!(buf, [0xee; 11]);
    assert_eq!(img.render_planes(&mut buf), Err(PILError::BufferTooSmall));
    assert_eq!(buf, [0xee; 11]);
    let mut none: [u8; 0] = [];
    assert_eq!(img.render_pixels(&mut none), Err(PILError::BufferTooSmall));
}

#[test]
fn render_of_other_element_types_is_unsupported() {
    let mut buf = [0xeeu8; 64];
    for mode in [PILMode::I, PILMode::F] {
        let img = PILImage::new(mode, 2, 2).unwrap();
        assert_eq!(img.render_pixels(&mut buf), Err(PILError::UnsupportedElementType));
        assert_eq!(img.render_planes(&mut buf), Err(PILError::UnsupportedElementType));
        assert_eq!(img.render_pixels(&mut buf[..0]), Err(PILError::UnsupportedElementType));
        assert_eq!(buf, [0xee; 64]);
    }
}

#[test]
fn type_codes_round_trip() {
    assert_eq!(PILType::Uint8.to_raw(), 0);
    assert_eq!(PILType::Int32.to_raw(), 1);
    assert_eq!(PILType::Float32.to_raw(), 2);
    for t in [PILType::Uint8, PILType::Int32, PILType::Float32] {
        assert_eq!(PILType::from_raw(t.to_raw()), Ok(t));
    }
}

#[test]
fn unknown_type_codes_are_unsupported() {
    for raw in [3, 4, 255, u32::MAX] {
        assert_eq!(PILType::from_raw(raw), Err(PILError::UnsupportedElementType));
    }
}

#[test]
fn filter_codes_and_radii() {
    let want = [
        (PILFilter::Nearest, 0, 1),
        (PILFilter::Lanczos, 1, 6),
        (PILFilter::Bilinear, 2, 2),
        (PILFilter::Bicubic, 3, 4),
        (PILFilter::Box_, 4, 1),
        (PILFilter::Hamming, 5, 2),
    ];
    for (f, code, twice_radius) in want {
        assert_eq!(f.to_raw(), code);
        assert_eq!(f.doubled_radius(), twice_radius);
    }
}
