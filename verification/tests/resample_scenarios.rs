use pil::window::axis_windows;
use pil::{PILError, PILFilter, PILImage, PILMode, PILType};

const FILTERS: [PILFilter; 6] = [
    PILFilter::Nearest,
    PILFilter::Box_,
    PILFilter::Bilinear,
    PILFilter::Hamming,
    PILFilter::Bicubic,
    PILFilter::Lanczos,
];

fn bytes_image(mode: PILMode, width: i32, rows: &[Vec<u8>]) -> PILImage {
    let mut img = PILImage::new(mode, width, rows.len() as i32).unwrap();
    for (y, row) in rows.iter().enumerate() {
        let line = img.line_u8_mut(y as i32).unwrap().unwrap();
        assert_eq!(line.len(), row.len());
        line.copy_from_slice(row);
    }
    img
}

fn ints_image(width: i32, rows: &[Vec<i32>]) -> PILImage {
    let mut img = PILImage::new(PILMode::I, width, rows.len() as i32).unwrap();
    for (y, row) in rows.iter().enumerate() {
        let line = img.line_i32_mut(y as i32).unwrap().unwrap();
        assert_eq!(line.len(), row.len());
        line.copy_from_slice(row);
    }
    img
}

fn gray(width: i32, height: i32, value: impl Fn(i32, i32) -> u8) -> PILImage {
    let rows: Vec<Vec<u8>> =
        (0..height).map(|y| (0..width).map(|x| value(x, y)).collect()).collect();
    bytes_image(PILMode::L, width, &rows)
}

fn rows_of(img: &PILImage) -> Vec<Vec<u8>> {
    (0..img.y_size()).map(|y| img.line_u8(y).unwrap().unwrap().to_vec()).collect()
}

fn int_rows_of(img: &PILImage) -> Vec<Vec<i32>> {
    (0..img.y_size()).map(|y| img.line_i32(y).unwrap().unwrap().to_vec()).collect()
}

fn pattern() -> PILImage {
    gray(7, 5, |x, y| ((x * 37 + y * 91 + (x * y) % 13 * 5) % 256) as u8)
}

#[test]
fn box_halves_a_ramp() {
    let img = gray(4, 4, |x, y| (x + 4 * y) as u8);
    let out = img.resample(2, 2, PILFilter::Box_).unwrap();
    assert_eq!(rows_of(&out), vec![vec![3, 5], vec![11, 13]]);
}

#[test]
fn one_pixel_fills_any_size() {
    for f in FILTERS {
        let img = gray(1, 1, |_, _| 137);
        let out = img.resample(10, 10, f).unwrap();
        assert_eq!(out.x_size(), 10);
        assert_eq!(out.y_size(), 10);
        assert_eq!(rows_of(&out), vec![vec![137u8; 10]; 10]);
    }
}

#[test]
fn non_positive_target_is_rejected() {
    let img = gray(3, 3, |_, _| 1);
    for (w, h) in [(0, 2), (-1, 2), (2, 0), (2, -5), (0, 0), (i32::MIN, 1)] {
        assert!(matches!(
            img.resample(w, h, PILFilter::Bilinear),
            Err(PILError::InvalidDimension)
        ));
    }
    assert!(matches!(
        img.resample_horizontal(0, PILFilter::Box_),
        Err(PILError::InvalidDimension)
    ));
    assert!(matches!(
        img.resample_vertical(-3, PILFilter::Box_),
        Err(PILError::InvalidDimension)
    ));
}

#[test]
fn reducing_matches_known_values() {
    let cases: Vec<(PILFilter, Vec<Vec<u8>>)> = vec![
        (PILFilter::Nearest, vec![vec![112, 103, 152], vec![129, 109, 132]]),
        (PILFilter::Box_, vec![vec![112, 103, 152], vec![129, 109, 132]]),
        (PILFilter::Bilinear, vec![vec![103, 120, 126], vec![119, 119, 124]]),
        (PILFilter::Hamming, vec![vec![100, 125, 124], vec![111, 119, 125]]),
        (PILFilter::Bicubic, vec![vec![101, 118, 131], vec![122, 120, 121]]),
        (PILFilter::Lanczos, vec![vec![100, 117, 134], vec![126, 121, 117]]),
    ];
    for (f, want) in cases {
        let out = pattern().resample(3, 2, f).unwrap();
        assert_eq!(rows_of(&out), want, "{:?}", f);
    }
}

#[test]
fn enlarging_with_box_repeats_samples() {
    let want: Vec<Vec<u8>> = vec![
        vec![0, 0, 37, 74, 74, 111, 148, 148, 185, 222, 222],
        vec![0, 0, 37, 74, 74, 111, 148, 148, 185, 222, 222],
        vec![91, 91, 133, 175, 175, 217, 3, 3, 45, 87, 87],
        vec![91, 91, 133, 175, 175, 217, 3, 3, 45, 87, 87],
        vec![182, 182, 229, 20, 20, 67, 114, 114, 161, 208, 208],
        vec![17, 17, 69, 121, 121, 173, 225, 225, 212, 8, 8],
        vec![17, 17, 69, 121, 121, 173, 225, 225, 212, 8, 8],
        vec![108, 108, 165, 222, 222, 23, 15, 15, 72, 129, 129],
        vec![108, 108, 165, 222, 222, 23, 15, 15, 72, 129, 129],
    ];
    assert_eq!(rows_of(&pattern().resample(11, 9, PILFilter::Box_).unwrap()), want);
    assert_eq!(rows_of(&pattern().resample(11, 9, PILFilter::Nearest).unwrap()), want);
}

#[test]
fn enlarging_with_bilinear_matches_known_values() {
    let want: Vec<Vec<u8>> = vec![
        vec![0, 17, 40, 64, 87, 111, 135, 158, 182, 205, 222],
        vec![30, 48, 72, 97, 121, 146, 117, 110, 135, 159, 177],
        vec![81, 100, 126, 153, 179, 205, 87, 30, 57, 83, 102],
        vec![131, 151, 169, 125, 122, 150, 88, 64, 93, 121, 141],
        vec![182, 203, 210, 77, 37, 67, 97, 127, 157, 187, 208],
        vec![90, 113, 134, 94, 94, 126, 158, 179, 188, 139, 97],
        vec![27, 51, 85, 118, 141, 156, 185, 200, 197, 101, 21],
        vec![78, 103, 138, 173, 147, 73, 81, 94, 116, 102, 89],
        vec![108, 134, 170, 206, 150, 23, 18, 31, 67, 103, 129],
    ];
    assert_eq!(rows_of(&pattern().resample(11, 9, PILFilter::Bilinear).unwrap()), want);
}

#[test]
fn enlarging_with_hamming_matches_known_values() {
    let want: Vec<Vec<u8>> = vec![
        vec![0, 15, 37, 70, 82, 111, 140, 152, 185, 207, 222],
        vec![15, 31, 53, 87, 99, 129, 125, 128, 162, 184, 199],
        vec![90, 107, 132, 170, 183, 216, 50, 9, 47, 72, 89],
        vec![125, 143, 168, 122, 127, 161, 69, 49, 88, 114, 132],
        vec![182, 201, 227, 40, 30, 67, 104, 119, 161, 189, 208],
        vec![78, 99, 128, 88, 94, 134, 173, 185, 193, 126, 83],
        vec![18, 39, 71, 117, 133, 171, 211, 221, 210, 89, 10],
        vec![93, 115, 150, 200, 171, 48, 50, 54, 95, 103, 109],
        vec![108, 131, 166, 217, 179, 23, 17, 20, 71, 106, 129],
    ];
    assert_eq!(rows_of(&pattern().resample(11, 9, PILFilter::Hamming).unwrap()), want);
}

#[test]
fn enlarging_with_bicubic_matches_known_values() {
    let want: Vec<Vec<u8>> = vec![
        vec![0, 5, 32, 56, 78, 102, 140, 171, 194, 220, 236],
        vec![21, 35, 64, 95, 125, 145, 117, 110, 139, 167, 184],
        vec![77, 94, 126, 161, 200, 215, 77, 7, 46, 77, 95],
        vec![142, 168, 187, 126, 123, 154, 73, 38, 77, 119, 144],
        vec![179, 213, 219, 65, 18, 67, 97, 127, 157, 191, 211],
        vec![83, 112, 134, 75, 76, 129, 177, 207, 210, 140, 88],
        vec![13, 36, 75, 118, 147, 166, 200, 220, 212, 89, 1],
        vec![73, 97, 139, 194, 159, 68, 66, 86, 112, 100, 89],
        vec![111, 137, 179, 235, 162, 11, 0, 9, 54, 109, 144],
    ];
    assert_eq!(rows_of(&pattern().resample(11, 9, PILFilter::Bicubic).unwrap()), want);
}

#[test]
fn enlarging_with_lanczos_matches_known_values() {
    let want: Vec<Vec<u8>> = vec![
        vec![0, 5, 33, 52, 65, 93, 143, 179, 203, 230, 245],
        vec![16, 27, 59, 98, 137, 152, 118, 106, 134, 165, 177],
        vec![71, 85, 120, 153, 213, 217, 81, 11, 44, 83, 93],
        vec![157, 192, 205, 129, 125, 152, 61, 15, 56, 121, 149],
        vec![171, 221, 218, 68, 6, 67, 101, 125, 156, 193, 211],
        vec![77, 115, 130, 61, 51, 130, 195, 238, 235, 145, 90],
        vec![12, 30, 76, 126, 152, 166, 191, 224, 212, 81, 0],
        vec![67, 83, 138, 205, 167, 73, 63, 94, 113, 96, 80],
        vec![120, 139, 194, 248, 160, 2, 0, 0, 43, 119, 156],
    ];
    assert_eq!(rows_of(&pattern().resample(11, 9, PILFilter::Lanczos).unwrap()), want);
}

#[test]
fn overshoot_is_cut_to_the_byte_range() {
    let out = pattern().resample(11, 9, PILFilter::Lanczos).unwrap();
    let rows = rows_of(&out);
    assert_eq!(rows[8][6], 0);
    assert_eq!(rows[8][7], 0);
    let edge = gray(4, 1, |x, _| if x < 2 { 0 } else { 255 });
    let wide = rows_of(&edge.resample(12, 1, PILFilter::Bicubic).unwrap());
    assert_eq!(wide[0][0], 0);
    assert_eq!(wide[0][11], 255);
    assert!(wide[0].windows(2).all(|p| p[0] <= p[1]));
}

#[test]
fn lanes_of_a_pixel_resample_independently() {
    let src: Vec<Vec<u8>> = vec![
        vec![0, 70, 140, 0, 50, 120, 190, 0, 100, 170, 240, 0],
        vec![20, 90, 160, 0, 70, 140, 210, 0, 120, 190, 4, 0],
    ];
    let img = bytes_image(PILMode::RGB, 3, &src);
    let bilinear: Vec<Vec<u8>> = vec![
        vec![0, 70, 140, 0, 20, 90, 160, 0, 50, 120, 190, 0, 80, 150, 220, 0, 100, 170, 240, 0],
        vec![10, 80, 150, 0, 30, 100, 170, 0, 60, 130, 200, 0, 90, 160, 153, 0, 110, 180, 122, 0],
        vec![20, 90, 160, 0, 40, 110, 180, 0, 70, 140, 210, 0, 100, 170, 86, 0, 120, 190, 4, 0],
    ];
    let bicubic: Vec<Vec<u8>> = vec![
        vec![0, 65, 135, 0, 14, 84, 153, 0, 49, 119, 189, 0, 84, 154, 235, 0, 103, 173, 255, 0],
        vec![8, 76, 146, 0, 25, 95, 171, 0, 60, 130, 200, 0, 95, 165, 152, 0, 114, 184, 122, 0],
        vec![17, 87, 157, 0, 36, 106, 189, 0, 71, 141, 211, 0, 106, 176, 68, 0, 125, 195, 0, 0],
    ];
    let a = img.resample(5, 3, PILFilter::Bilinear).unwrap();
    assert_eq!(a.pixel_channels(), 3);
    assert_eq!(a.pixel_size_bytes(), 4);
    assert_eq!(rows_of(&a), bilinear);
    assert_eq!(rows_of(&img.resample(5, 3, PILFilter::Bicubic).unwrap()), bicubic);
}

#[test]
fn integer_samples_round_halves_to_even() {
    let src: Vec<Vec<i32>> = vec![
        vec![1, 2, 0, 1, 2, 3, -1, 0],
        vec![-3, -2, 1000000, -1000000, i32::MAX, i32::MAX, i32::MIN, i32::MIN],
    ];
    let img = ints_image(8, &src);
    let out = img.resample(4, 2, PILFilter::Box_).unwrap();
    assert_eq!(out.pixel_type(), PILType::Int32);
    assert_eq!(
        int_rows_of(&out),
        vec![vec![2, 0, 2, 0], vec![-2, 0, i32::MAX, i32::MIN]]
    );
}

#[test]
fn byte_samples_round_halves_up() {
    let img = gray(8, 1, |x, _| [1u8, 2, 0, 1, 2, 3, 254, 255][x as usize]);
    let out = img.resample(4, 1, PILFilter::Box_).unwrap();
    assert_eq!(rows_of(&out), vec![vec![2u8, 1, 3, 255]]);
}

#[test]
fn integer_samples_with_lanczos_match_known_values() {
    let src: Vec<Vec<i32>> = vec![
        vec![1, 2, 0, 1, 2, 3, -1, 0],
        vec![-3, -2, 1000000, -1000000, i32::MAX, i32::MAX, i32::MIN, i32::MIN],
    ];
    let out = ints_image(8, &src).resample(3, 1, PILFilter::Lanczos).unwrap();
    assert_eq!(int_rows_of(&out), vec![vec![-108772303, 605464914, -407257916]]);
}

#[test]
fn integer_overshoot_is_cut_to_the_integer_range() {
    let src: Vec<Vec<i32>> = vec![vec![i32::MIN, i32::MIN, i32::MAX, i32::MAX]];
    let out = int_rows_of(&ints_image(4, &src).resample(12, 1, PILFilter::Bicubic).unwrap());
    assert_eq!(out[0][0], i32::MIN);
    assert_eq!(out[0][11], i32::MAX);
    assert!(out[0].windows(2).all(|p| p[0] <= p[1]));
}

#[test]
fn same_size_reproduces_the_image() {
    for f in FILTERS {
        let img = pattern();
        let out = img.resample(7, 5, f).unwrap();
        assert_eq!(rows_of(&out), rows_of(&img), "{:?}", f);
        let ints = ints_image(3, &[vec![i32::MIN, -7, i32::MAX], vec![0, 1, 2]]);
        assert_eq!(int_rows_of(&ints.resample(3, 2, f).unwrap()), int_rows_of(&ints));
        let rgb = bytes_image(PILMode::RGBA, 2, &[vec![1, 2, 3, 4, 250, 251, 252, 253]]);
        assert_eq!(rows_of(&rgb.resample(2, 1, f).unwrap()), rows_of(&rgb));
    }
}

#[test]
fn one_axis_can_keep_its_size() {
    let img = pattern();
    let narrow = img.resample(3, 5, PILFilter::Bilinear).unwrap();
    assert_eq!(
        rows_of(&narrow),
        rows_of(&img.resample_horizontal(3, PILFilter::Bilinear).unwrap())
    );
    let short = img.resample(7, 2, PILFilter::Bilinear).unwrap();
    assert_eq!(
        rows_of(&short),
        rows_of(&img.resample_vertical(2, PILFilter::Bilinear).unwrap())
    );
}

#[test]
fn resample_is_the_horizontal_pass_then_the_vertical() {
    for f in FILTERS {
        let img = pattern();
        let whole = img.resample(4, 9, f).unwrap();
        let steps = img.resample_horizontal(4, f).unwrap().resample_vertical(9, f).unwrap();
        assert_eq!(rows_of(&whole), rows_of(&steps));
    }
}

#[test]
fn float_samples_survive_a_resize_to_the_same_size() {
    let mut img = PILImage::new(PILMode::F, 3, 2).unwrap();
    let bits: [[u32; 3]; 2] = [
        [1.5f32.to_bits(), (-0.0f32).to_bits(), f32::NAN.to_bits()],
        [f32::INFINITY.to_bits(), f32::MIN_POSITIVE.to_bits(), 1e-42f32.to_bits()],
    ];
    for y in 0..2 {
        img.line_f32_mut(y).unwrap().unwrap().copy_from_slice(&bits[y as usize]);
    }
    for f in FILTERS {
        let out = img.resample(3, 2, f).unwrap();
        assert_eq!(out.pixel_type(), PILType::Float32);
        for y in 0..2 {
            assert_eq!(out.line_f32(y).unwrap().unwrap(), &bits[y as usize][..]);
        }
    }
}

#[test]
fn float_samples_are_not_resampled() {
    let img = PILImage::new(PILMode::F, 3, 2).unwrap();
    for (w, h) in [(4, 2), (3, 1), (6, 6)] {
        assert!(matches!(
            img.resample(w, h, PILFilter::Box_),
            Err(PILError::UnsupportedElementType)
        ));
    }
    assert!(matches!(
        img.resample_horizontal(5, PILFilter::Box_),
        Err(PILError::UnsupportedElementType)
    ));
    assert!(matches!(
        img.resample_vertical(5, PILFilter::Box_),
        Err(PILError::UnsupportedElementType)
    ));
    assert!(matches!(img.resample(0, 1, PILFilter::Box_), Err(PILError::InvalidDimension)));
}

#[test]
fn result_keeps_the_mode_and_takes_the_target_size() {
    let modes = [
        PILMode::Unit,
        PILMode::L,
        PILMode::P,
        PILMode::I,
        PILMode::RGB,
        PILMode::RGBA,
        PILMode::CMYK,
        PILMode::YCbCr,
        PILMode::LAB,
    ];
    for mode in modes {
        let img = PILImage::new(mode, 5, 4).unwrap();
        for f in FILTERS {
            let out = img.resample(9, 2, f).unwrap();
            assert_eq!(out.mode(), mode);
            assert_eq!(out.x_size(), 9);
            assert_eq!(out.y_size(), 2);
            assert_eq!(out.pixel_type(), img.pixel_type());
            assert_eq!(out.pixel_channels(), img.pixel_channels());
            assert_eq!(out.pixel_size_bytes(), img.pixel_size_bytes());
            assert_eq!(out.line_size_bytes(), 9 * img.pixel_size_bytes());
        }
    }
}

#[test]
fn uniform_image_stays_uniform() {
    for f in FILTERS {
        for (w, h) in [(1, 1), (2, 9), (13, 3), (40, 40), (6, 7)] {
            let img = gray(6, 7, |_, _| 201);
            let out = img.resample(w, h, f).unwrap();
            assert_eq!(rows_of(&out), vec![vec![201u8; w as usize]; h as usize]);
            let ints = ints_image(5, &vec![vec![-123456789; 5]; 4]);
            let out = ints.resample(w, h, f).unwrap();
            assert_eq!(int_rows_of(&out), vec![vec![-123456789; w as usize]; h as usize]);
        }
    }
}

#[test]
fn uniform_lanes_stay_uniform() {
    let row: Vec<u8> = (0..6).flat_map(|_| [10u8, 200, 255, 77]).collect();
    let img = bytes_image(PILMode::CMYK, 6, &vec![row; 3]);
    for f in FILTERS {
        let out = img.resample(11, 2, f).unwrap();
        for line in rows_of(&out) {
            assert_eq!(line.len(), 44);
            assert!(line.chunks(4).all(|p| p == [10, 200, 255, 77]));
        }
    }
}

#[test]
fn box_and_nearest_stay_within_their_window() {
    let img = pattern();
    let src = rows_of(&img);
    for f in [PILFilter::Nearest, PILFilter::Box_, PILFilter::Bilinear] {
        for (w, h) in [(3, 2), (11, 9), (2, 5), (7, 1), (1, 1), (20, 3)] {
            let out = rows_of(&img.resample(w, h, f).unwrap());
            let xw = axis_windows(7, w, f);
            let yw = axis_windows(5, h, f);
            for y in 0..h as usize {
                for x in 0..w as usize {
                    let cols = xw[x].start..xw[x].start + xw[x].weights.len();
                    let rows = yw[y].start..yw[y].start + yw[y].weights.len();
                    let block: Vec<u8> = rows
                        .flat_map(|j| cols.clone().map(move |i| (j, i)))
                        .map(|(j, i)| src[j][i])
                        .collect();
                    let lo = *block.iter().min().unwrap();
                    let hi = *block.iter().max().unwrap();
                    assert!(lo <= out[y][x] && out[y][x] <= hi);
                }
            }
        }
    }
}

#[test]
fn pass_order_changes_a_sample_by_at_most_one() {
    let img = pattern();
    for f in [PILFilter::Nearest, PILFilter::Box_, PILFilter::Bilinear] {
        for (w, h) in [(3, 2), (11, 9), (2, 4), (1, 1), (14, 10), (7, 2)] {
            let first = rows_of(&img.resample(w, h, f).unwrap());
            let second = rows_of(
                &img.resample_vertical(h, f).unwrap().resample_horizontal(w, f).unwrap(),
            );
            for (a, b) in first.iter().flatten().zip(second.iter().flatten()) {
                assert!((*a as i32 - *b as i32).abs() <= 1);
            }
        }
    }
}

#[test]
fn pass_order_can_change_a_sample() {
    let img = bytes_image(PILMode::L, 3, &[vec![2, 1, 1], vec![0, 1, 0], vec![0, 0, 0]]);
    let first = img.resample(1, 1, PILFilter::Box_).unwrap();
    let second = img
        .resample_vertical(1, PILFilter::Box_)
        .unwrap()
        .resample_horizontal(1, PILFilter::Box_)
        .unwrap();
    assert_eq!(rows_of(&first), vec![vec![0u8]]);
    assert_eq!(rows_of(&second), vec![vec![1u8]]);
}

#[test]
fn enlarging_by_whole_factors_repeats_pixels() {
    let img = pattern();
    let src = rows_of(&img);
    for f in [PILFilter::Nearest, PILFilter::Box_] {
        for (kx, ky) in [(1, 1), (2, 1), (1, 3), (2, 3), (5, 4)] {
            let first = rows_of(&img.resample(7 * kx, 5 * ky, f).unwrap());
            let second = rows_of(
                &img.resample_vertical(5 * ky, f).unwrap().resample_horizontal(7 * kx, f).unwrap(),
            );
            for y in 0..(5 * ky) as usize {
                for x in 0..(7 * kx) as usize {
                    assert_eq!(first[y][x], src[y / ky as usize][x / kx as usize]);
                }
            }
            assert_eq!(first, second);
        }
    }
    let rgb = bytes_image(PILMode::RGB, 2, &[vec![1, 2, 3, 0, 4, 5, 6, 0]]);
    let out = rows_of(&rgb.resample(4, 2, PILFilter::Box_).unwrap());
    assert_eq!(out, vec![vec![1, 2, 3, 0, 1, 2, 3, 0, 4, 5, 6, 0, 4, 5, 6, 0]; 2]);
}

#[test]
fn windows_are_normalised() {
    for f in FILTERS {
        for (s, t) in [(1, 1), (1, 10), (10, 1), (5, 3), (3, 5), (7, 7), (100, 9), (9, 100)] {
            let wins = axis_windows(s, t, f);
            assert_eq!(wins.len(), t as usize);
            for win in &wins {
                assert!(!win.weights.is_empty());
                assert!(win.start + win.weights.len() <= s as usize);
                let sum: i128 = win.weights.iter().map(|w| *w as i128).sum();
                assert_eq!(sum, win.total);
                assert!(win.total > 0);
                let unit: f64 = win.weights.iter().map(|w| *w as f64 / win.total as f64).sum();
                assert!((unit - 1.0).abs() < 1e-6);
            }
        }
    }
}

#[test]
fn windows_hold_the_kernel_weights() {
    let first = |s: i32, t: i32, f: PILFilter| {
        let w = axis_windows(s, t, f).swap_remove(0);
        (w.start, w.weights, w.total)
    };
    assert_eq!(first(5, 3, PILFilter::Box_), (0, vec![1, 1, 0], 2));
    assert_eq!(first(5, 3, PILFilter::Nearest), (0, vec![1, 1, 0], 2));
    assert_eq!(first(5, 3, PILFilter::Bilinear), (0, vec![8, 6, 0], 14));
    assert_eq!(
        first(5, 3, PILFilter::Hamming),
        (0, vec![983793120562672664, 595216136391941988, 0], 1579009256954614652)
    );
    assert_eq!(
        first(5, 3, PILFilter::Bicubic),
        (
            0,
            vec![2102928825742918680, 1604866735469292945, 0, -110680464476617048, 0],
            3597115096735594577
        )
    );
    assert_eq!(
        first(5, 3, PILFilter::Lanczos),
        (
            0,
            vec![
                1070677941441101368,
                847268174613232908,
                0,
                -129479781673672032,
                31627730561705010
            ],
            1820094064942367254
        )
    );
    let middle = axis_windows(2, 5, PILFilter::Bilinear).swap_remove(2);
    assert_eq!((middle.start, middle.weights, middle.total), (0, vec![5, 5], 10));
}

#[test]
fn equal_extents_copy() {
    for f in FILTERS {
        let wins = axis_windows(4, 4, f);
        for (d, win) in wins.iter().enumerate() {
            assert_eq!(win.start, d);
            assert_eq!(win.weights, vec![1]);
            assert_eq!(win.total, 1);
        }
    }
}
