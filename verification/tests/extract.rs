//! Dominant colours of whole frames.

use std::cell::Cell;

use colorthief::algorithm::Algorithm;
use colorthief::color::{Color, ColorId, Family, Kind};
use colorthief::distance::{Distance, Metric};
use colorthief::dominant::Dominant;
use colorthief::extract::{extract, extract_rgb48, extract_rgb48_with, extract_with};
use colorthief::frame::{Rgb48Frame, RgbFrame};
use colorthief::mmcq::workspace::Mmcq;
use colorthief::palette::Palette;

fn srgb_to_linear(c: f32) -> f32 {
    if c <= 0.04045 {
        c / 12.92
    } else {
        libm::powf((c + 0.055) / 1.055, 2.4)
    }
}

fn lab_f(t: f32) -> f32 {
    if t > 216.0 / 24389.0 {
        libm::cbrtf(t)
    } else {
        841.0 / 108.0 * t + 4.0 / 29.0
    }
}

fn rgb_to_lab(rgb: [u8; 3]) -> [f32; 3] {
    let r = srgb_to_linear(rgb[0] as f32 / 255.0);
    let g = srgb_to_linear(rgb[1] as f32 / 255.0);
    let b = srgb_to_linear(rgb[2] as f32 / 255.0);
    let x = r * 0.4124564 + g * 0.3575761 + b * 0.1804375;
    let y = r * 0.2126729 + g * 0.7151522 + b * 0.072175;
    let z = r * 0.0193339 + g * 0.119192 + b * 0.9503041;
    let (fx, fy, fz) = (lab_f(x / 0.95047), lab_f(y), lab_f(z / 1.08883));
    [116.0 * fy - 16.0, 500.0 * (fx - fy), 200.0 * (fy - fz)]
}

fn delta_e_76_sq(p: [f32; 3], q: [f32; 3]) -> f32 {
    let (dl, da, db) = (q[0] - p[0], q[1] - p[1], q[2] - p[2]);
    (dl * dl + da * da) + db * db
}

fn delta_e_94_sq(p: [f32; 3], q: [f32; 3]) -> f32 {
    let (dl, da, db) = (p[0] - q[0], p[1] - q[1], p[2] - q[2]);
    let c1 = libm::sqrtf(p[1] * p[1] + p[2] * p[2]);
    let c2 = libm::sqrtf(q[1] * q[1] + q[2] * q[2]);
    let dc = c1 - c2;
    let dh = (da * da + db * db - dc * dc).max(0.0);
    let (sc, sh) = (1.0 + 0.045 * c1, 1.0 + 0.015 * c1);
    dl * dl + (dc / sc) * (dc / sc) + dh / (sh * sh)
}

fn hue(y: f32, x: f32) -> f32 {
    if y == 0.0 && x == 0.0 {
        return 0.0;
    }
    let h = libm::atan2f(y, x).to_degrees();
    if h < 0.0 { h + 360.0 } else { h }
}

fn delta_e_2000_sq(p: [f32; 3], q: [f32; 3]) -> f32 {
    let pow7 = |x: f32| x * x * x * x * x * x * x;
    let far = pow7(25.0);
    let c1 = libm::sqrtf(p[1] * p[1] + p[2] * p[2]);
    let c2 = libm::sqrtf(q[1] * q[1] + q[2] * q[2]);
    let cbar7 = pow7(0.5 * (c1 + c2));
    let g = 1.0 + 0.5 * (1.0 - libm::sqrtf(cbar7 / (cbar7 + far)));
    let (a1, a2) = (p[1] * g, q[1] * g);
    let c1 = libm::sqrtf(a1 * a1 + p[2] * p[2]);
    let c2 = libm::sqrtf(a2 * a2 + q[2] * q[2]);
    let (h1, h2) = (hue(p[2], a1), hue(q[2], a2));
    let grey = c1 * c2 == 0.0;
    let turn = h2 - h1;
    let dh = if grey {
        0.0
    } else if turn > 180.0 {
        turn - 360.0
    } else if turn < -180.0 {
        turn + 360.0
    } else {
        turn
    };
    let dh = 2.0 * libm::sqrtf(c1 * c2) * libm::sinf((0.5 * dh).to_radians());
    let (l, c, sum) = (0.5 * (p[0] + q[0]), 0.5 * (c1 + c2), h1 + h2);
    let h = if grey {
        sum
    } else if turn.abs() <= 180.0 {
        0.5 * sum
    } else if sum < 360.0 {
        0.5 * (sum + 360.0)
    } else {
        0.5 * (sum - 360.0)
    };
    let t = 1.0 - 0.17 * libm::cosf((h - 30.0).to_radians())
        + 0.24 * libm::cosf((2.0 * h).to_radians())
        + 0.32 * libm::cosf((3.0 * h + 6.0).to_radians())
        - 0.20 * libm::cosf((4.0 * h - 63.0).to_radians());
    let theta = 30.0 * libm::expf(-((h - 275.0) / 25.0) * ((h - 275.0) / 25.0));
    let rc = 2.0 * libm::sqrtf(pow7(c) / (pow7(c) + far));
    let off = (l - 50.0) * (l - 50.0);
    let dl = (q[0] - p[0]) / (1.0 + 0.015 * off / libm::sqrtf(20.0 + off));
    let dc = (c2 - c1) / (1.0 + 0.045 * c);
    let dh = dh / (1.0 + 0.015 * c * t);
    dl * dl + dc * dc + dh * dh - libm::sinf((2.0 * theta).to_radians()) * rc * dc * dh
}

/// The distance of each entry from a colour, the last colour's LAB kept.
fn measure(labs: Vec<[f32; 3]>) -> impl Fn(Metric, [u8; 3], usize) -> Distance {
    let last = Cell::new(([0u8; 3], rgb_to_lab([0; 3])));
    move |metric, rgb, i| {
        if last.get().0 != rgb {
            last.set((rgb, rgb_to_lab(rgb)));
        }
        let q = last.get().1;
        let d = match metric {
            Metric::DeltaE76 => delta_e_76_sq(labs[i], q),
            Metric::Cie94 => delta_e_94_sq(labs[i], q),
            Metric::Ciede2000 => delta_e_2000_sq(labs[i], q),
        };
        Distance::from_bits(d.to_bits())
    }
}

fn entry(id: u16, name: &'static str, rgb: [u8; 3], family: &'static str) -> Color {
    let lab = rgb_to_lab(rgb);
    Color {
        id: ColorId::new(id),
        name,
        hex: "#000000",
        rgb,
        lab: [lab[0].to_bits(), lab[1].to_bits(), lab[2].to_bits()],
        design_name: name,
        design_hex: "#111111",
        design_rgb: rgb,
        common_name: family,
        common_hex: "#222222",
        common_rgb: rgb,
        family: Family { word: family },
        kind: Kind { word: "plain" },
        is_neutral: family == "gray",
    }
}

fn colors() -> Vec<Color> {
    vec![
        entry(1, "red", [229, 0, 0], "red"),
        entry(2, "bright red", [255, 0, 13], "red"),
        entry(3, "brick red", [143, 20, 2], "red"),
        entry(5, "green", [21, 176, 26], "green"),
        entry(6, "lime green", [137, 254, 5], "green"),
        entry(8, "blue", [3, 67, 223], "blue"),
        entry(9, "pure blue", [2, 3, 226], "blue"),
        entry(10, "royal blue", [5, 4, 170], "blue"),
        entry(12, "grey", [146, 149, 145], "gray"),
        entry(13, "medium grey", [125, 127, 124], "gray"),
        entry(14, "white", [255, 255, 255], "gray"),
        entry(15, "black", [0, 0, 0], "gray"),
        entry(20, "yellow", [255, 255, 20], "yellow"),
        entry(21, "cyan", [0, 255, 255], "blue"),
        entry(22, "magenta", [194, 0, 120], "pink"),
        entry(40, "orange", [249, 115, 6], "orange"),
    ]
}

fn labs(colors: &[Color]) -> Vec<[f32; 3]> {
    colors.iter().map(|c| rgb_to_lab(c.rgb())).collect()
}

fn palette(colors: Vec<Color>) -> Palette {
    match Palette::new(colors, None) {
        Ok(p) => p,
        Err(e) => panic!("refused: {e:?}"),
    }
}

fn is(c: &Color, word: &str) -> bool {
    c.family().as_str().contains(word) || c.name().contains(word)
}

fn solid_color_frame(rgb: [u8; 3], width: u32, height: u32) -> Vec<u8> {
    let mut buf = Vec::with_capacity((width * height) as usize * 3);
    for _ in 0..width * height {
        buf.extend_from_slice(&rgb);
    }
    buf
}

fn solid_color_frame_u16(rgb: [u16; 3], width: u32, height: u32) -> Vec<u16> {
    let mut buf = Vec::with_capacity((width * height) as usize * 3);
    for _ in 0..width * height {
        buf.extend_from_slice(&rgb);
    }
    buf
}

fn striped_palette_frame(palette: &[[u8; 3]], width: u32, height: u32) -> Vec<u8> {
    let total = (width * height) as usize;
    let mut buf = Vec::with_capacity(total * 3);
    for i in 0..total {
        buf.extend_from_slice(&palette[i % palette.len()]);
    }
    buf
}

#[test]
fn extract_on_solid_red_returns_a_red_named_color() {
    let p = palette(colors());
    let dist = measure(labs(Color::all(&p)));
    let buf = solid_color_frame([255, 0, 0], 8, 8);
    let frame = RgbFrame::try_new(&buf, 8, 8, 24).expect("frame");
    let dominants = extract(frame, 5, &p, &dist);
    assert!(!dominants.is_empty(), "expected at least one dominant");
    let top = dominants[0];
    assert!(is(top.color(), "red"), "named {:?}", top.color().name());
    assert!(top.population() > 0, "population must be non-zero");
}

#[test]
fn extract_on_solid_blue_returns_a_blue_named_color() {
    let p = palette(colors());
    let dist = measure(labs(Color::all(&p)));
    let buf = solid_color_frame([0, 0, 255], 8, 8);
    let frame = RgbFrame::try_new(&buf, 8, 8, 24).expect("frame");
    let dominants = extract(frame, 5, &p, &dist);
    assert!(!dominants.is_empty());
    assert!(is(dominants[0].color(), "blue"), "named {:?}", dominants[0].color().name());
}

#[test]
fn extract_count_zero_returns_empty() {
    let p = palette(colors());
    let dist = measure(labs(Color::all(&p)));
    let buf = solid_color_frame([128, 128, 128], 4, 4);
    let frame = RgbFrame::try_new(&buf, 4, 4, 12).expect("frame");
    assert!(extract(frame, 0, &p, &dist).is_empty());
}

#[test]
fn extract_on_red_blue_split_recovers_both_hues() {
    let p = palette(colors());
    let dist = measure(labs(Color::all(&p)));
    let mut buf = Vec::with_capacity(64 * 3);
    for row in 0..8 {
        for _ in 0..8 {
            let rgb = if row < 4 { [255, 0, 0] } else { [0, 0, 255] };
            buf.extend_from_slice(&rgb);
        }
    }
    let frame = RgbFrame::try_new(&buf, 8, 8, 24).expect("frame");
    let dominants = extract(frame, 5, &p, &dist);
    assert!(dominants.len() >= 2);
    assert!(dominants.iter().any(|d| is(d.color(), "red")));
    assert!(dominants.iter().any(|d| is(d.color(), "blue")));
}

#[test]
fn extract_dominants_sorted_by_population_descending() {
    let p = palette(colors());
    let dist = measure(labs(Color::all(&p)));
    let mut buf = Vec::with_capacity(64 * 3);
    for row in 0..8 {
        for _ in 0..8 {
            let rgb = if row < 6 { [255, 0, 0] } else { [0, 0, 255] };
            buf.extend_from_slice(&rgb);
        }
    }
    let frame = RgbFrame::try_new(&buf, 8, 8, 24).expect("frame");
    let dominants = extract(frame, 5, &p, &dist);
    assert!(dominants.len() >= 2);
    for window in dominants.windows(2) {
        assert!(window[0].population() >= window[1].population());
    }
    assert!(is(dominants[0].color(), "red"), "named {:?}", dominants[0].color().name());
}

#[test]
fn extract_count_one_returns_at_most_one() {
    let p = palette(colors());
    let dist = measure(labs(Color::all(&p)));
    let mut buf = Vec::with_capacity(16 * 3);
    for i in 0..16 {
        let rgb = if i < 8 { [255, 0, 0] } else { [0, 0, 255] };
        buf.extend_from_slice(&rgb);
    }
    let frame = RgbFrame::try_new(&buf, 4, 4, 12).expect("frame");
    let dominants = extract(frame, 1, &p, &dist);
    assert!(dominants.len() <= 1, "got {}", dominants.len());
}

#[test]
fn extract_count_3_returns_full_count() {
    let p = palette(colors());
    let dist = measure(labs(Color::all(&p)));
    let palette = [[200u8, 30, 30], [30, 200, 30], [30, 30, 200]];
    let buf = striped_palette_frame(&palette, 8, 8);
    let frame = RgbFrame::try_new(&buf, 8, 8, 24).expect("frame");
    let dominants = extract(frame, 3, &p, &dist);
    assert_eq!(dominants.len(), 3);
    for d in &dominants {
        assert!(d.population() > 0);
    }
}

#[test]
fn extract_count_7_returns_full_count() {
    let p = palette(colors());
    let dist = measure(labs(Color::all(&p)));
    let palette = [
        [200u8, 30, 30],
        [30, 200, 30],
        [30, 30, 200],
        [200, 200, 30],
        [30, 200, 200],
        [200, 30, 200],
        [128, 128, 128],
    ];
    let buf = striped_palette_frame(&palette, 8, 8);
    let frame = RgbFrame::try_new(&buf, 8, 8, 24).expect("frame");
    let dominants = extract(frame, 7, &p, &dist);
    assert_eq!(dominants.len(), 7);
    for d in &dominants {
        assert!(d.population() > 0);
    }
}

#[test]
fn extract_with_count_distinct_colors_returns_full_count() {
    let p = palette(colors());
    let dist = measure(labs(Color::all(&p)));
    let palette: [[u8; 3]; 5] = [
        [10, 200, 10],
        [10, 10, 200],
        [200, 10, 200],
        [10, 200, 200],
        [255, 10, 10],
    ];
    let mut buf = Vec::with_capacity(64 * 3);
    for i in 0..64 {
        let rgb = palette[i % 5];
        buf.extend_from_slice(&rgb);
    }
    let frame = RgbFrame::try_new(&buf, 8, 8, 24).expect("frame");
    let dominants = extract(frame, 5, &p, &dist);
    assert_eq!(dominants.len(), 5);
    for d in &dominants {
        assert!(d.population() > 0, "zero-population dominant: rgb={:?}", d.rgb());
    }
}

#[test]
fn extract_no_zero_population_dominants_below_distinct_color_floor() {
    let p = palette(colors());
    let dist = measure(labs(Color::all(&p)));
    let mut buf = Vec::with_capacity(64 * 3);
    for i in 0..64 {
        let rgb = if i < 32 { [255, 0, 0] } else { [0, 0, 255] };
        buf.extend_from_slice(&rgb);
    }
    let frame = RgbFrame::try_new(&buf, 8, 8, 24).expect("frame");
    let dominants = extract(frame, 5, &p, &dist);
    assert!(dominants.len() <= 2, "got {}", dominants.len());
    for d in &dominants {
        assert!(d.population() > 0);
    }
}

#[test]
fn extract_rgb48_on_solid_red_returns_a_red_named_color() {
    let p = palette(colors());
    let dist = measure(labs(Color::all(&p)));
    let buf = solid_color_frame_u16([0xFF00, 0x0000, 0x0000], 8, 8);
    let frame = Rgb48Frame::try_new(&buf, 8, 8, 24).expect("frame");
    let dominants = extract_rgb48(frame, 5, &p, &dist);
    assert!(!dominants.is_empty(), "expected at least one dominant");
    assert!(is(dominants[0].color(), "red"), "named {:?}", dominants[0].color().name());
}

#[test]
fn extract_rgb48_widened_matches_extract_u8() {
    let p = palette(colors());
    let dist = measure(labs(Color::all(&p)));
    let mut buf_u8 = Vec::with_capacity(64 * 3);
    for i in 0..64 {
        let rgb = match i % 4 {
            0 => [200, 30, 30],
            1 => [30, 30, 200],
            2 => [30, 200, 30],
            _ => [180, 180, 180],
        };
        buf_u8.extend_from_slice(&rgb);
    }
    let buf_u16: Vec<u16> = buf_u8.iter().map(|&b| (b as u16) << 8).collect();

    let frame_u8 = RgbFrame::try_new(&buf_u8, 8, 8, 24).expect("u8 frame");
    let frame_u16 = Rgb48Frame::try_new(&buf_u16, 8, 8, 24).expect("u16 frame");

    let d_u8 = extract(frame_u8, 5, &p, &dist);
    let d_u16 = extract_rgb48(frame_u16, 5, &p, &dist);

    assert_eq!(d_u8.len(), d_u16.len(), "dominant counts must match");
    for (a, b) in d_u8.iter().zip(d_u16.iter()) {
        assert_eq!(a.rgb(), b.rgb());
        assert_eq!(a.population(), b.population(), "populations diverged");
        assert_eq!(a.color().name(), b.color().name());
    }
}

#[test]
fn extract_rgb48_count_zero_returns_empty() {
    let p = palette(colors());
    let dist = measure(labs(Color::all(&p)));
    let buf = solid_color_frame_u16([0x8000, 0x4000, 0x2000], 4, 4);
    let frame = Rgb48Frame::try_new(&buf, 4, 4, 12).expect("frame");
    assert!(extract_rgb48(frame, 0, &p, &dist).is_empty());
}

#[test]
fn mmcq_extract_into_array_buffer_recovers_red() {
    let p = palette(colors());
    let dist = measure(labs(Color::all(&p)));
    let buf = solid_color_frame([200, 50, 50], 8, 8);
    let frame = RgbFrame::try_new(&buf, 8, 8, 24).expect("frame");

    let mut mmcq = Mmcq::new_boxed();
    let mut out: [Option<Dominant>; 5] = [const { None }; 5];
    mmcq.extract(&frame.pixels(), 5, Algorithm::default(), &p, &dist, &mut out);

    let first = out.iter().find_map(|o| o.as_ref()).expect("expected at least one dominant");
    assert!(is(first.color(), "red"), "got {:?}", first.color().name());
    assert!(first.population() > 0);
}

#[test]
fn mmcq_reuse_resets_state_between_calls() {
    let p = palette(colors());
    let dist = measure(labs(Color::all(&p)));
    let mut mmcq = Mmcq::new_boxed();

    let red_buf = solid_color_frame([220, 20, 20], 8, 8);
    let red_frame = RgbFrame::try_new(&red_buf, 8, 8, 24).expect("frame");
    let mut red_out: [Option<Dominant>; 3] = [const { None }; 3];
    mmcq.extract(&red_frame.pixels(), 3, Algorithm::default(), &p, &dist, &mut red_out);
    let red_first = red_out.iter().find_map(|o| o.as_ref()).expect("red dominant");
    assert!(is(red_first.color(), "red"));

    let blue_buf = solid_color_frame([20, 20, 220], 8, 8);
    let blue_frame = RgbFrame::try_new(&blue_buf, 8, 8, 24).expect("frame");
    let mut blue_out: [Option<Dominant>; 3] = [const { None }; 3];
    mmcq.extract(&blue_frame.pixels(), 3, Algorithm::default(), &p, &dist, &mut blue_out);
    let blue_first = blue_out.iter().find_map(|o| o.as_ref()).expect("blue dominant");
    assert!(is(blue_first.color(), "blue"), "got {:?}", blue_first.color().name());
}

#[test]
fn a_solid_frame_has_one_dominant_that_covers_it() {
    let p = palette(colors());
    let dist = measure(labs(Color::all(&p)));
    for rgb in [[0u8, 0, 0], [255, 255, 255], [7, 8, 250], [100, 200, 50]] {
        let buf = solid_color_frame(rgb, 5, 3);
        let frame = RgbFrame::try_new(&buf, 5, 3, 15).expect("frame");
        for count in [1u8, 2, 5, 255] {
            let dominants = extract_with(frame, count, Algorithm::DeltaE76, &p, &dist);
            assert_eq!(dominants.len(), 1);
            assert_eq!(dominants[0].rgb(), rgb.map(|c| (c >> 3) * 8 + 4));
            assert_eq!(dominants[0].population(), 15);
            assert_eq!(dominants[0].percentage(), (1500, 15));
        }
    }
}

#[test]
fn dominants_share_out_the_pixels_of_the_frame() {
    let p = palette(colors());
    let dist = measure(labs(Color::all(&p)));
    let buf: Vec<u8> = (0..16u32 * 16 * 3).map(|i| (i * 37 % 251) as u8).collect();
    let frame = RgbFrame::try_new(&buf, 16, 16, 48).expect("frame");
    for count in [2u8, 3, 8, 40] {
        let dominants = extract(frame, count, &p, &dist);
        assert!(dominants.len() <= count as usize);
        let covered: u32 = dominants.iter().map(|d| d.population()).sum();
        assert_eq!(covered, 256, "count {count}");
        for d in &dominants {
            assert_eq!(d.percentage(), (100 * d.population() as u64, 256));
        }
    }
}

#[test]
fn every_dominant_is_named_by_the_algorithm() {
    let p = palette(colors());
    let dist = measure(labs(Color::all(&p)));
    let wide: Vec<u16> = (0..8u32 * 8 * 3).map(|i| (i * 2971 % 65_521) as u16).collect();
    for algo in [Algorithm::DeltaE76, Algorithm::Cie94, Algorithm::Ciede2000Exact] {
        let frame = Rgb48Frame::try_new(&wide, 8, 8, 24).expect("frame");
        for d in extract_rgb48_with(frame, 6, algo, &p, &dist) {
            assert_eq!(d.color().name(), algo.extract(d.rgb(), &p, &dist).name());
        }
    }
}

#[test]
fn the_algorithm_decides_the_names_only() {
    let p = palette(colors());
    let dist = measure(labs(Color::all(&p)));
    let buf: Vec<u8> = (0..16u32 * 16 * 3).map(|i| (i * 2971 % 251) as u8).collect();
    let frame = || RgbFrame::try_new(&buf, 16, 16, 48).expect("frame");
    for (a, b) in [
        (Algorithm::DeltaE76, Algorithm::Ciede2000),
        (Algorithm::Cie94, Algorithm::Ciede2000Exact),
    ] {
        let one = extract_with(frame(), 9, a, &p, &dist);
        let other = extract_with(frame(), 9, b, &p, &dist);
        assert_eq!(one.len(), 9);
        assert_eq!(one.len(), other.len());
        for (x, y) in one.iter().zip(&other) {
            assert_eq!(x.rgb(), y.rgb());
            assert_eq!(x.population(), y.population());
            assert_eq!(x.percentage(), y.percentage());
            assert_eq!(x.color(), a.extract(x.rgb(), &p, &dist));
            assert_eq!(y.color(), b.extract(y.rgb(), &p, &dist));
        }
    }
}

#[test]
fn a_frame_with_its_samples_as_upper_bytes_gives_the_same() {
    let p = palette(colors());
    let dist = measure(labs(Color::all(&p)));
    let buf: Vec<u8> = (0..16u32 * 16 * 3).map(|i| (i * 1543 % 253) as u8).collect();
    let wide: Vec<u16> = buf.iter().map(|&v| (v as u16) * 256 + 7 * (v as u16 % 30)).collect();
    let narrow_frame = RgbFrame::try_new(&buf, 16, 16, 48).expect("frame");
    let wide_frame = Rgb48Frame::try_new(&wide, 16, 16, 48).expect("frame");
    let one = extract(narrow_frame, 7, &p, &dist);
    let other = extract_rgb48(wide_frame, 7, &p, &dist);
    assert_eq!(one.len(), 7);
    assert_eq!(one, other);
}
