//! Palettes: ids, nearest entries, candidate tables.

use std::cell::Cell;

use colorthief::algorithm::Algorithm;
use colorthief::color::{Color, ColorId, Family, Kind};
use colorthief::distance::{Distance, Metric};
use colorthief::nearest::lanes::nearest_idx_lanes;
use colorthief::nearest::lut::{
    Lut, N_CELLS, cell_candidates, compute_lut, nearest_idx_in_cell,
};
use colorthief::nearest::prefilter::{PREFILTER_K, nearest_idx_prefiltered};
use colorthief::nearest::scan::nearest_idx;
use colorthief::palette::{Palette, PaletteError, index_by_id};

fn srgb_to_linear(c: f32) -> f32 {
    if c <= 0.04045 {
        c / 12.92
    } else {
        libm::powf((c + 0.055) / 1.055, 2.4)
    }
}

fn lab_f(t: f32) -> f32 {
    if t > 216.0 / 24389.0 {
        libm::cbrtf(t)
    } else {
        841.0 / 108.0 * t + 4.0 / 29.0
    }
}

fn rgb_to_lab(rgb: [u8; 3]) -> [f32; 3] {
    let r = srgb_to_linear(rgb[0] as f32 / 255.0);
    let g = srgb_to_linear(rgb[1] as f32 / 255.0);
    let b = srgb_to_linear(rgb[2] as f32 / 255.0);
    let x = r * 0.4124564 + g * 0.3575761 + b * 0.1804375;
    let y = r * 0.2126729 + g * 0.7151522 + b * 0.072175;
    let z = r * 0.0193339 + g * 0.119192 + b * 0.9503041;
    let (fx, fy, fz) = (lab_f(x / 0.95047), lab_f(y), lab_f(z / 1.08883));
    [116.0 * fy - 16.0, 500.0 * (fx - fy), 200.0 * (fy - fz)]
}

fn delta_e_76_sq(p: [f32; 3], q: [f32; 3]) -> f32 {
    let (dl, da, db) = (q[0] - p[0], q[1] - p[1], q[2] - p[2]);
    (dl * dl + da * da) + db * db
}

fn delta_e_94_sq(p: [f32; 3], q: [f32; 3]) -> f32 {
    let (dl, da, db) = (p[0] - q[0], p[1] - q[1], p[2] - q[2]);
    let c1 = libm::sqrtf(p[1] * p[1] + p[2] * p[2]);
    let c2 = libm::sqrtf(q[1] * q[1] + q[2] * q[2]);
    let dc = c1 - c2;
    let dh = (da * da + db * db - dc * dc).max(0.0);
    let (sc, sh) = (1.0 + 0.045 * c1, 1.0 + 0.015 * c1);
    dl * dl + (dc / sc) * (dc / sc) + dh / (sh * sh)
}

fn hue(y: f32, x: f32) -> f32 {
    if y == 0.0 && x == 0.0 {
        return 0.0;
    }
    let h = libm::atan2f(y, x).to_degrees();
    if h < 0.0 { h + 360.0 } else { h }
}

fn delta_e_2000_sq(p: [f32; 3], q: [f32; 3]) -> f32 {
    let pow7 = |x: f32| x * x * x * x * x * x * x;
    let far = pow7(25.0);
    let c1 = libm::sqrtf(p[1] * p[1] + p[2] * p[2]);
    let c2 = libm::sqrtf(q[1] * q[1] + q[2] * q[2]);
    let cbar7 = pow7(0.5 * (c1 + c2));
    let g = 1.0 + 0.5 * (1.0 - libm::sqrtf(cbar7 / (cbar7 + far)));
    let (a1, a2) = (p[1] * g, q[1] * g);
    let c1 = libm::sqrtf(a1 * a1 + p[2] * p[2]);
    let c2 = libm::sqrtf(a2 * a2 + q[2] * q[2]);
    let (h1, h2) = (hue(p[2], a1), hue(q[2], a2));
    let grey = c1 * c2 == 0.0;
    let turn = h2 - h1;
    let dh = if grey {
        0.0
    } else if turn > 180.0 {
        turn - 360.0
    } else if turn < -180.0 {
        turn + 360.0
    } else {
        turn
    };
    let dh = 2.0 * libm::sqrtf(c1 * c2) * libm::sinf((0.5 * dh).to_radians());
    let (l, c, sum) = (0.5 * (p[0] + q[0]), 0.5 * (c1 + c2), h1 + h2);
    let h = if grey {
        sum
    } else if turn.abs() <= 180.0 {
        0.5 * sum
    } else if sum < 360.0 {
        0.5 * (sum + 360.0)
    } else {
        0.5 * (sum - 360.0)
    };
    let t = 1.0 - 0.17 * libm::cosf((h - 30.0).to_radians())
        + 0.24 * libm::cosf((2.0 * h).to_radians())
        + 0.32 * libm::cosf((3.0 * h + 6.0).to_radians())
        - 0.20 * libm::cosf((4.0 * h - 63.0).to_radians());
    let theta = 30.0 * libm::expf(-((h - 275.0) / 25.0) * ((h - 275.0) / 25.0));
    let rc = 2.0 * libm::sqrtf(pow7(c) / (pow7(c) + far));
    let off = (l - 50.0) * (l - 50.0);
    let dl = (q[0] - p[0]) / (1.0 + 0.015 * off / libm::sqrtf(20.0 + off));
    let dc = (c2 - c1) / (1.0 + 0.045 * c);
    let dh = dh / (1.0 + 0.015 * c * t);
    dl * dl + dc * dc + dh * dh - libm::sinf((2.0 * theta).to_radians()) * rc * dc * dh
}

/// The distance of each entry from a colour, the last colour's LAB kept.
fn measure(labs: Vec<[f32; 3]>) -> impl Fn(Metric, [u8; 3], usize) -> Distance {
    let last = Cell::new(([0u8; 3], rgb_to_lab([0; 3])));
    move |metric, rgb, i| {
        if last.get().0 != rgb {
            last.set((rgb, rgb_to_lab(rgb)));
        }
        let q = last.get().1;
        let d = match metric {
            Metric::DeltaE76 => delta_e_76_sq(labs[i], q),
            Metric::Cie94 => delta_e_94_sq(labs[i], q),
            Metric::Ciede2000 => delta_e_2000_sq(labs[i], q),
        };
        Distance::from_bits(d.to_bits())
    }
}

fn entry(id: u16, name: &'static str, rgb: [u8; 3], family: &'static str) -> Color {
    let lab = rgb_to_lab(rgb);
    Color {
        id: ColorId::new(id),
        name,
        hex: "#000000",
        rgb,
        lab: [lab[0].to_bits(), lab[1].to_bits(), lab[2].to_bits()],
        design_name: name,
        design_hex: "#111111",
        design_rgb: rgb,
        common_name: family,
        common_hex: "#222222",
        common_rgb: rgb,
        family: Family { word: family },
        kind: Kind { word: "plain" },
        is_neutral: family == "gray",
    }
}

fn colors() -> Vec<Color> {
    vec![
        entry(1, "red", [229, 0, 0], "red"),
        entry(2, "bright red", [255, 0, 13], "red"),
        entry(3, "brick red", [143, 20, 2], "red"),
        entry(5, "green", [21, 176, 26], "green"),
        entry(6, "lime green", [137, 254, 5], "green"),
        entry(8, "blue", [3, 67, 223], "blue"),
        entry(9, "pure blue", [2, 3, 226], "blue"),
        entry(10, "royal blue", [5, 4, 170], "blue"),
        entry(12, "grey", [146, 149, 145], "gray"),
        entry(13, "medium grey", [125, 127, 124], "gray"),
        entry(14, "white", [255, 255, 255], "gray"),
        entry(15, "black", [0, 0, 0], "gray"),
        entry(20, "yellow", [255, 255, 20], "yellow"),
        entry(21, "cyan", [0, 255, 255], "blue"),
        entry(22, "magenta", [194, 0, 120], "pink"),
        entry(40, "orange", [249, 115, 6], "orange"),
    ]
}

fn labs(colors: &[Color]) -> Vec<[f32; 3]> {
    colors.iter().map(|c| rgb_to_lab(c.rgb())).collect()
}

fn palette(colors: Vec<Color>) -> Palette {
    match Palette::new(colors, None) {
        Ok(p) => p,
        Err(e) => panic!("refused: {e:?}"),
    }
}

fn reddish(c: &Color) -> bool {
    c.family().as_str().contains("red") || c.name().contains("red")
}

#[test]
fn nearest_to_pure_red_is_in_red_family() {
    let p = palette(colors());
    let dist = measure(labs(Color::all(&p)));
    assert!(reddish(Color::nearest_to([255, 0, 0], &p, &dist)));
}

#[test]
fn nearest_to_pure_blue_is_in_blue_family() {
    let p = palette(colors());
    let dist = measure(labs(Color::all(&p)));
    let c = Color::nearest_to([0, 0, 255], &p, &dist);
    assert!(c.family().as_str().contains("blue") || c.name().contains("blue"));
}

#[test]
fn nearest_to_mid_gray_is_neutral() {
    let p = palette(colors());
    let dist = measure(labs(Color::all(&p)));
    let c = Color::nearest_to([128, 128, 128], &p, &dist);
    assert!(c.is_neutral(), "nearest was {:?}", c.name());
    assert_eq!(c.name(), "medium grey");
}

#[test]
fn nearest_to_delta_e_76_returns_red_for_solid_red() {
    let p = palette(colors());
    let dist = measure(labs(Color::all(&p)));
    assert!(reddish(Color::nearest_to([255, 0, 0], &p, &dist)));
}

#[test]
fn nearest_to_cie94_returns_red_for_solid_red() {
    let p = palette(colors());
    let dist = measure(labs(Color::all(&p)));
    assert!(reddish(Color::nearest_to_cie94([255, 0, 0], &p, &dist)));
}

#[test]
fn nearest_to_ciede2000_returns_red_for_solid_red() {
    let p = palette(colors());
    let dist = measure(labs(Color::all(&p)));
    assert!(reddish(Color::nearest_to_ciede2000([255, 0, 0], &p, &dist)));
}

#[test]
fn nearest_to_ciede2000_exact_returns_red_for_solid_red() {
    let p = palette(colors());
    let dist = measure(labs(Color::all(&p)));
    assert!(reddish(Color::nearest_to_ciede2000_exact([255, 0, 0], &p, &dist)));
}

#[test]
fn dispatcher_consistent_across_extreme_rgbs() {
    let p = palette(colors());
    let dist = measure(labs(Color::all(&p)));
    for rgb in [
        [0, 0, 0],
        [255, 255, 255],
        [255, 0, 0],
        [0, 255, 0],
        [0, 0, 255],
        [128, 128, 128],
        [255, 255, 0],
        [0, 255, 255],
        [255, 0, 255],
    ] {
        assert!(!Color::nearest_to(rgb, &p, &dist).name().is_empty());
        assert!(!Color::nearest_to_cie94(rgb, &p, &dist).name().is_empty());
        assert!(!Color::nearest_to_ciede2000(rgb, &p, &dist).name().is_empty());
    }
}

#[test]
fn algorithm_extract_exercises_each_variant() {
    let p = palette(colors());
    let dist = measure(labs(Color::all(&p)));
    for algo in [
        Algorithm::DeltaE76,
        Algorithm::Cie94,
        Algorithm::Ciede2000,
        Algorithm::Ciede2000Exact,
    ] {
        let c = algo.extract([200, 50, 50], &p, &dist);
        assert!(!c.name().is_empty(), "{algo:?} returned empty name");
    }
}

#[test]
fn algorithm_extract_matches_color_helpers() {
    let p = palette(colors());
    let dist = measure(labs(Color::all(&p)));
    let rgb = [123, 45, 67];
    assert_eq!(
        Algorithm::DeltaE76.extract(rgb, &p, &dist).name(),
        Color::nearest_to(rgb, &p, &dist).name(),
    );
    assert_eq!(
        Algorithm::Cie94.extract(rgb, &p, &dist).name(),
        Color::nearest_to_cie94(rgb, &p, &dist).name(),
    );
    assert_eq!(
        Algorithm::Ciede2000.extract(rgb, &p, &dist).name(),
        Color::nearest_to_ciede2000(rgb, &p, &dist).name(),
    );
    assert_eq!(
        Algorithm::Ciede2000Exact.extract(rgb, &p, &dist).name(),
        Color::nearest_to_ciede2000_exact(rgb, &p, &dist).name(),
    );
}

#[test]
fn dataset_is_non_empty() {
    let p = palette(colors());
    assert!(!Color::all(&p).is_empty());
    assert!(Palette::new(Vec::new(), None).is_err());
}

#[test]
fn color_accessors_round_trip() {
    let p = palette(colors());
    let all = Color::all(&p);
    assert_eq!(all.len(), p.len());
    let c = &all[5];
    assert_eq!(c.id(), ColorId::new(8));
    assert_eq!(c.name(), "blue");
    assert_eq!(c.hex(), "#000000");
    assert_eq!(c.rgb(), [3, 67, 223]);
    assert_eq!(c.lab().map(f32::from_bits), rgb_to_lab([3, 67, 223]));
    assert_eq!(c.design_name(), "blue");
    assert_eq!(c.design_hex(), "#111111");
    assert_eq!(c.design_rgb(), [3, 67, 223]);
    assert_eq!(c.common_name(), "blue");
    assert_eq!(c.common_hex(), "#222222");
    assert_eq!(c.common_rgb(), [3, 67, 223]);
    assert_eq!(c.family(), Family { word: "blue" });
    assert_eq!(c.kind().as_str(), "plain");
    assert!(!c.is_neutral());
}

#[test]
fn from_id_round_trips_every_entry() {
    let p = palette(colors());
    for entry in Color::all(&p) {
        let back = Color::from_id(entry.id(), &p).expect("carried");
        assert!(std::ptr::eq(back, entry), "id {} resolved elsewhere", entry.id().to_string());
    }
}

#[test]
fn from_id_is_total_over_u16() {
    let p = palette(colors());
    for raw in 0..=u16::MAX {
        let carried = Color::all(&p).iter().find(|c| c.id().get() == raw);
        assert_eq!(
            Color::from_id(ColorId::new(raw), &p).map(|c| c.name()),
            carried.map(|c| c.name()),
        );
    }
}

#[test]
fn id_zero_is_never_assigned() {
    let p = palette(colors());
    assert!(Color::from_id(ColorId::new(0), &p).is_none());
    for entry in Color::all(&p) {
        assert_ne!(entry.id().get(), 0);
    }
}

#[test]
fn every_palette_refusal_has_an_input() {
    let refused = |colors: Vec<Color>, lut: Option<Lut>| match Palette::new(colors, lut) {
        Ok(_) => panic!("accepted"),
        Err(e) => e,
    };
    assert_eq!(refused(Vec::new(), None), PaletteError::Empty);
    assert_eq!(
        refused(vec![entry(0, "a", [0; 3], "x")], None),
        PaletteError::ReservedId,
    );
    assert_eq!(
        refused(vec![entry(7, "a", [0; 3], "x"), entry(7, "b", [1; 3], "x")], None),
        PaletteError::DuplicateId(7),
    );
    let short = Lut::assemble(&[vec![0u16]]).expect("table");
    assert_eq!(
        refused(vec![entry(7, "a", [0; 3], "x")], Some(short)),
        PaletteError::UnusableTable,
    );
}

#[test]
fn the_id_table_places_every_id() {
    assert_eq!(
        index_by_id(&[3, 1]),
        Ok(vec![None, Some(1), None, Some(0)]),
    );
    assert_eq!(index_by_id(&[]), Ok(vec![None]));
    assert_eq!(index_by_id(&[2, 0, 2]), Err(PaletteError::ReservedId));
    assert_eq!(index_by_id(&[2, 5, 2]), Err(PaletteError::DuplicateId(2)));
}

#[test]
fn the_first_of_equal_entries_is_the_nearest() {
    let far = |_: Metric, _: [u8; 3], i: usize| {
        let d: f32 = [4.0, 2.0, 2.0, f32::NAN, 3.0][i];
        Distance::from_bits(d.to_bits())
    };
    assert_eq!(nearest_idx(Metric::Cie94, [0; 3], 5, &far), 1);
    let nowhere = |_: Metric, _: [u8; 3], _: usize| Distance::from_bits(f32::NAN.to_bits());
    assert_eq!(nearest_idx(Metric::Cie94, [0; 3], 5, &nowhere), 0);
}

#[test]
fn an_entry_is_nearest_to_its_own_color() {
    let p = palette(colors());
    let dist = measure(labs(Color::all(&p)));
    for entry in Color::all(&p) {
        for algo in [Algorithm::DeltaE76, Algorithm::Cie94, Algorithm::Ciede2000] {
            assert_eq!(algo.extract(entry.rgb(), &p, &dist).name(), entry.name());
        }
    }
}

#[test]
fn prefilter_matches_full_scan_across_grid() {
    let mut cube: Vec<[f32; 3]> = Vec::new();
    for r in [0u8, 51, 102, 153, 255] {
        for g in [0u8, 51, 102, 153, 255] {
            for b in [0u8, 51, 102, 153, 255] {
                cube.push(rgb_to_lab([r, g, b]));
            }
        }
    }
    let n = cube.len();
    assert!(n > PREFILTER_K);
    let dist = measure(cube);
    let mut mismatches: Vec<([u8; 3], usize, usize)> = Vec::new();
    for r in (0..256u32).step_by(16) {
        for g in (0..256u32).step_by(16) {
            for b in (0..256u32).step_by(16) {
                let rgb = [r as u8, g as u8, b as u8];
                let exact = nearest_idx(Metric::Ciede2000, rgb, n, &dist);
                let prefiltered = nearest_idx_prefiltered(rgb, n, &dist);
                if exact != prefiltered {
                    mismatches.push((rgb, exact, prefiltered));
                }
            }
        }
    }
    assert!(mismatches.is_empty(), "{mismatches:?}");
}

#[test]
fn the_prefilter_can_miss_an_entry_that_it_does_not_list() {
    let n = PREFILTER_K + 1;
    let dist = |metric: Metric, _: [u8; 3], i: usize| {
        let d: f32 = match metric {
            Metric::DeltaE76 => i as f32,
            _ => (1000 - i) as f32,
        };
        Distance::from_bits(d.to_bits())
    };
    assert_eq!(nearest_idx(Metric::Ciede2000, [0; 3], n, &dist), PREFILTER_K);
    assert_eq!(nearest_idx_prefiltered([0; 3], n, &dist), PREFILTER_K - 1);
}

#[test]
fn a_candidate_table_lists_winners_and_agrees_with_the_full_search() {
    let mine = colors();
    let n = mine.len();
    let dist = measure(labs(&mine));
    let sampled = [0usize, 31, 0x1f << 5, 0x1f << 10, (16 << 10) | (16 << 5) | 16, N_CELLS - 1];
    let mut cells: Vec<Vec<u16>> = vec![vec![0]; N_CELLS];
    for cell in sampled {
        cells[cell] = cell_candidates(cell, n, &dist);
        assert!(cells[cell].windows(2).all(|w| w[0] < w[1]), "ascending, each once");
    }
    let lut = Lut::assemble(&cells).expect("table");
    assert!(lut.check(n));
    assert!(!lut.check(0));
    assert_eq!(lut.offsets().len(), N_CELLS + 1);
    assert_eq!(lut.offsets()[0], 0);
    assert_eq!(lut.indices().len(), lut.offsets()[N_CELLS] as usize);
    for cell in sampled {
        let base = [
            ((cell >> 10) << 3) as u8,
            (((cell >> 5) & 31) << 3) as u8,
            ((cell & 31) << 3) as u8,
        ];
        for (dr, dg, db) in [(0, 0, 0), (7, 7, 7), (3, 0, 5), (0, 6, 1)] {
            let rgb = [base[0] + dr, base[1] + dg, base[2] + db];
            assert_eq!(
                nearest_idx_in_cell(&lut, rgb, n, &dist),
                nearest_idx(Metric::Ciede2000, rgb, n, &dist),
                "{rgb:?}",
            );
        }
    }
    let p = match Palette::new(mine, Some(lut)) {
        Ok(p) => p,
        Err(e) => panic!("refused: {e:?}"),
    };
    assert_eq!(
        Color::nearest_to_ciede2000([255, 255, 255], &p, &dist).name(),
        "white",
    );
}

#[test]
fn the_computed_table_agrees_with_the_full_search() {
    let dist = |_: Metric, rgb: [u8; 3], i: usize| {
        let light = rgb[0] as u32 + rgb[1] as u32 + rgb[2] as u32;
        let far = if i == 0 { light } else { 765 - light };
        Distance::from_bits((far as f32).to_bits())
    };
    let lut = compute_lut(2, &dist);
    assert!(lut.check(2));
    assert_eq!(lut.indices()[0], 0);
    assert_eq!(lut.indices()[lut.indices().len() - 1], 1);
    for rgb in [[0, 0, 0], [127, 128, 127], [128, 128, 127], [127, 127, 128], [255, 0, 127]] {
        assert_eq!(
            nearest_idx_in_cell(&lut, rgb, 2, &dist),
            nearest_idx(Metric::Ciede2000, rgb, 2, &dist),
        );
    }
}

fn parity_grid() -> Vec<[u8; 3]> {
    let mut grid = Vec::new();
    for r in (0..256u32).step_by(16) {
        for g in (0..256u32).step_by(16) {
            for b in (0..256u32).step_by(16) {
                grid.push([r as u8, g as u8, b as u8]);
            }
        }
    }
    grid
}

fn mismatches<const LANES: usize>(metric: Metric) -> Vec<([u8; 3], usize, usize)> {
    let labs = labs(&colors());
    let n = labs.len();
    let dist = measure(labs);
    let mut found = Vec::new();
    for rgb in parity_grid() {
        let scalar = nearest_idx(metric, rgb, n, &dist);
        let lanes = nearest_idx_lanes::<LANES, _>(metric, rgb, n, &dist);
        if scalar != lanes {
            found.push((rgb, scalar, lanes));
        }
    }
    found
}

#[test]
fn neon_and_scalar_agree_across_grid() {
    assert_eq!(mismatches::<4>(Metric::DeltaE76), vec![]);
}

#[test]
fn sse41_and_scalar_agree_across_grid() {
    assert_eq!(mismatches::<4>(Metric::DeltaE76), vec![]);
}

#[test]
fn lanes_and_scalar_agree_by_cie94() {
    assert_eq!(mismatches::<4>(Metric::Cie94), vec![]);
    assert_eq!(mismatches::<8>(Metric::Cie94), vec![]);
}

#[test]
fn ids_are_ordered_by_their_numbers() {
    let ids = [0u16, 1, 9, 10, 949, u16::MAX];
    for a in ids {
        assert_eq!(ColorId::new(a).get(), a);
        for b in ids {
            assert_eq!(ColorId::new(a) < ColorId::new(b), a < b);
            assert_eq!(ColorId::new(a) <= ColorId::new(b), a <= b);
            assert_eq!(ColorId::new(a) == ColorId::new(b), a == b);
            assert_eq!(ColorId::new(a).cmp(&ColorId::new(b)), a.cmp(&b));
            assert_eq!(ColorId::new(a).partial_cmp(&ColorId::new(b)), Some(a.cmp(&b)));
        }
    }
}

#[test]
fn both_ciede2000_algorithms_return_the_same_entry() {
    let p = palette(colors());
    let dist = measure(labs(Color::all(&p)));
    for k in 0..200u32 {
        let rgb = [(k * 37 % 256) as u8, (k * 91 % 256) as u8, (k * 151 % 256) as u8];
        let one = Algorithm::Ciede2000.extract(rgb, &p, &dist);
        assert_eq!(one, Algorithm::Ciede2000Exact.extract(rgb, &p, &dist));
        assert_eq!(one, Color::nearest_to_ciede2000(rgb, &p, &dist));
        let two = Algorithm::DeltaE76.extract(rgb, &p, &dist);
        assert_eq!(two, Color::nearest_to(rgb, &p, &dist));
        let three = Algorithm::Cie94.extract(rgb, &p, &dist);
        assert_eq!(three, Color::nearest_to_cie94(rgb, &p, &dist));
    }
}

#[test]
fn avx2_and_scalar_agree_across_grid() {
    assert_eq!(mismatches::<8>(Metric::DeltaE76), vec![]);
}

#[test]
fn wasm_simd128_and_scalar_agree_across_grid() {
    assert_eq!(mismatches::<4>(Metric::DeltaE76), vec![]);
}

#[test]
fn lanes_that_do_not_divide_the_palette_leave_no_entry_out() {
    let n = 11usize;
    for at in 0..n {
        let dist = |_: Metric, _: [u8; 3], i: usize| {
            let d: f32 = if i == at { 1.0 } else { 2.0 };
            Distance::from_bits(d.to_bits())
        };
        assert_eq!(nearest_idx_lanes::<4, _>(Metric::Cie94, [0; 3], n, &dist), at);
        assert_eq!(nearest_idx_lanes::<16, _>(Metric::Cie94, [0; 3], n, &dist), at);
        assert_eq!(nearest_idx_lanes::<1, _>(Metric::Cie94, [0; 3], n, &dist), at);
    }
}
