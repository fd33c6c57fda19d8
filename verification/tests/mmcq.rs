//! Quantization: histogram, boxes, cuts, sums.

use colorthief::algorithm::Algorithm;
use colorthief::color::{Color, ColorId, Family, Kind};
use colorthief::distance::{Distance, Metric};
use colorthief::dominant::Dominant;
use colorthief::extract::quantize;
use colorthief::frame::RgbFrame;
use colorthief::mmcq::arena::{BoxArena, MAX_BOXES};
use colorthief::mmcq::cut::median_cut;
use colorthief::mmcq::histogram::{build_histogram, initial_vbox};
use colorthief::mmcq::order::Rank;
use colorthief::mmcq::simd;
use colorthief::mmcq::space::HISTO_SIZE;
use colorthief::mmcq::split::iterate_split;
use colorthief::mmcq::vbox::{VBox, histo_index};
use colorthief::mmcq::workspace::Mmcq;
use colorthief::palette::Palette;

fn make_frame(width: u32, height: u32, pixels: &[[u8; 3]]) -> Vec<u8> {
    assert_eq!(pixels.len() as u32, width * height);
    let mut buf = Vec::with_capacity(pixels.len() * 3);
    for p in pixels {
        buf.extend_from_slice(p);
    }
    buf
}

fn entry(id: u16, name: &'static str, rgb: [u8; 3]) -> Color {
    Color {
        id: ColorId::new(id),
        name,
        hex: "#000000",
        rgb,
        lab: [0; 3],
        design_name: name,
        design_hex: "#000000",
        design_rgb: rgb,
        common_name: name,
        common_hex: "#000000",
        common_rgb: rgb,
        family: Family { word: name },
        kind: Kind { word: "plain" },
        is_neutral: false,
    }
}

const NAMED: [(&str, [u8; 3]); 4] = [
    ("red", [255, 0, 0]),
    ("green", [0, 255, 0]),
    ("blue", [0, 0, 255]),
    ("gray", [128, 128, 128]),
];

fn palette() -> Palette {
    let colors: Vec<Color> = NAMED
        .iter()
        .enumerate()
        .map(|(i, &(name, rgb))| entry(i as u16 + 1, name, rgb))
        .collect();
    match Palette::new(colors, None) {
        Ok(p) => p,
        Err(e) => panic!("refused: {e:?}"),
    }
}

fn dist(_: Metric, rgb: [u8; 3], i: usize) -> Distance {
    let far: f32 = (0..3)
        .map(|c| {
            let d = rgb[c] as f32 - NAMED[i].1[c] as f32;
            d * d
        })
        .sum();
    Distance::from_bits(far.to_bits())
}

#[test]
fn solid_red_frame_yields_a_red_dominant() {
    let p = palette();
    let pixels = vec![[255, 0, 0]; 16];
    let buf = make_frame(4, 4, &pixels);
    let frame = RgbFrame::try_new(&buf, 4, 4, 12).expect("frame");
    let dominants = quantize(&frame.pixels(), 5, Algorithm::default(), &p, &dist);
    assert!(!dominants.is_empty(), "MMCQ produced zero dominants");
    let top = &dominants[0];
    assert!(top.rgb()[0] > 200, "expected R>200, got {:?}", top.rgb());
    assert!(top.rgb()[1] < 30, "expected G<30, got {:?}", top.rgb());
    assert!(top.rgb()[2] < 30, "expected B<30, got {:?}", top.rgb());
}

#[test]
fn solid_white_recovered_at_bin_center() {
    let p = palette();
    let pixels = vec![[255u8, 255, 255]; 16];
    let buf = make_frame(4, 4, &pixels);
    let frame = RgbFrame::try_new(&buf, 4, 4, 12).expect("frame");
    let dominants = quantize(&frame.pixels(), 5, Algorithm::default(), &p, &dist);
    assert_eq!(dominants[0].rgb(), [252, 252, 252], "expected bin-center white");
}

#[test]
fn solid_black_recovered_at_bin_center() {
    let p = palette();
    let pixels = vec![[0u8, 0, 0]; 16];
    let buf = make_frame(4, 4, &pixels);
    let frame = RgbFrame::try_new(&buf, 4, 4, 12).expect("frame");
    let dominants = quantize(&frame.pixels(), 5, Algorithm::default(), &p, &dist);
    assert_eq!(dominants[0].rgb(), [4, 4, 4], "expected bin-center black");
}

#[test]
fn bin_edge_inputs_collapse_to_bin_center() {
    let p = palette();
    for value in [8u8, 15u8] {
        let pixels = vec![[value; 3]; 16];
        let buf = make_frame(4, 4, &pixels);
        let frame = RgbFrame::try_new(&buf, 4, 4, 12).expect("frame");
        let dominants = quantize(&frame.pixels(), 5, Algorithm::default(), &p, &dist);
        assert_eq!(dominants[0].rgb(), [12, 12, 12], "input [{value};3]");
    }
}

#[test]
fn checkerboard_red_blue_yields_two_dominants() {
    let p = palette();
    let red = [255, 0, 0];
    let blue = [0, 0, 255];
    let mut pixels = Vec::with_capacity(16);
    for i in 0..16 {
        pixels.push(if i % 2 == 0 { red } else { blue });
    }
    let buf = make_frame(4, 4, &pixels);
    let frame = RgbFrame::try_new(&buf, 4, 4, 12).expect("frame");
    let dominants = quantize(&frame.pixels(), 5, Algorithm::default(), &p, &dist);
    assert!(dominants.len() >= 2, "expected at least 2 dominants, got {}", dominants.len());
    assert!(dominants.iter().any(|d| d.rgb()[0] > 200 && d.rgb()[2] < 50));
    assert!(dominants.iter().any(|d| d.rgb()[2] > 200 && d.rgb()[0] < 50));
}

#[test]
fn padded_stride_is_respected() {
    let p = palette();
    let mut buf = Vec::new();
    buf.extend_from_slice(&[255, 0, 0, 255, 0, 0, 0xFF, 0xFF]);
    buf.extend_from_slice(&[255, 0, 0, 255, 0, 0, 0xFF, 0xFF]);
    let frame = RgbFrame::try_new(&buf, 2, 2, 8).expect("frame with padding");
    let dominants = quantize(&frame.pixels(), 5, Algorithm::default(), &p, &dist);
    let top = &dominants[0];
    assert!(
        top.rgb()[0] > 200 && top.rgb()[1] < 30 && top.rgb()[2] < 30,
        "padding leaked into the histogram; top dominant was {:?}",
        top.rgb(),
    );
}

#[test]
fn extract_with_empty_pixel_iterator_yields_nothing() {
    let p = palette();
    let mut mmcq = Mmcq::new_boxed();
    let mut out: Vec<Dominant> = Vec::new();
    mmcq.extract(&[], 5, Algorithm::default(), &p, &dist, &mut out);
    assert!(out.is_empty(), "empty input must produce no dominants");
}

#[test]
fn mmcq_extract_count_zero_does_no_work() {
    let p = palette();
    let mut mmcq = Mmcq::new_boxed();
    let buf = vec![255u8, 0, 0, 0, 255, 0, 0, 0, 255];
    let frame = RgbFrame::try_new(&buf, 3, 1, 9).expect("frame");
    let mut out: Vec<Dominant> = Vec::new();
    mmcq.extract(&frame.pixels(), 0, Algorithm::default(), &p, &dist, &mut out);
    assert!(out.is_empty(), "count=0 must produce no dominants");
}

#[test]
fn mmcq_extract_stops_when_output_buffer_full() {
    let p = palette();
    let pixels: Vec<[u8; 3]> = (0..16)
        .map(|i| if i < 8 { [255, 0, 0] } else { [0, 0, 255] })
        .collect();
    let buf = make_frame(4, 4, &pixels);
    let frame = RgbFrame::try_new(&buf, 4, 4, 12).expect("frame");

    let mut out: [Option<Dominant>; 1] = [const { None }; 1];
    let mut mmcq = Mmcq::new_boxed();
    mmcq.extract(&frame.pixels(), 5, Algorithm::default(), &p, &dist, &mut out);

    assert!(out[0].is_some(), "first slot must be filled");
}

#[test]
fn mmcq_new_const_is_callable() {
    let mmcq = Mmcq::new();
    assert_eq!(mmcq.histogram[0], 0);
    assert_eq!(mmcq.boxes.len(), 0);

    let runtime = Box::new(Mmcq::new());
    assert_eq!(runtime.histogram[0], 0);
}

#[test]
fn mmcq_reuse_via_direct_extract_resets_state() {
    let p = palette();
    let mut mmcq = Mmcq::new_boxed();
    let red_buf = make_frame(4, 4, &vec![[200u8, 30, 30]; 16]);
    let blue_buf = make_frame(4, 4, &vec![[30u8, 30, 200]; 16]);
    let red_frame = RgbFrame::try_new(&red_buf, 4, 4, 12).expect("frame");
    let blue_frame = RgbFrame::try_new(&blue_buf, 4, 4, 12).expect("frame");

    let mut red_out: Vec<Dominant> = Vec::new();
    mmcq.extract(&red_frame.pixels(), 3, Algorithm::default(), &p, &dist, &mut red_out);
    let mut blue_out: Vec<Dominant> = Vec::new();
    mmcq.extract(&blue_frame.pixels(), 3, Algorithm::default(), &p, &dist, &mut blue_out);

    let red_top = red_out[0].rgb();
    let blue_top = blue_out[0].rgb();
    assert!(red_top[0] > 100 && red_top[2] < 100);
    assert!(blue_top[2] > 100 && blue_top[0] < 100);
}

#[test]
fn box_arena_push_rejects_when_full() {
    let mut arena = BoxArena::new();
    let template = VBox {
        r1: 0,
        r2: 0,
        g1: 0,
        g2: 0,
        b1: 0,
        b2: 0,
        count_cache: Some(1),
        avg_cache: Some([0, 0, 0]),
    };
    for _ in 0..MAX_BOXES {
        assert!(arena.push(template.clone()));
    }
    assert!(!arena.push(template), "push must reject when at capacity");
}

#[test]
fn box_arena_is_a_stack_that_drains_from_the_top() {
    let mut from = BoxArena::new();
    let mut into = BoxArena::new();
    for r in 0..3u32 {
        let v = VBox {
            r1: r,
            r2: r,
            g1: 0,
            g2: 0,
            b1: 0,
            b2: 0,
            count_cache: None,
            avg_cache: None,
        };
        assert!(from.push(v));
    }
    assert_eq!(from.pop().map(|v| v.r1), Some(2));
    from.drain_into(&mut into);
    assert_eq!(from.len(), 0);
    assert!(from.pop().is_none());
    assert_eq!(into.as_slice().iter().map(|v| v.r1).collect::<Vec<_>>(), [1, 0]);
    into.as_mut_slice()[0].r2 = 9;
    assert_eq!(into.as_slice()[0].r2, 9);
    into.clear();
    assert_eq!(into.len(), 0);
}

#[test]
fn vbox_avg_cache_hit_returns_same_value() {
    let pixels = vec![[120u8, 80, 200]; 16];
    let buf = make_frame(4, 4, &pixels);
    let frame = RgbFrame::try_new(&buf, 4, 4, 12).expect("frame");
    let mut histo = [0u32; HISTO_SIZE];
    build_histogram(&frame.pixels(), &mut histo);
    let mut vbox = initial_vbox(&histo).expect("non-empty histogram");
    let first = vbox.avg(&histo);
    let second = vbox.avg(&histo);
    assert_eq!(first, second, "avg must be stable across calls");
    assert_eq!(first, [124, 84, 204]);
}

#[test]
fn vbox_avg_on_empty_box_returns_geometric_center() {
    let histo = [0u32; HISTO_SIZE];
    let mut empty = VBox {
        r1: 0,
        r2: 7,
        g1: 0,
        g2: 7,
        b1: 0,
        b2: 7,
        count_cache: None,
        avg_cache: None,
    };
    let avg = empty.avg(&histo);
    assert_eq!(avg[0], avg[1]);
    assert_eq!(avg[1], avg[2]);
    assert!(avg[0] > 0);
    assert_eq!(avg, [32, 32, 32]);
}

#[test]
fn vbox_avg_is_the_weighted_mean_of_cell_centres() {
    let mut histo = [0u32; HISTO_SIZE];
    histo[histo_index(1, 2, 3)] = 3;
    histo[histo_index(5, 2, 30)] = 1;
    let mut vbox = initial_vbox(&histo).expect("populated");
    assert_eq!((vbox.r1, vbox.r2, vbox.g1, vbox.g2, vbox.b1, vbox.b2), (1, 5, 2, 2, 3, 30));
    assert_eq!(vbox.volume(), 5 * 28);
    assert_eq!(vbox.count(&histo), 4);
    assert_eq!(vbox.avg(&histo), [20, 20, 82]);
}

#[test]
fn a_cut_shares_the_pixels_out_between_its_halves() {
    let mut histo = [0u32; HISTO_SIZE];
    for r in 0..8u32 {
        histo[histo_index(r, 0, 0)] = 10 + r;
    }
    let mut vbox = initial_vbox(&histo).expect("populated");
    let total = vbox.count(&histo);
    match median_cut(&vbox, &histo) {
        Some((mut left, Some(mut right))) => {
            assert_eq!(left.r1, vbox.r1);
            assert_eq!(left.r2 + 1, right.r1);
            assert_eq!(right.r2, vbox.r2);
            assert_eq!(left.count(&histo) + right.count(&histo), total);
        }
        _ => panic!("a box of eight populated cells is cut in two"),
    }
    let mut one = [0u32; HISTO_SIZE];
    one[histo_index(3, 3, 3)] = 7;
    let single = initial_vbox(&one).expect("populated");
    assert!(matches!(median_cut(&single, &one), Some((_, None))));
    assert!(initial_vbox(&[0u32; HISTO_SIZE]).is_none());
}

#[test]
fn a_scattered_frame_runs_short_of_rounds() {
    let p = palette();
    let mut pixels: Vec<[u8; 3]> = Vec::new();
    for r in (0..32u8).step_by(6) {
        for g in (0..32u8).step_by(6) {
            for b in (0..32u8).step_by(6) {
                for _ in 0..1000 {
                    pixels.push([r * 8, g * 8, b * 8]);
                }
            }
        }
    }
    for r in 28..32u8 {
        for g in 27..32u8 {
            for b in 27..32u8 {
                pixels.push([r * 8, g * 8, b * 8]);
            }
        }
    }
    let dominants = quantize(&pixels, 255, Algorithm::default(), &p, &dist);
    assert_eq!(dominants.len(), 227, "315 cells hold pixels");
    assert_eq!(dominants.iter().map(|d| d.population()).sum::<u32>(), 216_100);
    let few = quantize(&pixels, 100, Algorithm::default(), &p, &dist);
    assert_eq!(few.len(), 100);
    let most = quantize(&pixels, 125, Algorithm::default(), &p, &dist);
    assert_eq!(most.len(), 125);
}

/// Pixels that spread over many cells.
fn spread(n: u32) -> Vec<[u8; 3]> {
    (0..n)
        .map(|k| [(k * k * 7 % 256) as u8, (k * 11 % 256) as u8, (k * k * 3 % 241) as u8])
        .collect()
}

#[test]
fn two_or_more_colours_stand_for_every_pixel() {
    let p = palette();
    let pixels = spread(1000);
    for count in [2, 3, 5, 17, 64, 255] {
        let dominants = quantize(&pixels, count, Algorithm::default(), &p, &dist);
        assert_eq!(dominants.iter().map(|d| d.population()).sum::<u32>(), 1000);
    }
}

#[test]
fn a_single_colour_has_half_of_the_frame() {
    let p = palette();
    let pixels = spread(999);
    let one = quantize(&pixels, 1, Algorithm::default(), &p, &dist);
    assert_eq!(one.len(), 1);
    assert!(2 * one[0].population() >= 999);
    let two = quantize(&pixels, 2, Algorithm::default(), &p, &dist);
    assert_eq!(two.len(), 2);
    assert_eq!(one[0], two[0]);
}

#[test]
fn each_cell_has_a_colour_where_there_are_enough() {
    let p = palette();
    let cells: [([u8; 3], u32); 5] = [
        ([9, 250, 33], 4),
        ([9, 250, 43], 11),
        ([200, 100, 0], 2),
        ([0, 0, 0], 30),
        ([201, 17, 255], 7),
    ];
    let mut pixels: Vec<[u8; 3]> = Vec::new();
    for (rgb, n) in cells {
        for _ in 0..n {
            pixels.push(rgb);
        }
    }
    for count in [5, 6, 125, 255] {
        let found: Vec<([u8; 3], u32)> =
            quantize(&pixels, count, Algorithm::default(), &p, &dist)
                .iter()
                .map(|d| (d.rgb(), d.population()))
                .collect();
        assert_eq!(
            found,
            vec![
                ([4, 4, 4], 30),
                ([12, 252, 44], 11),
                ([204, 20, 252], 7),
                ([12, 252, 36], 4),
                ([204, 100, 4], 2),
            ]
        );
    }
}

#[test]
fn neither_order_nor_low_bits_matter() {
    let p = palette();
    let pixels = spread(500);
    let mut changed: Vec<[u8; 3]> = pixels
        .iter()
        .enumerate()
        .map(|(k, c)| [c[0] ^ (k % 8) as u8, c[1] ^ (k % 5) as u8, c[2] ^ 7])
        .collect();
    changed.reverse();
    changed.swap(3, 400);
    let one = quantize(&pixels, 12, Algorithm::Ciede2000, &p, &dist);
    assert_eq!(one.len(), 12);
    assert_eq!(one, quantize(&changed, 12, Algorithm::Ciede2000, &p, &dist));
}

#[test]
fn a_full_container_keeps_the_first() {
    let p = palette();
    let pixels = spread(300);
    let all = quantize(&pixels, 6, Algorithm::default(), &p, &dist);
    assert_eq!(all.len(), 6);
    let earlier = all[5];
    let mut out: [Option<Dominant>; 4] = [Some(earlier), None, None, None];
    Mmcq::new_boxed().extract(&pixels, 6, Algorithm::default(), &p, &dist, &mut out);
    assert_eq!(out, [Some(earlier), Some(all[0]), Some(all[1]), Some(all[2])]);
}

#[test]
fn a_used_workspace_gives_what_a_new_one_gives() {
    let p = palette();
    let pixels = spread(300);
    let mut fresh: Vec<Dominant> = Vec::new();
    Mmcq::new_boxed().extract(&pixels, 8, Algorithm::Cie94, &p, &dist, &mut fresh);
    let mut used = Mmcq::new_boxed();
    let mut other: Vec<Dominant> = Vec::new();
    used.extract(&spread(77), 30, Algorithm::DeltaE76, &p, &dist, &mut other);
    let mut again: Vec<Dominant> = Vec::new();
    used.extract(&pixels, 8, Algorithm::Cie94, &p, &dist, &mut again);
    assert_eq!(fresh.len(), 8);
    assert_eq!(fresh, again);
}

#[test]
fn boxes_that_are_enough_are_left_as_they_are() {
    let mut histo = Box::new([0u32; HISTO_SIZE]);
    build_histogram(&spread(100), &mut histo);
    let mut first = initial_vbox(histo.as_slice()).expect("a box");
    assert_eq!(first.count(histo.as_slice()), 100);
    first.avg_cache = None;
    let mut arena = BoxArena::new();
    assert!(arena.push(first));
    iterate_split(&mut arena, 1, histo.as_slice(), Rank::Population);
    assert_eq!(arena.len(), 1);
    assert_eq!(arena.as_slice()[0].count_cache, Some(100));
    assert_eq!(arena.as_slice()[0].avg_cache, None);
    iterate_split(&mut arena, 4, histo.as_slice(), Rank::Population);
    assert_eq!(arena.len(), 4);
}

fn parity_inputs() -> Vec<Vec<u32>> {
    vec![
        vec![],
        vec![1, 2, 3],
        vec![1, 2, 3, 4],
        vec![1, 2, 3, 4, 5],
        vec![10, 20, 30, 40, 50, 60, 70, 80, 90],
        {
            let mut v = vec![0u32; 31];
            v[0] = 100;
            v[5] = 200;
            v[20] = 50;
            v[30] = 1;
            v
        },
        {
            let mut v = vec![1u32; 5];
            v[0] = u32::MAX - 2;
            v
        },
    ]
}

#[test]
fn scalar_matches_naive_fold() {
    for input in parity_inputs() {
        let naive: u32 = input.iter().fold(0u32, |a, b| a.saturating_add(*b));
        assert_eq!(simd::scalar::sum_u32_slice(&input), naive);
        assert_eq!(simd::sum_u32_slice(&input), naive);
    }
}

#[test]
fn neon_matches_scalar() {
    for input in parity_inputs() {
        let s = simd::scalar::sum_u32_slice(&input);
        let n = simd::lanes4::sum_u32_slice(&input);
        assert_eq!(n, s, "divergence on input of len {}", input.len());
    }
}

#[test]
fn sse41_matches_scalar() {
    for input in parity_inputs() {
        let s = simd::scalar::sum_u32_slice(&input);
        let v = simd::lanes4::sum_u32_slice(&input);
        assert_eq!(v, s, "divergence on input of len {}", input.len());
    }
}

#[test]
fn avx2_matches_scalar() {
    for input in parity_inputs() {
        let s = simd::scalar::sum_u32_slice(&input);
        let v = simd::lanes8::sum_u32_slice(&input);
        assert_eq!(v, s, "divergence on input of len {}", input.len());
    }
}

#[test]
fn wasm_simd128_matches_scalar() {
    for input in parity_inputs() {
        let s = simd::scalar::sum_u32_slice(&input);
        let v = simd::lanes4::sum_u32_slice(&input);
        assert_eq!(v, s);
    }
}
