//! Counting pixels per cell.

use vstd::prelude::*;

verus! {

use crate::mmcq::space::{HISTO_SIZE, Region, bin, in_space};
use crate::mmcq::sums::clamp32;
use crate::mmcq::vbox::{VBox, histo_index};

/// The histogram bin a pixel falls into: the top five bits of each channel.
pub open spec fn pixel_bin(p: [u8; 3]) -> int {
    bin(p[0] as int / 8, p[1] as int / 8, p[2] as int / 8)
}

/// Pixels that fall into bin `i`.
pub open spec fn tally(pixels: Seq<[u8; 3]>, i: int) -> nat {
    pixels.filter(|p: [u8; 3]| pixel_bin(p) == i).len()
}

/// Pixels per bin, each held at the largest `u32`.
pub open spec fn histogram(pixels: Seq<[u8; 3]>) -> Seq<u32> {
    Seq::new(HISTO_SIZE as nat, |i: int| clamp32(tally(pixels, i)))
}

/// Whether `region` is the smallest box around all populated bins: it holds
/// each of them, and each of its six faces touches one.
pub open spec fn bounds(h: Seq<u32>, region: Region) -> bool {
    &&& forall|r: int, g: int, b: int|
        in_space(r, g, b) && h[#[trigger] bin(r, g, b)] > 0 ==> region.has(r, g, b)
    &&& exists|g: int, b: int| in_space(region.r1, g, b) && h[#[trigger] bin(region.r1, g, b)] > 0
    &&& exists|g: int, b: int| in_space(region.r2, g, b) && h[#[trigger] bin(region.r2, g, b)] > 0
    &&& exists|r: int, b: int| in_space(r, region.g1, b) && h[#[trigger] bin(r, region.g1, b)] > 0
    &&& exists|r: int, b: int| in_space(r, region.g2, b) && h[#[trigger] bin(r, region.g2, b)] > 0
    &&& exists|r: int, g: int| in_space(r, g, region.b1) && h[#[trigger] bin(r, g, region.b1)] > 0
    &&& exists|r: int, g: int| in_space(r, g, region.b2) && h[#[trigger] bin(r, g, region.b2)] > 0
}

/// Whether some bin is populated.
pub open spec fn any_populated(h: Seq<u32>) -> bool {
    exists|r: int, g: int, b: int| in_space(r, g, b) && h[#[trigger] bin(r, g, b)] > 0
}

/// The smallest box around all populated bins.
pub open spec fn bounding(h: Seq<u32>) -> Region {
    choose|region: Region| bounds(h, region)
}

/// There is at most one smallest box.
pub proof fn lemma_bounds_unique(h: Seq<u32>, one: Region, other: Region)
    requires
        bounds(h, one),
        bounds(h, other),
    ensures
        one == other,
{
}

/// The smallest box lies in the quantized space.
pub proof fn lemma_bounds_fit(h: Seq<u32>, region: Region)
    requires
        bounds(h, region),
    ensures
        region.fits(),
{
}

proof fn lemma_shift(v: u8)
    ensures
        v as u32 >> 3 == v as u32 / 8,
        v as u32 / 8 == v as int / 8,
        (v as u32 >> 3) < 32,
{
    assert(v as u32 >> 3 == v as u32 / 8) by (bit_vector);
}

/// The histogram bin a pixel falls into.
pub fn pixel_cell(p: [u8; 3]) -> (i: usize)
    ensures
        i == pixel_bin(p),
        i < HISTO_SIZE,
{
    proof {
        lemma_shift(p[0]);
        lemma_shift(p[1]);
        lemma_shift(p[2]);
    }
    histo_index(p[0] as u32 >> 3, p[1] as u32 >> 3, p[2] as u32 >> 3)
}

proof fn lemma_tally_step(pixels: Seq<[u8; 3]>, n: int, i: int)
    requires
        0 <= n < pixels.len(),
    ensures
        tally(pixels.take(n + 1), i) == tally(pixels.take(n), i) + (if pixel_bin(pixels[n]) == i {
            1nat
        } else {
            0
        }),
{
    let f = |p: [u8; 3]| pixel_bin(p) == i;
    assert(pixels.take(n + 1).drop_last() =~= pixels.take(n));
    reveal(Seq::filter);
}

/// Counts `pixels` into `histo`, whatever it held before.
pub fn build_histogram(pixels: &[[u8; 3]], histo: &mut [u32; HISTO_SIZE])
    ensures
        final(histo)@ == histogram(pixels@),
{
    let mut i: usize = 0;
    while i < HISTO_SIZE
        invariant
            i <= HISTO_SIZE,
            forall|k: int| 0 <= k < i ==> #[trigger] histo@[k] == 0,
        decreases HISTO_SIZE - i,
    {
        histo[i] = 0;
        i += 1;
    }
    let mut n: usize = 0;
    assert forall|k: int| 0 <= k < HISTO_SIZE implies #[trigger] histo@[k] == clamp32(
        tally(pixels@.take(0), k),
    ) by {
        reveal(Seq::filter);
    }
    while n < pixels.len()
        invariant
            n <= pixels@.len(),
            forall|k: int|
                0 <= k < HISTO_SIZE ==> #[trigger] histo@[k] == clamp32(
                    tally(pixels@.take(n as int), k),
                ),
        decreases pixels@.len() - n,
    {
        let at: usize = pixel_cell(pixels[n]);
        let ghost before = histo@;
        histo[at] = histo[at].saturating_add(1);
        assert forall|k: int| 0 <= k < HISTO_SIZE implies #[trigger] histo@[k] == clamp32(
            tally(pixels@.take(n + 1), k),
        ) by {
            lemma_tally_step(pixels@, n as int, k);
            assert(before[k] == clamp32(tally(pixels@.take(n as int), k)));
        }
        n += 1;
    }
    assert(pixels@.take(n as int) =~= pixels@);
    assert(histo@ =~= histogram(pixels@));
}

/// Whether `(x, y, z)` is a populated cell that precedes `(r, g, b)` in the
/// order red, green, blue.
spec fn hit(h: Seq<u32>, r: int, g: int, b: int, x: int, y: int, z: int) -> bool {
    &&& in_space(x, y, z)
    &&& x < r || (x == r && (y < g || (y == g && z < b)))
    &&& h[bin(x, y, z)] > 0
}

/// Whether `found` is the smallest box around the populated cells that
/// precede `(r, g, b)`.
spec fn bounds_before(h: Seq<u32>, r: int, g: int, b: int, found: Option<Region>) -> bool {
    match found {
        None => forall|x: int, y: int, z: int| !#[trigger] hit(h, r, g, b, x, y, z),
        Some(region) => encloses(h, r, g, b, region),
    }
}

spec fn encloses(h: Seq<u32>, r: int, g: int, b: int, region: Region) -> bool {
    &&& forall|x: int, y: int, z: int|
        #[trigger] hit(h, r, g, b, x, y, z) ==> region.has(x, y, z)
    &&& exists|y: int, z: int| #[trigger] hit(h, r, g, b, region.r1, y, z)
    &&& exists|y: int, z: int| #[trigger] hit(h, r, g, b, region.r2, y, z)
    &&& exists|x: int, z: int| #[trigger] hit(h, r, g, b, x, region.g1, z)
    &&& exists|x: int, z: int| #[trigger] hit(h, r, g, b, x, region.g2, z)
    &&& exists|x: int, y: int| #[trigger] hit(h, r, g, b, x, y, region.b1)
    &&& exists|x: int, y: int| #[trigger] hit(h, r, g, b, x, y, region.b2)
}

/// Two positions with the same cells before them have the same smallest box.
proof fn lemma_bounds_before_same(
    h: Seq<u32>,
    r: int,
    g: int,
    b: int,
    r2: int,
    g2: int,
    b2: int,
    found: Option<Region>,
)
    requires
        bounds_before(h, r, g, b, found),
        forall|x: int, y: int, z: int|
            #[trigger] hit(h, r, g, b, x, y, z) == hit(h, r2, g2, b2, x, y, z),
    ensures
        bounds_before(h, r2, g2, b2, found),
{
    assert(forall|x: int, y: int, z: int|
        #[trigger] hit(h, r2, g2, b2, x, y, z) == hit(h, r, g, b, x, y, z));
    if let Some(region) = found {
        let (y, z) = choose|y: int, z: int| #[trigger] hit(h, r, g, b, region.r1, y, z);
        assert(hit(h, r2, g2, b2, region.r1, y, z));
        let (y, z) = choose|y: int, z: int| #[trigger] hit(h, r, g, b, region.r2, y, z);
        assert(hit(h, r2, g2, b2, region.r2, y, z));
        let (x, z) = choose|x: int, z: int| #[trigger] hit(h, r, g, b, x, region.g1, z);
        assert(hit(h, r2, g2, b2, x, region.g1, z));
        let (x, z) = choose|x: int, z: int| #[trigger] hit(h, r, g, b, x, region.g2, z);
        assert(hit(h, r2, g2, b2, x, region.g2, z));
        let (x, y) = choose|x: int, y: int| #[trigger] hit(h, r, g, b, x, y, region.b1);
        assert(hit(h, r2, g2, b2, x, y, region.b1));
        let (x, y) = choose|x: int, y: int| #[trigger] hit(h, r, g, b, x, y, region.b2);
        assert(hit(h, r2, g2, b2, x, y, region.b2));
    }
}

/// The smallest box around `found` and one more cell.
spec fn stretched(found: Option<Region>, r: int, g: int, b: int) -> Region {
    match found {
        None => Region { r1: r, r2: r, g1: g, g2: g, b1: b, b2: b },
        Some(k) => Region {
            r1: if r < k.r1 { r } else { k.r1 },
            r2: if r > k.r2 { r } else { k.r2 },
            g1: if g < k.g1 { g } else { k.g1 },
            g2: if g > k.g2 { g } else { k.g2 },
            b1: if b < k.b1 { b } else { k.b1 },
            b2: if b > k.b2 { b } else { k.b2 },
        },
    }
}

proof fn lemma_bounds_before_step(
    h: Seq<u32>,
    r: int,
    g: int,
    b: int,
    found: Option<Region>,
)
    requires
        bounds_before(h, r, g, b, found),
        in_space(r, g, b),
        h[bin(r, g, b)] > 0,
    ensures
        bounds_before(h, r, g, b + 1, Some(stretched(found, r, g, b))),
{
    let next = stretched(found, r, g, b);
    assert(hit(h, r, g, b + 1, r, g, b));
    assert forall|x: int, y: int, z: int| #[trigger]
        hit(h, r, g, b + 1, x, y, z) implies next.has(x, y, z) by {
        if !(x == r && y == g && z == b) {
            assert(hit(h, r, g, b, x, y, z));
        }
    }
    if let Some(region) = found {
        let (y, z) = choose|y: int, z: int| #[trigger] hit(h, r, g, b, region.r1, y, z);
        let (y, z) = if r < region.r1 { (g, b) } else { (y, z) };
        assert(hit(h, r, g, b + 1, next.r1, y, z));
        let (y, z) = choose|y: int, z: int| #[trigger] hit(h, r, g, b, region.r2, y, z);
        let (y, z) = if r > region.r2 { (g, b) } else { (y, z) };
        assert(hit(h, r, g, b + 1, next.r2, y, z));
        let (x, z) = choose|x: int, z: int| #[trigger] hit(h, r, g, b, x, region.g1, z);
        let (x, z) = if g < region.g1 { (r, b) } else { (x, z) };
        assert(hit(h, r, g, b + 1, x, next.g1, z));
        let (x, z) = choose|x: int, z: int| #[trigger] hit(h, r, g, b, x, region.g2, z);
        let (x, z) = if g > region.g2 { (r, b) } else { (x, z) };
        assert(hit(h, r, g, b + 1, x, next.g2, z));
        let (x, y) = choose|x: int, y: int| #[trigger] hit(h, r, g, b, x, y, region.b1);
        let (x, y) = if b < region.b1 { (r, g) } else { (x, y) };
        assert(hit(h, r, g, b + 1, x, y, next.b1));
        let (x, y) = choose|x: int, y: int| #[trigger] hit(h, r, g, b, x, y, region.b2);
        let (x, y) = if b > region.b2 { (r, g) } else { (x, y) };
        assert(hit(h, r, g, b + 1, x, y, next.b2));
    } else {
        assert(hit(h, r, g, b + 1, next.r1, g, b));
        assert(hit(h, r, g, b + 1, r, next.g1, b));
        assert(hit(h, r, g, b + 1, r, g, next.b1));
    }
    assert(encloses(h, r, g, b + 1, next));
}

/// Past the last cell, the smallest box so far is the smallest box.
proof fn lemma_bounds_before_all(h: Seq<u32>, found: Option<Region>)
    requires
        bounds_before(h, 32, 0, 0, found),
    ensures
        found is Some <==> any_populated(h),
        found matches Some(region) ==> bounds(h, region) && region == bounding(h),
{
    match found {
        None => {
            assert forall|r: int, g: int, b: int| in_space(r, g, b) implies h[#[trigger] bin(
                r,
                g,
                b,
            )] == 0 by {
                assert(!hit(h, 32, 0, 0, r, g, b));
            }
        },
        Some(region) => {
            assert forall|r: int, g: int, b: int|
                in_space(r, g, b) && h[#[trigger] bin(r, g, b)] > 0 implies region.has(
                r,
                g,
                b,
            ) by {
                assert(hit(h, 32, 0, 0, r, g, b));
            }
            let (g, b) = choose|g: int, b: int| #[trigger] hit(h, 32, 0, 0, region.r1, g, b);
            assert(h[bin(region.r1, g, b)] > 0);
            let (g, b) = choose|g: int, b: int| #[trigger] hit(h, 32, 0, 0, region.r2, g, b);
            assert(h[bin(region.r2, g, b)] > 0);
            let (r, b) = choose|r: int, b: int| #[trigger] hit(h, 32, 0, 0, r, region.g1, b);
            assert(h[bin(r, region.g1, b)] > 0);
            let (r, b) = choose|r: int, b: int| #[trigger] hit(h, 32, 0, 0, r, region.g2, b);
            assert(h[bin(r, region.g2, b)] > 0);
            let (r, g) = choose|r: int, g: int| #[trigger] hit(h, 32, 0, 0, r, g, region.b1);
            assert(h[bin(r, g, region.b1)] > 0);
            let (r, g) = choose|r: int, g: int| #[trigger] hit(h, 32, 0, 0, r, g, region.b2);
            assert(h[bin(r, g, region.b2)] > 0);
            assert(bounds(h, region));
            lemma_bounds_unique(h, region, bounding(h));
        },
    }
}

/// The smallest box around `found` and one more cell.
fn stretch(found: Option<VBox>, r: u32, g: u32, b: u32) -> (next: VBox)
    ensures
        next@ == stretched(region_of(found), r as int, g as int, b as int),
        next.count_cache is None,
        next.avg_cache is None,
{
    match found {
        None => VBox { r1: r, r2: r, g1: g, g2: g, b1: b, b2: b, count_cache: None, avg_cache: None },
        Some(k) => VBox {
            r1: if r < k.r1 { r } else { k.r1 },
            r2: if r > k.r2 { r } else { k.r2 },
            g1: if g < k.g1 { g } else { k.g1 },
            g2: if g > k.g2 { g } else { k.g2 },
            b1: if b < k.b1 { b } else { k.b1 },
            b2: if b > k.b2 { b } else { k.b2 },
            count_cache: None,
            avg_cache: None,
        },
    }
}

spec fn region_of(found: Option<VBox>) -> Option<Region> {
    match found {
        None => None,
        Some(v) => Some(v@),
    }
}

/// The smallest box around all populated bins, or `None` if no bin is.
pub fn initial_vbox(histo: &[u32]) -> (vbox: Option<VBox>)
    requires
        histo@.len() == HISTO_SIZE,
    ensures
        vbox is Some <==> any_populated(histo@),
        vbox matches Some(v) ==> bounds(histo@, v@) && v@ == bounding(histo@) && v.valid(histo@)
            && v.count_cache is None && v.avg_cache is None,
{
    let ghost h = histo@;
    let mut found: Option<VBox> = None;
    let mut r: u32 = 0;
    while r < 32
        invariant
            h == histo@,
            h.len() == HISTO_SIZE,
            r <= 32,
            bounds_before(h, r as int, 0, 0, region_of(found)),
            found matches Some(v) ==> v.count_cache is None && v.avg_cache is None,
        decreases 32 - r,
    {
        let mut g: u32 = 0;
        while g < 32
            invariant
                h == histo@,
                h.len() == HISTO_SIZE,
                r < 32,
                g <= 32,
                bounds_before(h, r as int, g as int, 0, region_of(found)),
                found matches Some(v) ==> v.count_cache is None && v.avg_cache is None,
            decreases 32 - g,
        {
            let mut b: u32 = 0;
            while b < 32
                invariant
                    h == histo@,
                    h.len() == HISTO_SIZE,
                    r < 32,
                    g < 32,
                    b <= 32,
                    bounds_before(h, r as int, g as int, b as int, region_of(found)),
                    found matches Some(v) ==> v.count_cache is None && v.avg_cache is None,
                decreases 32 - b,
            {
                if histo[histo_index(r, g, b)] > 0 {
                    proof {
                        lemma_bounds_before_step(
                            h,
                            r as int,
                            g as int,
                            b as int,
                            region_of(found),
                        );
                    }
                    found = Some(stretch(found, r, g, b));
                } else {
                    proof {
                        assert(forall|x: int, y: int, z: int|
                            #[trigger] hit(h, r as int, g as int, b as int, x, y, z) == hit(
                                h,
                                r as int,
                                g as int,
                                b + 1,
                                x,
                                y,
                                z,
                            ));
                        lemma_bounds_before_same(
                            h,
                            r as int,
                            g as int,
                            b as int,
                            r as int,
                            g as int,
                            b + 1,
                            region_of(found),
                        );
                    }
                }
                b += 1;
            }
            proof {
                lemma_bounds_before_same(
                    h,
                    r as int,
                    g as int,
                    32,
                    r as int,
                    g + 1,
                    0,
                    region_of(found),
                );
            }
            g += 1;
        }
        proof {
            lemma_bounds_before_same(h, r as int, 32, 0, r + 1, 0, 0, region_of(found));
        }
        r += 1;
    }
    proof {
        lemma_bounds_before_all(h, region_of(found));
        if let Some(v) = found {
            lemma_bounds_fit(h, v@);
        }
    }
    found
}

} // verus!
