//! Boxes of the quantized space with their cached pixel count and colour.

use vstd::prelude::*;

verus! {

use crate::mmcq::box_sums::{lemma_box_sum_bound, lemma_box_sum_scaled, lemma_swept, lemma_swept_limit, swept};
use crate::mmcq::simd::sum_u32_slice;
use crate::mmcq::space::{
    Axis, HISTO_SIZE, Region, bin, box_sum, cell_mass, cell_pop, counted, mean_channel, mean_rgb,
    population, row_sum,
};
use crate::mmcq::sums::{clamp32, lemma_seq_sum_range};

/// A box of the quantized space, all bounds inclusive. The pixel count and
/// the average colour are filled in on first use.
#[derive(Clone, Copy, Debug)]
pub struct VBox {
    pub r1: u32,
    pub r2: u32,
    pub g1: u32,
    pub g2: u32,
    pub b1: u32,
    pub b2: u32,
    pub count_cache: Option<u32>,
    pub avg_cache: Option<[u8; 3]>,
}

impl View for VBox {
    type V = Region;

    open spec fn view(&self) -> Region {
        Region {
            r1: self.r1 as int,
            r2: self.r2 as int,
            g1: self.g1 as int,
            g2: self.g2 as int,
            b1: self.b1 as int,
            b2: self.b2 as int,
        }
    }
}

/// Flat histogram index of a cell.
pub fn histo_index(r: u32, g: u32, b: u32) -> (i: usize)
    requires
        r < 32,
        g < 32,
        b < 32,
    ensures
        i == bin(r as int, g as int, b as int),
        i < HISTO_SIZE,
{
    assert(r << 10 == r * 1024 && g << 5 == g * 32) by (bit_vector)
        requires
            r < 32,
            g < 32,
    ;
    ((r << 10) + (g << 5) + b) as usize
}

impl VBox {
    /// Whether the box lies in the quantized space and its caches, where
    /// filled, are those of histogram `h`.
    pub open spec fn valid(&self, h: Seq<u32>) -> bool {
        &&& h.len() == HISTO_SIZE
        &&& self@.fits()
        &&& self.count_cache matches Some(c) ==> c == counted(h, self@)
        &&& self.avg_cache matches Some(a) ==> a == mean_rgb(h, self@)
    }

    /// Cells in the box.
    pub fn volume(&self) -> (v: u32)
        requires
            self@.fits(),
        ensures
            v == self@.volume(),
            1 <= v <= HISTO_SIZE,
    {
        let rw: u32 = self.r2 - self.r1 + 1;
        let gw: u32 = self.g2 - self.g1 + 1;
        let bw: u32 = self.b2 - self.b1 + 1;
        assert(1 <= rw * gw <= 1024) by (nonlinear_arith)
            requires
                1 <= rw <= 32,
                1 <= gw <= 32,
        ;
        assert(1 <= (rw * gw) * bw <= 32768) by (nonlinear_arith)
            requires
                1 <= rw * gw <= 1024,
                1 <= bw <= 32,
        ;
        rw * gw * bw
    }

    /// Pixels in the box, held at `u32::MAX`.
    pub fn count(&mut self, histo: &[u32]) -> (n: u32)
        requires
            old(self).valid(histo@),
        ensures
            n == counted(histo@, old(self)@),
            final(self).count_cache == Some(n),
            *final(self) == (VBox { count_cache: Some(n), ..*old(self) }),
    {
        if let Some(c) = self.count_cache {
            return c;
        }
        let ghost region = self@;
        let ghost w = cell_pop(histo@);
        let (r1, r2, g1, g2, b1, b2) = (self.r1, self.r2, self.g1, self.g2, self.b1, self.b2);
        let mut npix: u32 = 0;
        let mut r: u32 = r1;
        proof {
            lemma_swept(w, region, r1 as int, g1 as int, b1 as int);
        }
        while r <= r2
            invariant
                histo@.len() == HISTO_SIZE,
                region.fits(),
                region == (Region {
                    r1: r1 as int,
                    r2: r2 as int,
                    g1: g1 as int,
                    g2: g2 as int,
                    b1: b1 as int,
                    b2: b2 as int,
                }),
                w == cell_pop(histo@),
                r1 <= r <= r2 + 1,
                npix == clamp32(swept(w, region, r as int, g1 as int, b1 as int)),
            decreases r2 + 1 - r,
        {
            let mut g: u32 = g1;
            while g <= g2
                invariant
                    histo@.len() == HISTO_SIZE,
                    region.fits(),
                    region == (Region {
                        r1: r1 as int,
                        r2: r2 as int,
                        g1: g1 as int,
                        g2: g2 as int,
                        b1: b1 as int,
                        b2: b2 as int,
                    }),
                    w == cell_pop(histo@),
                    r1 <= r <= r2,
                    g1 <= g <= g2 + 1,
                    npix == clamp32(swept(w, region, r as int, g as int, b1 as int)),
                decreases g2 + 1 - g,
            {
                let lo: usize = histo_index(r, g, b1);
                let hi: usize = histo_index(r, g, b2);
                let row: u32 = sum_u32_slice(&histo[lo..hi + 1]);
                proof {
                    let cells = |b: int| w(r as int, g as int, b);
                    let base = bin(r as int, g as int, 0);
                    assert(histo@.subrange(lo as int, hi + 1) == histo@.subrange(
                        base + b1,
                        base + b2 + 1,
                    ));
                    lemma_seq_sum_range(histo@, cells, base, b1 as int, b2 as int);
                    assert(row == clamp32(row_sum(w, r as int, g as int, region)));
                    lemma_swept(w, region, r as int, g as int, b1 as int);
                    assert(swept(w, region, r as int, g as int, b2 + 1) == swept(
                        w,
                        region,
                        r as int,
                        g as int,
                        b1 as int,
                    ) + row_sum(w, r as int, g as int, region));
                }
                npix = npix.saturating_add(row);
                g += 1;
            }
            proof {
                lemma_swept(w, region, r as int, g1 as int, b1 as int);
            }
            r += 1;
        }
        proof {
            lemma_swept(w, region, r1 as int, g1 as int, b1 as int);
        }
        self.count_cache = Some(npix);
        npix
    }

    /// The box's colour: the mean of its pixels' cell centres per channel,
    /// rounded down, or the geometric centre of a box without pixels.
    pub fn avg(&mut self, histo: &[u32]) -> (rgb: [u8; 3])
        requires
            old(self).valid(histo@),
        ensures
            rgb == mean_rgb(histo@, old(self)@),
            *final(self) == (VBox { avg_cache: Some(rgb), ..*old(self) }),
    {
        if let Some(a) = self.avg_cache {
            return a;
        }
        let ghost region = self@;
        let (r1, r2, g1, g2, b1, b2) = (self.r1, self.r2, self.g1, self.g2, self.b1, self.b2);
        let mut ntot: u64 = 0;
        let mut rsum: u64 = 0;
        let mut gsum: u64 = 0;
        let mut bsum: u64 = 0;
        let mut r: u32 = r1;
        proof {
            lemma_tallied(histo@, region, r1 as int, g1 as int, b1 as int);
        }
        while r <= r2
            invariant
                histo@.len() == HISTO_SIZE,
                region.fits(),
                region == (Region {
                    r1: r1 as int,
                    r2: r2 as int,
                    g1: g1 as int,
                    g2: g2 as int,
                    b1: b1 as int,
                    b2: b2 as int,
                }),
                r1 <= r <= r2 + 1,
                tallied(histo@, region, r as int, g1 as int, b1 as int) == (
                    ntot as nat,
                    rsum as nat,
                    gsum as nat,
                    bsum as nat,
                ),
            decreases r2 + 1 - r,
        {
            let mut g: u32 = g1;
            while g <= g2
                invariant
                    histo@.len() == HISTO_SIZE,
                    region.fits(),
                    region == (Region {
                        r1: r1 as int,
                        r2: r2 as int,
                        g1: g1 as int,
                        g2: g2 as int,
                        b1: b1 as int,
                        b2: b2 as int,
                    }),
                    r1 <= r <= r2,
                    g1 <= g <= g2 + 1,
                    tallied(histo@, region, r as int, g as int, b1 as int) == (
                        ntot as nat,
                        rsum as nat,
                        gsum as nat,
                        bsum as nat,
                    ),
                decreases g2 + 1 - g,
            {
                let mut b: u32 = b1;
                while b <= b2
                    invariant
                        histo@.len() == HISTO_SIZE,
                        region.fits(),
                        region == (Region {
                            r1: r1 as int,
                            r2: r2 as int,
                            g1: g1 as int,
                            g2: g2 as int,
                            b1: b1 as int,
                            b2: b2 as int,
                        }),
                        r1 <= r <= r2,
                        g1 <= g <= g2,
                        b1 <= b <= b2 + 1,
                        tallied(histo@, region, r as int, g as int, b as int) == (
                            ntot as nat,
                            rsum as nat,
                            gsum as nat,
                            bsum as nat,
                        ),
                    decreases b2 + 1 - b,
                {
                    let pop: u64 = histo[histo_index(r, g, b)] as u64;
                    proof {
                        lemma_tallied(histo@, region, r as int, g as int, b as int);
                        lemma_tallied_limit(histo@, region, r as int, g as int, b as int);
                        lemma_mass_limit(pop as int, r as int);
                        lemma_mass_limit(pop as int, g as int);
                        lemma_mass_limit(pop as int, b as int);
                    }
                    ntot = ntot + pop;
                    rsum = rsum + pop * (8 * r as u64 + 4);
                    gsum = gsum + pop * (8 * g as u64 + 4);
                    bsum = bsum + pop * (8 * b as u64 + 4);
                    b += 1;
                }
                proof {
                    lemma_tallied(histo@, region, r as int, g as int, b1 as int);
                }
                g += 1;
            }
            proof {
                lemma_tallied(histo@, region, r as int, g1 as int, b1 as int);
            }
            r += 1;
        }
        proof {
            lemma_tallied(histo@, region, r1 as int, g1 as int, b1 as int);
        }
        let rgb: [u8; 3] = if ntot > 0 {
            proof {
                lemma_mean_is_byte(histo@, region, Axis::R);
                lemma_mean_is_byte(histo@, region, Axis::G);
                lemma_mean_is_byte(histo@, region, Axis::B);
            }
            [(rsum / ntot) as u8, (gsum / ntot) as u8, (bsum / ntot) as u8]
        } else {
            [centre(r1, r2), centre(g1, g2), centre(b1, b2)]
        };
        self.avg_cache = Some(rgb);
        rgb
    }
}

/// The middle of a run of cells, in eight-bit units.
fn centre(a: u32, b: u32) -> (c: u8)
    requires
        a < 32,
        b < 32,
    ensures
        c == (if 8 * (a + b + 1) / 2 > 255 {
            255
        } else {
            8 * (a + b + 1) / 2
        }),
{
    let c: u32 = (8 * (a + b + 1)) / 2;
    if c > 255 {
        255
    } else {
        c as u8
    }
}

/// Pixels and per-channel mass of the cells that precede `(r, g, b)`.
spec fn tallied(h: Seq<u32>, region: Region, r: int, g: int, b: int) -> (nat, nat, nat, nat) {
    (
        swept(cell_pop(h), region, r, g, b),
        swept(cell_mass(h, Axis::R), region, r, g, b),
        swept(cell_mass(h, Axis::G), region, r, g, b),
        swept(cell_mass(h, Axis::B), region, r, g, b),
    )
}

proof fn lemma_tallied(h: Seq<u32>, region: Region, r: int, g: int, b: int)
    requires
        region.has(r, g, b),
        region.fits(),
    ensures
        tallied(h, region, region.r1, region.g1, region.b1) == (0nat, 0nat, 0nat, 0nat),
        tallied(h, region, r, g, b + 1).0 == tallied(h, region, r, g, b).0 + h[bin(r, g, b)],
        tallied(h, region, r, g, b + 1).1 == tallied(h, region, r, g, b).1 + h[bin(r, g, b)] * (8
            * r + 4),
        tallied(h, region, r, g, b + 1).2 == tallied(h, region, r, g, b).2 + h[bin(r, g, b)] * (8
            * g + 4),
        tallied(h, region, r, g, b + 1).3 == tallied(h, region, r, g, b).3 + h[bin(r, g, b)] * (8
            * b + 4),
        tallied(h, region, r, g + 1, region.b1) == tallied(h, region, r, g, region.b2 + 1),
        tallied(h, region, r + 1, region.g1, region.b1) == tallied(
            h,
            region,
            r,
            region.g2 + 1,
            region.b1,
        ),
        tallied(h, region, region.r2 + 1, region.g1, region.b1) == (
            population(h, region),
            box_sum(cell_mass(h, Axis::R), region),
            box_sum(cell_mass(h, Axis::G), region),
            box_sum(cell_mass(h, Axis::B), region),
        ),
{
    lemma_swept(cell_pop(h), region, r, g, b);
    lemma_swept(cell_mass(h, Axis::R), region, r, g, b);
    lemma_swept(cell_mass(h, Axis::G), region, r, g, b);
    lemma_swept(cell_mass(h, Axis::B), region, r, g, b);
    let pop = h[bin(r, g, b)] as int;
    lemma_mass_limit(pop, r);
    lemma_mass_limit(pop, g);
    lemma_mass_limit(pop, b);
}

proof fn lemma_mass_limit(pop: int, k: int)
    requires
        0 <= pop <= u32::MAX,
        0 <= k < 32,
    ensures
        0 <= pop * (8 * k + 4) <= 252 * pop,
{
    assert(0 <= pop * (8 * k + 4) <= 252 * pop) by (nonlinear_arith)
        requires
            0 <= pop,
            0 <= k < 32,
    ;
}

proof fn lemma_tallied_limit(h: Seq<u32>, region: Region, r: int, g: int, b: int)
    requires
        region.fits(),
        region.has(r, g, b),
    ensures
        tallied(h, region, r, g, b).0 <= 32800 * u32::MAX,
        tallied(h, region, r, g, b).1 <= 32800 * (252 * u32::MAX),
        tallied(h, region, r, g, b).2 <= 32800 * (252 * u32::MAX),
        tallied(h, region, r, g, b).3 <= 32800 * (252 * u32::MAX),
{
    lemma_swept_limit(cell_pop(h), u32::MAX as nat, region, r, g, b);
    assert forall|axis: Axis, x: int, y: int, z: int|
        region.has(x, y, z) implies #[trigger] cell_mass(h, axis)(x, y, z) <= 252 * u32::MAX by {
        lemma_mass_limit(h[bin(x, y, z)] as int, x);
        lemma_mass_limit(h[bin(x, y, z)] as int, y);
        lemma_mass_limit(h[bin(x, y, z)] as int, z);
    }
    lemma_swept_limit(cell_mass(h, Axis::R), (252 * u32::MAX) as nat, region, r, g, b);
    lemma_swept_limit(cell_mass(h, Axis::G), (252 * u32::MAX) as nat, region, r, g, b);
    lemma_swept_limit(cell_mass(h, Axis::B), (252 * u32::MAX) as nat, region, r, g, b);
}

/// The mean of a populated box is a byte.
pub proof fn lemma_mean_is_byte(h: Seq<u32>, region: Region, axis: Axis)
    requires
        region.fits(),
        population(h, region) > 0,
    ensures
        0 <= mean_channel(h, region, axis) <= 252,
{
    let w = cell_mass(h, axis);
    let v = |r: int, g: int, b: int| 252 * cell_pop(h)(r, g, b);
    assert forall|x: int, y: int, z: int| region.has(x, y, z) implies #[trigger] w(x, y, z) <= v(
        x,
        y,
        z,
    ) by {
        lemma_mass_limit(h[bin(x, y, z)] as int, x);
        lemma_mass_limit(h[bin(x, y, z)] as int, y);
        lemma_mass_limit(h[bin(x, y, z)] as int, z);
    }
    lemma_box_sum_bound(w, v, region);
    lemma_box_sum_scaled(cell_pop(h), 252, v, region);
    let mass = box_sum(w, region) as int;
    let pop = population(h, region) as int;
    assert(0 <= mass / pop <= 252) by (nonlinear_arith)
        requires
            0 <= mass <= 252 * pop,
            pop > 0,
    ;
}

} // verus!
