//! Splitting a box at its population median.

use vstd::prelude::*;

verus! {

use crate::mmcq::box_sums::{lemma_box_sum_split, lemma_box_sum_zero};
use crate::mmcq::space::{Axis, HISTO_LEVELS, Region, cell_pop, counted, population};
use crate::mmcq::vbox::VBox;

/// The axis a box is cut across: its longest, red before green before blue
/// among equals.
pub open spec fn longest_axis(region: Region) -> Axis {
    if region.width(Axis::R) >= region.width(Axis::G) && region.width(Axis::R) >= region.width(
        Axis::B,
    ) {
        Axis::R
    } else if region.width(Axis::G) >= region.width(Axis::B) {
        Axis::G
    } else {
        Axis::B
    }
}

/// Pixels of the box up to and including coordinate `i` along `axis`.
pub open spec fn running(h: Seq<u32>, region: Region, axis: Axis, i: int) -> u32 {
    counted(h, region.slab(axis, region.lo(axis), i))
}

/// The first coordinate from `i` on by which more than half of the box's
/// pixels have been passed.
pub open spec fn median_from(h: Seq<u32>, region: Region, axis: Axis, i: int) -> int
    decreases region.hi(axis) - i,
{
    if i >= region.hi(axis) || running(h, region, axis, i) > counted(h, region) / 2 {
        i
    } else {
        median_from(h, region, axis, i + 1)
    }
}

/// Half way between the median `i` and the edge of `lo ..= hi` that is
/// farther from it, within `lo ..= hi - 1`.
pub open spec fn cut_start(lo: int, hi: int, i: int) -> int {
    if i - lo <= hi - i {
        if i + (hi - i) / 2 < hi - 1 {
            i + (hi - i) / 2
        } else {
            hi - 1
        }
    } else {
        if i - 1 - (i - lo) / 2 > lo {
            i - 1 - (i - lo) / 2
        } else {
            lo
        }
    }
}

/// The first coordinate from `d` on by which a pixel has been passed.
pub open spec fn skip_hole(h: Seq<u32>, region: Region, axis: Axis, d: int) -> int
    decreases region.hi(axis) - d,
{
    if d < region.hi(axis) && running(h, region, axis, d) == 0 {
        skip_hole(h, region, axis, d + 1)
    } else {
        d
    }
}

/// Back from `d` while nothing is left beyond it and something before it.
pub open spec fn retreat(h: Seq<u32>, region: Region, axis: Axis, d: int) -> int
    decreases d - region.lo(axis),
{
    if d > region.lo(axis) && running(h, region, axis, d) == counted(h, region) && running(
        h,
        region,
        axis,
        d - 1,
    ) != 0 {
        retreat(h, region, axis, d - 1)
    } else {
        d
    }
}

/// The last coordinate of the lower half.
pub open spec fn cut_point(h: Seq<u32>, region: Region, axis: Axis) -> int {
    let lo = region.lo(axis);
    let hi = region.hi(axis);
    let d = retreat(
        h,
        region,
        axis,
        skip_hole(h, region, axis, cut_start(lo, hi, median_from(h, region, axis, lo))),
    );
    if d > hi - 1 {
        hi - 1
    } else {
        d
    }
}

/// What a cut makes of a box: nothing of a box without pixels, the box
/// itself where it holds one pixel or one cell, else its two halves.
pub open spec fn cut(h: Seq<u32>, region: Region) -> Option<(Region, Option<Region>)> {
    if counted(h, region) == 0 {
        None
    } else if counted(h, region) == 1 || region.volume() == 1 {
        Some((region, None))
    } else {
        let axis = longest_axis(region);
        let d = cut_point(h, region, axis);
        Some(
            (
                region.slab(axis, region.lo(axis), d),
                Some(region.slab(axis, d + 1, region.hi(axis))),
            ),
        )
    }
}

/// Two optional halves as regions.
pub open spec fn halves(parts: Option<(VBox, Option<VBox>)>) -> Option<(Region, Option<Region>)> {
    match parts {
        None => None,
        Some((left, None)) => Some((left@, None)),
        Some((left, Some(right))) => Some((left@, Some(right@))),
    }
}

/// The pixels passed by `i` are those passed by `i - 1` and those at `i`.
proof fn lemma_running(h: Seq<u32>, region: Region, axis: Axis, i: int)
    requires
        region.lo(axis) <= i <= region.hi(axis),
    ensures
        population(h, region.slab(axis, region.lo(axis), i)) == population(
            h,
            region.slab(axis, region.lo(axis), i - 1),
        ) + population(h, region.slab(axis, i, i)),
        i == region.lo(axis) ==> population(h, region.slab(axis, region.lo(axis), i - 1)) == 0,
        region.slab(axis, region.lo(axis), region.hi(axis)) == region,
{
    let upto = region.slab(axis, region.lo(axis), i);
    lemma_box_sum_split(cell_pop(h), upto, axis, i - 1);
    assert(upto.slab(axis, upto.lo(axis), i - 1) == region.slab(axis, region.lo(axis), i - 1));
    assert(upto.slab(axis, i, upto.hi(axis)) == region.slab(axis, i, i));
    if i == region.lo(axis) {
        lemma_box_sum_zero(cell_pop(h), region.slab(axis, i, i - 1));
    }
    assert(region.slab(axis, region.lo(axis), region.hi(axis)) == region);
}

/// A box of more than one cell is more than one cell long across its longest
/// axis.
pub proof fn lemma_longest_axis(region: Region)
    requires
        region.fits(),
    ensures
        region.volume() == 1 <==> region.width(longest_axis(region)) == 1,
        region.width(longest_axis(region)) >= 1,
{
    let (rw, gw, bw) = (region.width(Axis::R), region.width(Axis::G), region.width(Axis::B));
    assert(rw == 1 && gw == 1 && bw == 1 <==> rw * gw * bw == 1) by (nonlinear_arith)
        requires
            rw >= 1,
            gw >= 1,
            bw >= 1,
    ;
}

/// The cut falls inside the box.
pub proof fn lemma_cut_point(h: Seq<u32>, region: Region, axis: Axis)
    requires
        region.lo(axis) < region.hi(axis),
    ensures
        region.lo(axis) <= cut_point(h, region, axis) < region.hi(axis),
{
    let (lo, hi) = (region.lo(axis), region.hi(axis));
    lemma_median_from(h, region, axis, lo);
    let i = median_from(h, region, axis, lo);
    let s = cut_start(lo, hi, i);
    assert(lo <= s <= hi - 1);
    lemma_skip_hole(h, region, axis, s);
    lemma_retreat(h, region, axis, skip_hole(h, region, axis, s));
}

proof fn lemma_median_from(h: Seq<u32>, region: Region, axis: Axis, i: int)
    requires
        i <= region.hi(axis),
    ensures
        i <= median_from(h, region, axis, i) <= region.hi(axis),
    decreases region.hi(axis) - i,
{
    if !(i >= region.hi(axis) || running(h, region, axis, i) > counted(h, region) / 2) {
        lemma_median_from(h, region, axis, i + 1);
    }
}

proof fn lemma_skip_hole(h: Seq<u32>, region: Region, axis: Axis, d: int)
    requires
        d <= region.hi(axis),
    ensures
        d <= skip_hole(h, region, axis, d) <= region.hi(axis),
    decreases region.hi(axis) - d,
{
    if d < region.hi(axis) && running(h, region, axis, d) == 0 {
        lemma_skip_hole(h, region, axis, d + 1);
    }
}

proof fn lemma_retreat(h: Seq<u32>, region: Region, axis: Axis, d: int)
    requires
        region.lo(axis) <= d,
    ensures
        region.lo(axis) <= retreat(h, region, axis, d) <= d,
    decreases d - region.lo(axis),
{
    if d > region.lo(axis) && running(h, region, axis, d) == counted(h, region) && running(
        h,
        region,
        axis,
        d - 1,
    ) != 0 {
        lemma_retreat(h, region, axis, d - 1);
    }
}

impl VBox {
    /// The part of the box from `lo` to `hi` along `axis`, with empty caches.
    pub fn slab(&self, axis: Axis, lo: u32, hi: u32) -> (part: VBox)
        ensures
            part@ == self@.slab(axis, lo as int, hi as int),
            part.count_cache is None,
            part.avg_cache is None,
    {
        let mut part: VBox = *self;
        part.count_cache = None;
        part.avg_cache = None;
        match axis {
            Axis::R => {
                part.r1 = lo;
                part.r2 = hi;
            },
            Axis::G => {
                part.g1 = lo;
                part.g2 = hi;
            },
            Axis::B => {
                part.b1 = lo;
                part.b2 = hi;
            },
        }
        part
    }

    /// Bounds of the box along `axis`.
    fn span(&self, axis: Axis) -> (s: (u32, u32))
        ensures
            s.0 == self@.lo(axis),
            s.1 == self@.hi(axis),
    {
        match axis {
            Axis::R => (self.r1, self.r2),
            Axis::G => (self.g1, self.g2),
            Axis::B => (self.b1, self.b2),
        }
    }

    /// The axis to cut across.
    fn cut_axis(&self) -> (axis: Axis)
        requires
            self@.fits(),
        ensures
            axis == longest_axis(self@),
    {
        let rw: u32 = self.r2 - self.r1 + 1;
        let gw: u32 = self.g2 - self.g1 + 1;
        let bw: u32 = self.b2 - self.b1 + 1;
        if rw >= gw && rw >= bw {
            Axis::R
        } else if gw >= bw {
            Axis::G
        } else {
            Axis::B
        }
    }
}

/// Running pixel counts along `axis`, indexed by coordinate.
fn running_counts(vbox: &VBox, axis: Axis, histo: &[u32]) -> (partial: [u32; HISTO_LEVELS])
    requires
        vbox.valid(histo@),
    ensures
        forall|i: int|
            vbox@.lo(axis) <= i <= vbox@.hi(axis) ==> #[trigger] partial[i] == running(
                histo@,
                vbox@,
                axis,
                i,
            ),
{
    let (lo, hi) = vbox.span(axis);
    let ghost region = vbox@;
    let mut partial: [u32; HISTO_LEVELS] = [0u32; HISTO_LEVELS];
    let mut total: u32 = 0;
    let mut i: u32 = lo;
    proof {
        lemma_running(histo@, region, axis, lo as int);
    }
    while i <= hi
        invariant
            vbox.valid(histo@),
            region == vbox@,
            lo == region.lo(axis),
            hi == region.hi(axis),
            lo <= i <= hi + 1,
            hi < 32,
            total == running(histo@, region, axis, i - 1),
            forall|k: int|
                lo <= k < i ==> #[trigger] partial[k] == running(histo@, region, axis, k),
        decreases hi + 1 - i,
    {
        let mut slice: VBox = vbox.slab(axis, i, i);
        let sum: u32 = slice.count(histo);
        proof {
            lemma_running(histo@, region, axis, i as int);
        }
        total = total.saturating_add(sum);
        partial[i as usize] = total;
        i += 1;
    }
    partial
}

/// The last coordinate of the lower half along `axis`.
fn cut_coordinate(vbox: &VBox, axis: Axis, histo: &[u32]) -> (d: u32)
    requires
        vbox.valid(histo@),
        vbox@.lo(axis) < vbox@.hi(axis),
    ensures
        d == cut_point(histo@, vbox@, axis),
{
    let ghost h = histo@;
    let ghost region = vbox@;
    let (lo, hi) = vbox.span(axis);
    let partial: [u32; HISTO_LEVELS] = running_counts(vbox, axis, histo);
    proof {
        lemma_running(h, region, axis, hi as int);
        assert(partial[hi as int] == running(h, region, axis, hi as int));
    }
    let total: u32 = partial[hi as usize];
    let mut i: u32 = lo;
    while i < hi && partial[i as usize] <= total / 2
        invariant
            lo == region.lo(axis),
            hi == region.hi(axis),
            lo <= i <= hi < 32,
            total == counted(h, region),
            forall|k: int|
                lo <= k <= hi ==> #[trigger] partial[k] == running(h, region, axis, k),
            median_from(h, region, axis, lo as int) == median_from(h, region, axis, i as int),
        decreases hi - i,
    {
        assert(partial[i as int] == running(h, region, axis, i as int));
        i += 1;
    }
    assert(partial[i as int] == running(h, region, axis, i as int));
    let left: u32 = i - lo;
    let right: u32 = hi - i;
    let mut d: u32 = if left <= right {
        if i + right / 2 < hi - 1 {
            i + right / 2
        } else {
            hi - 1
        }
    } else if i - 1 > lo + left / 2 {
        i - 1 - left / 2
    } else {
        lo
    };
    let ghost start = d as int;
    while d < hi && partial[d as usize] == 0
        invariant
            lo == region.lo(axis),
            hi == region.hi(axis),
            lo <= d <= hi < 32,
            forall|k: int|
                lo <= k <= hi ==> #[trigger] partial[k] == running(h, region, axis, k),
            skip_hole(h, region, axis, start) == skip_hole(h, region, axis, d as int),
        decreases hi - d,
    {
        assert(partial[d as int] == running(h, region, axis, d as int));
        d += 1;
    }
    assert(partial[d as int] == running(h, region, axis, d as int));
    let ghost hop = d as int;
    while d > lo && partial[d as usize] == total && partial[(d - 1) as usize] != 0
        invariant
            lo == region.lo(axis),
            hi == region.hi(axis),
            lo <= d <= hi < 32,
            total == counted(h, region),
            forall|k: int|
                lo <= k <= hi ==> #[trigger] partial[k] == running(h, region, axis, k),
            retreat(h, region, axis, hop) == retreat(h, region, axis, d as int),
        decreases d - lo,
    {
        assert(partial[d as int] == running(h, region, axis, d as int));
        assert(partial[d - 1] == running(h, region, axis, d - 1));
        d -= 1;
    }
    assert(partial[d as int] == running(h, region, axis, d as int));
    if d > lo {
        assert(partial[d - 1] == running(h, region, axis, d - 1));
    }
    if d > hi - 1 {
        hi - 1
    } else {
        d
    }
}

/// Cuts a box in two at its population median: `None` for a box without
/// pixels, the box alone where it holds a single pixel or cell.
pub fn median_cut(vbox: &VBox, histo: &[u32]) -> (parts: Option<(VBox, Option<VBox>)>)
    requires
        vbox.valid(histo@),
    ensures
        halves(parts) == cut(histo@, vbox@),
        parts matches Some((left, None)) ==> left == *vbox,
        parts matches Some((left, Some(right))) ==> left.valid(histo@) && right.valid(histo@)
            && left.count_cache is None && left.avg_cache is None && right.count_cache is None
            && right.avg_cache is None,
{
    let mut probe: VBox = *vbox;
    let count: u32 = probe.count(histo);
    if count == 0 {
        return None;
    }
    if count == 1 || vbox.volume() == 1 {
        return Some((*vbox, None));
    }
    let axis: Axis = vbox.cut_axis();
    let (lo, hi) = vbox.span(axis);
    proof {
        lemma_longest_axis(vbox@);
        lemma_cut_point(histo@, vbox@, axis);
    }
    let d: u32 = cut_coordinate(vbox, axis, histo);
    Some((vbox.slab(axis, lo, d), Some(vbox.slab(axis, d + 1, hi))))
}

} // verus!
