//! Facts about sums over boxes.

use vstd::prelude::*;

verus! {

use crate::mmcq::space::{Axis, Region, box_sum, plane_sum, row_sum};
use crate::mmcq::sums::{
    lemma_range_sum_bound, lemma_range_sum_limit, lemma_range_sum_plus, lemma_range_sum_same,
    lemma_range_sum_scaled, lemma_range_sum_split, lemma_range_sum_term, lemma_range_sum_zero, range_sum,
};

/// Weights that agree on every cell of a box have the same sum over it.
pub proof fn lemma_box_sum_same(
    w: spec_fn(int, int, int) -> nat,
    v: spec_fn(int, int, int) -> nat,
    region: Region,
)
    requires
        forall|r: int, g: int, b: int| region.has(r, g, b) ==> #[trigger] w(r, g, b) == v(r, g, b),
    ensures
        box_sum(w, region) == box_sum(v, region),
{
    let pw = |r: int| plane_sum(w, r, region);
    let pv = |r: int| plane_sum(v, r, region);
    assert forall|r: int| region.r1 <= r <= region.r2 implies #[trigger] pw(r) == pv(r) by {
        let rw = |g: int| row_sum(w, r, g, region);
        let rv = |g: int| row_sum(v, r, g, region);
        assert forall|g: int| region.g1 <= g <= region.g2 implies #[trigger] rw(g) == rv(g) by {
            let cw = |b: int| w(r, g, b);
            let cv = |b: int| v(r, g, b);
            assert forall|b: int| region.b1 <= b <= region.b2 implies #[trigger] cw(b) == cv(b) by {
                assert(region.has(r, g, b));
            }
            lemma_range_sum_same(cw, cv, region.b1, region.b2);
        }
        lemma_range_sum_same(rw, rv, region.g1, region.g2);
    }
    lemma_range_sum_same(pw, pv, region.r1, region.r2);
}

/// A bound on every cell carries over to the sums over the box.
pub proof fn lemma_box_sum_bound(
    w: spec_fn(int, int, int) -> nat,
    v: spec_fn(int, int, int) -> nat,
    region: Region,
)
    requires
        forall|r: int, g: int, b: int| region.has(r, g, b) ==> #[trigger] w(r, g, b) <= v(r, g, b),
    ensures
        box_sum(w, region) <= box_sum(v, region),
{
    let pw = |r: int| plane_sum(w, r, region);
    let pv = |r: int| plane_sum(v, r, region);
    assert forall|r: int| region.r1 <= r <= region.r2 implies #[trigger] pw(r) <= pv(r) by {
        let rw = |g: int| row_sum(w, r, g, region);
        let rv = |g: int| row_sum(v, r, g, region);
        assert forall|g: int| region.g1 <= g <= region.g2 implies #[trigger] rw(g) <= rv(g) by {
            let cw = |b: int| w(r, g, b);
            let cv = |b: int| v(r, g, b);
            assert forall|b: int| region.b1 <= b <= region.b2 implies #[trigger] cw(b) <= cv(b) by {
                assert(region.has(r, g, b));
            }
            lemma_range_sum_bound(cw, cv, region.b1, region.b2);
        }
        lemma_range_sum_bound(rw, rv, region.g1, region.g2);
    }
    lemma_range_sum_bound(pw, pv, region.r1, region.r2);
}

/// A box without weight sums to zero.
pub proof fn lemma_box_sum_zero(w: spec_fn(int, int, int) -> nat, region: Region)
    requires
        forall|r: int, g: int, b: int| region.has(r, g, b) ==> #[trigger] w(r, g, b) == 0,
    ensures
        box_sum(w, region) == 0,
{
    let pw = |r: int| plane_sum(w, r, region);
    assert forall|r: int| region.r1 <= r <= region.r2 implies #[trigger] pw(r) == 0 by {
        let rw = |g: int| row_sum(w, r, g, region);
        assert forall|g: int| region.g1 <= g <= region.g2 implies #[trigger] rw(g) == 0 by {
            let cw = |b: int| w(r, g, b);
            assert forall|b: int| region.b1 <= b <= region.b2 implies #[trigger] cw(b) == 0 by {
                assert(region.has(r, g, b));
            }
            lemma_range_sum_zero(cw, region.b1, region.b2);
        }
        lemma_range_sum_zero(rw, region.g1, region.g2);
    }
    lemma_range_sum_zero(pw, region.r1, region.r2);
}

/// A constant factor can be drawn out of a sum over a box.
pub proof fn lemma_box_sum_scaled(
    w: spec_fn(int, int, int) -> nat,
    k: nat,
    scaled: spec_fn(int, int, int) -> nat,
    region: Region,
)
    requires
        forall|r: int, g: int, b: int|
            region.has(r, g, b) ==> #[trigger] scaled(r, g, b) == k * w(r, g, b),
    ensures
        box_sum(scaled, region) == k * box_sum(w, region),
{
    let ps = |r: int| plane_sum(scaled, r, region);
    let pw = |r: int| plane_sum(w, r, region);
    assert forall|r: int| region.r1 <= r <= region.r2 implies #[trigger] ps(r) == k * pw(r) by {
        let rs = |g: int| row_sum(scaled, r, g, region);
        let rw = |g: int| row_sum(w, r, g, region);
        assert forall|g: int| region.g1 <= g <= region.g2 implies #[trigger] rs(g) == k * rw(g) by {
            let cs = |b: int| scaled(r, g, b);
            let cw = |b: int| w(r, g, b);
            assert forall|b: int| region.b1 <= b <= region.b2 implies #[trigger] cs(b) == k * cw(b) by {
                assert(region.has(r, g, b));
            }
            lemma_range_sum_scaled(cw, k, cs, region.b1, region.b2);
        }
        lemma_range_sum_scaled(rw, k, rs, region.g1, region.g2);
    }
    lemma_range_sum_scaled(pw, k, ps, region.r1, region.r2);
}

/// No cell of a box outweighs the box.
pub proof fn lemma_box_sum_term(
    w: spec_fn(int, int, int) -> nat,
    region: Region,
    r: int,
    g: int,
    b: int,
)
    requires
        region.has(r, g, b),
    ensures
        w(r, g, b) <= box_sum(w, region),
{
    lemma_range_sum_term(|k: int| w(r, g, k), region.b1, region.b2, b);
    lemma_range_sum_term(|k: int| row_sum(w, r, k, region), region.g1, region.g2, g);
    lemma_range_sum_term(|k: int| plane_sum(w, k, region), region.r1, region.r2, r);
}

/// A box cut in two across `axis` has the sum of its two parts.
pub proof fn lemma_box_sum_split(
    w: spec_fn(int, int, int) -> nat,
    region: Region,
    axis: Axis,
    mid: int,
)
    requires
        region.lo(axis) <= mid + 1,
        mid <= region.hi(axis),
    ensures
        box_sum(w, region) == box_sum(w, region.slab(axis, region.lo(axis), mid)) + box_sum(
            w,
            region.slab(axis, mid + 1, region.hi(axis)),
        ),
{
    let left = region.slab(axis, region.lo(axis), mid);
    let right = region.slab(axis, mid + 1, region.hi(axis));
    let pw = |r: int| plane_sum(w, r, region);
    let pl = |r: int| plane_sum(w, r, left);
    let pr = |r: int| plane_sum(w, r, right);
    match axis {
        Axis::R => {
            lemma_range_sum_split(pw, region.r1, mid, region.r2);
            assert forall|r: int| region.r1 <= r <= mid implies #[trigger] pw(r) == pl(r) by {
                lemma_plane_sum_same_bounds(w, r, region, left);
            }
            lemma_range_sum_same(pw, pl, region.r1, mid);
            assert forall|r: int| mid + 1 <= r <= region.r2 implies #[trigger] pw(r) == pr(r) by {
                lemma_plane_sum_same_bounds(w, r, region, right);
            }
            lemma_range_sum_same(pw, pr, mid + 1, region.r2);
        },
        Axis::G => {
            assert forall|r: int| region.r1 <= r <= region.r2 implies #[trigger] pw(r) == pl(r)
                + pr(r) by {
                let rw = |g: int| row_sum(w, r, g, region);
                let rl = |g: int| row_sum(w, r, g, left);
                let rr = |g: int| row_sum(w, r, g, right);
                lemma_range_sum_split(rw, region.g1, mid, region.g2);
                lemma_range_sum_same(rw, rl, region.g1, mid);
                lemma_range_sum_same(rw, rr, mid + 1, region.g2);
            }
            lemma_range_sum_plus(pl, pr, pw, region.r1, region.r2);
        },
        Axis::B => {
            assert forall|r: int| region.r1 <= r <= region.r2 implies #[trigger] pw(r) == pl(r)
                + pr(r) by {
                let rw = |g: int| row_sum(w, r, g, region);
                let rl = |g: int| row_sum(w, r, g, left);
                let rr = |g: int| row_sum(w, r, g, right);
                assert forall|g: int| region.g1 <= g <= region.g2 implies #[trigger] rw(g) == rl(g)
                    + rr(g) by {
                    lemma_range_sum_split(|b: int| w(r, g, b), region.b1, mid, region.b2);
                }
                lemma_range_sum_plus(rl, rr, rw, region.g1, region.g2);
            }
            lemma_range_sum_plus(pl, pr, pw, region.r1, region.r2);
        },
    }
}

proof fn lemma_plane_sum_same_bounds(
    w: spec_fn(int, int, int) -> nat,
    r: int,
    one: Region,
    other: Region,
)
    requires
        one.g1 == other.g1,
        one.g2 == other.g2,
        one.b1 == other.b1,
        one.b2 == other.b2,
    ensures
        plane_sum(w, r, one) == plane_sum(w, r, other),
{
    lemma_range_sum_same(
        |g: int| row_sum(w, r, g, one),
        |g: int| row_sum(w, r, g, other),
        one.g1,
        one.g2,
    );
}

/// The sum of `w` over the cells of the box that precede `(r, g, b)` in the
/// order red, green, blue.
pub open spec fn swept(
    w: spec_fn(int, int, int) -> nat,
    region: Region,
    r: int,
    g: int,
    b: int,
) -> nat {
    range_sum(|k: int| plane_sum(w, k, region), region.r1, r - 1) + range_sum(
        |k: int| row_sum(w, r, k, region),
        region.g1,
        g - 1,
    ) + range_sum(|k: int| w(r, g, k), region.b1, b - 1)
}

/// How `swept` moves on by a cell, a row and a slice, and where it starts and
/// ends.
pub proof fn lemma_swept(
    w: spec_fn(int, int, int) -> nat,
    region: Region,
    r: int,
    g: int,
    b: int,
)
    requires
        region.has(r, g, b),
    ensures
        swept(w, region, region.r1, region.g1, region.b1) == 0,
        swept(w, region, r, g, b + 1) == swept(w, region, r, g, b) + w(r, g, b),
        swept(w, region, r, g + 1, region.b1) == swept(w, region, r, g, region.b2 + 1),
        swept(w, region, r + 1, region.g1, region.b1) == swept(
            w,
            region,
            r,
            region.g2 + 1,
            region.b1,
        ),
        swept(w, region, region.r2 + 1, region.g1, region.b1) == box_sum(w, region),
{
}

/// A bound on every cell bounds `swept` within the quantized space.
pub proof fn lemma_swept_limit(
    w: spec_fn(int, int, int) -> nat,
    limit: nat,
    region: Region,
    r: int,
    g: int,
    b: int,
)
    requires
        region.fits(),
        region.r1 <= r <= region.r2,
        region.g1 <= g <= region.g2,
        region.b1 <= b <= region.b2 + 1,
        forall|x: int, y: int, z: int|
            region.has(x, y, z) ==> #[trigger] w(x, y, z) <= limit,
    ensures
        swept(w, region, r, g, b) <= 32800 * limit,
{
    let rows = |k: int| row_sum(w, r, k, region);
    let planes = |k: int| plane_sum(w, k, region);
    assert forall|x: int, y: int|
        region.r1 <= x <= region.r2 && region.g1 <= y <= region.g2 implies #[trigger] row_sum(
        w,
        x,
        y,
        region,
    ) <= 32 * limit by {
        let cells = |z: int| w(x, y, z);
        assert forall|z: int| region.b1 <= z <= region.b2 implies #[trigger] cells(z) <= limit by {
            assert(region.has(x, y, z));
        }
        lemma_range_sum_limit(cells, limit, region.b1, region.b2);
        assert((region.b2 - region.b1 + 1) * limit <= 32 * limit) by (nonlinear_arith)
            requires
                region.b2 - region.b1 + 1 <= 32,
                limit >= 0,
        ;
    }
    assert forall|x: int| region.r1 <= x <= region.r2 implies #[trigger] plane_sum(w, x, region)
        <= 1024 * limit by {
        let inner = |y: int| row_sum(w, x, y, region);
        assert forall|y: int| region.g1 <= y <= region.g2 implies #[trigger] inner(y) <= 32 * limit by {
            assert(row_sum(w, x, y, region) <= 32 * limit);
        }
        lemma_range_sum_limit(inner, 32 * limit, region.g1, region.g2);
        assert((region.g2 - region.g1 + 1) * (32 * limit) <= 1024 * limit) by (nonlinear_arith)
            requires
                region.g2 - region.g1 + 1 <= 32,
                limit >= 0,
        ;
    }
    assert forall|x: int| region.r1 <= x <= r - 1 implies #[trigger] planes(x) <= 1024 * limit by {
        assert(plane_sum(w, x, region) <= 1024 * limit);
    }
    lemma_range_sum_limit(planes, 1024 * limit, region.r1, r - 1);
    assert forall|y: int| region.g1 <= y <= g - 1 implies #[trigger] rows(y) <= 32 * limit by {
        assert(row_sum(w, r, y, region) <= 32 * limit);
    }
    lemma_range_sum_limit(rows, 32 * limit, region.g1, g - 1);
    let cells = |z: int| w(r, g, z);
    assert forall|z: int| region.b1 <= z <= b - 1 implies #[trigger] cells(z) <= limit by {
        assert(region.has(r, g, z));
    }
    lemma_range_sum_limit(cells, limit, region.b1, b - 1);
    assert((r - region.r1) * (1024 * limit) + (g - region.g1) * (32 * limit) + (b - region.b1)
        * limit <= 32800 * limit) by (nonlinear_arith)
        requires
            r - region.r1 <= 31,
            g - region.g1 <= 32,
            b - region.b1 <= 32,
            limit >= 0,
    ;
}

} // verus!
