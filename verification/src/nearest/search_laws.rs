//! What the searches find, in terms of the distances that they were told.

use vstd::prelude::*;

verus! {

use crate::distance::{Distance, INFINITY_BITS, Metric, measured};
use crate::mmcq::histogram::pixel_bin;
use crate::nearest::lanes::nearest_idx_lanes;
use crate::nearest::lut::{
    Lut, LutError, candidates_upto, cell_candidates, compute_lut, lists_winners, measured_for,
    nearest_idx_in_cell, strictly_ascending, wins, wins_among, wins_in, won_in,
};
use crate::nearest::prefilter::{
    PREFILTER_K, held, law_shortlist_holds_the_closest, lemma_shortlist_shape,
    nearest_idx_prefiltered, shortlist, spot, wins_shortlist,
};
use crate::nearest::scan::{is_nearest, is_nearest_seeded, nearest_idx};

/// Whether the bits are those of a number: anything up to infinity, with
/// either sign.
pub open spec fn is_number(d: Distance) -> bool {
    d.bits <= 0x7f80_0000 || (0x8000_0000 <= d.bits <= 0xff80_0000)
}

/// Where a number stands among all numbers: the larger the number, the larger
/// its place, and both zeros at 0.
pub open spec fn place_of(d: Distance) -> int {
    if d.bits >= 0x8000_0000 {
        0x8000_0000 - d.bits
    } else {
        d.bits as int
    }
}

/// Whether `a` is a smaller number than `b`.
pub open spec fn smaller(a: Distance, b: Distance) -> bool {
    is_number(a) && is_number(b) && place_of(a) < place_of(b)
}

/// Whether `d` is a number below infinity.
pub open spec fn finite(d: Distance) -> bool {
    is_number(d) && place_of(d) < 0x7f80_0000
}

/// Comparisons of distances are those of the numbers; what is no number
/// compares as false.
pub proof fn law_distances_compare_as_numbers(
    a: Distance,
    b: Distance,
    less: bool,
    not_less: bool,
    nan: bool,
)
    requires
        call_ensures(Distance::less_than, (a, b), less),
        call_ensures(Distance::not_less_than, (a, b), not_less),
        call_ensures(Distance::is_nan, (a,), nan),
    ensures
        less <==> smaller(a, b),
        not_less <==> is_number(a) && is_number(b) && !smaller(a, b),
        nan <==> !is_number(a),
{
}

proof fn lemma_numbers(a: Distance, b: Distance)
    ensures
        a.nan() == !is_number(a),
        a.below(b) == smaller(a, b),
        a.bounded() == finite(a),
{
}

/// Whether `dist` tells nothing but `ds` of the entries by `metric`.
pub open spec fn tells<D: Fn(Metric, [u8; 3], usize) -> Distance>(
    dist: D,
    metric: Metric,
    rgb: [u8; 3],
    ds: Seq<Distance>,
) -> bool {
    forall|i: usize, d: Distance|
        i < ds.len() && #[trigger] call_ensures(dist, (metric, rgb, i), d) ==> d == ds[i as int]
}

/// Whether entry `k` is the first of the nearest: no entry's distance is
/// smaller, and every earlier one's is larger or no number. Where no distance
/// is a number below infinity it is the first entry.
pub open spec fn first_nearest(ds: Seq<Distance>, k: int) -> bool {
    &&& 0 <= k < ds.len()
    &&& (exists|i: int| 0 <= i < ds.len() && finite(#[trigger] ds[i])) ==> {
        &&& finite(ds[k])
        &&& forall|j: int| 0 <= j < ds.len() ==> !smaller(#[trigger] ds[j], ds[k])
        &&& forall|j: int| 0 <= j < k ==> smaller(ds[k], #[trigger] ds[j]) || !is_number(ds[j])
    }
    &&& (forall|i: int| 0 <= i < ds.len() ==> !finite(#[trigger] ds[i])) ==> k == 0
}

pub proof fn lemma_first_nearest(ds: Seq<Distance>, k: int)
    requires
        is_nearest(ds, k),
        0 <= k < ds.len(),
    ensures
        first_nearest(ds, k),
{
    assert forall|a: Distance, b: Distance| #[trigger] a.below(b) == smaller(a, b) by {
        lemma_numbers(a, b);
    }
    if exists|i: int| 0 <= i < ds.len() && finite(#[trigger] ds[i]) {
        let i = choose|i: int| 0 <= i < ds.len() && finite(#[trigger] ds[i]);
        assert(ds[i].bounded());
        assert forall|j: int| 0 <= j < ds.len() implies !smaller(#[trigger] ds[j], ds[k]) by {
            assert(!ds[j].below(ds[k]));
        }
        assert forall|j: int| 0 <= j < k implies smaller(ds[k], #[trigger] ds[j]) || !is_number(
            ds[j],
        ) by {
            if !ds[j].nan() {
                assert(ds[k].below(ds[j]));
            }
        }
    } else {
        assert forall|i: int| 0 <= i < ds.len() implies !(#[trigger] ds[i]).bounded() by {
            assert(!finite(ds[i]));
        }
    }
}

/// A winner of a full search is the first of the nearest.
pub proof fn lemma_winner<D: Fn(Metric, [u8; 3], usize) -> Distance>(
    dist: D,
    metric: Metric,
    rgb: [u8; 3],
    ds: Seq<Distance>,
    k: int,
)
    requires
        tells(dist, metric, rgb, ds),
        ds.len() <= usize::MAX,
        wins(dist, metric, ds.len(), rgb, k),
        0 <= k < ds.len(),
    ensures
        first_nearest(ds, k),
{
    let es = choose|es: Seq<Distance>|
        es.len() == ds.len() && measured(dist, metric, rgb, es) && #[trigger] is_nearest(es, k);
    assert forall|i: int| 0 <= i < ds.len() implies #[trigger] es[i] == ds[i] by {
        let e = i as usize;
        assert(call_ensures(dist, (metric, rgb, e), es[e as int]));
    }
    assert(es =~= ds);
    lemma_first_nearest(ds, k);
}

/// A full search finds the first of the nearest by the metric it is given,
/// one entry at a time or several.
pub proof fn law_full_search_finds_the_nearest<
    const LANES: usize,
    D: Fn(Metric, [u8; 3], usize) -> Distance,
>(dist: D, metric: Metric, rgb: [u8; 3], n: usize, ds: Seq<Distance>, best: usize)
    requires
        call_ensures(nearest_idx::<D>, (metric, rgb, n, &dist), best) || call_ensures(
            nearest_idx_lanes::<LANES, D>,
            (metric, rgb, n, &dist),
            best,
        ),
        ds.len() == n,
        tells(dist, metric, rgb, ds),
    ensures
        first_nearest(ds, best as int),
{
    assert(wins(dist, metric, n as nat, rgb, best as int));
    lemma_winner(dist, metric, rgb, ds, best as int);
}

/// Whether candidate `k` is the one that a search among the candidates finds:
/// the first of the nearest of them, or the first candidate if its own
/// distance is no number.
pub open spec fn first_nearest_candidate(ds: Seq<Distance>, list: Seq<u16>, k: int) -> bool {
    &&& 0 <= k < list.len()
    &&& is_number(ds[list[0] as int]) ==> {
        &&& is_number(ds[list[k] as int])
        &&& forall|j: int|
            0 <= j < list.len() ==> !smaller(ds[#[trigger] list[j] as int], ds[list[k] as int])
        &&& forall|j: int|
            0 <= j < k ==> smaller(ds[list[k] as int], ds[#[trigger] list[j] as int])
                || !is_number(ds[list[j] as int])
    }
    &&& !is_number(ds[list[0] as int]) ==> k == 0
}

/// A winner among candidates is the first of the nearest of them.
pub proof fn lemma_candidate<D: Fn(Metric, [u8; 3], usize) -> Distance>(
    dist: D,
    rgb: [u8; 3],
    list: Seq<u16>,
    ds: Seq<Distance>,
    i: int,
) -> (k: int)
    requires
        tells(dist, Metric::Ciede2000, rgb, ds),
        forall|j: int| 0 <= j < list.len() ==> #[trigger] list[j] < ds.len(),
        wins_among(dist, Metric::Ciede2000, list, rgb, i),
    ensures
        first_nearest_candidate(ds, list, k),
        list[k] == i,
{
    let (es, k) = choose|es: Seq<Distance>, k: int|
        measured_for(dist, Metric::Ciede2000, rgb, list, es) && #[trigger] is_nearest_seeded(es, k)
            && 0 <= k < list.len() && list[k] == i;
    assert forall|j: int| 0 <= j < list.len() implies #[trigger] es[j] == ds[list[j] as int] by {
        assert(call_ensures(dist, (Metric::Ciede2000, rgb, list[j] as usize), es[j]));
    }
    assert forall|a: Distance, b: Distance| #[trigger] a.below(b) == smaller(a, b) by {
        lemma_numbers(a, b);
    }
    assert(es[0] == ds[list[0] as int]);
    assert(es[k] == ds[list[k] as int]);
    if is_number(ds[list[0] as int]) {
        assert forall|j: int| 0 <= j < list.len() implies !smaller(
            ds[#[trigger] list[j] as int],
            ds[list[k] as int],
        ) by {
            assert(!es[j].below(es[k]));
        }
        assert forall|j: int| 0 <= j < k implies smaller(
            ds[list[k] as int],
            ds[#[trigger] list[j] as int],
        ) || !is_number(ds[list[j] as int]) by {
            if !es[j].nan() {
                assert(es[k].below(es[j]));
            }
        }
    }
    k
}

/// The search through a candidate table finds the first of the nearest, by
/// CIEDE2000, among the candidates of the colour's cell.
pub proof fn law_table_search_finds_the_nearest_candidate<
    D: Fn(Metric, [u8; 3], usize) -> Distance,
>(lut: Lut, dist: D, rgb: [u8; 3], n: usize, ds: Seq<Distance>, best: usize) -> (k: int)
    requires
        lut.serves(n as nat),
        call_ensures(nearest_idx_in_cell::<D>, (&lut, rgb, n, &dist), best),
        ds.len() == n,
        tells(dist, Metric::Ciede2000, rgb, ds),
    ensures
        ({
            let cell = 1024 * (rgb[0] as int / 8) + 32 * (rgb[1] as int / 8) + rgb[2] as int / 8;
            &&& first_nearest_candidate(ds, lut.cell(cell), k)
            &&& lut.cell(cell)[k] == best
        }),
{
    let cell = 1024 * (rgb[0] as int / 8) + 32 * (rgb[1] as int / 8) + rgb[2] as int / 8;
    assert(cell == pixel_bin(rgb));
    let list = lut.cell(cell);
    assert(0 <= cell < 32768);
    assert forall|j: int| 0 <= j < list.len() implies #[trigger] list[j] < ds.len() by {
        assert(lut.cell(cell)[j] < n);
    }
    lemma_candidate(dist, rgb, list, ds, best as int)
}

/// Whether a colour falls into a cell: its channels divided by eight are the
/// cell's coordinates.
pub open spec fn falls_into(rgb: [u8; 3], cell: int) -> bool {
    cell == 1024 * (rgb[0] as int / 8) + 32 * (rgb[1] as int / 8) + rgb[2] as int / 8
}

/// Whether `list` is the candidate list of a cell, where `ds` tells the
/// distances for each colour: in ascending order, it holds the nearest entry
/// of each of the cell's colours, and nothing else.
pub open spec fn lists_the_nearest(
    ds: spec_fn([u8; 3]) -> Seq<Distance>,
    cell: int,
    list: Seq<u16>,
) -> bool {
    &&& forall|i: int, j: int| 0 <= i < j < list.len() ==> #[trigger] list[i] < #[trigger] list[j]
    &&& forall|rgb: [u8; 3]| #[trigger] falls_into(rgb, cell) ==> nearest_listed(ds(rgb), list)
    &&& forall|k: int| 0 <= k < list.len() ==> nearest_to_some(ds, cell, #[trigger] list[k])
}

/// Whether the first of the nearest is in the list.
pub open spec fn nearest_listed(ds: Seq<Distance>, list: Seq<u16>) -> bool {
    exists|k: int| 0 <= k < list.len() && first_nearest(ds, #[trigger] list[k] as int)
}

/// Whether the entry is the first of the nearest to some colour of the cell.
pub open spec fn nearest_to_some(
    ds: spec_fn([u8; 3]) -> Seq<Distance>,
    cell: int,
    entry: u16,
) -> bool {
    exists|rgb: [u8; 3]| #[trigger] falls_into(rgb, cell) && first_nearest(ds(rgb), entry as int)
}

proof fn lemma_lists<D: Fn(Metric, [u8; 3], usize) -> Distance>(
    dist: D,
    n: nat,
    ds: spec_fn([u8; 3]) -> Seq<Distance>,
    cell: int,
    list: Seq<u16>,
)
    requires
        n <= usize::MAX,
        lists_winners(dist, n, cell, list),
        forall|k: int| 0 <= k < list.len() ==> #[trigger] list[k] < n,
        forall|rgb: [u8; 3]| (#[trigger] ds(rgb)).len() == n,
        forall|rgb: [u8; 3]| tells(dist, Metric::Ciede2000, rgb, #[trigger] ds(rgb)),
    ensures
        lists_the_nearest(ds, cell, list),
{
    assert(strictly_ascending(list));
    assert forall|rgb: [u8; 3]| #[trigger] falls_into(rgb, cell) implies nearest_listed(
        ds(rgb),
        list,
    ) by {
        assert(pixel_bin(rgb) == cell);
        assert(won_in(dist, n, rgb, list));
        let k = choose|k: int|
            0 <= k < list.len() && wins(dist, Metric::Ciede2000, n, rgb, #[trigger] list[k] as int);
        lemma_winner(dist, Metric::Ciede2000, rgb, ds(rgb), list[k] as int);
    }
    assert forall|k: int| 0 <= k < list.len() implies nearest_to_some(
        ds,
        cell,
        #[trigger] list[k],
    ) by {
        assert(wins_in(dist, n, cell, list[k]));
        let rgb = choose|rgb: [u8; 3]|
            #[trigger] pixel_bin(rgb) == cell && wins(
                dist,
                Metric::Ciede2000,
                n,
                rgb,
                list[k] as int,
            );
        lemma_winner(dist, Metric::Ciede2000, rgb, ds(rgb), list[k] as int);
        assert(falls_into(rgb, cell));
    }
}

/// The candidates of a cell are the entries nearest to its colours by
/// CIEDE2000.
pub proof fn law_candidates_are_the_nearest<D: Fn(Metric, [u8; 3], usize) -> Distance>(
    dist: D,
    cell: usize,
    n: usize,
    ds: spec_fn([u8; 3]) -> Seq<Distance>,
    list: Vec<u16>,
)
    requires
        call_ensures(cell_candidates::<D>, (cell, n, &dist), list),
        forall|rgb: [u8; 3]| (#[trigger] ds(rgb)).len() == n,
        forall|rgb: [u8; 3]| tells(dist, Metric::Ciede2000, rgb, #[trigger] ds(rgb)),
    ensures
        lists_the_nearest(ds, cell as int, list@),
{
    lemma_lists(dist, n as nat, ds, cell as int, list@);
}

/// A computed table lists for every cell the entries nearest to its colours
/// by CIEDE2000.
pub proof fn law_table_lists_the_nearest<D: Fn(Metric, [u8; 3], usize) -> Distance>(
    dist: D,
    n: usize,
    ds: spec_fn([u8; 3]) -> Seq<Distance>,
    lut: Lut,
    cell: int,
)
    requires
        call_ensures(compute_lut::<D>, (n, &dist), lut),
        forall|rgb: [u8; 3]| (#[trigger] ds(rgb)).len() == n,
        forall|rgb: [u8; 3]| tells(dist, Metric::Ciede2000, rgb, #[trigger] ds(rgb)),
        0 <= cell < 32768,
    ensures
        lists_the_nearest(ds, cell, lut.cell(cell)),
{
    assert forall|k: int| 0 <= k < lut.cell(cell).len() implies #[trigger] lut.cell(cell)[k]
        < n by {}
    lemma_lists(dist, n as nat, ds, cell, lut.cell(cell));
}

/// A table serves a palette of `n` entries exactly if it has 32768 cells, no
/// cell is empty, and every index is below `n`.
pub proof fn law_serving_tables(lut: Lut, n: usize, ok: bool)
    requires
        lut.wf(),
        call_ensures(Lut::check, (&lut, n), ok),
    ensures
        ok <==> {
            &&& lut.spec_offsets().len() == 32769
            &&& forall|i: int, j: int|
                0 <= i < j < 32769 ==> (#[trigger] lut.spec_offsets()[i]) < (
                #[trigger] lut.spec_offsets()[j])
            &&& forall|k: int|
                0 <= k < lut.spec_indices().len() ==> (#[trigger] lut.spec_indices()[k]) < n
        },
{
    lut.law_offsets_span_the_indices();
    if ok {
        lemma_serving(lut, n as nat);
    }
    let o = lut.spec_offsets();
    let x = lut.spec_indices();
    if o.len() == 32769 && (forall|i: int, j: int|
        0 <= i < j < 32769 ==> (#[trigger] o[i]) < (#[trigger] o[j])) && (forall|k: int|
        0 <= k < x.len() ==> (#[trigger] x[k]) < n) {
        assert forall|c: int| 0 <= c < 32768 implies (#[trigger] lut.cell(c)).len() > 0 by {
            lut.law_layout(c);
            assert(o[c] < o[c + 1]);
        }
        assert forall|c: int, k: int|
            0 <= c < 32768 && 0 <= k < lut.cell(c).len() implies (#[trigger] lut.cell(c)[k])
            < n by {
            lut.law_layout(c);
            assert(x[o[c] + k] < n);
        }
        assert(lut.serves(n as nat));
    }
}

proof fn lemma_serving(lut: Lut, n: nat)
    requires
        lut.serves(n),
    ensures
        forall|i: int, j: int|
            0 <= i < j < 32769 ==> (#[trigger] lut.spec_offsets()[i]) < (
            #[trigger] lut.spec_offsets()[j]),
        forall|k: int| 0 <= k < lut.spec_indices().len() ==> (#[trigger] lut.spec_indices()[k]) < n,
{
    let o = lut.spec_offsets();
    let x = lut.spec_indices();
    lut.law_offsets_span_the_indices();
    assert forall|i: int, j: int| 0 <= i < j < 32769 implies (#[trigger] o[i]) < (
    #[trigger] o[j]) by {
        lut.law_layout(i);
        assert(lut.cell(i).len() > 0);
        assert(o[i + 1] <= o[j]);
    }
    assert forall|k: int| 0 <= k < x.len() implies (#[trigger] x[k]) < n by {
        let c = lemma_offset(lut, k, 32768);
        lut.law_layout(c);
        assert(lut.cell(c)[k - o[c]] < n);
    }
}

/// The cell that an index belongs to.
proof fn lemma_offset(lut: Lut, k: int, top: int) -> (c: int)
    requires
        lut.wf(),
        0 <= top <= lut.cells(),
        0 <= k < lut.spec_offsets()[top],
    ensures
        0 <= c < top,
        lut.spec_offsets()[c] <= k < lut.spec_offsets()[c + 1],
    decreases top,
{
    lut.law_offsets_span_the_indices();
    if lut.spec_offsets()[top - 1] <= k {
        top - 1
    } else {
        lemma_offset(lut, k, top - 1)
    }
}

/// A table lays out the lists one behind the other, each as it is, unless
/// they hold more than a `u32` counts together.
pub proof fn law_lists_are_laid_out(cells: &[Vec<u16>], r: Result<Lut, LutError>)
    requires
        call_ensures(Lut::assemble, (cells,), r),
    ensures
        r is Err <==> cells@.fold_left(0int, |sum: int, list: Vec<u16>| sum + list@.len())
            > u32::MAX,
        r matches Ok(lut) ==> {
            &&& lut.spec_offsets().len() == cells@.len() + 1
            &&& lut.spec_offsets()[0] == 0
            &&& forall|c: int|
                0 <= c < cells@.len() ==> {
                    &&& lut.spec_offsets()[c + 1] == (#[trigger] lut.spec_offsets()[c])
                        + cells@[c]@.len()
                    &&& lut.spec_indices().subrange(
                        lut.spec_offsets()[c] as int,
                        lut.spec_offsets()[c + 1] as int,
                    ) == cells@[c]@
                }
        },
{
    lemma_counted(cells@, cells@.len() as int);
    assert(cells@.take(cells@.len() as int) =~= cells@);
    if let Ok(lut) = r {
        lut.law_offsets_span_the_indices();
        assert forall|c: int| 0 <= c < cells@.len() implies {
            &&& lut.spec_offsets()[c + 1] == (#[trigger] lut.spec_offsets()[c]) + cells@[c]@.len()
            &&& lut.spec_indices().subrange(
                lut.spec_offsets()[c] as int,
                lut.spec_offsets()[c + 1] as int,
            ) == cells@[c]@
        } by {
            lut.law_layout(c);
            assert(lut.cell(c) == cells@[c]@);
        }
    }
}

proof fn lemma_counted(cells: Seq<Vec<u16>>, n: int)
    requires
        0 <= n <= cells.len(),
    ensures
        candidates_upto(cells, n) == cells.take(n).fold_left(
            0int,
            |sum: int, list: Vec<u16>| sum + list@.len(),
        ),
    decreases n,
{
    if n > 0 {
        lemma_counted(cells, n - 1);
        assert(cells.take(n).drop_last() =~= cells.take(n - 1));
    }
}

/// The places of the shortlist name different entries, each with its own
/// distance, or nothing yet.
proof fn lemma_shortlist_entries(ds: Seq<Distance>, n: int)
    requires
        0 <= n <= ds.len(),
        0 < ds.len() <= usize::MAX,
    ensures
        shortlist(ds, n).len() == PREFILTER_K,
        forall|k: int|
            0 <= k < PREFILTER_K ==> {
                ||| #[trigger] shortlist(ds, n)[k] == (Distance { bits: INFINITY_BITS }, 0usize)
                ||| shortlist(ds, n)[k].1 < n && shortlist(ds, n)[k].0
                    == ds[shortlist(ds, n)[k].1 as int]
            },
        forall|j: int, k: int|
            0 <= j < k < PREFILTER_K && (#[trigger] shortlist(ds, n)[j]).1 == (#[trigger] shortlist(
                ds,
                n,
            )[k]).1 ==> shortlist(ds, n)[j].0.bits == INFINITY_BITS || shortlist(ds, n)[k].0.bits
                == INFINITY_BITS,
    decreases n,
{
    lemma_shortlist_shape(ds, n);
    if n > 0 {
        lemma_shortlist_entries(ds, n - 1);
        let top = shortlist(ds, n - 1);
        let next = shortlist(ds, n);
        let d = ds[n - 1];
        let last = PREFILTER_K - 1;
        let p = spot(top, d, last);
        crate::nearest::prefilter::lemma_spot(top, d, last);
        if !d.at_least(top[last].0) {
            assert forall|k: int| 0 <= k < PREFILTER_K implies #[trigger] next[k] == (if k < p {
                top[k]
            } else if k == p {
                (d, (n - 1) as usize)
            } else {
                top[k - 1]
            }) by {}
            assert forall|j: int, k: int|
                0 <= j < k < PREFILTER_K && (#[trigger] next[j]).1 == (#[trigger] next[k]).1 implies
                next[j].0.bits == INFINITY_BITS || next[k].0.bits == INFINITY_BITS by {
                let a = if j < p { j } else { j - 1 };
                let b = if k < p { k } else { k - 1 };
                if j == p {
                    assert(next[k] == top[b]);
                } else if k == p {
                    assert(next[j] == top[a]);
                } else {
                    assert(next[j] == top[a] && next[k] == top[b]);
                }
            }
        }
    }
}

/// The prefiltered search: no entry is nearer by CIEDE2000 than the one
/// found, unless 96 others are at least as near as it by Delta E 76 (given
/// that all distances are numbers below infinity). So among up to 96 entries
/// the nearest is found.
pub proof fn law_prefiltered_search<D: Fn(Metric, [u8; 3], usize) -> Distance>(
    dist: D,
    rgb: [u8; 3],
    n: usize,
    cheap: Seq<Distance>,
    dear: Seq<Distance>,
    best: usize,
    j: int,
) -> (others: Seq<int>)
    requires
        call_ensures(nearest_idx_prefiltered::<D>, (rgb, n, &dist), best),
        n > 0,
        cheap.len() == n,
        dear.len() == n,
        tells(dist, Metric::DeltaE76, rgb, cheap),
        tells(dist, Metric::Ciede2000, rgb, dear),
        forall|i: int| 0 <= i < n ==> finite(#[trigger] cheap[i]) && finite(dear[i]),
        0 <= j < n,
    ensures
        best < n,
        smaller(dear[j], dear[best as int]) ==> {
            &&& others.len() == 96
            &&& forall|a: int, b: int|
                0 <= a < b < 96 ==> #[trigger] others[a] != #[trigger] others[b]
            &&& forall|a: int|
                0 <= a < 96 ==> 0 <= #[trigger] others[a] < n && others[a] != j && !smaller(
                    cheap[j],
                    cheap[others[a]],
                )
        },
{
    let (cs, es, k) = choose|cs: Seq<Distance>, es: Seq<Distance>, k: int|
        {
            &&& cs.len() == n as nat
            &&& measured(dist, Metric::DeltaE76, rgb, cs)
            &&& crate::nearest::prefilter::measured_top(
                dist,
                Metric::Ciede2000,
                rgb,
                shortlist(cs, n as int),
                es,
            )
            &&& #[trigger] is_nearest_seeded(es, k)
            &&& 0 <= k < PREFILTER_K
            &&& #[trigger] shortlist(cs, n as int)[k].1 == best
        };
    assert(wins_shortlist(dist, n as nat, rgb, best));
    assert forall|i: int| 0 <= i < n implies #[trigger] cs[i] == cheap[i] by {
        let e = i as usize;
        assert(call_ensures(dist, (Metric::DeltaE76, rgb, e), cs[e as int]));
    }
    assert(cs =~= cheap);
    let top = shortlist(cheap, n as int);
    lemma_shortlist_shape(cheap, n as int);
    assert forall|a: int| 0 <= a < 96 implies #[trigger] es[a] == dear[top[a].1 as int] by {
        assert(top[a].1 < n);
        assert(call_ensures(dist, (Metric::Ciede2000, rgb, top[a].1), es[a]));
    }
    assert(es[0] == dear[top[0].1 as int]);
    assert(es[k] == dear[best as int]);
    let others = Seq::new(96, |a: int| top[a].1 as int);
    if smaller(dear[j], dear[best as int]) {
        assert forall|i: int| 0 <= i < cheap.len() implies !(#[trigger] cheap[i]).nan() by {
            assert(finite(cheap[i]));
        }
        law_shortlist_holds_the_closest(cheap, n as int);
        lemma_shortlist_entries(cheap, n as int);
        assert(forall|a: int| 0 <= a < 96 ==> (#[trigger] top[a]).1 != j) by {
            assert forall|a: int| 0 <= a < 96 implies (#[trigger] top[a]).1 != j by {
                if top[a].1 == j {
                    assert(!es[a].below(es[k]));
                    lemma_numbers(es[a], es[k]);
                }
            }
        }
        assert(!held(top, cheap, j)) by {
            if held(top, cheap, j) {
                let a = choose|a: int|
                    0 <= a < top.len() && #[trigger] top[a] == (cheap[j], j as usize);
                assert(top[a].1 == j);
            }
        }
        assert(cheap[j].at_least(top[95].0));
        assert forall|a: int| 0 <= a < 96 implies (#[trigger] top[a]).0 == cheap[top[a].1 as int]
            && top[a].0.bits != INFINITY_BITS && !smaller(cheap[j], top[a].0) by {
            assert(top[95].0.at_least(top[a].0));
            assert(finite(cheap[j]));
            lemma_numbers(cheap[j], top[a].0);
        }
        assert forall|a: int, b: int| 0 <= a < b < 96 implies #[trigger] others[a]
            != #[trigger] others[b] by {
            if top[a].1 == top[b].1 {
                assert(top[a].0.bits != INFINITY_BITS && top[b].0.bits != INFINITY_BITS);
            }
        }
        assert forall|a: int| 0 <= a < 96 implies 0 <= #[trigger] others[a] < n && others[a] != j
            && !smaller(cheap[j], cheap[others[a]]) by {
            assert(top[a].1 < n);
            assert(top[a].1 != j);
            assert(top[a].0 == cheap[top[a].1 as int]);
        }
    }
    others
}

/// The prefiltered search looks at no more than 96 entries: fewer than 96 are
/// nearer by Delta E 76 than the one found, and each of these is farther by
/// CIEDE2000 (given that all distances are numbers below infinity).
pub proof fn law_prefiltered_search_stays_on_the_shortlist<
    D: Fn(Metric, [u8; 3], usize) -> Distance,
>(
    dist: D,
    rgb: [u8; 3],
    n: usize,
    cheap: Seq<Distance>,
    dear: Seq<Distance>,
    best: usize,
    closer: Seq<int>,
)
    requires
        call_ensures(nearest_idx_prefiltered::<D>, (rgb, n, &dist), best),
        n > 0,
        cheap.len() == n,
        dear.len() == n,
        tells(dist, Metric::DeltaE76, rgb, cheap),
        tells(dist, Metric::Ciede2000, rgb, dear),
        forall|i: int| 0 <= i < n ==> finite(#[trigger] cheap[i]) && finite(dear[i]),
        closer.no_duplicates(),
        forall|a: int|
            0 <= a < closer.len() ==> 0 <= #[trigger] closer[a] < n && smaller(
                cheap[closer[a]],
                cheap[best as int],
            ),
    ensures
        closer.len() < 96,
        forall|a: int|
            0 <= a < closer.len() ==> smaller(dear[best as int], dear[#[trigger] closer[a]]),
{
    let (es, k) = lemma_ranking(dist, rgb, n, cheap, dear, best);
    let top = shortlist(cheap, n as int);
    lemma_shortlist_shape(cheap, n as int);
    lemma_shortlist_entries(cheap, n as int);
    assert forall|i: int| 0 <= i < cheap.len() implies !(#[trigger] cheap[i]).nan() by {
        assert(finite(cheap[i]));
    }
    law_shortlist_holds_the_closest(cheap, n as int);
    if closer.len() > 0 {
        assert(0 <= closer[0] < n && smaller(cheap[closer[0]], cheap[best as int]));
    }
    lemma_place_is_filled(cheap, n as int, es, dear, k);
    let pos = Seq::new(
        closer.len(),
        |a: int| choose|q: int| 0 <= q < 96 && #[trigger] top[q] == (cheap[closer[a]], closer[a] as usize),
    );
    assert forall|a: int| 0 <= a < closer.len() implies 0 <= #[trigger] pos[a] < 96 && top[pos[a]]
        == (cheap[closer[a]], closer[a] as usize) && pos[a] < k by {
        let x = closer[a];
        lemma_numbers(cheap[x], top[k].0);
        lemma_numbers(cheap[x], top[95].0);
        assert(top[95].0.at_least(top[k].0));
        assert(held(top, cheap, x));
        let q = pos[a];
        if k <= q {
            assert(top[q].0.at_least(top[k].0));
        }
    }
    assert forall|a: int| 0 <= a < closer.len() implies smaller(
        dear[best as int],
        dear[#[trigger] closer[a]],
    ) by {
        let q = pos[a];
        assert(es[q] == dear[closer[a]]);
        assert(finite(cheap[closer[a]]));
        lemma_numbers(es[k], es[q]);
        lemma_numbers(es[q], es[k]);
        assert(!es[q].nan());
        assert(es[k].below(es[q]));
    }
    assert forall|a: int, b: int| 0 <= a < b < pos.len() implies pos[a] != pos[b] by {
        assert(closer[a] != closer[b]);
        assert(0 <= pos[a] < 96 && 0 <= pos[b] < 96);
    }
    assert(pos.no_duplicates());
    pos.unique_seq_to_set();
    vstd::set_lib::lemma_int_range(0, 95);
    assert forall|q: int| pos.to_set().contains(q) implies vstd::set_lib::set_int_range(
        0,
        95,
    ).contains(q) by {
        let a = choose|a: int| 0 <= a < pos.len() && pos[a] == q;
        assert(0 <= pos[a] < 96 && pos[a] < k);
    }
    vstd::set_lib::lemma_len_subset(pos.to_set(), vstd::set_lib::set_int_range(0, 95));
}

/// The place on the shortlist that the search settles on.
proof fn lemma_ranking<D: Fn(Metric, [u8; 3], usize) -> Distance>(
    dist: D,
    rgb: [u8; 3],
    n: usize,
    cheap: Seq<Distance>,
    dear: Seq<Distance>,
    best: usize,
) -> (found: (Seq<Distance>, int))
    requires
        wins_shortlist(dist, n as nat, rgb, best),
        n > 0,
        cheap.len() == n,
        dear.len() == n,
        tells(dist, Metric::DeltaE76, rgb, cheap),
        tells(dist, Metric::Ciede2000, rgb, dear),
        forall|i: int| 0 <= i < n ==> finite(#[trigger] cheap[i]) && finite(dear[i]),
    ensures
        found.0.len() == 96,
        0 <= found.1 < 96,
        shortlist(cheap, n as int)[found.1].1 == best,
        best < n,
        forall|a: int|
            0 <= a < 96 ==> #[trigger] found.0[a] == dear[shortlist(cheap, n as int)[a].1 as int]
                && !found.0[a].nan(),
        is_nearest_seeded(found.0, found.1),
{
    let (cs, es, k) = choose|cs: Seq<Distance>, es: Seq<Distance>, k: int|
        {
            &&& cs.len() == n as nat
            &&& measured(dist, Metric::DeltaE76, rgb, cs)
            &&& crate::nearest::prefilter::measured_top(
                dist,
                Metric::Ciede2000,
                rgb,
                shortlist(cs, n as int),
                es,
            )
            &&& #[trigger] is_nearest_seeded(es, k)
            &&& 0 <= k < PREFILTER_K
            &&& #[trigger] shortlist(cs, n as int)[k].1 == best
        };
    assert forall|i: int| 0 <= i < n implies #[trigger] cs[i] == cheap[i] by {
        let e = i as usize;
        assert(call_ensures(dist, (Metric::DeltaE76, rgb, e), cs[e as int]));
    }
    assert(cs =~= cheap);
    let top = shortlist(cheap, n as int);
    lemma_shortlist_shape(cheap, n as int);
    assert(top[k].1 < n);
    assert forall|a: int| 0 <= a < 96 implies #[trigger] es[a] == dear[top[a].1 as int]
        && !es[a].nan() by {
        assert(top[a].1 < n);
        assert(call_ensures(dist, (Metric::Ciede2000, rgb, top[a].1), es[a]));
        let e = top[a].1 as int;
        assert(0 <= e < n);
        assert(cheap[e] == cs[e]);
        assert(finite(dear[e]));
        assert(es[a] == dear[e]);
        lemma_numbers(es[a], es[a]);
    }
    (es, k)
}

/// The search settles on a place that was filled: one that was not names the
/// first entry, whose own place comes earlier.
proof fn lemma_place_is_filled(
    cheap: Seq<Distance>,
    n: int,
    es: Seq<Distance>,
    dear: Seq<Distance>,
    k: int,
)
    requires
        0 < n == cheap.len() <= usize::MAX,
        dear.len() == n,
        0 <= k < 96,
        es.len() == 96,
        is_nearest_seeded(es, k),
        forall|i: int| 0 <= i < n ==> finite(#[trigger] cheap[i]),
        forall|a: int|
            0 <= a < 96 ==> #[trigger] es[a] == dear[shortlist(cheap, n)[a].1 as int]
                && !es[a].nan(),
    ensures
        shortlist(cheap, n)[k].0 == cheap[shortlist(cheap, n)[k].1 as int],
{
    let top = shortlist(cheap, n);
    lemma_shortlist_shape(cheap, n);
    lemma_shortlist_entries(cheap, n);
    assert forall|i: int| 0 <= i < cheap.len() implies !(#[trigger] cheap[i]).nan() by {
        assert(finite(cheap[i]));
    }
    law_shortlist_holds_the_closest(cheap, n);
    if top[k] == (Distance { bits: INFINITY_BITS }, 0usize) {
        assert(finite(cheap[0]));
        assert(top[95].0.at_least(top[k].0));
        assert(held(top, cheap, 0));
        let q = choose|q: int| 0 <= q < top.len() && #[trigger] top[q] == (cheap[0], 0usize);
        if k <= q {
            assert(top[q].0.at_least(top[k].0));
        }
        assert(es[q] == es[k]);
        assert(es[k].below(es[q]));
    }
}

/// Whether entry `j` comes before entry `i`: it is nearer, or as near and
/// earlier.
pub open spec fn comes_before(ds: Seq<Distance>, j: int, i: int) -> bool {
    smaller(ds[j], ds[i]) || (!smaller(ds[i], ds[j]) && j < i)
}

/// Whether entry `j` stands on the shortlist before place `q`.
pub open spec fn stands_before(
    top: Seq<(Distance, usize)>,
    ds: Seq<Distance>,
    j: int,
    q: int,
) -> bool {
    exists|r: int| 0 <= r < q && #[trigger] top[r] == (ds[j], j as usize)
}

/// The shortlist is the head of all entries in order: whatever comes before a
/// listed entry, by distance and then by place, stands before it on the list
/// (given that all distances are numbers below infinity).
pub proof fn law_shortlist_is_the_head_of_the_order(ds: Seq<Distance>, n: int)
    requires
        0 <= n <= ds.len(),
        0 < ds.len() <= usize::MAX,
        forall|i: int| 0 <= i < ds.len() ==> finite(#[trigger] ds[i]),
    ensures
        forall|i: int, j: int, q: int|
            0 <= i < n && 0 <= j < n && 0 <= q < 96 && #[trigger] shortlist(ds, n)[q] == (
                ds[i],
                i as usize,
            ) && #[trigger] comes_before(ds, j, i) ==> stands_before(shortlist(ds, n), ds, j, q),
    decreases n,
{
    if n > 0 {
        law_shortlist_is_the_head_of_the_order(ds, n - 1);
        let next = shortlist(ds, n);
        assert forall|i: int, j: int, q: int|
            0 <= i < n && 0 <= j < n && 0 <= q < 96 && #[trigger] next[q] == (ds[i], i as usize)
                && #[trigger] comes_before(ds, j, i) implies stands_before(next, ds, j, q) by {
            lemma_head_step(ds, n, i, j, q);
        }
    }
}

proof fn lemma_head_step(ds: Seq<Distance>, n: int, i: int, j: int, q: int)
    requires
        0 < n <= ds.len() <= usize::MAX,
        forall|i: int| 0 <= i < ds.len() ==> finite(#[trigger] ds[i]),
        0 <= i < n,
        0 <= j < n,
        0 <= q < 96,
        shortlist(ds, n)[q] == (ds[i], i as usize),
        comes_before(ds, j, i),
        forall|i: int, j: int, q: int|
            0 <= i < n - 1 && 0 <= j < n - 1 && 0 <= q < 96 && #[trigger] shortlist(ds, n - 1)[q]
                == (ds[i], i as usize) && #[trigger] comes_before(ds, j, i) ==> stands_before(
                shortlist(ds, n - 1),
                ds,
                j,
                q,
            ),
    ensures
        stands_before(shortlist(ds, n), ds, j, q),
{
    assert forall|i: int| 0 <= i < ds.len() implies !(#[trigger] ds[i]).nan() by {
        assert(finite(ds[i]));
    }
    law_shortlist_holds_the_closest(ds, n - 1);
    lemma_shortlist_shape(ds, n - 1);
    lemma_shortlist_entries(ds, n - 1);
    let top = shortlist(ds, n - 1);
    let next = shortlist(ds, n);
    let d = ds[n - 1];
    let last = 95int;
    let p = spot(top, d, last);
    crate::nearest::prefilter::lemma_spot(top, d, last);
    assert(finite(d) && finite(ds[i]) && finite(ds[j]));
    assert(top[last].0.at_least(top[last].0));
    if d.at_least(top[last].0) {
        assert(next == top);
        if i == n - 1 {
            assert(top[q].1 < n - 1 || top[q] == (Distance { bits: INFINITY_BITS }, 0usize));
        } else if j == n - 1 {
            assert(top[last].0.at_least(top[q].0));
            assert(smaller(d, ds[i]));
        } else {
            assert(stands_before(top, ds, j, q));
        }
    } else {
        assert forall|k: int| 0 <= k < 96 implies #[trigger] next[k] == (if k < p {
            top[k]
        } else if k == p {
            (d, (n - 1) as usize)
        } else {
            top[k - 1]
        }) by {}
        if i == n - 1 {
            if q != p {
                let o = if q < p { q } else { q - 1 };
                assert(next[q] == top[o]);
                assert(top[o].1 < n - 1 || top[o] == (Distance { bits: INFINITY_BITS }, 0usize));
            }
            assert(q == p);
            assert(held(top, ds, j)) by {
                if !held(top, ds, j) {
                    assert(ds[j].at_least(top[last].0));
                }
            }
            let r = choose|r: int| 0 <= r < top.len() && #[trigger] top[r] == (ds[j], j as usize);
            if r >= p {
                if r < last {
                    assert(d.below(top[r].0));
                }
            }
            assert(r < p);
            assert(next[r] == top[r]);
        } else {
            let o = if q < p { q } else { q - 1 };
            assert(q != p);
            assert(next[q] == top[o]);
            if j == n - 1 {
                assert(smaller(d, ds[i]));
                if o < p {
                    assert(p > 0 && !d.below(top[p - 1].0));
                    assert(top[p - 1].0.at_least(top[o].0));
                }
                assert(next[p] == (ds[j], j as usize));
                assert(p < q);
            } else {
                assert(stands_before(top, ds, j, o));
                let r = choose|r: int| 0 <= r < o && #[trigger] top[r] == (ds[j], j as usize);
                if r < p {
                    assert(next[r] == top[r]);
                } else {
                    assert(next[r + 1] == top[r]);
                }
            }
        }
    }
}

} // verus!
