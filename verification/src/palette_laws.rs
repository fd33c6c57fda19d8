//! What holds of answers with and without a candidate table.

use vstd::prelude::*;

verus! {

use crate::algorithm::Algorithm;
use crate::color::{Color, ColorId};
use crate::distance::{Distance, Metric};
use crate::mmcq::histogram::pixel_bin;
use crate::nearest::lut::{
    Lut, consistent, law_searches_agree, law_table_is_exact, lists_winners, measured_for, wins,
    wins_among,
};
use crate::nearest::scan::{is_nearest_seeded, law_nearest_seeded_unique};
use crate::nearest::search_laws::{
    first_nearest, first_nearest_candidate, lemma_candidate, lemma_winner, tells,
};
use crate::palette::{
    Palette, PaletteError, carried, first_bad_id, ids_of, ids_sound, index_by_id, lemma_countable,
    lemma_listed,
};

/// A candidate table that lists the winners of the cell that `rgb` falls into
/// does not change the answer for `rgb`: it is the entry that a full search
/// settles on. (Where the first candidate's distance is not a number, only if
/// that is the first entry.)
pub proof fn law_table_changes_no_answer<D: Fn(Metric, [u8; 3], usize) -> Distance>(
    palette: &Palette,
    dist: D,
    rgb: [u8; 3],
    lut: Lut,
    full: int,
    c: Color,
)
    requires
        palette.wf(),
        palette.table() == Some(lut),
        consistent(dist),
        lists_winners(dist, palette@.len(), pixel_bin(rgb), lut.cell(pixel_bin(rgb))),
        wins(dist, Metric::Ciede2000, palette@.len(), rgb, full),
        forall|d: Distance|
            #[trigger] call_ensures(
                dist,
                (Metric::Ciede2000, rgb, lut.cell(pixel_bin(rgb))[0] as usize),
                d,
            ) ==> !d.nan() || full == 0,
        palette.answered(dist, Algorithm::Ciede2000, rgb, c),
    ensures
        c == palette@[full],
{
    let list = lut.cell(pixel_bin(rgb));
    let n = palette@.len();
    assert(n <= usize::MAX && forall|k: int|
        0 <= k < list.len() ==> #[trigger] list[k] < n) by {
        lemma_countable(palette);
        lemma_listed(palette, lut, rgb);
    }
    let i = lemma_settled(palette, dist, Algorithm::Ciede2000, rgb, c);
    assert(wins_among(dist, Metric::Ciede2000, list, rgb, i));
    law_table_is_exact(dist, n, list, rgb, full, i);
}

proof fn lemma_settled<D: Fn(Metric, [u8; 3], usize) -> Distance>(
    palette: &Palette,
    dist: D,
    algo: Algorithm,
    rgb: [u8; 3],
    c: Color,
) -> (i: int)
    requires
        palette.answered(dist, algo, rgb, c),
    ensures
        0 <= i < palette@.len(),
        palette.settles(dist, algo.spec_metric(), rgb, i),
        palette@[i] == c,
{
    choose|i: int|
        0 <= i < palette@.len() && palette.settles(
            dist,
            algo.spec_metric(),
            rgb,
            i,
        ) && #[trigger] palette@[i] == c
}

/// Consistent answers have one winner among the candidates of a cell.
proof fn lemma_one_among<D: Fn(Metric, [u8; 3], usize) -> Distance>(
    dist: D,
    metric: Metric,
    list: Seq<u16>,
    rgb: [u8; 3],
    one: int,
    other: int,
)
    requires
        consistent(dist),
        wins_among(dist, metric, list, rgb, one),
        wins_among(dist, metric, list, rgb, other),
    ensures
        one == other,
{
    let (ds, i) = choose|ds: Seq<Distance>, i: int|
        measured_for(dist, metric, rgb, list, ds) && #[trigger] is_nearest_seeded(ds, i) && 0 <= i
            < list.len() && list[i] == one;
    let (es, j) = choose|es: Seq<Distance>, j: int|
        measured_for(dist, metric, rgb, list, es) && #[trigger] is_nearest_seeded(es, j) && 0 <= j
            < list.len() && list[j] == other;
    assert forall|k: int| 0 <= k < list.len() implies #[trigger] ds[k] == es[k] by {
        let e = list[k] as usize;
        assert(call_ensures(dist, (metric, rgb, e), ds[k]));
        assert(call_ensures(dist, (metric, rgb, e), es[k]));
    }
    assert(ds =~= es);
    law_nearest_seeded_unique(ds, i, j);
}

/// Under a consistent distance, algorithms that measure by the same formula
/// give the same answer to the same colour.
pub proof fn law_same_formula_same_answer<D: Fn(Metric, [u8; 3], usize) -> Distance>(
    palette: &Palette,
    dist: D,
    one: Algorithm,
    other: Algorithm,
    rgb: [u8; 3],
    a: Color,
    b: Color,
)
    requires
        palette.wf(),
        consistent(dist),
        one.spec_metric() == other.spec_metric(),
        palette.answered(dist, one, rgb, a),
        palette.answered(dist, other, rgb, b),
    ensures
        a == b,
{
    let metric = one.spec_metric();
    let i = lemma_settled(palette, dist, one, rgb, a);
    let j = lemma_settled(palette, dist, other, rgb, b);
    lemma_countable(palette);
    match (metric, palette.table()) {
        (Metric::Ciede2000, Some(lut)) => {
            lemma_one_among(dist, metric, lut.cell(pixel_bin(rgb)), rgb, i, j);
        },
        _ => {
            law_searches_agree(dist, metric, palette@.len(), rgb, i, j);
        },
    }
}

/// Under a consistent distance each colour has one answer.
pub proof fn law_answer_is_unique<D: Fn(Metric, [u8; 3], usize) -> Distance>(
    palette: &Palette,
    dist: D,
    algo: Algorithm,
    rgb: [u8; 3],
    a: Color,
    b: Color,
)
    requires
        palette.wf(),
        consistent(dist),
        palette.answered(dist, algo, rgb, a),
        palette.answered(dist, algo, rgb, b),
    ensures
        a == b,
{
    law_same_formula_same_answer(palette, dist, algo, algo, rgb, a, b);
}

/// Choosing an algorithm is calling its own search: under a consistent
/// distance [`Algorithm::extract`] returns what [`Color::nearest_to`],
/// [`Color::nearest_to_cie94`], [`Color::nearest_to_ciede2000`] and
/// [`Color::nearest_to_ciede2000_exact`] return, each for its variant.
pub proof fn law_extract_is_the_nearest_search<
    'a,
    D: Fn(Metric, [u8; 3], usize) -> Distance,
>(palette: &'a Palette, dist: D, algo: Algorithm, rgb: [u8; 3], c: &'a Color, d: &'a Color)
    requires
        palette.wf(),
        consistent(dist),
        call_ensures(Algorithm::extract::<D>, (&algo, rgb, palette, &dist), c),
        match algo {
            Algorithm::DeltaE76 => call_ensures(
                Color::nearest_to::<D>,
                (rgb, palette, &dist),
                d,
            ),
            Algorithm::Cie94 => call_ensures(
                Color::nearest_to_cie94::<D>,
                (rgb, palette, &dist),
                d,
            ),
            Algorithm::Ciede2000 => call_ensures(
                Color::nearest_to_ciede2000::<D>,
                (rgb, palette, &dist),
                d,
            ),
            Algorithm::Ciede2000Exact => call_ensures(
                Color::nearest_to_ciede2000_exact::<D>,
                (rgb, palette, &dist),
                d,
            ),
        },
    ensures
        *c == *d,
{
    law_answer_is_unique(palette, dist, algo, rgb, *c, *d);
}

/// Under a consistent distance the two CIEDE2000 algorithms always return the
/// same entry.
pub proof fn law_both_ciede2000_return_the_same<
    'a,
    D: Fn(Metric, [u8; 3], usize) -> Distance,
>(palette: &'a Palette, dist: D, rgb: [u8; 3], c: &'a Color, d: &'a Color)
    requires
        palette.wf(),
        consistent(dist),
        call_ensures(
            Algorithm::extract::<D>,
            (&Algorithm::Ciede2000, rgb, palette, &dist),
            c,
        ),
        call_ensures(
            Algorithm::extract::<D>,
            (&Algorithm::Ciede2000Exact, rgb, palette, &dist),
            d,
        ),
    ensures
        *c == *d,
{
    law_same_formula_same_answer(
        palette,
        dist,
        Algorithm::Ciede2000,
        Algorithm::Ciede2000Exact,
        rgb,
        *c,
        *d,
    );
}

/// The answer of a search that goes through every entry is the first of the
/// nearest by the metric.
pub proof fn lemma_answer_is_nearest<D: Fn(Metric, [u8; 3], usize) -> Distance>(
    palette: &Palette,
    dist: D,
    algo: Algorithm,
    rgb: [u8; 3],
    c: Color,
    ds: Seq<Distance>,
) -> (k: int)
    requires
        palette.wf(),
        palette.answered(dist, algo, rgb, c),
        algo.spec_metric() != Metric::Ciede2000 || palette.table() is None,
        ds.len() == palette@.len(),
        tells(dist, algo.spec_metric(), rgb, ds),
    ensures
        first_nearest(ds, k),
        palette@[k] == c,
{
    lemma_countable(palette);
    let k = lemma_settled(palette, dist, algo, rgb, c);
    lemma_winner(dist, algo.spec_metric(), rgb, ds, k);
    k
}

/// [`Color::nearest_to`] returns the first of the entries nearest by Delta E
/// 76, whatever the other metrics say.
pub proof fn law_nearest_to_is_by_delta_e_76<'a, D: Fn(Metric, [u8; 3], usize) -> Distance>(
    palette: &'a Palette,
    dist: D,
    rgb: [u8; 3],
    c: &'a Color,
    ds: Seq<Distance>,
) -> (k: int)
    requires
        palette.wf(),
        call_ensures(Color::nearest_to::<D>, (rgb, palette, &dist), c) || call_ensures(
            Algorithm::extract::<D>,
            (&Algorithm::DeltaE76, rgb, palette, &dist),
            c,
        ),
        ds.len() == palette@.len(),
        tells(dist, Metric::DeltaE76, rgb, ds),
    ensures
        first_nearest(ds, k),
        palette@[k] == *c,
{
    lemma_answer_is_nearest(palette, dist, Algorithm::DeltaE76, rgb, *c, ds)
}

/// [`Color::nearest_to_cie94`] returns the first of the entries nearest by
/// CIE94, whatever the other metrics say.
pub proof fn law_nearest_to_cie94_is_by_cie94<'a, D: Fn(Metric, [u8; 3], usize) -> Distance>(
    palette: &'a Palette,
    dist: D,
    rgb: [u8; 3],
    c: &'a Color,
    ds: Seq<Distance>,
) -> (k: int)
    requires
        palette.wf(),
        call_ensures(Color::nearest_to_cie94::<D>, (rgb, palette, &dist), c) || call_ensures(
            Algorithm::extract::<D>,
            (&Algorithm::Cie94, rgb, palette, &dist),
            c,
        ),
        ds.len() == palette@.len(),
        tells(dist, Metric::Cie94, rgb, ds),
    ensures
        first_nearest(ds, k),
        palette@[k] == *c,
{
    lemma_answer_is_nearest(palette, dist, Algorithm::Cie94, rgb, *c, ds)
}

/// Without a candidate table [`Color::nearest_to_ciede2000`] and
/// [`Color::nearest_to_ciede2000_exact`] return the first of the entries
/// nearest by CIEDE2000, whatever the other metrics say.
pub proof fn law_nearest_to_ciede2000_is_by_ciede2000<
    'a,
    D: Fn(Metric, [u8; 3], usize) -> Distance,
>(palette: &'a Palette, dist: D, rgb: [u8; 3], c: &'a Color, ds: Seq<Distance>) -> (k: int)
    requires
        palette.wf(),
        palette.table() is None,
        call_ensures(Color::nearest_to_ciede2000::<D>, (rgb, palette, &dist), c) || call_ensures(
            Color::nearest_to_ciede2000_exact::<D>,
            (rgb, palette, &dist),
            c,
        ) || call_ensures(
            Algorithm::extract::<D>,
            (&Algorithm::Ciede2000, rgb, palette, &dist),
            c,
        ) || call_ensures(
            Algorithm::extract::<D>,
            (&Algorithm::Ciede2000Exact, rgb, palette, &dist),
            c,
        ),
        ds.len() == palette@.len(),
        tells(dist, Metric::Ciede2000, rgb, ds),
    ensures
        first_nearest(ds, k),
        palette@[k] == *c,
{
    if palette.answered(dist, Algorithm::Ciede2000, rgb, *c) {
        lemma_answer_is_nearest(palette, dist, Algorithm::Ciede2000, rgb, *c, ds)
    } else {
        lemma_answer_is_nearest(palette, dist, Algorithm::Ciede2000Exact, rgb, *c, ds)
    }
}

/// With a candidate table they return the first of the nearest, by CIEDE2000,
/// among the candidates of the colour's cell.
pub proof fn law_nearest_to_ciede2000_among_candidates<
    'a,
    D: Fn(Metric, [u8; 3], usize) -> Distance,
>(
    palette: &'a Palette,
    dist: D,
    rgb: [u8; 3],
    c: &'a Color,
    ds: Seq<Distance>,
    lut: Lut,
    cell: int,
) -> (k: int)
    requires
        palette.wf(),
        palette.table() == Some(lut),
        cell == 1024 * (rgb[0] as int / 8) + 32 * (rgb[1] as int / 8) + rgb[2] as int / 8,
        call_ensures(Color::nearest_to_ciede2000::<D>, (rgb, palette, &dist), c) || call_ensures(
            Color::nearest_to_ciede2000_exact::<D>,
            (rgb, palette, &dist),
            c,
        ) || call_ensures(
            Algorithm::extract::<D>,
            (&Algorithm::Ciede2000, rgb, palette, &dist),
            c,
        ) || call_ensures(
            Algorithm::extract::<D>,
            (&Algorithm::Ciede2000Exact, rgb, palette, &dist),
            c,
        ),
        ds.len() == palette@.len(),
        tells(dist, Metric::Ciede2000, rgb, ds),
    ensures
        first_nearest_candidate(ds, lut.cell(cell), k),
        palette@[lut.cell(cell)[k] as int] == *c,
{
    assert(cell == pixel_bin(rgb));
    let i = if palette.answered(dist, Algorithm::Ciede2000, rgb, *c) {
        lemma_settled(palette, dist, Algorithm::Ciede2000, rgb, *c)
    } else {
        lemma_settled(palette, dist, Algorithm::Ciede2000Exact, rgb, *c)
    };
    lemma_listed(palette, lut, rgb);
    lemma_candidate(dist, rgb, lut.cell(cell), ds, i)
}

/// Looking an id up gives the entry that carries it, and nothing exactly if
/// no entry does.
pub proof fn law_ids_lead_to_their_entries<'a>(
    palette: &'a Palette,
    id: ColorId,
    r: Option<&'a Color>,
)
    requires
        palette.wf(),
        call_ensures(Color::from_id, (id, palette), r),
    ensures
        r matches Some(c) ==> c.id.number() == id.number() && palette@.contains(*c),
        forall|i: int|
            0 <= i < palette@.len() && (#[trigger] palette@[i]).id.number() == id.number() ==> (
            r matches Some(c) && *c == palette@[i]),
{
    palette.law_palette();
    if let Some(c) = r {
        let i = choose|i: int| 0 <= i < palette@.len() && (#[trigger] palette@[i]).id == id;
        assert(palette@[i] == *c);
    }
    assert forall|i: int|
        0 <= i < palette@.len() && (#[trigger] palette@[i]).id.number() == id.number() implies (
    r matches Some(c) && *c == palette@[i]) by {
        crate::color::law_id_is_its_number(palette@[i].id, id);
        assert(carried(palette@, id) is Some);
        crate::palette::law_id_leads_back(palette, i);
    }
}

/// The table from ids to entries has a slot for each number up to the highest
/// id; the slot of an id holds the place of the entry that carries it, and
/// every other slot is empty, that of 0 among them.
pub proof fn law_slots_of_ids(ids: &[u16], r: Result<Vec<Option<usize>>, PaletteError>)
    requires
        call_ensures(index_by_id, (ids,), r),
    ensures
        r is Ok <==> (forall|i: int| 0 <= i < ids@.len() ==> #[trigger] ids@[i] != 0) && (forall|
            i: int,
            j: int,
        |
            0 <= i < j < ids@.len() ==> #[trigger] ids@[i] != #[trigger] ids@[j]),
        r matches Ok(table) ==> {
            &&& table@.len() >= 1 && table@[0] is None
            &&& forall|i: int|
                0 <= i < ids@.len() ==> #[trigger] ids@[i] < table@.len()
                    && table@[ids@[i] as int] == Some(i as usize)
            &&& forall|k: int|
                0 <= k < table@.len() ==> (#[trigger] table@[k] matches Some(i) ==> i < ids@.len()
                    && ids@[i as int] == k)
            &&& table@.len() == 1 || exists|i: int|
                0 <= i < ids@.len() && #[trigger] ids@[i] == table@.len() - 1
        },
        r == Err::<Vec<Option<usize>>, PaletteError>(PaletteError::ReservedId) ==> exists|j: int|
            0 <= j < ids@.len() && #[trigger] ids@[j] == 0 && no_repeat_before(ids@, j),
        r matches Err(PaletteError::DuplicateId(id)) ==> id != 0 && exists|i: int, j: int|
            0 <= i < j < ids@.len() && #[trigger] ids@[i] == id && #[trigger] ids@[j] == id
                && no_repeat_before(ids@, j),
        r matches Err(e) ==> e is ReservedId || e is DuplicateId,
{
    if let Ok(table) = r {
        if ids@.len() > 0 {
            assert(ids@[0] < table@.len());
        }
    }
    if let Err(e) = r {
        if e is ReservedId {
            let j = choose|j: int| #[trigger] first_bad_id(ids@, j) && ids@[j] == 0;
            assert(no_repeat_before(ids@, j));
        } else if let PaletteError::DuplicateId(id) = e {
            let j = choose|j: int| #[trigger] first_bad_id(ids@, j) && ids@[j] == id;
            let i = choose|i: int| 0 <= i < j && #[trigger] ids@[i] == ids@[j];
            assert(ids@[i] == id && ids@[j] == id);
            assert(no_repeat_before(ids@, j));
        }
    }
}

/// Whether the ids before place `j` are assigned and differ.
pub open spec fn no_repeat_before(ids: Seq<u16>, j: int) -> bool {
    &&& forall|a: int| 0 <= a < j ==> #[trigger] ids[a] != 0
    &&& forall|a: int, b: int| 0 <= a < b < j ==> #[trigger] ids[a] != #[trigger] ids[b]
}

/// Colours make a palette exactly if there is one, their ids are assigned and
/// differ, and the table, if there is one, has candidates for each of the
/// 32768 cells and names only entries that there are.
pub proof fn law_what_makes_a_palette(
    colors: Vec<Color>,
    lut: Option<Lut>,
    r: Result<Palette, PaletteError>,
)
    requires
        call_ensures(Palette::new, (colors, lut), r),
        lut matches Some(t) ==> t.wf(),
    ensures
        r is Ok <==> {
            &&& colors@.len() > 0
            &&& forall|i: int| 0 <= i < colors@.len() ==> (#[trigger] colors@[i]).id.number() != 0
            &&& forall|i: int, j: int|
                0 <= i < j < colors@.len() ==> (#[trigger] colors@[i]).id.number() != (
                #[trigger] colors@[j]).id.number()
            &&& lut matches Some(t) ==> {
                &&& t.cells() == 32768
                &&& forall|c: int| 0 <= c < 32768 ==> (#[trigger] t.cell(c)).len() > 0
                &&& forall|c: int, k: int|
                    0 <= c < 32768 && 0 <= k < t.cell(c).len() ==> (#[trigger] t.cell(c)[k])
                        < colors@.len()
            }
        },
        r matches Ok(p) ==> p.wf() && p@ == colors@ && p.table() == lut,
        r matches Err(PaletteError::Empty) ==> colors@.len() == 0,
        colors@.len() == 0 ==> (r matches Err(PaletteError::Empty)),
{
    let ids = ids_of(colors@);
    assert forall|i: int| 0 <= i < colors@.len() implies #[trigger] ids[i]
        == colors@[i].id.number() by {}
    if ids_sound(ids) {
        assert forall|i: int| 0 <= i < colors@.len() implies (
        #[trigger] colors@[i]).id.number() != 0 by {
            assert(ids[i] != 0);
        }
        assert forall|i: int, j: int| 0 <= i < j < colors@.len() implies (
        #[trigger] colors@[i]).id.number() != (#[trigger] colors@[j]).id.number() by {
            assert(ids[i] != ids[j]);
        }
    }
    if (forall|i: int| 0 <= i < colors@.len() ==> (#[trigger] colors@[i]).id.number() != 0) && (
    forall|i: int, j: int|
        0 <= i < j < colors@.len() ==> (#[trigger] colors@[i]).id.number() != (
        #[trigger] colors@[j]).id.number()) {
        assert forall|i: int| 0 <= i < ids.len() implies #[trigger] ids[i] != 0 by {
            assert(colors@[i].id.number() != 0);
        }
        assert forall|i: int, j: int| 0 <= i < j < ids.len() implies #[trigger] ids[i]
            != #[trigger] ids[j] by {
            assert(colors@[i].id.number() != colors@[j].id.number());
        }
    }
}

} // verus!
