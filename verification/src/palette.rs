//! Palettes: named colours, found by id or by nearness.

use vstd::prelude::*;

verus! {

use crate::algorithm::Algorithm;
use crate::color::{Color, ColorId, law_id_is_its_number};
use crate::distance::{Distance, Metric, answers};
use crate::mmcq::histogram::pixel_bin;
use crate::nearest::lanes::nearest_idx_lanes;
use crate::nearest::lut::{Lut, N_CELLS, nearest_idx_in_cell, wins, wins_among};
use crate::nearest::scan::nearest_idx;

/// Named colours with an index by id and, if there is one, a candidate table
/// for CIEDE2000.
pub struct Palette {
    colors: Vec<Color>,
    by_id: Vec<Option<usize>>,
    lut: Option<Lut>,
}

/// Entries that are measured at a time by Delta E 76 and CIE94.
pub const LANES: usize = 8;

/// Why colours make no palette.
#[derive(Clone, Copy, Debug, PartialEq, Eq, Structural)]
pub enum PaletteError {
    /// There is no colour.
    Empty,
    /// A colour carries id 0, which stands for "never assigned".
    ReservedId,
    /// Two colours carry the same id.
    DuplicateId(u16),
    /// The candidate table lacks candidates for some cell, has another
    /// number of cells, or lists an entry that the palette does not have.
    UnusableTable,
}

/// The table from ids to entries: as long as the highest id demands, each
/// slot holding the entry that carries its id.
pub open spec fn indexes(colors: Seq<Color>, table: Seq<Option<usize>>) -> bool {
    &&& forall|i: int|
        0 <= i < colors.len() ==> (#[trigger] colors[i]).id.number() < table.len()
            && table[colors[i].id.number() as int] == Some(i as usize)
    &&& forall|k: int|
        0 <= k < table.len() ==> (#[trigger] table[k] matches Some(i) ==> i < colors.len()
            && colors[i as int].id.number() == k)
}

/// Whether `table` places every id: each slot holds the place of the id that
/// is its number, and there is none beyond the highest.
pub open spec fn places_ids(ids: Seq<u16>, table: Seq<Option<usize>>) -> bool {
    &&& forall|i: int|
        0 <= i < ids.len() ==> #[trigger] ids[i] < table.len() && table[ids[i] as int] == Some(
            i as usize,
        )
    &&& forall|k: int|
        0 <= k < table.len() ==> (#[trigger] table[k] matches Some(i) ==> i < ids.len()
            && ids[i as int] == k)
    &&& ids.len() == 0 ==> table.len() == 1
    &&& ids.len() > 0 ==> exists|i: int|
        0 <= i < ids.len() && #[trigger] ids[i] == table.len() - 1
}

/// Whether `j` is the first place whose id is 0 or stood before.
pub open spec fn first_bad_id(ids: Seq<u16>, j: int) -> bool {
    &&& 0 <= j < ids.len()
    &&& ids[j] == 0 || exists|i: int| 0 <= i < j && #[trigger] ids[i] == ids[j]
    &&& forall|i: int| 0 <= i < j ==> #[trigger] ids[i] != 0
    &&& forall|i: int, k: int| 0 <= i < k < j ==> #[trigger] ids[i] != #[trigger] ids[k]
}

/// Builds the table from ids to entries. An id that no entry carries, 0 among
/// them, gets an empty slot.
pub fn index_by_id(ids: &[u16]) -> (r: Result<Vec<Option<usize>>, PaletteError>)
    ensures
        r is Ok <==> (forall|i: int| 0 <= i < ids@.len() ==> #[trigger] ids@[i] != 0) && (forall|
            i: int,
            j: int,
        |
            0 <= i < j < ids@.len() ==> #[trigger] ids@[i] != #[trigger] ids@[j]),
        r matches Ok(table) ==> places_ids(ids@, table@),
        r matches Err(e) ==> match e {
            PaletteError::ReservedId => exists|j: int|
                #[trigger] first_bad_id(ids@, j) && ids@[j] == 0,
            PaletteError::DuplicateId(id) => id != 0 && exists|j: int|
                #[trigger] first_bad_id(ids@, j) && ids@[j] == id,
            _ => false,
        },
{
    let mut table: Vec<Option<usize>> = Vec::new();
    table.push(None);
    let mut i: usize = 0;
    while i < ids.len()
        invariant
            i <= ids@.len(),
            table@.len() >= 1,
            forall|a: int| 0 <= a < i ==> #[trigger] ids@[a] != 0,
            forall|a: int, b: int|
                0 <= a < b < i ==> #[trigger] ids@[a] != #[trigger] ids@[b],
            forall|a: int|
                0 <= a < i ==> #[trigger] ids@[a] < table@.len() && table@[ids@[a] as int] == Some(
                    a as usize,
                ),
            forall|k: int|
                0 <= k < table@.len() ==> (#[trigger] table@[k] matches Some(a) ==> a < i
                    && ids@[a as int] == k),
            i == 0 ==> table@.len() == 1,
            i > 0 ==> exists|a: int| 0 <= a < i && #[trigger] ids@[a] == table@.len() - 1,
        decreases ids@.len() - i,
    {
        let id: u16 = ids[i];
        if id == 0 {
            assert(first_bad_id(ids@, i as int));
            return Err(PaletteError::ReservedId);
        }
        let ghost top: int = if i == 0 { -1 } else {
            choose|a: int| 0 <= a < i && #[trigger] ids@[a] == table@.len() - 1
        };
        let ghost before = table@;
        while table.len() <= id as usize
            invariant
                id == ids@[i as int],
                before.len() <= table@.len(),
                table@.len() <= id + 1 || table@.len() == before.len(),
                forall|k: int| 0 <= k < before.len() ==> #[trigger] table@[k] == before[k],
                forall|k: int| before.len() <= k < table@.len() ==> #[trigger] table@[k] is None,
            decreases id + 1 - table@.len(),
        {
            table.push(None);
        }
        if table[id as usize].is_some() {
            proof {
                let a = table@[id as int]->0;
                assert(ids@[a as int] == id && ids@[i as int] == id);
                assert(first_bad_id(ids@, i as int));
            }
            return Err(PaletteError::DuplicateId(id));
        }
        proof {
            assert forall|a: int| 0 <= a < i implies #[trigger] ids@[a] != id by {
                if ids@[a] == id {
                    assert(table@[id as int] == Some(a as usize));
                }
            }
        }
        table.set(id as usize, Some(i));
        proof {
            if table@.len() == before.len() && i > 0 {
                assert(ids@[top] == table@.len() - 1);
            } else {
                assert(ids@[i as int] == table@.len() - 1);
            }
        }
        i += 1;
    }
    Ok(table)
}

/// The ids of a run of colours.
pub open spec fn ids_of(colors: Seq<Color>) -> Seq<u16> {
    colors.map_values(|c: Color| c.id.number())
}

/// Whether ids are neither 0 nor repeated.
pub open spec fn ids_sound(ids: Seq<u16>) -> bool {
    &&& forall|i: int| 0 <= i < ids.len() ==> #[trigger] ids[i] != 0
    &&& forall|i: int, j: int| 0 <= i < j < ids.len() ==> #[trigger] ids[i] != #[trigger] ids[j]
}

impl Palette {
    /// The colours, in order.
    pub closed spec fn view(&self) -> Seq<Color> {
        self.colors@
    }

    /// The candidate table.
    pub closed spec fn table(&self) -> Option<Lut> {
        self.lut
    }

    /// Whether there is a colour, ids are sound and indexed, and the candidate
    /// table fits.
    pub closed spec fn wf(&self) -> bool {
        &&& self.colors@.len() > 0
        &&& ids_sound(ids_of(self.colors@))
        &&& indexes(self.colors@, self.by_id@)
        &&& self.lut matches Some(lut) ==> lut.serves(self.colors@.len())
    }

    /// What a palette is known to hold.
    pub proof fn law_palette(&self)
        requires
            self.wf(),
        ensures
            self@.len() > 0,
            ids_sound(ids_of(self@)),
            self.table() matches Some(lut) ==> lut.serves(self@.len()),
    {
    }

    /// Makes a palette of `colors`, in their order.
    pub fn new(colors: Vec<Color>, lut: Option<Lut>) -> (r: Result<Palette, PaletteError>)
        requires
            lut matches Some(t) ==> t.wf(),
        ensures
            r matches Ok(p) ==> p.wf() && p@ == colors@ && p.table() == lut,
            r is Ok <==> colors@.len() > 0 && ids_sound(ids_of(colors@)) && (lut matches Some(t)
                ==> t.serves(colors@.len())),
            r matches Err(e) ==> match e {
                PaletteError::Empty => colors@.len() == 0,
                PaletteError::ReservedId => colors@.len() > 0 && exists|j: int|
                    #[trigger] first_bad_id(ids_of(colors@), j) && ids_of(colors@)[j] == 0,
                PaletteError::DuplicateId(id) => colors@.len() > 0 && id != 0 && exists|j: int|
                    #[trigger] first_bad_id(ids_of(colors@), j) && ids_of(colors@)[j] == id,
                PaletteError::UnusableTable => colors@.len() > 0 && ids_sound(ids_of(colors@)),
            },
    {
        if colors.len() == 0 {
            return Err(PaletteError::Empty);
        }
        let mut ids: Vec<u16> = Vec::new();
        let mut i: usize = 0;
        while i < colors.len()
            invariant
                i <= colors@.len(),
                ids@ == ids_of(colors@).take(i as int),
            decreases colors@.len() - i,
        {
            ids.push(colors[i].id.get());
            i += 1;
            assert(ids@ =~= ids_of(colors@).take(i as int));
        }
        assert(ids@ =~= ids_of(colors@));
        match index_by_id(ids.as_slice()) {
            Err(e) => Err(e),
            Ok(by_id) => {
                assert(ids_sound(ids@));
                if let Some(t) = &lut {
                    if !t.check(colors.len()) {
                        return Err(PaletteError::UnusableTable);
                    }
                }
                proof {
                    assert forall|a: int| 0 <= a < colors@.len() implies (
                    #[trigger] colors@[a]).id.number() < by_id@.len()
                        && by_id@[colors@[a].id.number() as int] == Some(a as usize) by {
                        assert(ids@[a] == colors@[a].id.number());
                    }
                    assert forall|k: int| 0 <= k < by_id@.len() implies (
                    #[trigger] by_id@[k] matches Some(a) ==> a < colors@.len()
                        && colors@[a as int].id.number() == k) by {
                        if let Some(a) = by_id@[k] {
                            assert(ids@[a as int] == colors@[a as int].id.number());
                        }
                    }
                }
                Ok(Palette { colors, by_id, lut })
            },
        }
    }

    /// Number of colours.
    pub fn len(&self) -> (n: usize)
        ensures
            n == self@.len(),
    {
        self.colors.len()
    }

    /// Whether `c` is the answer for `rgb` under `algo`: the entry that a full
    /// search settles on or, by CIEDE2000 with a candidate table, the one
    /// that the search among the cell's candidates settles on.
    pub open spec fn answered<D: Fn(Metric, [u8; 3], usize) -> Distance>(
        &self,
        dist: D,
        algo: Algorithm,
        rgb: [u8; 3],
        c: Color,
    ) -> bool {
        exists|i: int|
            0 <= i < self@.len() && self.settles(dist, algo.spec_metric(), rgb, i)
                && #[trigger] self@[i] == c
    }

    /// Whether the search by `metric` for `rgb` settles on entry `i`.
    pub open spec fn settles<D: Fn(Metric, [u8; 3], usize) -> Distance>(
        &self,
        dist: D,
        metric: Metric,
        rgb: [u8; 3],
        i: int,
    ) -> bool {
        match (metric, self.table()) {
            (Metric::Ciede2000, Some(lut)) => wins_among(
                dist,
                metric,
                lut.cell(pixel_bin(rgb)),
                rgb,
                i,
            ),
            _ => wins(dist, metric, self@.len(), rgb, i),
        }
    }
}

/// The entry that carries `id`, if there is one.
pub open spec fn carried(colors: Seq<Color>, id: ColorId) -> Option<Color> {
    if exists|i: int| 0 <= i < colors.len() && (#[trigger] colors[i]).id == id {
        let i = choose|i: int| 0 <= i < colors.len() && (#[trigger] colors[i]).id == id;
        Some(colors[i])
    } else {
        None
    }
}

proof fn lemma_carried(colors: Seq<Color>, i: int)
    requires
        ids_sound(ids_of(colors)),
        0 <= i < colors.len(),
    ensures
        carried(colors, colors[i].id) == Some(colors[i]),
{
    let id = colors[i].id;
    let k = choose|k: int| 0 <= k < colors.len() && (#[trigger] colors[k]).id == id;
    assert(ids_of(colors)[i] == ids_of(colors)[k]);
}

/// An entry is found by its own id.
pub proof fn law_id_leads_back(palette: &Palette, i: int)
    requires
        palette.wf(),
        0 <= i < palette@.len(),
    ensures
        carried(palette@, palette@[i].id) == Some(palette@[i]),
{
    lemma_carried(palette@, i);
}

/// An id leads to the entry that carries it, or nowhere; 0 leads nowhere.
pub proof fn law_id_resolves_to_its_bearer(palette: &Palette, id: ColorId)
    requires
        palette.wf(),
    ensures
        carried(palette@, id) matches Some(c) ==> c.id == id && palette@.contains(c),
        id.number() == 0 ==> carried(palette@, id) is None,
{
    if exists|i: int| 0 <= i < palette@.len() && (#[trigger] palette@[i]).id == id {
        let i = choose|i: int| 0 <= i < palette@.len() && (#[trigger] palette@[i]).id == id;
        assert(ids_of(palette@)[i] != 0);
    }
}

impl Color {
    /// Every entry of the palette, in order.
    pub fn all(palette: &Palette) -> (all: &[Color])
        ensures
            all@ == palette@,
    {
        palette.colors.as_slice()
    }

    /// The entry that carries `id`, or `None` if there is none.
    pub fn from_id(id: ColorId, palette: &Palette) -> (r: Option<&Color>)
        requires
            palette.wf(),
        ensures
            carried(palette@, id) == (match r {
                Some(c) => Some(*c),
                None => None,
            }),
    {
        let slot: usize = id.get() as usize;
        if slot < palette.by_id.len() {
            match palette.by_id[slot] {
                Some(i) => {
                    proof {
                        law_id_is_its_number(palette@[i as int].id, id);
                        lemma_carried(palette@, i as int);
                    }
                    Some(&palette.colors[i])
                },
                None => None,
            }
        } else {
            None
        }
    }

    /// The entry nearest to `rgb` by Delta E 76.
    pub fn nearest_to<'a, D: Fn(Metric, [u8; 3], usize) -> Distance>(
        rgb: [u8; 3],
        palette: &'a Palette,
        dist: &D,
    ) -> (c: &'a Color)
        requires
            palette.wf(),
            answers(*dist, palette@.len()),
        ensures
            palette.answered(*dist, Algorithm::DeltaE76, rgb, *c),
    {
        let i: usize = nearest_idx_lanes::<LANES, D>(
            Metric::DeltaE76,
            rgb,
            palette.colors.len(),
            dist,
        );
        assert(palette.settles(*dist, Metric::DeltaE76, rgb, i as int));
        assert(palette@[i as int] == palette.colors@[i as int]);
        &palette.colors[i]
    }

    /// The entry nearest to `rgb` by CIE94, each entry as the reference.
    pub fn nearest_to_cie94<'a, D: Fn(Metric, [u8; 3], usize) -> Distance>(
        rgb: [u8; 3],
        palette: &'a Palette,
        dist: &D,
    ) -> (c: &'a Color)
        requires
            palette.wf(),
            answers(*dist, palette@.len()),
        ensures
            palette.answered(*dist, Algorithm::Cie94, rgb, *c),
    {
        let i: usize = nearest_idx_lanes::<LANES, D>(
            Metric::Cie94,
            rgb,
            palette.colors.len(),
            dist,
        );
        assert(palette.settles(*dist, Metric::Cie94, rgb, i as int));
        assert(palette@[i as int] == palette.colors@[i as int]);
        &palette.colors[i]
    }

    /// The entry nearest to `rgb` by CIEDE2000, through the candidate table
    /// where there is one.
    pub fn nearest_to_ciede2000<'a, D: Fn(Metric, [u8; 3], usize) -> Distance>(
        rgb: [u8; 3],
        palette: &'a Palette,
        dist: &D,
    ) -> (c: &'a Color)
        requires
            palette.wf(),
            answers(*dist, palette@.len()),
        ensures
            palette.answered(*dist, Algorithm::Ciede2000, rgb, *c),
    {
        let n: usize = palette.colors.len();
        let i: usize = match &palette.lut {
            Some(lut) => nearest_idx_in_cell(lut, rgb, n, dist),
            None => nearest_idx(Metric::Ciede2000, rgb, n, dist),
        };
        assert(palette.settles(*dist, Metric::Ciede2000, rgb, i as int));
        assert(palette@[i as int] == palette.colors@[i as int]);
        &palette.colors[i]
    }

    /// The entry nearest to `rgb` by CIEDE2000; answers as
    /// [`Color::nearest_to_ciede2000`].
    pub fn nearest_to_ciede2000_exact<'a, D: Fn(Metric, [u8; 3], usize) -> Distance>(
        rgb: [u8; 3],
        palette: &'a Palette,
        dist: &D,
    ) -> (c: &'a Color)
        requires
            palette.wf(),
            answers(*dist, palette@.len()),
        ensures
            palette.answered(*dist, Algorithm::Ciede2000Exact, rgb, *c),
    {
        let c: &'a Color = Color::nearest_to_ciede2000(rgb, palette, dist);
        c
    }
}

/// Both names of CIEDE2000 give the same answers.
pub proof fn law_both_ciede2000_agree<D: Fn(Metric, [u8; 3], usize) -> Distance>(
    palette: &Palette,
    dist: D,
    rgb: [u8; 3],
    c: Color,
)
    ensures
        palette.answered(dist, Algorithm::Ciede2000, rgb, c) == palette.answered(
            dist,
            Algorithm::Ciede2000Exact,
            rgb,
            c,
        ),
{
}

/// A palette has no more entries than can be indexed.
pub proof fn lemma_countable(palette: &Palette)
    ensures
        palette@.len() <= usize::MAX,
{
    assert(palette.colors.len() == palette@.len());
}

/// A table lists entries of its palette only.
pub proof fn lemma_listed(palette: &Palette, lut: Lut, rgb: [u8; 3])
    requires
        palette.wf(),
        palette.table() == Some(lut),
    ensures
        forall|k: int|
            0 <= k < lut.cell(pixel_bin(rgb)).len() ==> #[trigger] lut.cell(pixel_bin(rgb))[k]
                < palette@.len(),
{
    assert(0 <= pixel_bin(rgb) < N_CELLS);
}

impl Algorithm {
    /// The entry nearest to `rgb` under this algorithm.
    pub fn extract<'a, D: Fn(Metric, [u8; 3], usize) -> Distance>(
        &self,
        rgb: [u8; 3],
        palette: &'a Palette,
        dist: &D,
    ) -> (c: &'a Color)
        requires
            palette.wf(),
            answers(*dist, palette@.len()),
        ensures
            palette.answered(*dist, *self, rgb, *c),
    {
        match self {
            Algorithm::DeltaE76 => Color::nearest_to(rgb, palette, dist),
            Algorithm::Cie94 => Color::nearest_to_cie94(rgb, palette, dist),
            Algorithm::Ciede2000 => Color::nearest_to_ciede2000(rgb, palette, dist),
            Algorithm::Ciede2000Exact => Color::nearest_to_ciede2000_exact(rgb, palette, dist),
        }
    }
}

} // verus!
