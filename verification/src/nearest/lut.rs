//! Searches that look at the candidates of one cell only.
//!
//! The quantized space is cut into 32 x 32 x 32 cells of 8 x 8 x 8 colours.
//! For each cell the table lists every palette entry that is nearest to some
//! colour of the cell, so that the nearest entry of any colour is among the
//! candidates of its cell.

use vstd::prelude::*;

verus! {

use crate::distance::{Distance, Metric, answers, measured};
use crate::mmcq::histogram::{pixel_bin, pixel_cell};
use crate::nearest::scan::{is_nearest, is_nearest_seeded, law_nearest_unique, nearest_idx};

/// Cells of the table.
pub const N_CELLS: usize = 32768;

/// Candidate lists of all cells, one behind the other.
pub struct Lut {
    offsets: Vec<u32>,
    indices: Vec<u16>,
}

/// Why a table cannot be built.
#[derive(Clone, Copy, Debug, PartialEq, Eq, Structural)]
pub enum LutError {
    /// The candidates of all cells together number more than `u32` counts.
    TooManyCandidates,
}

/// Candidates in the first `n` cells.
pub open spec fn candidates_upto(cells: Seq<Vec<u16>>, n: int) -> nat
    decreases n,
{
    if n <= 0 {
        0
    } else {
        candidates_upto(cells, n - 1) + cells[n - 1]@.len()
    }
}

proof fn lemma_candidates_grow(cells: Seq<Vec<u16>>, m: int, n: int)
    requires
        0 <= m <= n <= cells.len(),
    ensures
        candidates_upto(cells, m) <= candidates_upto(cells, n),
    decreases n - m,
{
    if m < n {
        lemma_candidates_grow(cells, m, n - 1);
    }
}

impl Lut {
    /// Whether the offsets ascend from zero to the number of indices.
    pub closed spec fn wf(&self) -> bool {
        &&& self.offsets@.len() >= 1
        &&& self.offsets@[0] == 0
        &&& self.offsets@.last() == self.indices@.len()
        &&& forall|i: int, j: int|
            0 <= i <= j < self.offsets@.len() ==> #[trigger] self.offsets@[i]
                <= #[trigger] self.offsets@[j]
    }

    /// Number of cells.
    pub closed spec fn cells(&self) -> int {
        self.offsets@.len() - 1
    }

    /// The candidates of cell `c`.
    pub closed spec fn cell(&self, c: int) -> Seq<u16> {
        self.indices@.subrange(self.offsets@[c] as int, self.offsets@[c + 1] as int)
    }

    /// Where each cell's candidates start, and the end of the last.
    pub closed spec fn spec_offsets(&self) -> Seq<u32> {
        self.offsets@
    }

    /// All candidates.
    pub closed spec fn spec_indices(&self) -> Seq<u16> {
        self.indices@
    }

    /// What the two arrays say of each cell.
    pub proof fn law_layout(&self, c: int)
        requires
            self.wf(),
            0 <= c < self.cells(),
        ensures
            self.spec_offsets().len() == self.cells() + 1,
            self.spec_offsets()[0] == 0,
            self.spec_offsets()[self.cells()] == self.spec_indices().len(),
            self.spec_offsets()[c] <= self.spec_offsets()[c + 1] <= self.spec_indices().len(),
            self.cell(c) == self.spec_indices().subrange(
                self.spec_offsets()[c] as int,
                self.spec_offsets()[c + 1] as int,
            ),
    {
    }

    /// The offsets run from zero to the number of indices, one for each cell
    /// and one more.
    pub proof fn law_offsets_span_the_indices(&self)
        requires
            self.wf(),
        ensures
            self.cells() >= 0,
            self.spec_offsets().len() == self.cells() + 1,
            self.spec_offsets()[0] == 0,
            self.spec_offsets()[self.cells()] == self.spec_indices().len(),
            forall|i: int, j: int|
                0 <= i <= j <= self.cells() ==> #[trigger] self.spec_offsets()[i]
                    <= #[trigger] self.spec_offsets()[j],
    {
    }

    /// Lays the candidate lists of `cells` out in one table.
    pub fn assemble(cells: &[Vec<u16>]) -> (r: Result<Lut, LutError>)
        ensures
            r is Err <==> candidates_upto(cells@, cells@.len() as int) > u32::MAX,
            r matches Ok(lut) ==> {
                &&& lut.wf()
                &&& lut.cells() == cells@.len()
                &&& forall|c: int| 0 <= c < cells@.len() ==> #[trigger] lut.cell(c) == cells@[c]@
            },
    {
        let mut offsets: Vec<u32> = Vec::new();
        let mut indices: Vec<u16> = Vec::new();
        offsets.push(0);
        let mut i: usize = 0;
        while i < cells.len()
            invariant
                i <= cells@.len(),
                offsets@.len() == i + 1,
                forall|k: int|
                    0 <= k <= i ==> #[trigger] offsets@[k] == candidates_upto(cells@, k),
                indices@.len() == candidates_upto(cells@, i as int),
                indices@.len() <= u32::MAX,
                forall|k: int, x: int|
                    0 <= k < i && 0 <= x < cells@[k]@.len() ==> indices@[candidates_upto(
                        cells@,
                        k,
                    ) + x] == #[trigger] cells@[k]@[x],
            decreases cells@.len() - i,
        {
            let ghost before = indices@;
            indices.extend_from_slice(cells[i].as_slice());
            proof {
                assert(indices@ =~= before + cells@[i as int]@);
                assert forall|k: int, x: int|
                    0 <= k < i + 1 && 0 <= x < cells@[k]@.len() implies indices@[candidates_upto(
                    cells@,
                    k,
                ) + x] == #[trigger] cells@[k]@[x] by {
                    if k < i {
                        lemma_candidates_grow(cells@, k + 1, i as int);
                    }
                }
                lemma_candidates_grow(cells@, i + 1, cells@.len() as int);
            }
            if indices.len() > u32::MAX as usize {
                return Err(LutError::TooManyCandidates);
            }
            offsets.push(indices.len() as u32);
            i += 1;
        }
        let lut: Lut = Lut { offsets, indices };
        proof {
            assert forall|a: int, b: int| 0 <= a <= b < offsets@.len() implies
                #[trigger] offsets@[a] <= #[trigger] offsets@[b] by {
                lemma_candidates_grow(cells@, a, b);
            }
            assert forall|c: int| 0 <= c < cells@.len() implies #[trigger] lut.cell(c)
                == cells@[c]@ by {
                assert(offsets@[c] == candidates_upto(cells@, c));
                assert(offsets@[c + 1] == candidates_upto(cells@, c + 1));
                lemma_candidates_grow(cells@, c + 1, cells@.len() as int);
                assert(lut.cell(c) =~= cells@[c]@);
            }
        }
        Ok(lut)
    }

    /// Whether the table has a non-empty list for each of the [`N_CELLS`]
    /// cells and lists only entries below `n`.
    pub open spec fn serves(&self, n: nat) -> bool {
        &&& self.wf()
        &&& self.cells() == N_CELLS
        &&& forall|c: int| 0 <= c < N_CELLS ==> (#[trigger] self.cell(c)).len() > 0
        &&& forall|c: int, k: int|
            0 <= c < N_CELLS && 0 <= k < self.cell(c).len() ==> (#[trigger] self.cell(c)[k]) < n
    }

    /// Whether the table has a non-empty list for each of the [`N_CELLS`]
    /// cells and lists only entries below `n`.
    pub fn check(&self, n: usize) -> (ok: bool)
        requires
            self.wf(),
        ensures
            ok == self.serves(n as nat),
    {
        if self.offsets.len() != N_CELLS + 1 {
            return false;
        }
        let mut c: usize = 0;
        while c < N_CELLS
            invariant
                c <= N_CELLS,
                self.wf(),
                self.offsets@.len() == N_CELLS + 1,
                forall|a: int| 0 <= a < c ==> (#[trigger] self.cell(a)).len() > 0,
                forall|a: int, k: int|
                    0 <= a < c && 0 <= k < self.cell(a).len() ==> (#[trigger] self.cell(a)[k]) < n,
            decreases N_CELLS - c,
        {
            let start: usize = self.offsets[c] as usize;
            let end: usize = self.offsets[c + 1] as usize;
            if start == end {
                assert(self.cell(c as int).len() == 0);
                return false;
            }
            let mut k: usize = start;
            while k < end
                invariant
                    self.wf(),
                    c < N_CELLS,
                    self.offsets@.len() == N_CELLS + 1,
                    start == self.offsets@[c as int],
                    end == self.offsets@[c + 1],
                    start <= k <= end <= self.indices@.len(),
                    forall|x: int| start <= x < k ==> (#[trigger] self.indices@[x]) < n,
                decreases end - k,
            {
                if self.indices[k] as usize >= n {
                    assert(self.cell(c as int)[k - start] >= n);
                    return false;
                }
                k += 1;
            }
            c += 1;
        }
        true
    }

    /// Where each cell's candidates start, and the end of the last.
    pub fn offsets(&self) -> (o: &[u32])
        ensures
            o@ == self.spec_offsets(),
    {
        self.offsets.as_slice()
    }

    /// All candidates.
    pub fn indices(&self) -> (x: &[u16])
        ensures
            x@ == self.spec_indices(),
    {
        self.indices.as_slice()
    }

    /// The candidates of the cell that `rgb` falls into.
    fn candidates(&self, rgb: [u8; 3]) -> (list: &[u16])
        requires
            self.wf(),
            self.cells() == N_CELLS,
        ensures
            list@ == self.cell(pixel_bin(rgb)),
    {
        let c: usize = pixel_cell(rgb);
        let start: usize = self.offsets[c] as usize;
        let end: usize = self.offsets[c + 1] as usize;
        &self.indices[start..end]
    }
}

/// Whether `i` is what a full search for `rgb` over `n` entries settles on.
pub open spec fn wins<D: Fn(Metric, [u8; 3], usize) -> Distance>(
    dist: D,
    metric: Metric,
    n: nat,
    rgb: [u8; 3],
    i: int,
) -> bool {
    exists|ds: Seq<Distance>|
        ds.len() == n && measured(dist, metric, rgb, ds) && #[trigger] is_nearest(ds, i)
}

/// Whether `ds` is what `dist` answered for the palette entries in `list`.
pub open spec fn measured_for<D: Fn(Metric, [u8; 3], usize) -> Distance>(
    dist: D,
    metric: Metric,
    rgb: [u8; 3],
    list: Seq<u16>,
    ds: Seq<Distance>,
) -> bool {
    &&& ds.len() == list.len()
    &&& forall|k: int|
        0 <= k < ds.len() ==> call_ensures(
            dist,
            (metric, rgb, list[k] as usize),
            #[trigger] ds[k],
        )
}

/// Whether `i` is what a search among the candidates in `list` settles on.
pub open spec fn wins_among<D: Fn(Metric, [u8; 3], usize) -> Distance>(
    dist: D,
    metric: Metric,
    list: Seq<u16>,
    rgb: [u8; 3],
    i: int,
) -> bool {
    exists|ds: Seq<Distance>, k: int|
        measured_for(dist, metric, rgb, list, ds) && #[trigger] is_nearest_seeded(ds, k) && 0 <= k
            < list.len() && list[k] == i
}

/// The nearest candidate of the cell that `rgb` falls into, by CIEDE2000.
pub fn nearest_idx_in_cell<D: Fn(Metric, [u8; 3], usize) -> Distance>(
    lut: &Lut,
    rgb: [u8; 3],
    n: usize,
    dist: &D,
) -> (best: usize)
    requires
        lut.serves(n as nat),
        answers(*dist, n as nat),
    ensures
        best < n,
        wins_among(*dist, Metric::Ciede2000, lut.cell(pixel_bin(rgb)), rgb, best as int),
{
    let list: &[u16] = lut.candidates(rgb);
    proof {
        assert(pixel_cell_in_range(rgb));
        assert(lut.cell(pixel_bin(rgb)).len() > 0);
        assert forall|k: int| 0 <= k < list@.len() implies #[trigger] list@[k] < n by {
            assert(lut.cell(pixel_bin(rgb))[k] < n);
        }
    }
    let first: usize = list[0] as usize;
    let mut best_d: Distance = dist(Metric::Ciede2000, rgb, first);
    let mut at: usize = 0;
    let ghost mut ds: Seq<Distance> = seq![best_d];
    let mut k: usize = 1;
    while k < list.len()
        invariant
            1 <= k <= list@.len(),
            at < k,
            answers(*dist, n as nat),
            forall|j: int| 0 <= j < list@.len() ==> #[trigger] list@[j] < n,
            ds.len() == k,
            forall|j: int|
                0 <= j < k ==> call_ensures(
                    *dist,
                    (Metric::Ciede2000, rgb, list@[j] as usize),
                    #[trigger] ds[j],
                ),
            best_d == ds[at as int],
            is_nearest_seeded(ds, at as int),
        decreases list@.len() - k,
    {
        assert(list@[k as int] < n);
        let d: Distance = dist(Metric::Ciede2000, rgb, list[k] as usize);
        let ghost before = ds;
        proof {
            ds = ds.push(d);
            assert(forall|j: int| 0 <= j < before.len() ==> ds[j] == before[j]);
        }
        if d.less_than(best_d) {
            best_d = d;
            at = k;
        }
        k += 1;
    }
    proof {
        assert(measured_for(*dist, Metric::Ciede2000, rgb, list@, ds));
    }
    list[at] as usize
}

spec fn pixel_cell_in_range(rgb: [u8; 3]) -> bool {
    0 <= pixel_bin(rgb) < N_CELLS
}

/// Whether `s` ascends without repeats.
pub open spec fn strictly_ascending(s: Seq<u16>) -> bool {
    forall|i: int, j: int| 0 <= i < j < s.len() ==> #[trigger] s[i] < #[trigger] s[j]
}

/// Whether `list` holds exactly the winners of the colours of cell `cell`,
/// in ascending order.
pub open spec fn lists_winners<D: Fn(Metric, [u8; 3], usize) -> Distance>(
    dist: D,
    n: nat,
    cell: int,
    list: Seq<u16>,
) -> bool {
    &&& strictly_ascending(list)
    &&& forall|rgb: [u8; 3]| #[trigger] pixel_bin(rgb) == cell ==> won_in(dist, n, rgb, list)
    &&& forall|k: int| 0 <= k < list.len() ==> wins_in(dist, n, cell, #[trigger] list[k])
}

/// Whether a winner for `rgb` is in `list`.
pub open spec fn won_in<D: Fn(Metric, [u8; 3], usize) -> Distance>(
    dist: D,
    n: nat,
    rgb: [u8; 3],
    list: Seq<u16>,
) -> bool {
    exists|k: int|
        0 <= k < list.len() && wins(dist, Metric::Ciede2000, n, rgb, #[trigger] list[k] as int)
}

/// Whether `i` wins for some colour of cell `cell`.
pub open spec fn wins_in<D: Fn(Metric, [u8; 3], usize) -> Distance>(
    dist: D,
    n: nat,
    cell: int,
    i: u16,
) -> bool {
    exists|rgb: [u8; 3]|
        #[trigger] pixel_bin(rgb) == cell && wins(dist, Metric::Ciede2000, n, rgb, i as int)
}

/// Adds `x` to an ascending list without repeats.
fn insert_sorted(list: &mut Vec<u16>, x: u16)
    requires
        strictly_ascending(old(list)@),
    ensures
        strictly_ascending(final(list)@),
        forall|y: u16| #[trigger] final(list)@.contains(y) <==> old(list)@.contains(y) || y == x,
{
    let ghost given = list@;
    let mut p: usize = list.len();
    while p > 0 && list[p - 1] > x
        invariant
            p <= list@.len(),
            list@ == given,
            forall|k: int| p <= k < given.len() ==> #[trigger] given[k] > x,
        decreases p,
    {
        p -= 1;
    }
    if p > 0 && list[p - 1] == x {
        assert(given[p - 1] == x);
        assert(given.contains(x));
        return;
    }
    list.insert(p, x);
    proof {
        let out = list@;
        assert(out == given.insert(p as int, x));
        assert forall|i: int, j: int| 0 <= i < j < out.len() implies #[trigger] out[i]
            < #[trigger] out[j] by {
            if i < p && j == p {
                assert(given[i] <= given[p - 1]);
            }
        }
        assert forall|y: u16| #[trigger] out.contains(y) <==> given.contains(y) || y == x by {
            if given.contains(y) {
                let k = choose|k: int| 0 <= k < given.len() && given[k] == y;
                if k < p {
                    assert(out[k] == y);
                } else {
                    assert(out[k + 1] == y);
                }
            }
            if y == x {
                assert(out[p as int] == y);
            }
            if out.contains(y) && y != x {
                let k = choose|k: int| 0 <= k < out.len() && out[k] == y;
                if k < p {
                    assert(given[k] == y);
                } else {
                    assert(given[k - 1] == y);
                }
            }
        }
    }
}

/// The place of a colour within its cell.
spec fn place(rgb: [u8; 3]) -> int {
    (rgb[0] % 8) * 64 + (rgb[1] % 8) * 8 + rgb[2] % 8
}

proof fn lemma_colour_at(rgb: [u8; 3], cell: int, k: int)
    ensures
        pixel_bin(rgb) == cell && place(rgb) == k <==> {
            &&& 0 <= cell < N_CELLS
            &&& 0 <= k < 512
            &&& rgb[0] == (cell / 1024) * 8 + k / 64
            &&& rgb[1] == (cell / 32 % 32) * 8 + k / 8 % 8
            &&& rgb[2] == (cell % 32) * 8 + k % 8
        },
{
    let (r, g, b) = (rgb[0] as int, rgb[1] as int, rgb[2] as int);
    if pixel_bin(rgb) == cell && place(rgb) == k {
        assert(cell == (r / 8) * 1024 + (g / 8) * 32 + b / 8);
        assert(cell / 1024 == r / 8);
        assert(cell / 32 == (r / 8) * 32 + g / 8);
        assert(k == (r % 8) * 64 + (g % 8) * 8 + b % 8);
        assert(k / 64 == r % 8);
        assert(k / 8 == (r % 8) * 8 + g % 8);
    }
    if 0 <= cell < N_CELLS && 0 <= k < 512 && r == (cell / 1024) * 8 + k / 64 && g == (cell / 32
        % 32) * 8 + k / 8 % 8 && b == (cell % 32) * 8 + k % 8 {
        assert(r / 8 == cell / 1024 && r % 8 == k / 64);
        assert(g / 8 == cell / 32 % 32 && g % 8 == k / 8 % 8);
        assert(b / 8 == cell % 32 && b % 8 == k % 8);
        assert(cell / 32 / 32 == cell / 1024);
        assert(k / 8 / 8 == k / 64);
    }
}

/// The colour at a place within a cell.
fn colour_at(cell: usize, k: usize) -> (rgb: [u8; 3])
    requires
        cell < N_CELLS,
        k < 512,
    ensures
        pixel_bin(rgb) == cell,
        place(rgb) == k,
        forall|other: [u8; 3]|
            #[trigger] pixel_bin(other) == cell && place(other) == k ==> other == rgb,
{
    let r: u8 = ((cell / 1024) * 8 + k / 64) as u8;
    let g: u8 = ((cell / 32 % 32) * 8 + k / 8 % 8) as u8;
    let b: u8 = ((cell % 32) * 8 + k % 8) as u8;
    let rgb: [u8; 3] = [r, g, b];
    proof {
        lemma_colour_at(rgb, cell as int, k as int);
        assert forall|other: [u8; 3]|
            #[trigger] pixel_bin(other) == cell && place(other) == k implies other == rgb by {
            lemma_colour_at(other, cell as int, k as int);
            assert(other =~= rgb);
        }
    }
    rgb
}

/// The candidates of one cell: the winners for all of its 512 colours,
/// ascending.
pub fn cell_candidates<D: Fn(Metric, [u8; 3], usize) -> Distance>(
    cell: usize,
    n: usize,
    dist: &D,
) -> (list: Vec<u16>)
    requires
        cell < N_CELLS,
        0 < n <= 65536,
        answers(*dist, n as nat),
    ensures
        lists_winners(*dist, n as nat, cell as int, list@),
        list@.len() > 0,
        forall|k: int| 0 <= k < list@.len() ==> #[trigger] list@[k] < n,
{
    let mut list: Vec<u16> = Vec::new();
    let mut k: usize = 0;
    while k < 512
        invariant
            k <= 512,
            cell < N_CELLS,
            0 < n <= 65536,
            answers(*dist, n as nat),
            strictly_ascending(list@),
            k > 0 ==> list@.len() > 0,
            forall|rgb: [u8; 3]|
                #[trigger] pixel_bin(rgb) == cell && place(rgb) < k ==> won_in(
                    *dist,
                    n as nat,
                    rgb,
                    list@,
                ),
            forall|j: int|
                0 <= j < list@.len() ==> wins_in(*dist, n as nat, cell as int, #[trigger] list@[j]),
            forall|j: int| 0 <= j < list@.len() ==> #[trigger] list@[j] < n,
        decreases 512 - k,
    {
        let rgb: [u8; 3] = colour_at(cell, k);
        let best: usize = nearest_idx(Metric::Ciede2000, rgb, n, dist);
        let ghost before = list@;
        insert_sorted(&mut list, best as u16);
        proof {
            let x = best as u16;
            assert(wins(*dist, Metric::Ciede2000, n as nat, rgb, x as int));
            assert(wins_in(*dist, n as nat, cell as int, x));
            assert(list@.contains(x));
            assert forall|other: [u8; 3]|
                #[trigger] pixel_bin(other) == cell && place(other) < k + 1 implies won_in(
                *dist,
                n as nat,
                other,
                list@,
            ) by {
                if place(other) == k {
                    assert(other == rgb);
                    let j = choose|j: int| 0 <= j < list@.len() && list@[j] == x;
                    assert(wins(*dist, Metric::Ciede2000, n as nat, other, list@[j] as int));
                } else {
                    let a = choose|a: int|
                        0 <= a < before.len() && wins(
                            *dist,
                            Metric::Ciede2000,
                            n as nat,
                            other,
                            #[trigger] before[a] as int,
                        );
                    assert(before.contains(before[a]));
                    assert(list@.contains(before[a]));
                    let j = choose|j: int| 0 <= j < list@.len() && list@[j] == before[a];
                    assert(wins(*dist, Metric::Ciede2000, n as nat, other, list@[j] as int));
                }
            }
            assert forall|j: int| 0 <= j < list@.len() implies wins_in(
                *dist,
                n as nat,
                cell as int,
                #[trigger] list@[j],
            ) && list@[j] < n by {
                assert(list@.contains(list@[j]));
                if list@[j] != x {
                    assert(before.contains(list@[j]));
                }
            }
        }
        k += 1;
    }
    proof {
        assert forall|rgb: [u8; 3]| #[trigger] pixel_bin(rgb) == cell implies won_in(
            *dist,
            n as nat,
            rgb,
            list@,
        ) by {
            assert(place(rgb) < 512);
        }
    }
    list
}

proof fn lemma_ascending_length(list: Seq<u16>, k: int)
    requires
        strictly_ascending(list),
        0 <= k < list.len(),
    ensures
        list[k] >= k,
        k < 65536,
    decreases k,
{
    if k > 0 {
        lemma_ascending_length(list, k - 1);
        assert(list[k - 1] < list[k]);
    }
}

/// Candidate lists of up to [`N_CELLS`] cells number no more than `u32`
/// counts.
proof fn lemma_candidates_fit(cells: Seq<Vec<u16>>, n: int)
    requires
        0 <= n <= cells.len(),
        forall|c: int| 0 <= c < n ==> strictly_ascending((#[trigger] cells[c])@),
    ensures
        candidates_upto(cells, n) <= 65536 * n,
    decreases n,
{
    if n > 0 {
        lemma_candidates_fit(cells, n - 1);
        let list = cells[n - 1]@;
        assert(strictly_ascending(list));
        if list.len() > 0 {
            lemma_ascending_length(list, list.len() - 1);
        }
    }
}

/// The candidate table of a palette of `n` entries: for every cell the
/// winners for all of its colours.
pub fn compute_lut<D: Fn(Metric, [u8; 3], usize) -> Distance>(n: usize, dist: &D) -> (lut: Lut)
    requires
        0 < n <= 65536,
        answers(*dist, n as nat),
    ensures
        lut.serves(n as nat),
        forall|c: int|
            0 <= c < N_CELLS ==> lists_winners(*dist, n as nat, c, #[trigger] lut.cell(c)),
{
    let mut cells: Vec<Vec<u16>> = Vec::new();
    let mut c: usize = 0;
    while c < N_CELLS
        invariant
            c <= N_CELLS,
            0 < n <= 65536,
            answers(*dist, n as nat),
            cells@.len() == c,
            forall|b: int|
                0 <= b < c ==> lists_winners(*dist, n as nat, b, (#[trigger] cells@[b])@)
                    && cells@[b]@.len() > 0,
            forall|b: int, k: int|
                0 <= b < c && 0 <= k < cells@[b]@.len() ==> #[trigger] cells@[b]@[k] < n,
        decreases N_CELLS - c,
    {
        let list: Vec<u16> = cell_candidates(c, n, dist);
        cells.push(list);
        c += 1;
    }
    proof {
        lemma_candidates_fit(cells@, N_CELLS as int);
    }
    match Lut::assemble(cells.as_slice()) {
        Ok(lut) => {
            assert forall|b: int| 0 <= b < N_CELLS implies lists_winners(
                *dist,
                n as nat,
                b,
                #[trigger] lut.cell(b),
            ) && lut.cell(b).len() > 0 by {
                assert(lut.cell(b) == cells@[b]@);
            }
            assert forall|b: int, k: int|
                0 <= b < N_CELLS && 0 <= k < lut.cell(b).len() implies (#[trigger] lut.cell(b)[k])
                < n by {
                assert(lut.cell(b) == cells@[b]@);
                assert(cells@[b]@[k] < n);
            }
            lut
        },
        Err(_) => vstd::pervasive::unreached(),
    }
}

/// Whether `dist` always gives the same answer to the same question.
pub open spec fn consistent<D: Fn(Metric, [u8; 3], usize) -> Distance>(dist: D) -> bool {
    forall|metric: Metric, rgb: [u8; 3], i: usize, a: Distance, b: Distance|
        #[trigger] call_ensures(dist, (metric, rgb, i), a) && #[trigger] call_ensures(
            dist,
            (metric, rgb, i),
            b,
        ) ==> a == b
}

/// The distances of the candidates in `list`.
pub open spec fn distances_of(ds: Seq<Distance>, list: Seq<u16>) -> Seq<Distance> {
    Seq::new(list.len(), |j: int| ds[list[j] as int])
}

/// An ascending candidate list that holds the entry a full search settles on
/// leads a search among the candidates to that entry. (Where the first
/// candidate's distance is not a number, only if the full search settles on
/// the first entry.)
pub proof fn law_candidates_agree(ds: Seq<Distance>, list: Seq<u16>, full: int, w: int, k: int)
    requires
        strictly_ascending(list),
        forall|j: int| 0 <= j < list.len() ==> #[trigger] list[j] < ds.len(),
        is_nearest(ds, full),
        0 <= w < list.len(),
        list[w] == full,
        0 <= k < list.len(),
        is_nearest_seeded(distances_of(ds, list), k),
        !ds[list[0] as int].nan() || full == 0,
    ensures
        list[k] == full,
{
    let cs = distances_of(ds, list);
    assert(cs[w] == ds[full]);
    assert(cs[k] == ds[list[k] as int]);
    assert(cs[0] == ds[list[0] as int]);
    if full == 0 && w > 0 {
        assert(list[0] < list[w]);
    }
    if exists|i: int| 0 <= i < ds.len() && (#[trigger] ds[i]).bounded() {
        assert(!cs[0].nan());
        assert(!cs[w].below(cs[k]));
        assert(!ds[list[k] as int].below(ds[full]));
        if k < w {
            assert(list[k] < list[w]);
            assert(ds[full].below(ds[list[k] as int]));
        }
        if w < k {
            assert(cs[k].below(cs[w]));
        }
    } else {
        if !cs[0].nan() && k > 0 {
            assert(cs[k].below(cs[0]));
            assert(!ds[list[0] as int].bounded());
            assert(!ds[list[k] as int].bounded());
        }
    }
}

/// A table is exact: where a cell lists the winners of its colours, the
/// search among the candidates of a colour's cell settles on the entry that
/// a full search for that colour settles on. (Where the first candidate's
/// distance is not a number, only if that is the first entry.)
#[verifier::spinoff_prover]
pub proof fn law_table_is_exact<D: Fn(Metric, [u8; 3], usize) -> Distance>(
    dist: D,
    n: nat,
    list: Seq<u16>,
    rgb: [u8; 3],
    full: int,
    found: int,
)
    requires
        n <= usize::MAX,
        consistent(dist),
        lists_winners(dist, n, pixel_bin(rgb), list),
        forall|k: int| 0 <= k < list.len() ==> #[trigger] list[k] < n,
        wins(dist, Metric::Ciede2000, n, rgb, full),
        wins_among(dist, Metric::Ciede2000, list, rgb, found),
        forall|d: Distance|
            #[trigger] call_ensures(dist, (Metric::Ciede2000, rgb, list[0] as usize), d)
                ==> !d.nan() || full == 0,
    ensures
        found == full,
{
    let metric = Metric::Ciede2000;
    assert(won_in(dist, n, rgb, list));
    let w = choose|w: int|
        0 <= w < list.len() && wins(dist, metric, n, rgb, #[trigger] list[w] as int);
    let ds = law_searches_agree(dist, metric, n, rgb, full, list[w] as int);
    let (cs, k) = choose|cs: Seq<Distance>, k: int|
        measured_for(dist, metric, rgb, list, cs) && #[trigger] is_nearest_seeded(cs, k) && 0 <= k
            < list.len() && list[k] == found;
    lemma_candidate_distances(dist, rgb, list, ds, cs);
    assert(call_ensures(dist, (metric, rgb, list[0] as usize), cs[0]));
    law_candidates_agree(ds, list, full, w, k);
}

/// Consistent answers for the candidates are those of the full search.
proof fn lemma_candidate_distances<D: Fn(Metric, [u8; 3], usize) -> Distance>(
    dist: D,
    rgb: [u8; 3],
    list: Seq<u16>,
    ds: Seq<Distance>,
    cs: Seq<Distance>,
)
    requires
        consistent(dist),
        forall|k: int| 0 <= k < list.len() ==> #[trigger] list[k] < ds.len(),
        measured(dist, Metric::Ciede2000, rgb, ds),
        measured_for(dist, Metric::Ciede2000, rgb, list, cs),
    ensures
        cs == distances_of(ds, list),
{
    assert forall|j: int| 0 <= j < list.len() implies #[trigger] cs[j] == ds[list[j] as int] by {
        let e = list[j] as usize;
        assert(call_ensures(dist, (Metric::Ciede2000, rgb, e), cs[j]));
        assert(call_ensures(dist, (Metric::Ciede2000, rgb, e), ds[e as int]));
    }
    assert(cs =~= distances_of(ds, list));
}

/// Consistent answers have one winner: searches that look at the entries one
/// by one and several at a time agree.
pub proof fn law_searches_agree<D: Fn(Metric, [u8; 3], usize) -> Distance>(
    dist: D,
    metric: Metric,
    n: nat,
    rgb: [u8; 3],
    one: int,
    other: int,
) -> (ds: Seq<Distance>)
    requires
        consistent(dist),
        n <= usize::MAX,
        wins(dist, metric, n, rgb, one),
        wins(dist, metric, n, rgb, other),
    ensures
        one == other,
        ds.len() == n,
        measured(dist, metric, rgb, ds),
        is_nearest(ds, one),
{
    let ds = choose|ds: Seq<Distance>|
        ds.len() == n && measured(dist, metric, rgb, ds) && #[trigger] is_nearest(ds, one);
    let es = choose|es: Seq<Distance>|
        es.len() == n && measured(dist, metric, rgb, es) && #[trigger] is_nearest(es, other);
    assert forall|i: int| 0 <= i < n implies #[trigger] es[i] == ds[i] by {
        let e = i as usize;
        assert(call_ensures(dist, (metric, rgb, e), es[e as int]));
        assert(call_ensures(dist, (metric, rgb, e), ds[e as int]));
    }
    assert(es =~= ds);
    law_nearest_unique(ds, one, other);
    ds
}

} // verus!
