//! The move search: candidate enumeration, board simulation and the
//! board-quality heuristic.
//!
//! Scores are exact fixed-point integers: a weight of `510066` stands for
//! `0.510066` points per unit, every score is the weighted sum scaled by
//! one million, and comparisons between candidates are therefore exact. The
//! canonical preset is the extended six-feature model (aggregate height,
//! lines cleared, holes, covered holes, bumpiness, danger zone); the older
//! four-feature model remains available as [`Weights::basic`].

use vstd::prelude::*;

use crate::field::{
    clear_lines_sim, cleared_count, clear_spec, drop_from, fits_rows, piece_fits_field,
    stamp_piece, stamped_rows, Field,
};

verus! {

/// Scale of the fixed-point heuristic weights: `1_000_000` stands for one
/// point per feature unit.
pub const WEIGHT_SCALE: i64 = 1_000_000;

/// Heuristic weights, each a penalty (or for `lines` a reward) per feature
/// unit, scaled by [`WEIGHT_SCALE`].
pub struct Weights {
    pub agg: i64,
    pub lines: i64,
    pub holes: i64,
    pub covered: i64,
    pub bump: i64,
    pub danger_rate: i64,
    pub danger_threshold: i64,
}

impl Weights {
    /// Bounds under which every score computation stays well inside `i64`.
    pub open spec fn wf(self) -> bool {
        &&& 0 <= self.agg <= 100_000_000_000
        &&& 0 <= self.lines <= 100_000_000_000
        &&& 0 <= self.holes <= 100_000_000_000
        &&& 0 <= self.covered <= 100_000_000_000
        &&& 0 <= self.bump <= 100_000_000_000
        &&& 0 <= self.danger_rate <= 100_000_000_000
        &&& 0 <= self.danger_threshold <= 64
    }

    /// The extended six-feature preset (the canonical one).
    pub open spec fn standard_spec() -> Weights {
        (Weights {
            agg: 510066,
            lines: 760666,
            holes: 750000,
            covered: 350000,
            bump: 356630,
            danger_rate: 3_000_000,
            danger_threshold: 12,
        })
    }

    /// The extended six-feature preset, executable form.
    pub fn standard() -> (w: Weights)
        ensures
            w == Weights::standard_spec(),
            w.wf(),
    {
        Weights {
            agg: 510066,
            lines: 760666,
            holes: 750000,
            covered: 350000,
            bump: 356630,
            danger_rate: 3_000_000,
            danger_threshold: 12,
        }
    }

    /// The documented alternative: the basic four-feature preset (no covered
    /// holes, no danger zone).
    pub fn basic() -> (w: Weights)
        ensures
            w.agg == 510066 && w.lines == 760666 && w.holes == 356630 && w.covered == 0 && w.bump
                == 184483 && w.danger_rate == 0 && w.danger_threshold == 12,
            w.wf(),
    {
        Weights {
            agg: 510066,
            lines: 760666,
            holes: 356630,
            covered: 0,
            bump: 184483,
            danger_rate: 0,
            danger_threshold: 12,
        }
    }
}

/// Height of interior column `c`, scanned from row `y` downward: the number
/// of rows from the topmost occupied cell to the bottom of the playfield,
/// or `0` for an empty column.
pub open spec fn height_from(rows: Seq<Seq<u8>>, c: int, y: int) -> int
    decreases rows.len() - y,
{
    if y >= rows.len() {
        0
    } else if rows[y][c] != 0 {
        rows.len() - y
    } else {
        height_from(rows, c, y + 1)
    }
}

/// Height of interior column `c`.
pub open spec fn col_height(rows: Seq<Seq<u8>>, c: int) -> int {
    height_from(rows, c, 0)
}

/// Number of empty cells in column `c` from row `y` to the bottom.
pub open spec fn zeros_from(rows: Seq<Seq<u8>>, c: int, y: int) -> int
    decreases rows.len() - y,
{
    if y >= rows.len() {
        0
    } else {
        (if rows[y][c] == 0 {
            1int
        } else {
            0int
        }) + zeros_from(rows, c, y + 1)
    }
}

/// Holes in column `c`: empty cells strictly below the topmost occupied
/// cell.
pub open spec fn holes_col(rows: Seq<Seq<u8>>, c: int) -> int {
    let h = col_height(rows, c);
    if h <= 0 {
        0
    } else {
        zeros_from(rows, c, rows.len() - h + 1)
    }
}

/// Holes summed over the interior columns from `c` on.
pub open spec fn holes_cols(rows: Seq<Seq<u8>>, iw: int, c: int) -> int
    decreases iw - c,
{
    if c >= iw {
        0
    } else {
        holes_col(rows, c) + holes_cols(rows, iw, c + 1)
    }
}

/// Total hole count of the grid.
pub open spec fn holes_total(rows: Seq<Seq<u8>>, iw: int) -> int {
    holes_cols(rows, iw, 0)
}

/// Burial total of column `c` from row `y` down, where `cover` occupied
/// cells already lie above: every empty cell adds the number of occupied
/// cells stacked over it.
pub open spec fn covered_from(rows: Seq<Seq<u8>>, c: int, y: int, cover: int) -> int
    decreases rows.len() - y,
{
    if y >= rows.len() {
        0
    } else if rows[y][c] != 0 {
        covered_from(rows, c, y + 1, cover + 1)
    } else {
        cover + covered_from(rows, c, y + 1, cover)
    }
}

/// Burial total of column `c`.
pub open spec fn covered_col(rows: Seq<Seq<u8>>, c: int) -> int {
    let h = col_height(rows, c);
    if h <= 0 {
        0
    } else {
        covered_from(rows, c, rows.len() - h, 0)
    }
}

/// Burial totals summed over the interior columns from `c` on.
pub open spec fn covered_cols(rows: Seq<Seq<u8>>, iw: int, c: int) -> int
    decreases iw - c,
{
    if c >= iw {
        0
    } else {
        covered_col(rows, c) + covered_cols(rows, iw, c + 1)
    }
}

/// Total burial depth of the grid.
pub open spec fn covered_total(rows: Seq<Seq<u8>>, iw: int) -> int {
    covered_cols(rows, iw, 0)
}

pub open spec fn abs_i(v: int) -> int {
    if v >= 0 {
        v
    } else {
        -v
    }
}

/// Sum of the column heights from column `c` on.
pub open spec fn agg_cols(rows: Seq<Seq<u8>>, iw: int, c: int) -> int
    decreases iw - c,
{
    if c >= iw {
        0
    } else {
        col_height(rows, c) + agg_cols(rows, iw, c + 1)
    }
}

/// Maximum column height from column `c` on (at least 0).
pub open spec fn max_cols(rows: Seq<Seq<u8>>, iw: int, c: int) -> int
    decreases iw - c,
{
    if c >= iw {
        0
    } else {
        let h = col_height(rows, c);
        let m = max_cols(rows, iw, c + 1);
        if h > m {
            h
        } else {
            m
        }
    }
}

/// Sum of absolute height differences between adjacent columns from `c` on.
pub open spec fn bump_cols(rows: Seq<Seq<u8>>, iw: int, c: int) -> int
    decreases iw - c,
{
    if c + 1 >= iw {
        0
    } else {
        abs_i(col_height(rows, c) - col_height(rows, c + 1)) + bump_cols(rows, iw, c + 1)
    }
}

/// Same sum over a height profile given directly.
pub open spec fn bump_from(hs: Seq<i32>, i: int) -> int
    decreases hs.len() - i,
{
    if i + 1 >= hs.len() {
        0
    } else {
        abs_i(hs[i] - hs[i + 1]) + bump_from(hs, i + 1)
    }
}

/// Danger-zone penalty: a steep extra cost once the tallest column exceeds
/// the threshold.
pub open spec fn danger_of(rows: Seq<Seq<u8>>, iw: int, w: Weights) -> int {
    let m = max_cols(rows, iw, 0);
    if m > w.danger_threshold {
        w.danger_rate * (m - w.danger_threshold)
    } else {
        0
    }
}

/// The heuristic score of a settled grid, scaled by [`WEIGHT_SCALE`]:
/// reward for cleared lines, penalties for aggregate height, holes, covered
/// holes, bumpiness and the danger zone.
pub open spec fn score_spec(rows: Seq<Seq<u8>>, iw: int, lines: int, w: Weights) -> int {
    w.lines * lines - w.agg * agg_cols(rows, iw, 0) - w.holes * holes_total(rows, iw) - w.covered
        * covered_total(rows, iw) - w.bump * bump_cols(rows, iw, 0) - danger_of(rows, iw, w)
}

/// `height_from` stays between 0 and the number of rows scanned.
pub proof fn lemma_height_bounds(rows: Seq<Seq<u8>>, c: int, y: int)
    requires
        0 <= y <= rows.len(),
    ensures
        0 <= height_from(rows, c, y) <= rows.len() - y,
    decreases rows.len() - y,
{
    if y < rows.len() && rows[y][c] == 0 {
        lemma_height_bounds(rows, c, y + 1);
    }
}

/// Column heights of the grid (index 0 is the leftmost interior column).
pub fn column_heights(f: &Field) -> (hs: Vec<i32>)
    requires
        f.wf(),
    ensures
        hs.len() == f.iw(),
        forall|c: int| 0 <= c < f.iw() ==> #[trigger] hs[c] == col_height(f.irows(), c),
        forall|c: int| 0 <= c < f.iw() ==> 0 <= #[trigger] hs[c] <= f.ih(),
{
    let ghost rows = f.irows();
    let mut hs: Vec<i32> = Vec::new();
    let mut c: usize = 0;
    while c < f.width - 2
        invariant
            f.wf(),
            rows == f.irows(),
            c <= f.iw(),
            hs.len() == c,
            forall|k: int| 0 <= k < c ==> #[trigger] hs[k] == col_height(rows, k),
            forall|k: int| 0 <= k < c ==> 0 <= #[trigger] hs[k] <= f.ih(),
        decreases f.width - c,
    {
        let mut row: usize = 0;
        while row < f.height - 1 && f.get(c + 1, row) == 0
            invariant
                f.wf(),
                rows == f.irows(),
                c < f.iw(),
                row <= f.ih(),
                height_from(rows, c as int, 0) == height_from(rows, c as int, row as int),
            decreases f.height - row,
        {
            row = row + 1;
        }
        let h: i32 = ((f.height - 1) - row) as i32;
        proof {
            lemma_height_bounds(rows, c as int, row as int);
            if row < f.ih() {
                assert(rows[row as int][c as int] == f.cell(c as int + 1, row as int));
            }
            assert(h == col_height(rows, c as int));
        }
        hs.push(h);
        c = c + 1;
    }
    hs
}

/// Count the holes of the grid given its height profile.
pub fn count_holes(f: &Field, heights: &Vec<i32>) -> (holes: u32)
    requires
        f.wf(),
        heights.len() == f.iw(),
        forall|c: int| 0 <= c < f.iw() ==> #[trigger] heights[c] == col_height(f.irows(), c),
    ensures
        holes == holes_total(f.irows(), f.iw()),
        holes <= 4096,
{
    let ghost rows = f.irows();
    let ghost iw = f.iw();
    let mut holes: u32 = 0;
    let mut c: usize = 0;
    while c < f.width - 2
        invariant
            f.wf(),
            rows == f.irows(),
            iw == f.iw(),
            heights.len() == iw,
            forall|k: int| 0 <= k < iw ==> #[trigger] heights[k] == col_height(rows, k),
            c <= iw,
            holes + holes_cols(rows, iw, c as int) == holes_total(rows, iw),
            holes <= c * 64,
        decreases f.width - c,
    {
        let h = heights[c];
        proof {
            lemma_height_bounds(rows, c as int, 0);
        }
        if h > 0 {
            let top = (f.height - 1) - (h as usize);
            let mut row: usize = top + 1;
            let mut col_holes: u32 = 0;
            while row < f.height - 1
                invariant
                    f.wf(),
                    rows == f.irows(),
                    iw == f.iw(),
                    c < iw,
                    top + 1 <= row <= f.ih(),
                    col_holes + zeros_from(rows, c as int, row as int) == zeros_from(
                        rows,
                        c as int,
                        top + 1,
                    ),
                    col_holes <= row - top - 1,
                decreases f.height - row,
            {
                proof {
                    assert(rows[row as int][c as int] == f.cell(c as int + 1, row as int));
                }
                if f.get(c + 1, row) == 0 {
                    col_holes = col_holes + 1;
                }
                row = row + 1;
            }
            proof {
                assert(holes_col(rows, c as int) == zeros_from(rows, c as int, top + 1));
            }
            holes = holes + col_holes;
        }
        c = c + 1;
        proof {
            assert(holes <= c * 64);
        }
    }
    holes
}

/// Total burial depth of the grid given its height profile: for every hole,
/// the number of occupied cells stacked directly above it.
pub fn count_covered_holes(f: &Field, heights: &Vec<i32>) -> (total: u32)
    requires
        f.wf(),
        heights.len() == f.iw(),
        forall|c: int| 0 <= c < f.iw() ==> #[trigger] heights[c] == col_height(f.irows(), c),
    ensures
        total == covered_total(f.irows(), f.iw()),
        total <= 262144,
{
    let ghost rows = f.irows();
    let ghost iw = f.iw();
    let mut total: u32 = 0;
    let mut c: usize = 0;
    while c < f.width - 2
        invariant
            f.wf(),
            rows == f.irows(),
            iw == f.iw(),
            heights.len() == iw,
            forall|k: int| 0 <= k < iw ==> #[trigger] heights[k] == col_height(rows, k),
            c <= iw,
            total + covered_cols(rows, iw, c as int) == covered_total(rows, iw),
            total <= c * 4096,
        decreases f.width - c,
    {
        let h = heights[c];
        proof {
            lemma_height_bounds(rows, c as int, 0);
        }
        if h > 0 {
            let top = (f.height - 1) - (h as usize);
            let mut row: usize = top;
            let mut cover: u32 = 0;
            let mut col_total: u32 = 0;
            while row < f.height - 1
                invariant
                    f.wf(),
                    rows == f.irows(),
                    iw == f.iw(),
                    c < iw,
                    top <= row <= f.ih(),
                    cover <= row - top,
                    col_total + covered_from(rows, c as int, row as int, cover as int)
                        == covered_from(rows, c as int, top as int, 0),
                    col_total <= (row - top) * 64,
                decreases f.height - row,
            {
                proof {
                    assert(rows[row as int][c as int] == f.cell(c as int + 1, row as int));
                    assert((row + 1 - top) * 64 == (row - top) * 64 + 64) by (nonlinear_arith);
                }
                if f.get(c + 1, row) != 0 {
                    cover = cover + 1;
                } else {
                    col_total = col_total + cover;
                }
                row = row + 1;
            }
            proof {
                assert(covered_col(rows, c as int) == covered_from(rows, c as int, top as int, 0));
                assert(col_total <= 4096) by {
                    assert((f.ih() - top) * 64 <= 64 * 64) by (nonlinear_arith)
                        requires
                            0 <= f.ih() - top <= 64,
                    ;
                }
            }
            total = total + col_total;
        }
        c = c + 1;
        proof {
            assert(total <= c * 4096);
        }
    }
    total
}

/// Sum of absolute differences between adjacent entries of a height
/// profile.
pub fn bumpiness(heights: &Vec<i32>) -> (b: i32)
    requires
        heights.len() <= 64,
        forall|c: int| 0 <= c < heights.len() ==> 0 <= #[trigger] heights[c] <= 64,
    ensures
        b == bump_from(heights@, 0),
        0 <= b <= 4096,
{
    let mut b: i32 = 0;
    if heights.len() == 0 {
        return 0;
    }
    let mut i: usize = 0;
    while i + 1 < heights.len()
        invariant
            heights.len() <= 64,
            forall|c: int| 0 <= c < heights.len() ==> 0 <= #[trigger] heights[c] <= 64,
            i < heights.len(),
            b + bump_from(heights@, i as int) == bump_from(heights@, 0),
            0 <= b <= i * 64,
        decreases heights.len() - i,
    {
        let d = heights[i] - heights[i + 1];
        let a = if d >= 0 {
            d
        } else {
            -d
        };
        proof {
            assert((i + 1) * 64 == i * 64 + 64) by (nonlinear_arith);
        }
        b = b + a;
        i = i + 1;
    }
    proof {
        assert(i * 64 <= 64 * 64) by (nonlinear_arith)
            requires
                0 <= i <= 64,
        ;
    }
    b
}

/// Heights given as an executable profile agree with the column-wise
/// bumpiness of the grid.
pub(crate) proof fn lemma_bump_eq(hs: Seq<i32>, rows: Seq<Seq<u8>>, iw: int, i: int)
    requires
        hs.len() == iw,
        0 <= i,
        forall|c: int| 0 <= c < iw ==> #[trigger] hs[c] == col_height(rows, c),
    ensures
        bump_from(hs, i) == bump_cols(rows, iw, i),
    decreases iw - i,
{
    if i + 1 < iw {
        lemma_bump_eq(hs, rows, iw, i + 1);
    }
}

/// A product of bounded non-negative factors is bounded.
proof fn lemma_mul_le(a: int, b: int, bound_a: int, bound_b: int)
    requires
        0 <= a <= bound_a,
        0 <= b <= bound_b,
    ensures
        0 <= a * b <= bound_a * bound_b,
{
    assert(0 <= a * b <= bound_a * bound_b) by (nonlinear_arith)
        requires
            0 <= a <= bound_a,
            0 <= b <= bound_b,
    ;
}

/// The heuristic score of a settled grid, executable form.
pub fn score_field(f: &Field, lines_cleared: u32, w: &Weights) -> (s: i64)
    requires
        f.wf(),
        w.wf(),
        lines_cleared <= 64,
    ensures
        s == score_spec(f.irows(), f.iw(), lines_cleared as int, *w),
        -200_000_000_000_000_000 <= s <= 200_000_000_000_000_000,
{
    let ghost rows = f.irows();
    let ghost iw = f.iw();
    let heights = column_heights(f);
    let holes = count_holes(f, &heights);
    let covered = count_covered_holes(f, &heights);
    let bump = bumpiness(&heights);
    proof {
        lemma_bump_eq(heights@, rows, iw, 0);
    }

    let mut agg: i64 = 0;
    let mut maxh: i64 = 0;
    let mut c: usize = 0;
    while c < heights.len()
        invariant
            heights.len() == iw,
            iw <= 62,
            forall|k: int| 0 <= k < iw ==> #[trigger] heights[k] == col_height(rows, k),
            forall|k: int| 0 <= k < iw ==> 0 <= #[trigger] heights[k] <= 64,
            c <= iw,
            agg + agg_cols(rows, iw, c as int) == agg_cols(rows, iw, 0),
            0 <= agg <= c * 64,
            maxh == max_cols_prefix(rows, c as int),
            0 <= maxh <= 64,
        decreases heights.len() - c,
    {
        proof {
            assert((c + 1) * 64 == c * 64 + 64) by (nonlinear_arith);
        }
        agg = agg + heights[c] as i64;
        if heights[c] as i64 > maxh {
            maxh = heights[c] as i64;
        }
        c = c + 1;
    }
    proof {
        assert(c * 64 <= 62 * 64) by (nonlinear_arith)
            requires
                0 <= c <= 62,
        ;
        lemma_max_prefix_total(rows, iw, iw);
    }

    let danger: i64 = if maxh > w.danger_threshold {
        proof {
            lemma_mul_le(w.danger_rate as int, (maxh - w.danger_threshold) as int,
            100_000_000_000, 128);
        }
        w.danger_rate * (maxh - w.danger_threshold)
    } else {
        0
    };
    proof {
        lemma_mul_le(w.lines as int, lines_cleared as int, 100_000_000_000, 64);
        lemma_mul_le(w.agg as int, agg as int, 100_000_000_000, 4096);
        lemma_mul_le(w.holes as int, holes as int, 100_000_000_000, 4096);
        lemma_mul_le(w.covered as int, covered as int, 100_000_000_000, 262144);
        lemma_mul_le(w.bump as int, bump as int, 100_000_000_000, 4096);
    }
    w.lines * (lines_cleared as i64) - w.agg * agg - w.holes * (holes as i64) - w.covered * (
    covered as i64) - w.bump * (bump as i64) - danger
}

/// Maximum column height among the first `c` columns (at least 0).
pub open spec fn max_cols_prefix(rows: Seq<Seq<u8>>, c: int) -> int
    decreases c,
{
    if c <= 0 {
        0
    } else {
        let h = col_height(rows, c - 1);
        let m = max_cols_prefix(rows, c - 1);
        if h > m {
            h
        } else {
            m
        }
    }
}

/// The suffix maximum is never negative.
pub(crate) proof fn lemma_max_cols_nonneg(rows: Seq<Seq<u8>>, iw: int, c: int)
    ensures
        max_cols(rows, iw, c) >= 0,
    decreases iw - c,
{
    if c < iw {
        lemma_max_cols_nonneg(rows, iw, c + 1);
    }
}

/// The prefix maximum over all columns equals the suffix-style maximum used
/// by the score specification.
pub(crate) proof fn lemma_max_prefix_total(rows: Seq<Seq<u8>>, iw: int, c: int)
    requires
        0 <= c <= iw,
    ensures
        max_i(max_cols_prefix(rows, c), max_cols(rows, iw, c)) == max_cols(rows, iw, 0),
    decreases c,
{
    lemma_max_cols_nonneg(rows, iw, c);
    if c > 0 {
        lemma_max_prefix_total(rows, iw, c - 1);
    }
}

pub open spec fn max_i(a: int, b: int) -> int {
    if a > b {
        a
    } else {
        b
    }
}

/// Clone the field, write the piece at its placement, compact complete
/// rows, and return the resulting field with the number of rows cleared.
/// Both the live engine and the move search use this one simulation.
pub fn simulate_lock(field: &Field, piece: usize, rotation: usize, x: i32, y: i32) -> (r: (
    Field,
    u32,
))
    requires
        field.wf(),
        piece < 7,
        fits_rows(field.irows(), field.iw(), piece as int, rotation as int, x as int, y as int),
    ensures
        r.0.wf(),
        r.0.width == field.width,
        r.0.height == field.height,
        r.0.irows() == clear_spec(
            stamped_rows(field.irows(), piece as int, rotation as int, x as int, y as int),
            field.iw(),
        ),
        r.1 == cleared_count(
            stamped_rows(field.irows(), piece as int, rotation as int, x as int, y as int),
        ),
        r.1 <= field.ih(),
{
    let mut f = field.duplicate();
    proof {
        assert forall|a: int, b: int| f.in_bounds(a, b) implies (if f.is_border(a, b) {
            #[trigger] f.cell(a, b) == 9
        } else {
            f.cell(a, b) <= 8
        }) by {
            assert(field.cell(a, b) == f.cell(a, b));
        }
        assert(f.wf());
        assert forall|yy: int| 0 <= yy < f.ih() implies #[trigger] f.irow(yy) == field.irow(yy) by {
            assert(f.irow(yy) =~= field.irow(yy));
        }
        assert(f.irows() =~~= field.irows());
    }
    stamp_piece(&mut f, piece, rotation, x, y);
    let lines = clear_lines_sim(&mut f);
    (f, lines)
}

/// Number of candidate placements: 4 rotations times the column range
/// `-2..iw + 2`, which over-covers the field so that pieces with empty
/// leading columns can reach the walls.
pub open spec fn cand_total(iw: int) -> int {
    4 * (iw + 4)
}

/// Rotation of candidate `i`.
pub open spec fn cand_rot(iw: int, i: int) -> int {
    i / (iw + 4)
}

/// Column of candidate `i`.
pub open spec fn cand_x(iw: int, i: int) -> int {
    -2 + (i % (iw + 4))
}

/// A candidate is legal when its placement fits at the spawn row.
pub open spec fn cand_legal(rows: Seq<Seq<u8>>, iw: int, p: int, i: int) -> bool {
    fits_rows(rows, iw, p, cand_rot(iw, i), cand_x(iw, i), 0)
}

/// The grid left behind by candidate `i`: the piece falls from the spawn
/// row, is stamped at rest, and complete rows are compacted.
pub open spec fn cand_result_rows(rows: Seq<Seq<u8>>, iw: int, p: int, i: int) -> Seq<Seq<u8>> {
    let r = cand_rot(iw, i);
    let x = cand_x(iw, i);
    clear_spec(stamped_rows(rows, p, r, x, drop_from(rows, iw, p, r, x, 0)), iw)
}

/// Rows cleared by candidate `i`.
pub open spec fn cand_lines(rows: Seq<Seq<u8>>, iw: int, p: int, i: int) -> int {
    let r = cand_rot(iw, i);
    let x = cand_x(iw, i);
    cleared_count(stamped_rows(rows, p, r, x, drop_from(rows, iw, p, r, x, 0)))
}

/// Heuristic score of the grid candidate `i` leaves behind (no lookahead).
pub open spec fn cand_plain_score(rows: Seq<Seq<u8>>, iw: int, p: int, w: Weights, i: int) -> int {
    score_spec(cand_result_rows(rows, iw, p, i), iw, cand_lines(rows, iw, p, i), w)
}

/// Best plain score among the first `i` candidates of piece `p`, `None`
/// when none of them is legal.
pub open spec fn best_next_upto(rows: Seq<Seq<u8>>, iw: int, p: int, w: Weights, i: int) -> Option<
    int,
>
    decreases i,
{
    if i <= 0 {
        None
    } else {
        let prev = best_next_upto(rows, iw, p, w, i - 1);
        if cand_legal(rows, iw, p, i - 1) {
            let s = cand_plain_score(rows, iw, p, w, i - 1);
            match prev {
                Option::None => Some(s),
                Option::Some(b) => Some(max_i(b, s)),
            }
        } else {
            prev
        }
    }
}

/// Lookahead value of a grid for piece `p`: the best plain score over all
/// its placements, or 0 when no placement is legal.
pub open spec fn best_next_val(rows: Seq<Seq<u8>>, iw: int, p: int, w: Weights) -> int {
    match best_next_upto(rows, iw, p, w, cand_total(iw)) {
        Option::None => 0,
        Option::Some(b) => b,
    }
}

/// Candidate indices decompose into rotation and column.
proof fn lemma_cand_index(iw: int, rot: int, xi: int)
    requires
        iw >= 1,
        0 <= rot,
        0 <= xi < iw + 4,
    ensures
        cand_rot(iw, rot * (iw + 4) + xi) == rot,
        cand_x(iw, rot * (iw + 4) + xi) == -2 + xi,
{
    vstd::arithmetic::div_mod::lemma_fundamental_div_mod_converse(
        rot * (iw + 4) + xi,
        iw + 4,
        rot,
        xi,
    );
}

/// Best achievable score when placing `piece` anywhere on the given field,
/// or 0 when no placement is legal.
pub fn best_placement_score(field: &Field, piece: usize, w: &Weights) -> (s: i64)
    requires
        field.wf(),
        piece < 7,
        w.wf(),
    ensures
        s == best_next_val(field.irows(), field.iw(), piece as int, *w),
        -200_000_000_000_000_000 <= s <= 200_000_000_000_000_000,
{
    let ghost rows = field.irows();
    let ghost iw = field.iw();
    let mut best: i64 = 0;
    let mut found = false;
    let mut rotation: usize = 0;
    while rotation < 4
        invariant
            field.wf(),
            piece < 7,
            w.wf(),
            rows == field.irows(),
            iw == field.iw(),
            rotation <= 4,
            best_next_upto(rows, iw, piece as int, *w, rotation * (iw + 4)) == (if found {
                Some(best as int)
            } else {
                Option::<int>::None
            }),
            found ==> -200_000_000_000_000_000 <= best <= 200_000_000_000_000_000,
        decreases 4 - rotation,
    {
        let mut xi: usize = 0;
        while xi < field.width + 2
            invariant
                field.wf(),
                piece < 7,
                w.wf(),
                rows == field.irows(),
                iw == field.iw(),
                rotation < 4,
                xi <= iw + 4,
                best_next_upto(rows, iw, piece as int, *w, rotation * (iw + 4) + xi) == (if found {
                    Some(best as int)
                } else {
                    Option::<int>::None
                }),
                found ==> -200_000_000_000_000_000 <= best <= 200_000_000_000_000_000,
            decreases field.width + 2 - xi,
        {
            let ghost i = rotation * (iw + 4) + xi;
            proof {
                lemma_cand_index(iw, rotation as int, xi as int);
            }
            let x = (xi as i32) - 2;
            if piece_fits_field(field, piece, rotation, x, 0) {
                let drop_y = crate::field::drop_row(field, piece, rotation, x, 0);
                proof {
                    assert(fits_rows(rows, iw, piece as int, rotation as int, x as int,
                    drop_y as int)) by {
                        lemma_drop_fits(rows, iw, piece as int, rotation as int, x as int, 0);
                    }
                }
                let (locked, lines) = simulate_lock(field, piece, rotation, x, drop_y);
                let s = score_field(&locked, lines, w);
                proof {
                    assert(s == cand_plain_score(rows, iw, piece as int, *w, i));
                }
                if !found || s > best {
                    best = s;
                    found = true;
                }
            }
            xi = xi + 1;
        }
        rotation = rotation + 1;
        proof {
            assert(rotation * (iw + 4) == (rotation - 1) * (iw + 4) + (iw + 4)) by (
            nonlinear_arith);
        }
    }
    proof {
        assert(4 * (iw + 4) == cand_total(iw));
    }
    if found {
        best
    } else {
        0
    }
}

/// Full score of candidate `i` for the active piece: twice its plain score
/// plus the lookahead value of the next piece on the resulting grid (the
/// factor two keeps the half-weighted lookahead exact in integers).
pub open spec fn cand_full_score(
    rows: Seq<Seq<u8>>,
    iw: int,
    p: int,
    np: int,
    w: Weights,
    i: int,
) -> int {
    2 * cand_plain_score(rows, iw, p, w, i) + best_next_val(
        cand_result_rows(rows, iw, p, i),
        iw,
        np,
        w,
    )
}

/// The winner among the first `i` candidates as `(score, rotation, column)`:
/// enumeration order is rotation-major, and only a strictly greater score
/// displaces the incumbent, so ties keep the earliest candidate.
pub open spec fn best_cand_upto(
    rows: Seq<Seq<u8>>,
    iw: int,
    p: int,
    np: int,
    w: Weights,
    i: int,
) -> Option<(int, int, int)>
    decreases i,
{
    if i <= 0 {
        None
    } else {
        let prev = best_cand_upto(rows, iw, p, np, w, i - 1);
        if cand_legal(rows, iw, p, i - 1) {
            let s = cand_full_score(rows, iw, p, np, w, i - 1);
            match prev {
                Option::None => Some((s, cand_rot(iw, i - 1), cand_x(iw, i - 1))),
                Option::Some(b) => if s > b.0 {
                    Some((s, cand_rot(iw, i - 1), cand_x(iw, i - 1)))
                } else {
                    Some(b)
                },
            }
        } else {
            prev
        }
    }
}

/// The overall winner, `None` when no placement of the piece is legal.
pub open spec fn best_cand(rows: Seq<Seq<u8>>, iw: int, p: int, np: int, w: Weights) -> Option<
    (int, int, int),
> {
    best_cand_upto(rows, iw, p, np, w, cand_total(iw))
}

/// The lookahead value really is the maximum: when some placement of the
/// piece is legal, the value is the plain score of a legal placement and no
/// legal placement scores more; otherwise no placement among the first `i`
/// candidates is legal.
pub proof fn lemma_best_next_maximal(rows: Seq<Seq<u8>>, iw: int, p: int, w: Weights, i: int)
    requires
        0 <= i,
    ensures
        best_next_upto(rows, iw, p, w, i) matches Option::None ==> forall|j: int|
            0 <= j < i ==> !#[trigger] cand_legal(rows, iw, p, j),
        best_next_upto(rows, iw, p, w, i) matches Option::Some(b) ==> {
            &&& exists|j: int|
                0 <= j < i && #[trigger] cand_legal(rows, iw, p, j) && cand_plain_score(
                    rows,
                    iw,
                    p,
                    w,
                    j,
                ) == b
            &&& forall|k: int|
                0 <= k < i && #[trigger] cand_legal(rows, iw, p, k) ==> cand_plain_score(
                    rows,
                    iw,
                    p,
                    w,
                    k,
                ) <= b
        },
    decreases i,
{
    if i > 0 {
        lemma_best_next_maximal(rows, iw, p, w, i - 1);
        let prev = best_next_upto(rows, iw, p, w, i - 1);
        if cand_legal(rows, iw, p, i - 1) {
            let s = cand_plain_score(rows, iw, p, w, i - 1);
            match prev {
                Option::None => {
                    assert(cand_legal(rows, iw, p, i - 1) && cand_plain_score(rows, iw, p, w, i
                        - 1) == s);
                },
                Option::Some(b) => {
                    let bj = choose|j: int|
                        0 <= j < i - 1 && #[trigger] cand_legal(rows, iw, p, j)
                            && cand_plain_score(rows, iw, p, w, j) == b;
                    if s > b {
                        assert(cand_legal(rows, iw, p, i - 1) && cand_plain_score(rows, iw, p, w, i
                            - 1) == max_i(b, s));
                    } else {
                        assert(cand_legal(rows, iw, p, bj) && cand_plain_score(rows, iw, p, w, bj)
                            == max_i(b, s));
                    }
                },
            }
        }
    }
}

/// The search winner obeys the tie-break rule: it is a legal candidate, no
/// legal candidate scores more, and every legal candidate enumerated before
/// it (lower rotation, then lower column) scores strictly less — so equal
/// scores keep the earliest candidate. When the result is `None`, no
/// candidate among the first `i` is legal.
pub proof fn lemma_best_cand_maximal(
    rows: Seq<Seq<u8>>,
    iw: int,
    p: int,
    np: int,
    w: Weights,
    i: int,
)
    requires
        0 <= i,
    ensures
        best_cand_upto(rows, iw, p, np, w, i) matches Option::None ==> forall|j: int|
            0 <= j < i ==> !#[trigger] cand_legal(rows, iw, p, j),
        best_cand_upto(rows, iw, p, np, w, i) matches Option::Some(b) ==> {
            &&& exists|j: int|
                {
                    &&& 0 <= j < i
                    &&& #[trigger] cand_legal(rows, iw, p, j)
                    &&& cand_full_score(rows, iw, p, np, w, j) == b.0
                    &&& cand_rot(iw, j) == b.1
                    &&& cand_x(iw, j) == b.2
                    &&& forall|k: int|
                        0 <= k < j && #[trigger] cand_legal(rows, iw, p, k) ==> cand_full_score(
                            rows,
                            iw,
                            p,
                            np,
                            w,
                            k,
                        ) < b.0
                }
            &&& forall|k: int|
                0 <= k < i && #[trigger] cand_legal(rows, iw, p, k) ==> cand_full_score(
                    rows,
                    iw,
                    p,
                    np,
                    w,
                    k,
                ) <= b.0
        },
    decreases i,
{
    if i > 0 {
        lemma_best_cand_maximal(rows, iw, p, np, w, i - 1);
        let prev = best_cand_upto(rows, iw, p, np, w, i - 1);
        if cand_legal(rows, iw, p, i - 1) {
            let s = cand_full_score(rows, iw, p, np, w, i - 1);
            match prev {
                Option::None => {
                    assert(cand_legal(rows, iw, p, i - 1));
                },
                Option::Some(b) => {
                    if s > b.0 {
                        assert(cand_legal(rows, iw, p, i - 1));
                        assert(forall|k: int|
                            0 <= k < i - 1 && #[trigger] cand_legal(rows, iw, p, k)
                                ==> cand_full_score(rows, iw, p, np, w, k) < s);
                    } else {
                        let bj = choose|j: int|
                            {
                                &&& 0 <= j < i - 1
                                &&& #[trigger] cand_legal(rows, iw, p, j)
                                &&& cand_full_score(rows, iw, p, np, w, j) == b.0
                                &&& cand_rot(iw, j) == b.1
                                &&& cand_x(iw, j) == b.2
                                &&& forall|k: int|
                                    0 <= k < j && #[trigger] cand_legal(rows, iw, p, k)
                                        ==> cand_full_score(rows, iw, p, np, w, k) < b.0
                            };
                        assert(cand_legal(rows, iw, p, bj));
                    }
                },
            }
        }
    }
}

/// The `(rotation, column)` pair maximising the heuristic score for the
/// active piece, with one-piece lookahead on the next piece. When no
/// placement is legal anywhere, the current rotation and column come back
/// unchanged as a deterministic fallback.
pub fn compute_best_move(game: &crate::game::GameState) -> (r: (usize, i32))
    requires
        game.wf(),
    ensures
        ({
            let bc = best_cand(
                game.field.irows(),
                game.field.iw(),
                game.current_piece as int,
                game.next_piece as int,
                game.weights,
            );
            match bc {
                Option::None => r.0 == game.current_rotation && r.1 == game.current_x,
                Option::Some(t) => r.0 == t.1 && r.1 == t.2 && fits_rows(
                    game.field.irows(),
                    game.field.iw(),
                    game.current_piece as int,
                    r.0 as int,
                    r.1 as int,
                    0,
                ),
            }
        }),
{
    let field = &game.field;
    let piece = game.current_piece;
    let np = game.next_piece;
    let w = &game.weights;
    let ghost rows = field.irows();
    let ghost iw = field.iw();
    let mut best: i64 = 0;
    let mut found = false;
    let mut best_rotation: usize = game.current_rotation;
    let mut best_x: i32 = game.current_x;
    let mut rotation: usize = 0;
    while rotation < 4
        invariant
            field.wf(),
            field == game.field,
            piece < 7,
            np < 7,
            w.wf(),
            w == game.weights,
            rows == field.irows(),
            iw == field.iw(),
            rotation <= 4,
            best_cand_upto(rows, iw, piece as int, np as int, *w, rotation * (iw + 4)) == (
            if found {
                Some((best as int, best_rotation as int, best_x as int))
            } else {
                Option::<(int, int, int)>::None
            }),
            !found ==> best_rotation == game.current_rotation && best_x == game.current_x,
        decreases 4 - rotation,
    {
        let mut xi: usize = 0;
        while xi < field.width + 2
            invariant
                field.wf(),
                field == game.field,
                piece < 7,
                np < 7,
                w.wf(),
                w == game.weights,
                rows == field.irows(),
                iw == field.iw(),
                rotation < 4,
                xi <= iw + 4,
                best_cand_upto(rows, iw, piece as int, np as int, *w, rotation * (iw + 4) + xi)
                    == (if found {
                    Some((best as int, best_rotation as int, best_x as int))
                } else {
                    Option::<(int, int, int)>::None
                }),
                !found ==> best_rotation == game.current_rotation && best_x == game.current_x,
            decreases field.width + 2 - xi,
        {
            let ghost i = rotation * (iw + 4) + xi;
            proof {
                lemma_cand_index(iw, rotation as int, xi as int);
            }
            let x = (xi as i32) - 2;
            if piece_fits_field(field, piece, rotation, x, 0) {
                let drop_y = crate::field::drop_row(field, piece, rotation, x, 0);
                proof {
                    lemma_drop_fits(rows, iw, piece as int, rotation as int, x as int, 0);
                }
                let (locked, lines) = simulate_lock(field, piece, rotation, x, drop_y);
                let s = score_field(&locked, lines, w);
                let next_best = best_placement_score(&locked, np, w);
                let total = 2 * s + next_best;
                proof {
                    assert(total == cand_full_score(rows, iw, piece as int, np as int, *w, i));
                }
                if !found || total > best {
                    best = total;
                    best_rotation = rotation;
                    best_x = x;
                    found = true;
                }
            }
            xi = xi + 1;
        }
        rotation = rotation + 1;
        proof {
            assert(rotation * (iw + 4) == (rotation - 1) * (iw + 4) + (iw + 4)) by (
            nonlinear_arith);
        }
    }
    proof {
        assert(4 * (iw + 4) == cand_total(iw));
        lemma_best_cand_maximal(rows, iw, piece as int, np as int, *w, cand_total(iw));
        if found {
            let j = choose|j: int|
                {
                    &&& 0 <= j < cand_total(iw)
                    &&& #[trigger] cand_legal(rows, iw, piece as int, j)
                    &&& cand_full_score(rows, iw, piece as int, np as int, *w, j) == best as int
                    &&& cand_rot(iw, j) == best_rotation as int
                    &&& cand_x(iw, j) == best_x as int
                    &&& forall|k: int|
                        0 <= k < j && #[trigger] cand_legal(rows, iw, piece as int, k)
                            ==> cand_full_score(rows, iw, piece as int, np as int, *w, k) < best
                };
            assert(fits_rows(rows, iw, piece as int, best_rotation as int, best_x as int, 0));
        }
    }
    (best_rotation, best_x)
}

/// Descent preserves legality: the resting row of a piece that fits at `y`
/// is again a fitting placement.
pub proof fn lemma_drop_fits(rows: Seq<Seq<u8>>, iw: int, p: int, r: int, x: int, y: int)
    requires
        fits_rows(rows, iw, p, r, x, y),
        0 <= y,
    ensures
        fits_rows(rows, iw, p, r, x, drop_from(rows, iw, p, r, x, y)),
        y <= drop_from(rows, iw, p, r, x, y),
    decreases rows.len() - y,
{
    if y < rows.len() && fits_rows(rows, iw, p, r, x, y + 1) {
        lemma_drop_fits(rows, iw, p, r, x, y + 1);
    }
}

} // verus!
