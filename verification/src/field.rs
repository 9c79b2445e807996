//! The playing field: a bordered grid of cells.
//!
//! The grid is `height x width` cells stored row-major. The leftmost column,
//! rightmost column and bottom row are a permanent border holding the
//! sentinel `9`; interior cells hold `0` (empty), `1..=7` (a locked piece id)
//! or the transient `8` (a row marked for clearing). The border exists so
//! collision tests can treat "outside" and "occupied" uniformly.
//!
//! Specifications about gameplay speak of the *interior rows*: the sequence
//! of rows above the bottom border, each restricted to its interior columns
//! (see [`Field::irows`]).

use vstd::prelude::*;

verus! {

/// Error returned when a field is constructed with unusable dimensions.
#[derive(Clone, Copy, PartialEq, Eq, Structural, Debug)]
pub enum ConfigError {
    /// The grid cannot hold a 4x4 piece plus its border.
    TooSmall,
    /// The grid exceeds the supported size.
    TooLarge,
}

/// Dimensions a field can be built with: the interior must hold a 4x4 piece
/// mask (width of 4 plus two border columns, height of 4 plus the bottom
/// border row) and both sides are capped at 64 cells.
pub open spec fn dims_ok(width: int, height: int) -> bool {
    6 <= width <= 64 && 5 <= height <= 64
}

/// A bordered grid of cells, stored row-major.
pub struct Field {
    pub cells: Vec<u8>,
    pub width: usize,
    pub height: usize,
}

impl Field {
    /// Value of the cell at column `x`, row `y`.
    pub open spec fn cell(self, x: int, y: int) -> u8 {
        self.cells[y * self.width + x]
    }

    pub open spec fn in_bounds(self, x: int, y: int) -> bool {
        0 <= x < self.width && 0 <= y < self.height
    }

    /// Whether `(x, y)` lies on the permanent border.
    pub open spec fn is_border(self, x: int, y: int) -> bool {
        x == 0 || x == self.width - 1 || y == self.height - 1
    }

    /// Number of interior (playable) columns.
    pub open spec fn iw(self) -> int {
        self.width - 2
    }

    /// Number of interior (playable) rows.
    pub open spec fn ih(self) -> int {
        self.height - 1
    }

    /// Well-formedness: dimensions are usable, the cell store has the right
    /// size, every border cell holds the sentinel and every interior cell a
    /// value in `0..=8`.
    pub open spec fn wf(self) -> bool {
        &&& dims_ok(self.width as int, self.height as int)
        &&& self.cells.len() == self.width * self.height
        &&& forall|x: int, y: int|
            self.in_bounds(x, y) ==> if self.is_border(x, y) {
                #[trigger] self.cell(x, y) == 9
            } else {
                self.cell(x, y) <= 8
            }
    }

    /// Interior row `y` as a sequence of its interior cells.
    pub open spec fn irow(self, y: int) -> Seq<u8> {
        Seq::new(self.iw() as nat, |i: int| self.cell(i + 1, y))
    }

    /// All interior rows, top to bottom.
    pub open spec fn irows(self) -> Seq<Seq<u8>> {
        Seq::new(self.ih() as nat, |y: int| self.irow(y))
    }

    /// Read a cell.
    pub fn get(&self, x: usize, y: usize) -> (v: u8)
        requires
            self.wf(),
            x < self.width,
            y < self.height,
        ensures
            v == self.cell(x as int, y as int),
    {
        proof {
            lemma_row_major(self.width as int, self.height as int, x as int, y as int);
        }
        self.cells[y * self.width + x]
    }

    /// Write a cell anywhere in bounds; used internally by operations that
    /// maintain well-formedness themselves.
    fn set_raw(&mut self, x: usize, y: usize, v: u8)
        requires
            old(self).cells.len() == old(self).width * old(self).height,
            0 < old(self).width <= 64,
            0 < old(self).height <= 64,
            x < old(self).width,
            y < old(self).height,
        ensures
            final(self).width == old(self).width,
            final(self).height == old(self).height,
            final(self).cells.len() == old(self).cells.len(),
            final(self).cell(x as int, y as int) == v,
            forall|a: int, b: int|
                old(self).in_bounds(a, b) && (a != x || b != y) ==> final(self).cell(a, b)
                    == #[trigger] old(self).cell(a, b),
    {
        proof {
            lemma_row_major(self.width as int, self.height as int, x as int, y as int);
        }
        let i = y * self.width + x;
        self.cells.set(i, v);
        proof {
            assert forall|a: int, b: int|
                old(self).in_bounds(a, b) && (a != x || b != y) implies self.cell(a, b) == old(
                self,
            ).cell(a, b) by {
                lemma_row_major(self.width as int, self.height as int, a, b);
                lemma_row_major_inj(self.width as int, a, b, x as int, y as int);
            }
        }
    }

    /// Write an interior cell with a gameplay value, preserving
    /// well-formedness.
    pub fn set_cell(&mut self, x: usize, y: usize, v: u8)
        requires
            old(self).wf(),
            1 <= x,
            x + 1 < old(self).width,
            y + 1 < old(self).height,
            v <= 8,
        ensures
            final(self).wf(),
            final(self).width == old(self).width,
            final(self).height == old(self).height,
            final(self).cell(x as int, y as int) == v,
            forall|a: int, b: int|
                old(self).in_bounds(a, b) && (a != x || b != y) ==> final(self).cell(a, b)
                    == #[trigger] old(self).cell(a, b),
    {
        self.set_raw(x, y, v);
        proof {
            assert forall|a: int, b: int| self.in_bounds(a, b) implies (if self.is_border(a, b) {
                #[trigger] self.cell(a, b) == 9
            } else {
                self.cell(a, b) <= 8
            }) by {
                if a != x as int || b != y as int {
                    assert(self.cell(a, b) == old(self).cell(a, b));
                }
            }
        }
    }

    /// An identical copy of the field (the move search works on copies, never
    /// on the live grid).
    pub fn duplicate(&self) -> (r: Field)
        ensures
            r.width == self.width,
            r.height == self.height,
            r.cells@ == self.cells@,
    {
        let mut cells: Vec<u8> = Vec::new();
        let mut i: usize = 0;
        while i < self.cells.len()
            invariant
                i <= self.cells.len(),
                cells@ == self.cells@.subrange(0, i as int),
            decreases self.cells.len() - i,
        {
            cells.push(self.cells[i]);
            proof {
                assert(cells@ =~= self.cells@.subrange(0, i + 1));
            }
            i = i + 1;
        }
        proof {
            assert(cells@ =~= self.cells@);
        }
        Field { cells, width: self.width, height: self.height }
    }

    /// Build an empty bordered field, or report why the dimensions are
    /// unusable.
    pub fn new(width: usize, height: usize) -> (r: Result<Field, ConfigError>)
        ensures
            r is Ok <==> dims_ok(width as int, height as int),
            (width < 6 || height < 5) ==> r == Result::<Field, ConfigError>::Err(
                ConfigError::TooSmall,
            ),
            !(width < 6 || height < 5) && (width > 64 || height > 64) ==> r == Result::<
                Field,
                ConfigError,
            >::Err(ConfigError::TooLarge),
            r matches Ok(f) ==> f.wf() && f.width == width && f.height == height && forall|
                x: int,
                y: int,
            |
                f.in_bounds(x, y) && !f.is_border(x, y) ==> #[trigger] f.cell(x, y) == 0,
    {
        if width < 6 || height < 5 {
            return Err(ConfigError::TooSmall);
        }
        if width > 64 || height > 64 {
            return Err(ConfigError::TooLarge);
        }
        let mut cells: Vec<u8> = Vec::new();
        let mut y: usize = 0;
        while y < height
            invariant
                6 <= width <= 64,
                5 <= height <= 64,
                y <= height,
                cells.len() == y * width,
                forall|a: int, b: int|
                    0 <= a < width && 0 <= b < y ==> #[trigger] cells[b * width + a] == (if a == 0
                        || a == width - 1 || b == height - 1 {
                        9u8
                    } else {
                        0u8
                    }),
            decreases height - y,
        {
            let mut x: usize = 0;
            while x < width
                invariant
                    6 <= width <= 64,
                    5 <= height <= 64,
                    y < height,
                    x <= width,
                    cells.len() == y * width + x,
                    forall|a: int, b: int|
                        0 <= a < width && 0 <= b < y ==> #[trigger] cells[b * width + a] == (if a
                            == 0 || a == width - 1 || b == height - 1 {
                            9u8
                        } else {
                            0u8
                        }),
                    forall|a: int|
                        0 <= a < x ==> #[trigger] cells[y * width + a] == (if a == 0 || a == width
                            - 1 || y == height - 1 {
                            9u8
                        } else {
                            0u8
                        }),
                decreases width - x,
            {
                let v: u8 = if x == 0 || x == width - 1 || y == height - 1 {
                    9
                } else {
                    0
                };
                cells.push(v);
                proof {
                    assert forall|a: int, b: int| 0 <= a < width && 0 <= b < y implies #[trigger] cells[
                        b * width + a
                    ] == (if a == 0 || a == width - 1 || b == height - 1 {
                        9u8
                    } else {
                        0u8
                    }) by {
                        lemma_row_major_lex(width as int, a, b, x as int, y as int);
                    }
                }
                x = x + 1;
            }
            proof {
                assert((y + 1) * width == y * width + width) by (nonlinear_arith);
                assert forall|a: int, b: int| 0 <= a < width && 0 <= b < y + 1 implies #[trigger] cells[
                    b * width + a
                ] == (if a == 0 || a == width - 1 || b == height - 1 {
                    9u8
                } else {
                    0u8
                }) by {
                    if b == y as int {
                        assert(cells[y as int * width + a] == (if a == 0 || a == width - 1 || y
                            == height - 1 {
                            9u8
                        } else {
                            0u8
                        }));
                    }
                }
            }
            y = y + 1;
        }
        let f = Field { cells, width, height };
        proof {
            assert(height * width == width * height) by (nonlinear_arith);
            assert(f.cells.len() == f.width * f.height);
            assert forall|x: int, y2: int| f.in_bounds(x, y2) implies (if f.is_border(x, y2) {
                #[trigger] f.cell(x, y2) == 9
            } else {
                f.cell(x, y2) <= 8
            }) by {
                lemma_row_major(f.width as int, f.height as int, x, y2);
            }
            assert(f.wf());
        }
        Ok(f)
    }
}

/// Whether the filled cell `(px, py)` of the piece frame, placed at
/// `(x, y)`, may stand where it is: inside the interior columns `1..=iw`,
/// above the bottom border, and on an empty cell.
pub open spec fn fit_ok(rows: Seq<Seq<u8>>, iw: int, x: int, y: int, px: int, py: int) -> bool {
    &&& 1 <= x + px <= iw
    &&& 0 <= y + py < rows.len()
    &&& rows[y + py][x + px - 1] == 0
}

/// Collision test: piece `p` under rotation `r` placed with its frame origin
/// at `(x, y)` touches only empty interior cells. The border and anything
/// outside the grid count as occupied.
pub open spec fn fits_rows(rows: Seq<Seq<u8>>, iw: int, p: int, r: int, x: int, y: int) -> bool {
    forall|px: int, py: int|
        0 <= px < 4 && 0 <= py < 4 && #[trigger] crate::pieces::piece_at(p, px, py, r) ==> fit_ok(
            rows,
            iw,
            x,
            y,
            px,
            py,
        )
}

/// Every filled cell of the placed piece lies in the interior (it may overlap
/// occupied cells). Locking requires no more than this.
pub open spec fn piece_inside(iw: int, ih: int, p: int, r: int, x: int, y: int) -> bool {
    forall|px: int, py: int|
        0 <= px < 4 && 0 <= py < 4 && #[trigger] crate::pieces::piece_at(p, px, py, r) ==> 1 <= x
            + px <= iw && 0 <= y + py < ih
}

/// A fitting placement keeps every filled cell in the interior.
pub proof fn lemma_fits_inside(rows: Seq<Seq<u8>>, iw: int, p: int, r: int, x: int, y: int)
    requires
        fits_rows(rows, iw, p, r, x, y),
    ensures
        piece_inside(iw, rows.len() as int, p, r, x, y),
{
}

/// A fitting placement of a real piece pins the frame origin near the
/// interior: some cell is filled, so the origin cannot stray.
pub proof fn lemma_fits_origin(rows: Seq<Seq<u8>>, iw: int, p: int, r: int, x: int, y: int)
    requires
        fits_rows(rows, iw, p, r, x, y),
        0 <= p < 7,
    ensures
        -2 <= x <= iw,
        -3 <= y < rows.len(),
{
    crate::pieces::lemma_piece_nonempty(p, r);
    let (px, py) = choose|px: int, py: int|
        0 <= px < 4 && 0 <= py < 4 && #[trigger] crate::pieces::piece_at(p, px, py, r);
    assert(fit_ok(rows, iw, x, y, px, py));
}

/// Whether the placed piece covers the absolute grid cell `(cx, cy)`.
pub open spec fn covers(p: int, r: int, x: int, y: int, cx: int, cy: int) -> bool {
    0 <= cx - x < 4 && 0 <= cy - y < 4 && crate::pieces::piece_at(p, cx - x, cy - y, r)
}

/// The interior rows after writing the placed piece's cells with the value
/// `p + 1`.
pub open spec fn stamped_rows(rows: Seq<Seq<u8>>, p: int, r: int, x: int, y: int) -> Seq<Seq<u8>> {
    Seq::new(
        rows.len(),
        |cy: int|
            Seq::new(
                rows[cy].len(),
                |ix: int|
                    if covers(p, r, x, y, ix + 1, cy) {
                        (p + 1) as u8
                    } else {
                        rows[cy][ix]
                    },
            ),
    )
}

/// The row the piece comes to rest in when it descends from row `y`:
/// descent stops at the first row whose successor placement collides (or at
/// the bottom of the grid, which a non-empty piece mask never reaches).
pub open spec fn drop_from(rows: Seq<Seq<u8>>, iw: int, p: int, r: int, x: int, y: int) -> int
    decreases rows.len() - y,
{
    if y >= rows.len() || !fits_rows(rows, iw, p, r, x, y + 1) {
        y
    } else {
        drop_from(rows, iw, p, r, x, y + 1)
    }
}

/// Collision test, executable form: does the piece fit at `(pos_x, pos_y)`?
pub fn piece_fits_field(f: &Field, piece: usize, rotation: usize, pos_x: i32, pos_y: i32) -> (res:
    bool)
    requires
        f.wf(),
        piece < 7,
        pos_x <= i32::MAX - 3,
        pos_y <= i32::MAX - 3,
    ensures
        res == fits_rows(f.irows(), f.iw(), piece as int, rotation as int, pos_x as int,
        pos_y as int),
{
    let ghost rows = f.irows();
    let ghost iw = f.iw();
    let mut k: usize = 0;
    while k < 16
        invariant
            f.wf(),
            piece < 7,
            pos_x <= i32::MAX - 3,
            pos_y <= i32::MAX - 3,
            k <= 16,
            rows == f.irows(),
            iw == f.iw(),
            forall|px: int, py: int|
                0 <= px < 4 && 0 <= py < 4 && px * 4 + py < k && #[trigger] crate::pieces::piece_at(
                    piece as int,
                    px,
                    py,
                    rotation as int,
                ) ==> fit_ok(rows, iw, pos_x as int, pos_y as int, px, py),
        decreases 16 - k,
    {
        let px = k / 4;
        let py = k % 4;
        let pi = crate::pieces::rot_index(px, py, rotation);
        if crate::pieces::piece_cell(piece, pi) {
            let fx = pos_x + px as i32;
            let fy = pos_y + py as i32;
            let bad = fx < 1 || fx > (f.width - 2) as i32 || fy < 0 || fy >= (f.height - 1) as i32
                || f.get(fx as usize, fy as usize) != 0;
            if bad {
                proof {
                    assert(crate::pieces::piece_at(piece as int, px as int, py as int,
                    rotation as int));
                    assert(!fit_ok(rows, iw, pos_x as int, pos_y as int, px as int, py as int));
                }
                return false;
            }
        }
        k = k + 1;
    }
    true
}

/// Write the placed piece into the grid with value `piece + 1`.
pub fn stamp_piece(f: &mut Field, piece: usize, rotation: usize, x: i32, y: i32)
    requires
        old(f).wf(),
        piece < 7,
        piece_inside(old(f).iw(), old(f).ih(), piece as int, rotation as int, x as int, y as int),
    ensures
        final(f).wf(),
        final(f).width == old(f).width,
        final(f).height == old(f).height,
        final(f).irows() =~~= stamped_rows(old(f).irows(), piece as int, rotation as int, x as int,
        y as int),
{
    let ghost orig = *f;
    let mut k: usize = 0;
    while k < 16
        invariant
            f.wf(),
            piece < 7,
            f.width == orig.width,
            f.height == orig.height,
            orig.wf(),
            piece_inside(orig.iw(), orig.ih(), piece as int, rotation as int, x as int, y as int),
            k <= 16,
            forall|a: int, b: int|
                orig.in_bounds(a, b) ==> #[trigger] f.cell(a, b) == (if covers(piece as int,
                rotation as int, x as int, y as int, a, b) && (a - x) * 4 + (b - y) < k {
                    (piece + 1) as u8
                } else {
                    orig.cell(a, b)
                }),
        decreases 16 - k,
    {
        let ghost pre = *f;
        let px = k / 4;
        let py = k % 4;
        let pi = crate::pieces::rot_index(px, py, rotation);
        let filled = crate::pieces::piece_cell(piece, pi);
        if filled {
            proof {
                assert(crate::pieces::piece_at(piece as int, px as int, py as int,
                rotation as int));
            }
            let fx = x + px as i32;
            let fy = y + py as i32;
            f.set_cell(fx as usize, fy as usize, (piece + 1) as u8);
        }
        proof {
            assert forall|a: int, b: int| orig.in_bounds(a, b) implies f.cell(a, b) == (if covers(
                piece as int,
                rotation as int,
                x as int,
                y as int,
                a,
                b,
            ) && (a - x) * 4 + (b - y) < k + 1 {
                (piece + 1) as u8
            } else {
                orig.cell(a, b)
            }) by {
                let dx = a - x;
                let dy = b - y;
                if 0 <= dx < 4 && 0 <= dy < 4 && dx * 4 + dy == k {
                    assert(dx == k as int / 4 && dy == k as int % 4);
                    if filled {
                        assert(f.cell(a, b) == (piece + 1) as u8);
                    } else {
                        assert(!crate::pieces::piece_at(piece as int, dx, dy, rotation as int));
                        assert(f.cell(a, b) == pre.cell(a, b));
                    }
                } else {
                    if filled {
                        assert(a != x + px || b != y + py);
                        assert(f.cell(a, b) == pre.cell(a, b));
                    } else {
                        assert(f.cell(a, b) == pre.cell(a, b));
                    }
                }
            }
        }
        k = k + 1;
    }
    proof {
        assert forall|cy: int| 0 <= cy < orig.ih() implies f.irow(cy) =~= stamped_rows(
            orig.irows(),
            piece as int,
            rotation as int,
            x as int,
            y as int,
        )[cy] by {}
    }
}

/// Let the piece descend from row `y0` until the placement one row lower
/// collides; returns the resting row.
pub fn drop_row(f: &Field, piece: usize, rotation: usize, x: i32, y0: i32) -> (res: i32)
    requires
        f.wf(),
        piece < 7,
        -64 <= x <= 64,
        0 <= y0 <= 64,
    ensures
        res == drop_from(f.irows(), f.iw(), piece as int, rotation as int, x as int, y0 as int),
        y0 <= res <= 64,
        res <= y0 || res <= f.ih(),
{
    let ghost rows = f.irows();
    let ghost iw = f.iw();
    let mut y = y0;
    while y < (f.height - 1) as i32 && piece_fits_field(f, piece, rotation, x, y + 1)
        invariant
            f.wf(),
            piece < 7,
            -64 <= x <= 64,
            rows == f.irows(),
            iw == f.iw(),
            y0 <= y <= 64,
            y <= y0 || y <= f.ih(),
            drop_from(rows, iw, piece as int, rotation as int, x as int, y0 as int) == drop_from(
                rows,
                iw,
                piece as int,
                rotation as int,
                x as int,
                y as int,
            ),
        decreases f.height - y,
    {
        y = y + 1;
    }
    y
}

/// A row with no empty interior cell is complete and due to be cleared.
pub open spec fn row_complete(row: Seq<u8>) -> bool {
    forall|i: int| 0 <= i < row.len() ==> #[trigger] row[i] != 0
}

/// An interior row of `iw` empty cells.
pub open spec fn empty_row(iw: int) -> Seq<u8> {
    Seq::new(iw as nat, |i: int| 0u8)
}

/// `k` empty interior rows.
pub open spec fn empties(k: int, iw: int) -> Seq<Seq<u8>> {
    Seq::new(k as nat, |i: int| empty_row(iw))
}

/// The incomplete rows, in order.
pub open spec fn filter_incomplete(rows: Seq<Seq<u8>>) -> Seq<Seq<u8>>
    decreases rows.len(),
{
    if rows.len() == 0 {
        Seq::empty()
    } else if row_complete(rows[0]) {
        filter_incomplete(rows.drop_first())
    } else {
        seq![rows[0]] + filter_incomplete(rows.drop_first())
    }
}

/// How many rows compaction removes.
pub open spec fn cleared_count(rows: Seq<Seq<u8>>) -> int {
    rows.len() - filter_incomplete(rows).len()
}

/// The interior rows after compaction: the complete rows vanish, everything
/// above shifts down, and empty rows enter at the top.
pub open spec fn clear_spec(rows: Seq<Seq<u8>>, iw: int) -> Seq<Seq<u8>> {
    empties(cleared_count(rows), iw) + filter_incomplete(rows)
}

/// The incomplete rows are never more numerous than all rows.
pub proof fn lemma_filter_len(rows: Seq<Seq<u8>>)
    ensures
        0 <= filter_incomplete(rows).len() <= rows.len(),
    decreases rows.len(),
{
    if rows.len() > 0 {
        lemma_filter_len(rows.drop_first());
    }
}

/// What the filter keeps is incomplete.
pub proof fn lemma_filter_elems(rows: Seq<Seq<u8>>)
    ensures
        forall|i: int|
            0 <= i < filter_incomplete(rows).len() ==> !row_complete(
                #[trigger] filter_incomplete(rows)[i],
            ),
    decreases rows.len(),
{
    if rows.len() > 0 {
        lemma_filter_elems(rows.drop_first());
        if !row_complete(rows[0]) {
            assert forall|i: int| 0 <= i < filter_incomplete(rows).len() implies !row_complete(
                #[trigger] filter_incomplete(rows)[i],
            ) by {
                if i > 0 {
                    assert(filter_incomplete(rows)[i] == filter_incomplete(rows.drop_first())[i
                        - 1]);
                }
            }
        }
    }
}

/// An empty row of positive width is incomplete.
pub proof fn lemma_empty_incomplete(iw: int)
    requires
        iw > 0,
    ensures
        !row_complete(empty_row(iw)),
{
    assert(empty_row(iw)[0] == 0);
}

/// An interior row whose every cell carries the pending-clear mark.
pub open spec fn marked_row(iw: int) -> Seq<u8> {
    Seq::new(iw as nat, |i: int| 8u8)
}

impl Field {
    /// Whether interior row `y` is complete.
    pub(crate) fn row_full(&self, y: usize) -> (res: bool)
        requires
            self.wf(),
            y + 1 < self.height,
        ensures
            res == row_complete(self.irow(y as int)),
    {
        let mut x: usize = 1;
        while x < self.width - 1
            invariant
                self.wf(),
                y + 1 < self.height,
                1 <= x <= self.width - 1,
                forall|i: int| 0 <= i < x - 1 ==> #[trigger] self.irow(y as int)[i] != 0,
            decreases self.width - x,
        {
            if self.get(x, y) == 0 {
                proof {
                    assert(self.irow(y as int)[x - 1] == 0);
                }
                return false;
            }
            x = x + 1;
        }
        true
    }
}

/// Write the pending-clear mark into every cell of interior row `y`.
pub(crate) fn mark_row(f: &mut Field, y: usize)
    requires
        old(f).wf(),
        y < old(f).ih(),
    ensures
        final(f).wf(),
        final(f).width == old(f).width,
        final(f).height == old(f).height,
        final(f).irow(y as int) == marked_row(old(f).iw()),
        forall|cy: int| 0 <= cy < old(f).ih() && cy != y ==> final(f).irow(cy) == old(f).irow(cy),
{
    let ghost orig = *f;
    let mut x: usize = 1;
    while x < f.width - 1
        invariant
            f.wf(),
            f.width == orig.width,
            f.height == orig.height,
            orig.wf(),
            y < orig.ih(),
            1 <= x <= f.width - 1,
            forall|a: int, b: int|
                orig.in_bounds(a, b) ==> #[trigger] f.cell(a, b) == (if !orig.is_border(a, b) && b
                    == y && 1 <= a < x {
                    8u8
                } else {
                    orig.cell(a, b)
                }),
        decreases f.width - x,
    {
        let ghost pre = *f;
        f.set_cell(x, y, 8);
        proof {
            assert forall|a: int, b: int| orig.in_bounds(a, b) implies #[trigger] f.cell(a, b) == (
            if !orig.is_border(a, b) && b == y && 1 <= a < x + 1 {
                8u8
            } else {
                orig.cell(a, b)
            }) by {
                if a != x || b != y {
                    assert(f.cell(a, b) == pre.cell(a, b));
                }
            }
        }
        x = x + 1;
    }
    proof {
        assert(f.irow(y as int) =~= marked_row(orig.iw()));
        assert forall|cy: int| 0 <= cy < orig.ih() && cy != y implies f.irow(cy) == orig.irow(
            cy,
        ) by {
            assert(f.irow(cy) =~= orig.irow(cy));
        }
    }
}

/// Remove interior row `rend - 1` by shifting every row above it down one
/// step and emptying the top row.
fn shift_down(f: &mut Field, rend: usize)
    requires
        old(f).wf(),
        1 <= rend,
        rend <= old(f).ih(),
    ensures
        final(f).wf(),
        final(f).width == old(f).width,
        final(f).height == old(f).height,
        final(f).irow(0) == empty_row(old(f).iw()),
        forall|yy: int| 1 <= yy < rend ==> final(f).irow(yy) == old(f).irow(yy - 1),
        forall|yy: int| rend <= yy < old(f).ih() ==> final(f).irow(yy) == old(f).irow(yy),
{
    let ghost orig = *f;
    let mut r: usize = rend - 1;
    while r >= 1
        invariant
            f.wf(),
            f.width == orig.width,
            f.height == orig.height,
            orig.wf(),
            1 <= rend <= orig.ih(),
            r < rend,
            forall|a: int, b: int|
                orig.in_bounds(a, b) ==> #[trigger] f.cell(a, b) == (if !orig.is_border(a, b) && r
                    < b < rend {
                    orig.cell(a, b - 1)
                } else {
                    orig.cell(a, b)
                }),
        decreases r,
    {
        let mut x: usize = 1;
        while x < f.width - 1
            invariant
                f.wf(),
                f.width == orig.width,
                f.height == orig.height,
                orig.wf(),
                1 <= rend <= orig.ih(),
                1 <= r < rend,
                1 <= x <= f.width - 1,
                forall|a: int, b: int|
                    orig.in_bounds(a, b) ==> #[trigger] f.cell(a, b) == (if !orig.is_border(a, b)
                        && r < b < rend {
                        orig.cell(a, b - 1)
                    } else if !orig.is_border(a, b) && b == r && 1 <= a < x {
                        orig.cell(a, b - 1)
                    } else {
                        orig.cell(a, b)
                    }),
            decreases f.width - x,
        {
            let ghost prex = *f;
            let v = f.get(x, r - 1);
            f.set_cell(x, r, v);
            proof {
                assert forall|a: int, b: int| orig.in_bounds(a, b) implies #[trigger] f.cell(a, b)
                    == (if !orig.is_border(a, b) && r < b < rend {
                    orig.cell(a, b - 1)
                } else if !orig.is_border(a, b) && b == r && 1 <= a < x + 1 {
                    orig.cell(a, b - 1)
                } else {
                    orig.cell(a, b)
                }) by {
                    if a != x || b != r {
                        assert(f.cell(a, b) == prex.cell(a, b));
                    }
                }
            }
            x = x + 1;
        }
        r = r - 1;
        proof {
            assert forall|a: int, b: int| orig.in_bounds(a, b) implies #[trigger] f.cell(a, b) == (
            if !orig.is_border(a, b) && r < b < rend {
                orig.cell(a, b - 1)
            } else {
                orig.cell(a, b)
            }) by {
                assert(f.cell(a, b) == (if !orig.is_border(a, b) && r + 1 < b < rend {
                    orig.cell(a, b - 1)
                } else if !orig.is_border(a, b) && b == r + 1 && 1 <= a < orig.width - 1 {
                    orig.cell(a, b - 1)
                } else {
                    orig.cell(a, b)
                }));
                if !orig.is_border(a, b) && r < b < rend {
                    if b == r + 1 {
                        assert(1 <= a < orig.width - 1);
                        assert(f.cell(a, b) == orig.cell(a, b - 1));
                    } else {
                        assert(f.cell(a, b) == orig.cell(a, b - 1));
                    }
                } else {
                    assert(f.cell(a, b) == orig.cell(a, b));
                }
            }
        }
    }
    let mut x: usize = 1;
    while x < f.width - 1
        invariant
            f.wf(),
            f.width == orig.width,
            f.height == orig.height,
            orig.wf(),
            1 <= rend <= orig.ih(),
            1 <= x <= f.width - 1,
            forall|a: int, b: int|
                orig.in_bounds(a, b) ==> #[trigger] f.cell(a, b) == (if !orig.is_border(a, b) && 0
                    < b < rend {
                    orig.cell(a, b - 1)
                } else if !orig.is_border(a, b) && b == 0 && 1 <= a < x {
                    0u8
                } else {
                    orig.cell(a, b)
                }),
        decreases f.width - x,
    {
        let ghost pre = *f;
        f.set_cell(x, 0, 0);
        proof {
            assert forall|a: int, b: int| orig.in_bounds(a, b) implies #[trigger] f.cell(a, b) == (
            if !orig.is_border(a, b) && 0 < b < rend {
                orig.cell(a, b - 1)
            } else if !orig.is_border(a, b) && b == 0 && 1 <= a < x + 1 {
                0u8
            } else {
                orig.cell(a, b)
            }) by {
                if a != x || b != 0 {
                    assert(f.cell(a, b) == pre.cell(a, b));
                }
            }
        }
        x = x + 1;
    }
    proof {
        assert(f.irow(0) =~= empty_row(orig.iw()));
        assert forall|yy: int| 1 <= yy < rend implies f.irow(yy) == orig.irow(yy - 1) by {
            assert(f.irow(yy) =~= orig.irow(yy - 1));
        }
        assert forall|yy: int| rend <= yy < orig.ih() implies f.irow(yy) == orig.irow(yy) by {
            assert(f.irow(yy) =~= orig.irow(yy));
        }
    }
}

/// Compact the grid: remove every complete interior row, shift what is above
/// down, and return how many rows were removed. The result is pinned to
/// [`clear_spec`].
pub fn clear_lines_sim(f: &mut Field) -> (lines: u32)
    requires
        old(f).wf(),
    ensures
        final(f).wf(),
        final(f).width == old(f).width,
        final(f).height == old(f).height,
        final(f).irows() == clear_spec(old(f).irows(), old(f).iw()),
        lines == cleared_count(old(f).irows()),
        lines <= old(f).ih(),
{
    let ghost orows = f.irows();
    let ghost iw = f.iw();
    let mut lines: u32 = 0;
    let mut rend: usize = f.height - 1;
    let ghost mut n: int = f.ih();
    proof {
        assert(f.irows().subrange(0, rend as int) =~~= empties(0, iw) + orows.subrange(0, n));
        assert(f.irows().subrange(rend as int, f.ih()) =~~= empties(0, iw) + filter_incomplete(
            orows.subrange(n, orows.len() as int),
        ));
    }
    while rend > 0
        invariant
            f.wf(),
            f.width == old(f).width,
            f.height == old(f).height,
            orows == old(f).irows(),
            iw == f.iw(),
            0 <= n <= rend,
            rend <= f.ih(),
            lines + n <= f.ih(),
            lines >= rend - n,
            n > 0 ==> lines == rend - n,
            f.irows().subrange(0, rend as int) == empties(rend - n, iw) + orows.subrange(0, n),
            f.irows().subrange(rend as int, f.ih()) == empties(lines - (rend - n), iw)
                + filter_incomplete(orows.subrange(n, orows.len() as int)),
        decreases rend + (f.ih() - lines),
    {
        let ghost pre = *f;
        let complete = f.row_full(rend - 1);
        proof {
            assert(f.irow(rend - 1) == f.irows().subrange(0, rend as int)[rend - 1]);
            if n == 0 {
                assert(f.irow(rend - 1) == empty_row(iw));
                lemma_empty_incomplete(iw);
            } else {
                assert(f.irow(rend - 1) == orows[n - 1]);
            }
        }
        if complete {
            proof {
                assert(n > 0);
                assert(row_complete(orows[n - 1]));
            }
            shift_down(f, rend);
            lines = lines + 1;
            proof {
                n = n - 1;
                assert forall|yy: int| 0 <= yy < rend implies #[trigger] f.irows().subrange(
                    0,
                    rend as int,
                )[yy] == (empties(rend - n, iw) + orows.subrange(0, n))[yy] by {
                    if yy >= 1 {
                        assert(f.irow(yy) == pre.irow(yy - 1));
                        assert(pre.irow(yy - 1) == pre.irows().subrange(0, rend as int)[yy - 1]);
                    }
                }
                assert(f.irows().subrange(0, rend as int) =~~= empties(rend - n, iw)
                    + orows.subrange(0, n));
                assert forall|yy: int| rend <= yy < f.ih() implies #[trigger] f.irows()[yy]
                    == pre.irows()[yy] by {
                    assert(f.irow(yy) == pre.irow(yy));
                }
                assert(f.irows().subrange(rend as int, f.ih()) =~~= pre.irows().subrange(
                    rend as int,
                    f.ih(),
                ));
                assert(orows.subrange(n, orows.len() as int).drop_first() =~~= orows.subrange(
                    n + 1,
                    orows.len() as int,
                ));
                assert(filter_incomplete(orows.subrange(n, orows.len() as int))
                    == filter_incomplete(orows.subrange(n + 1, orows.len() as int)));
            }
        } else {
            proof {
                let e = lines - (rend - n);
                if n > 0 {
                    assert(!row_complete(orows[n - 1]));
                    assert(e == 0);
                    let tail = orows.subrange(n - 1, orows.len() as int);
                    assert(tail[0] == orows[n - 1]);
                    assert(tail.drop_first() =~~= orows.subrange(n, orows.len() as int));
                    assert(filter_incomplete(tail) == seq![orows[n - 1]] + filter_incomplete(
                        orows.subrange(n, orows.len() as int),
                    ));
                    assert(f.irows().subrange(rend - 1, f.ih()) =~~= empties(0, iw)
                        + filter_incomplete(tail)) by {
                        assert(f.irows().subrange(rend - 1, f.ih())[0] == f.irow(rend - 1));
                    }
                    n = n - 1;
                } else {
                    assert(f.irow(rend - 1) == empty_row(iw));
                    let flt = filter_incomplete(orows.subrange(n, orows.len() as int));
                    assert forall|yy: int| 0 <= yy < f.ih() - (rend - 1) implies #[trigger] f.irows().subrange(
                        rend - 1,
                        f.ih(),
                    )[yy] == (empties(e + 1, iw) + flt)[yy] by {
                        if yy == 0 {
                            assert(f.irows().subrange(rend - 1, f.ih())[0] == f.irow(rend - 1));
                        } else {
                            assert(f.irows().subrange(rend - 1, f.ih())[yy] == f.irows().subrange(
                                rend as int,
                                f.ih(),
                            )[yy - 1]);
                            assert(f.irows().subrange(rend as int, f.ih())[yy - 1] == (empties(
                                e,
                                iw,
                            ) + flt)[yy - 1]);
                            if yy <= e {
                                assert((empties(e, iw) + flt)[yy - 1] == empties(e, iw)[yy - 1]);
                                assert(empties(e, iw)[yy - 1] == empty_row(iw));
                                assert((empties(e + 1, iw) + flt)[yy] == empties(e + 1, iw)[yy]);
                                assert(empties(e + 1, iw)[yy] == empty_row(iw));
                            } else {
                                assert(e >= 0);
                                assert(empties(e, iw).len() == e);
                                assert(empties(e + 1, iw).len() == e + 1);
                                assert(e == lines - (rend - n));
                                assert(f.irows().subrange(rend as int, f.ih()) == empties(
                                    lines - (rend - n),
                                    iw,
                                ) + filter_incomplete(orows.subrange(n, orows.len() as int)));
                                assert(f.irows().subrange(rend as int, f.ih()).len() == f.ih()
                                    - rend);
                                assert(flt.len() == f.ih() - rend - e);
                                assert(yy - 1 - e < flt.len());
                                assert((empties(e, iw) + flt)[yy - 1] == flt[yy - 1 - e]);
                                assert((empties(e + 1, iw) + flt)[yy] == flt[yy - 1 - e]);
                            }
                        }
                    }
                    assert(f.irows().subrange(rend as int, f.ih()).len() == f.ih() - rend);
                    assert(flt.len() == f.ih() - rend - e);
                    assert((empties(e + 1, iw) + flt).len() == f.ih() - (rend - 1));
                    assert(f.irows().subrange(rend - 1, f.ih()) =~~= empties(e + 1, iw) + flt);
                }
                assert(f.irows().subrange(0, rend - 1) =~~= (f.irows().subrange(0,
                rend as int)).subrange(0, rend - 1));
            }
            rend = rend - 1;
        }
    }
    proof {
        assert(n == 0);
        lemma_filter_len(orows);
        assert(orows.subrange(0, orows.len() as int) =~~= orows);
        assert(f.irows() =~~= f.irows().subrange(0, f.ih()));
        assert(f.irows() == empties(lines as int, iw) + filter_incomplete(orows));
        assert(lines == cleared_count(orows));
        assert(f.irows() == clear_spec(orows, iw));
    }
    lines
}

/// Number of occupied cells in one interior row.
pub open spec fn row_filled(row: Seq<u8>) -> int
    decreases row.len(),
{
    if row.len() == 0 {
        0
    } else {
        (if row[0] != 0 {
            1int
        } else {
            0int
        }) + row_filled(row.drop_first())
    }
}

/// Number of occupied cells over a sequence of interior rows.
pub open spec fn total_filled(rows: Seq<Seq<u8>>) -> int
    decreases rows.len(),
{
    if rows.len() == 0 {
        0
    } else {
        row_filled(rows[0]) + total_filled(rows.drop_first())
    }
}

/// A complete row is fully occupied.
proof fn lemma_row_filled_complete(row: Seq<u8>)
    requires
        row_complete(row),
    ensures
        row_filled(row) == row.len(),
    decreases row.len(),
{
    if row.len() > 0 {
        assert(row[0] != 0);
        assert(row_complete(row.drop_first()));
        lemma_row_filled_complete(row.drop_first());
    }
}

/// A row of empty cells holds nothing.
proof fn lemma_row_filled_zeros(row: Seq<u8>)
    requires
        forall|i: int| 0 <= i < row.len() ==> #[trigger] row[i] == 0,
    ensures
        row_filled(row) == 0,
    decreases row.len(),
{
    if row.len() > 0 {
        lemma_row_filled_zeros(row.drop_first());
    }
}

/// Occupied cells add up over concatenation.
proof fn lemma_total_concat(a: Seq<Seq<u8>>, b: Seq<Seq<u8>>)
    ensures
        total_filled(a + b) == total_filled(a) + total_filled(b),
    decreases a.len(),
{
    if a.len() == 0 {
        assert(a + b =~~= b);
    } else {
        assert((a + b).drop_first() =~~= a.drop_first() + b);
        assert((a + b)[0] == a[0]);
        lemma_total_concat(a.drop_first(), b);
    }
}

/// Empty rows hold nothing.
proof fn lemma_total_empties(k: int, iw: int)
    requires
        k >= 0,
    ensures
        total_filled(empties(k, iw)) == 0,
    decreases k,
{
    lemma_row_filled_zeros(empty_row(iw));
    if k > 0 {
        assert(empties(k, iw).drop_first() =~~= empties(k - 1, iw));
        assert(empties(k, iw)[0] == empty_row(iw));
        lemma_total_empties(k - 1, iw);
    }
}

/// Compaction conserves exactly what it should: afterwards the grid holds
/// precisely `cleared_rows x interior_width` fewer occupied cells, because
/// each removed row was fully occupied and each replacement row is empty.
pub proof fn lemma_clear_filled(rows: Seq<Seq<u8>>, iw: int)
    requires
        forall|i: int| 0 <= i < rows.len() ==> (#[trigger] rows[i]).len() == iw,
    ensures
        total_filled(clear_spec(rows, iw)) == total_filled(rows) - cleared_count(rows) * iw,
    decreases rows.len(),
{
    lemma_filter_len(rows);
    if rows.len() == 0 {
        assert(clear_spec(rows, iw) =~~= Seq::<Seq<u8>>::empty());
        assert(cleared_count(rows) * iw == 0) by (nonlinear_arith)
            requires
                cleared_count(rows) == 0,
        ;
        lemma_total_empties(0, iw);
        assert(empties(0, iw) + filter_incomplete(rows) =~~= empties(0, iw));
    } else {
        let rest = rows.drop_first();
        assert forall|i: int| 0 <= i < rest.len() implies (#[trigger] rest[i]).len() == iw by {
            assert(rest[i] == rows[i + 1]);
        }
        lemma_clear_filled(rest, iw);
        lemma_filter_len(rest);
        let cc = cleared_count(rest);
        lemma_total_empties(cc, iw);
        lemma_total_concat(empties(cc, iw), filter_incomplete(rest));
        assert(total_filled(clear_spec(rest, iw)) == total_filled(filter_incomplete(rest)));
        assert(total_filled(filter_incomplete(rest)) == total_filled(rest) - cc * iw);
        if row_complete(rows[0]) {
            lemma_row_filled_complete(rows[0]);
            assert(cleared_count(rows) == cc + 1);
            lemma_total_empties(cc + 1, iw);
            lemma_total_concat(empties(cc + 1, iw), filter_incomplete(rest));
            assert(filter_incomplete(rows) == filter_incomplete(rest));
            assert(total_filled(clear_spec(rows, iw)) == total_filled(rest) - cc * iw);
            assert((cc + 1) * iw == cc * iw + iw) by (nonlinear_arith);
            assert(total_filled(rows) == iw + total_filled(rest));
        } else {
            assert(cleared_count(rows) == cc);
            lemma_total_concat(empties(cc, iw), seq![rows[0]] + filter_incomplete(rest));
            lemma_total_concat(seq![rows[0]], filter_incomplete(rest));
            assert(total_filled(seq![rows[0]]) == row_filled(rows[0])) by {
                assert(seq![rows[0]].len() == 1);
                assert(seq![rows[0]][0] == rows[0]);
                assert(seq![rows[0]].drop_first() =~~= Seq::<Seq<u8>>::empty());
                assert(total_filled(seq![rows[0]].drop_first()) == 0);
            }
            assert(filter_incomplete(rows) == seq![rows[0]] + filter_incomplete(rest));
            assert(total_filled(rows) == row_filled(rows[0]) + total_filled(rest));
        }
    }
}

/// Row-major index arithmetic: an in-bounds coordinate indexes inside the
/// cell store.
pub proof fn lemma_row_major(w: int, h: int, x: int, y: int)
    requires
        0 < w <= 64,
        0 < h <= 64,
        0 <= x < w,
        0 <= y < h,
    ensures
        0 <= y * w + x < w * h,
        w * h <= 4096,
{
    assert(0 <= y * w + x < w * h && w * h <= 4096) by (nonlinear_arith)
        requires
            0 < w <= 64,
            0 < h <= 64,
            0 <= x < w,
            0 <= y < h,
    ;
}

/// Row-major indexing is injective.
pub proof fn lemma_row_major_inj(w: int, x1: int, y1: int, x2: int, y2: int)
    requires
        0 < w,
        0 <= x1 < w,
        0 <= x2 < w,
        0 <= y1,
        0 <= y2,
        x1 != x2 || y1 != y2,
    ensures
        y1 * w + x1 != y2 * w + x2,
{
    assert(y1 * w + x1 != y2 * w + x2) by (nonlinear_arith)
        requires
            0 < w,
            0 <= x1 < w,
            0 <= x2 < w,
            0 <= y1,
            0 <= y2,
            x1 != x2 || y1 != y2,
    ;
}

/// A cell in an earlier row has a smaller row-major index.
pub proof fn lemma_row_major_lex(w: int, a: int, b: int, x: int, y: int)
    requires
        0 < w,
        0 <= a < w,
        0 <= x,
        0 <= b < y,
    ensures
        b * w + a < y * w + x,
{
    assert(b * w + a < y * w + x) by (nonlinear_arith)
        requires
            0 < w,
            0 <= a < w,
            0 <= x,
            0 <= b < y,
    ;
}

} // verus!
