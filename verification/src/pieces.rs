//! The seven tetromino shapes and the rotation index transform.
//!
//! Each shape is a 4x4 boolean mask stored row-major as 16 cells. A rotation
//! is not a second mask: the transform `rot_index` maps a local coordinate
//! `(px, py)` and a rotation `r` to an index into the canonical mask, so the
//! engine and the move search agree bit-for-bit on every rotated placement.

use vstd::prelude::*;

verus! {

/// Number of distinct piece shapes.
pub const NUM_PIECES: usize = 7;

/// Index into the canonical 16-cell mask for local cell `(px, py)` under
/// rotation `r` (taken modulo 4): a 90-degree rotation permutation of the
/// 4x4 frame.
pub open spec fn rot_index_spec(px: int, py: int, r: int) -> int {
    let rm = r % 4;
    if rm == 0 {
        py * 4 + px
    } else if rm == 1 {
        12 + py - px * 4
    } else if rm == 2 {
        15 - py * 4 - px
    } else {
        3 - py + px * 4
    }
}

/// Whether cell `i` of the canonical mask of piece `p` is filled.
pub open spec fn piece_cell_spec(p: int, i: int) -> bool {
    if p == 0 {
        i == 2 || i == 6 || i == 10 || i == 14
    } else if p == 1 {
        i == 2 || i == 5 || i == 6 || i == 10
    } else if p == 2 {
        i == 1 || i == 5 || i == 6 || i == 10
    } else if p == 3 {
        i == 1 || i == 5 || i == 6 || i == 9
    } else if p == 4 {
        i == 2 || i == 5 || i == 6 || i == 9
    } else if p == 5 {
        i == 1 || i == 5 || i == 9 || i == 10
    } else if p == 6 {
        i == 2 || i == 6 || i == 9 || i == 10
    } else {
        false
    }
}

/// Whether piece `p` under rotation `r` fills local cell `(px, py)`.
pub open spec fn piece_at(p: int, px: int, py: int, r: int) -> bool {
    piece_cell_spec(p, rot_index_spec(px, py, r))
}

/// Rotation index transform, executable form.
pub fn rot_index(px: usize, py: usize, r: usize) -> (res: usize)
    requires
        px < 4,
        py < 4,
    ensures
        res == rot_index_spec(px as int, py as int, r as int),
        res < 16,
{
    match r % 4 {
        0 => py * 4 + px,
        1 => 12 + py - px * 4,
        2 => 15 - py * 4 - px,
        _ => 3 - py + px * 4,
    }
}

/// Every piece fills at least one cell of its frame, under every rotation.
pub proof fn lemma_piece_nonempty(p: int, r: int)
    requires
        0 <= p < 7,
    ensures
        exists|px: int, py: int| 0 <= px < 4 && 0 <= py < 4 && #[trigger] piece_at(p, px, py, r),
{
    let rm = r % 4;
    let b: int = if p == 2 || p == 3 || p == 5 {
        1
    } else {
        2
    };
    assert(piece_cell_spec(p, b));
    if rm == 0 {
        if b == 1 {
            assert(piece_at(p, 1, 0, r));
        } else {
            assert(piece_at(p, 2, 0, r));
        }
    } else if rm == 1 {
        if b == 1 {
            assert(piece_at(p, 3, 1, r));
        } else {
            assert(piece_at(p, 3, 2, r));
        }
    } else if rm == 2 {
        if b == 1 {
            assert(piece_at(p, 2, 3, r));
        } else {
            assert(piece_at(p, 1, 3, r));
        }
    } else {
        if b == 1 {
            assert(piece_at(p, 0, 2, r));
        } else {
            assert(piece_at(p, 0, 1, r));
        }
    }
}

/// Mask lookup, executable form.
pub fn piece_cell(p: usize, i: usize) -> (res: bool)
    ensures
        res == piece_cell_spec(p as int, i as int),
{
    match p {
        0 => i == 2 || i == 6 || i == 10 || i == 14,
        1 => i == 2 || i == 5 || i == 6 || i == 10,
        2 => i == 1 || i == 5 || i == 6 || i == 10,
        3 => i == 1 || i == 5 || i == 6 || i == 9,
        4 => i == 2 || i == 5 || i == 6 || i == 9,
        5 => i == 1 || i == 5 || i == 9 || i == 10,
        6 => i == 2 || i == 6 || i == 9 || i == 10,
        _ => false,
    }
}

} // verus!
