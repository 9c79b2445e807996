//! The board engine: grid, active piece, scoring, speed and the piece
//! lifecycle (spawn, fall, lock, line clear, respawn).
//!
//! Commands are silently rejected in illegal states: when the game is over,
//! paused, or while marked rows await compaction, a command leaves the state
//! unchanged. The next tick after a lock performs compaction instead of
//! gravity, so marked rows stay visible for exactly one tick.

use vstd::prelude::*;

use crate::ai::Weights;
use crate::field::{
    dims_ok, drop_from, drop_row, fits_rows, marked_row, mark_row, piece_fits_field, piece_inside,
    row_complete, stamp_piece, stamped_rows, ConfigError, Field,
};

verus! {

/// Board-quality snapshot for display: tallest column, holes, surface
/// roughness.
pub struct BoardStats {
    pub max_height: i32,
    pub holes: u32,
    pub bumpiness: i32,
}

/// The spawn column of a field `w` cells wide.
pub open spec fn spawn_col(w: int) -> int {
    w / 2 - 2
}

/// Saturating 32-bit addition: scores and counters stop at the ceiling
/// instead of wrapping.
pub open spec fn sat_add32(a: u32, b: u32) -> u32 {
    if a + b <= u32::MAX {
        (a + b) as u32
    } else {
        u32::MAX
    }
}

/// Score bonus for compacting `n` rows at once: `2^n * 100`.
pub open spec fn clear_bonus(n: int) -> u32 {
    if n <= 0 {
        100
    } else if n == 1 {
        200
    } else if n == 2 {
        400
    } else if n == 3 {
        800
    } else {
        1600
    }
}

/// The rows among the up-to-four rows the locked piece touched
/// (`y0 + py .. y0 + 4`) that are complete, in ascending order.
pub open spec fn pending_rows_spec(rows: Seq<Seq<u8>>, y0: int, py: int) -> Seq<usize>
    decreases 4 - py,
{
    if py >= 4 {
        Seq::empty()
    } else {
        let fy = y0 + py;
        let rest = pending_rows_spec(rows, y0, py + 1);
        if 0 <= fy < rows.len() && row_complete(rows[fy]) {
            seq![fy as usize] + rest
        } else {
            rest
        }
    }
}

/// The grid after marking: every complete row among the touched ones has
/// its interior filled with the pending-clear sentinel.
pub open spec fn mark_rows_spec(rows: Seq<Seq<u8>>, y0: int) -> Seq<Seq<u8>> {
    Seq::new(
        rows.len(),
        |cy: int|
            if y0 <= cy < y0 + 4 && row_complete(rows[cy]) {
                marked_row(rows[cy].len() as int)
            } else {
                rows[cy]
            },
    )
}

/// At most four rows are ever marked by one lock.
pub proof fn lemma_pending_len(rows: Seq<Seq<u8>>, y0: int, py: int)
    requires
        0 <= py <= 4,
    ensures
        pending_rows_spec(rows, y0, py).len() <= 4 - py,
    decreases 4 - py,
{
    if py < 4 {
        lemma_pending_len(rows, y0, py + 1);
    }
}

/// A row is listed as pending by a lock exactly when it lies among the
/// touched rows and every one of its interior cells is occupied.
pub proof fn lemma_pending_iff(rows: Seq<Seq<u8>>, y0: int, py: int, y: int)
    requires
        0 <= py <= 4,
        rows.len() <= 64,
    ensures
        (exists|i: int|
            0 <= i < pending_rows_spec(rows, y0, py).len() && pending_rows_spec(rows, y0, py)[i]
                == y) <==> (y0 + py <= y < y0 + 4 && 0 <= y < rows.len() && row_complete(rows[y])),
    decreases 4 - py,
{
    if py < 4 {
        lemma_pending_iff(rows, y0, py + 1, y);
        let fy = y0 + py;
        let rest = pending_rows_spec(rows, y0, py + 1);
        if 0 <= fy < rows.len() && row_complete(rows[fy]) {
            let s = seq![fy as usize] + rest;
            assert(pending_rows_spec(rows, y0, py) == s);
            assert(seq![fy as usize].len() == 1);
            assert(seq![fy as usize][0] == fy as usize);
            assert(s[0] == fy as usize);
            assert forall|i: int| 0 <= i < s.len() && s[i] == y implies (y0 + py <= y < y0 + 4 && 0
                <= y < rows.len() && row_complete(rows[y])) by {
                if i > 0 {
                    assert(s[i] == rest[i - 1]);
                } else {
                    assert(s[0] == fy as usize);
                }
            }
            if y0 + py <= y < y0 + 4 && 0 <= y < rows.len() && row_complete(rows[y]) {
                if y == fy {
                    assert(s[0] == fy as usize);
                    assert(s[0] as int == y);
                } else {
                    let j = choose|j: int| 0 <= j < rest.len() && rest[j] == y;
                    assert(s[j + 1] == y);
                }
            }
        } else {
            assert(pending_rows_spec(rows, y0, py) == rest);
        }
    }
}

/// The lock transition: the piece is written into the grid, score, piece
/// count, speed and the per-lock analytics advance, the touched complete
/// rows are marked and listed, and the next piece spawns (its successor is
/// drawn afresh, so only its range is pinned). The game ends exactly when
/// the spawned piece does not fit.
pub open spec fn lock_rel(pre: GameState, post: GameState) -> bool {
    let srows = stamped_rows(
        pre.field.irows(),
        pre.current_piece as int,
        pre.current_rotation as int,
        pre.current_x as int,
        pre.current_y as int,
    );
    let pend = pending_rows_spec(srows, pre.current_y as int, 0);
    let n = pend.len() as u32;
    &&& post.field.width == pre.field.width
    &&& post.field.height == pre.field.height
    &&& post.field.irows() == mark_rows_spec(srows, pre.current_y as int)
    &&& post.lines_to_clear@ == pend
    &&& post.score == sat_add32(pre.score, 25)
    &&& post.piece_count == sat_add32(pre.piece_count, 1)
    &&& post.speed == (if post.piece_count % 10 == 0 && pre.speed > 10 {
        (pre.speed - 1) as u32
    } else {
        pre.speed
    })
    &&& post.speed_counter == pre.speed_counter
    &&& post.current_piece == pre.next_piece
    &&& post.current_rotation == 0
    &&& post.current_x == spawn_col(pre.field.width as int)
    &&& post.current_y == 0
    &&& post.next_piece < 7
    &&& post.game_over == !fits_rows(
        post.field.irows(),
        pre.field.iw(),
        pre.next_piece as int,
        0,
        spawn_col(pre.field.width as int),
        0,
    )
    &&& post.paused == pre.paused
    &&& post.ai_mode == pre.ai_mode
    &&& post.ai_target_rotation == pre.ai_target_rotation
    &&& post.ai_target_x == pre.ai_target_x
    &&& post.weights == pre.weights
    &&& post.lines_cleared == sat_add32(pre.lines_cleared, n)
    &&& post.singles == (if n == 1 {
        sat_add32(pre.singles, 1)
    } else {
        pre.singles
    })
    &&& post.doubles == (if n == 2 {
        sat_add32(pre.doubles, 1)
    } else {
        pre.doubles
    })
    &&& post.triples == (if n == 3 {
        sat_add32(pre.triples, 1)
    } else {
        pre.triples
    })
    &&& post.tetrises == (if n >= 4 {
        sat_add32(pre.tetrises, 1)
    } else {
        pre.tetrises
    })
    &&& post.lines_history@ == (if pre.lines_history@.len() >= 20 {
        pre.lines_history@.drop_first()
    } else {
        pre.lines_history@
    }).push(n as u8)
}

/// The compaction transition: the grid is compacted as [`clear_spec`]
/// describes, the score grows by `2^n * 100` for the `n` pending rows, the
/// pending list empties, and nothing else changes.
pub open spec fn compact_rel(pre: GameState, post: GameState) -> bool {
    &&& post.field.width == pre.field.width
    &&& post.field.height == pre.field.height
    &&& post.field.irows() == crate::field::clear_spec(pre.field.irows(), pre.field.iw())
    &&& post.score == sat_add32(pre.score, clear_bonus(pre.lines_to_clear@.len() as int))
    &&& post.lines_to_clear@ == Seq::<usize>::empty()
    &&& post.piece_count == pre.piece_count
    &&& post.speed == pre.speed
    &&& post.speed_counter == pre.speed_counter
    &&& post.current_piece == pre.current_piece
    &&& post.current_rotation == pre.current_rotation
    &&& post.current_x == pre.current_x
    &&& post.current_y == pre.current_y
    &&& post.next_piece == pre.next_piece
    &&& post.game_over == pre.game_over
    &&& post.paused == pre.paused
    &&& post.ai_mode == pre.ai_mode
    &&& post.ai_target_rotation == pre.ai_target_rotation
    &&& post.ai_target_x == pre.ai_target_x
    &&& post.lines_cleared == pre.lines_cleared
    &&& post.singles == pre.singles
    &&& post.doubles == pre.doubles
    &&& post.triples == pre.triples
    &&& post.tetrises == pre.tetrises
    &&& post.lines_history@ == pre.lines_history@
    &&& post.weights == pre.weights
}

/// One gravity step: the piece descends a row if the lower placement fits,
/// otherwise it locks.
pub open spec fn force_rel(pre: GameState, post: GameState) -> bool {
    if fits_rows(
        pre.field.irows(),
        pre.field.iw(),
        pre.current_piece as int,
        pre.current_rotation as int,
        pre.current_x as int,
        pre.current_y + 1,
    ) {
        post == (GameState { current_y: (pre.current_y + 1) as i32, ..pre })
    } else {
        lock_rel(pre, post)
    }
}

/// A hard drop: the piece falls to its resting row and locks there.
pub open spec fn hard_drop_rel(pre: GameState, post: GameState) -> bool {
    lock_rel(
        (GameState {
            current_y: drop_from(
                pre.field.irows(),
                pre.field.iw(),
                pre.current_piece as int,
                pre.current_rotation as int,
                pre.current_x as int,
                pre.current_y as int,
            ) as i32,
            ..pre
        }),
        post,
    )
}

/// One automated rotation step: a quarter turn toward the target rotation,
/// skipped when already there or blocked.
pub open spec fn rotate_step_rel(pre: GameState, post: GameState) -> bool {
    if pre.current_rotation == pre.ai_target_rotation {
        post == pre
    } else if fits_rows(
        pre.field.irows(),
        pre.field.iw(),
        pre.current_piece as int,
        ((pre.current_rotation + 1) % 4) as int,
        pre.current_x as int,
        pre.current_y as int,
    ) {
        post == (GameState { current_rotation: ((pre.current_rotation + 1) % 4) as usize, ..pre })
    } else {
        post == pre
    }
}

/// One automated slide step: one column toward the target column, skipped
/// when already there or blocked.
pub open spec fn slide_rel(pre: GameState, post: GameState) -> bool {
    if pre.current_x < pre.ai_target_x {
        if fits_rows(
            pre.field.irows(),
            pre.field.iw(),
            pre.current_piece as int,
            pre.current_rotation as int,
            pre.current_x + 1,
            pre.current_y as int,
        ) {
            post == (GameState { current_x: (pre.current_x + 1) as i32, ..pre })
        } else {
            post == pre
        }
    } else if pre.current_x > pre.ai_target_x {
        if fits_rows(
            pre.field.irows(),
            pre.field.iw(),
            pre.current_piece as int,
            pre.current_rotation as int,
            pre.current_x - 1,
            pre.current_y as int,
        ) {
            post == (GameState { current_x: (pre.current_x - 1) as i32, ..pre })
        } else {
            post == pre
        }
    } else {
        post == pre
    }
}

/// One automated-play step: rotate toward the target, slide up to two
/// columns toward it, then hard-drop once aligned; gravity stays suppressed
/// while alignment is in progress.
pub open spec fn ai_step_rel(pre: GameState, post: GameState) -> bool {
    exists|m1: GameState, m2: GameState, m3: GameState|
        #![trigger rotate_step_rel(pre, m1), slide_rel(m1, m2), slide_rel(m2, m3)]
        {
            &&& rotate_step_rel(pre, m1)
            &&& slide_rel(m1, m2)
            &&& slide_rel(m2, m3)
            &&& if m3.current_rotation == m3.ai_target_rotation && m3.current_x == m3.ai_target_x {
                hard_drop_rel(m3, post)
            } else {
                post == m3
            }
        }
}

/// Right after a lock, a row is pending exactly when the freshly stamped
/// grid shows it among the touched rows with every interior cell occupied.
/// (On the post-lock grid itself the same holds through the marks: marked
/// rows are fully occupied by the sentinel, and the engine invariant keeps
/// completeness equivalent to membership in the pending list.)
pub proof fn lemma_lock_pending_iff(pre: GameState, post: GameState, y: int)
    requires
        pre.wf(),
        lock_rel(pre, post),
        0 <= y < pre.field.ih(),
    ensures
        post.pending_has(y) <==> (pre.current_y <= y < pre.current_y + 4 && row_complete(
            stamped_rows(
                pre.field.irows(),
                pre.current_piece as int,
                pre.current_rotation as int,
                pre.current_x as int,
                pre.current_y as int,
            )[y],
        )),
{
    let srows = stamped_rows(
        pre.field.irows(),
        pre.current_piece as int,
        pre.current_rotation as int,
        pre.current_x as int,
        pre.current_y as int,
    );
    let pend = pending_rows_spec(srows, pre.current_y as int, 0);
    lemma_pending_iff(srows, pre.current_y as int, 0, y);
    if post.pending_has(y) {
        let i = choose|i: int|
            0 <= i < post.lines_to_clear@.len() && post.lines_to_clear@[i] == y;
        assert(pend[i] == y);
    }
    if pre.current_y <= y < pre.current_y + 4 && row_complete(srows[y]) {
        let i = choose|i: int| 0 <= i < pend.len() && pend[i] == y;
        assert(post.lines_to_clear@[i] == y);
        assert(post.pending_has(y));
    }
}

/// Compaction conserves cells: after any compaction step the pending list
/// is empty and the count of occupied interior cells has dropped by exactly
/// the number of cleared rows times the interior width.
pub proof fn lemma_compaction_conserves(pre: GameState, post: GameState)
    requires
        pre.wf(),
        compact_rel(pre, post),
    ensures
        post.lines_to_clear@.len() == 0,
        crate::field::total_filled(post.field.irows()) == crate::field::total_filled(
            pre.field.irows(),
        ) - crate::field::cleared_count(pre.field.irows()) * pre.field.iw(),
{
    crate::field::lemma_clear_filled(pre.field.irows(), pre.field.iw());
}

/// Every reachable grid keeps its cells in range: border cells hold the
/// border sentinel and interior cells a value in `0..=8`. Constructors
/// establish `wf` and every command preserves it, so this holds after any
/// sequence of commands.
pub proof fn lemma_cell_values(g: GameState)
    requires
        g.wf(),
    ensures
        forall|x: int, y: int|
            g.field.in_bounds(x, y) && g.field.is_border(x, y) ==> #[trigger] g.field.cell(x, y)
                == 9,
        forall|x: int, y: int|
            g.field.in_bounds(x, y) && !g.field.is_border(x, y) ==> #[trigger] g.field.cell(x, y)
                <= 8,
{
}

/// The whole game state. Fields are public so that collaborators
/// (rendering, drivers) can poll them; they are expected to mutate the
/// state only through the commands.
pub struct GameState {
    pub field: Field,
    pub current_piece: usize,
    pub current_rotation: usize,
    pub current_x: i32,
    pub current_y: i32,
    pub next_piece: usize,
    pub score: u32,
    pub piece_count: u32,
    pub speed: u32,
    pub speed_counter: u32,
    pub lines_to_clear: Vec<usize>,
    pub game_over: bool,
    pub paused: bool,
    pub ai_mode: bool,
    pub ai_target_rotation: usize,
    pub ai_target_x: i32,
    pub lines_cleared: u32,
    pub singles: u32,
    pub doubles: u32,
    pub triples: u32,
    pub tetrises: u32,
    pub lines_history: Vec<u8>,
    pub weights: Weights,
}

impl GameState {
    /// Whether row `y` is in the pending-clear list.
    pub open spec fn pending_has(self, y: int) -> bool {
        exists|i: int| 0 <= i < self.lines_to_clear@.len() && self.lines_to_clear@[i] == y
    }

    /// The engine invariant, preserved by every command:
    /// the grid is well formed; the piece identifiers, rotation, speed and
    /// position are in range; a row is complete exactly when it is pending;
    /// and while the game runs the active piece lies inside the interior.
    pub open spec fn wf(self) -> bool {
        &&& self.field.wf()
        &&& self.current_piece < 7
        &&& self.next_piece < 7
        &&& self.current_rotation < 4
        &&& 10 <= self.speed <= 20
        &&& self.speed_counter <= 20
        &&& -4 <= self.current_x <= self.field.width
        &&& 0 <= self.current_y <= self.field.height
        &&& self.lines_to_clear@.len() <= 4
        &&& forall|i: int|
            0 <= i < self.lines_to_clear@.len() ==> #[trigger] self.lines_to_clear@[i]
                < self.field.ih()
        &&& forall|y: int|
            0 <= y < self.field.ih() ==> (row_complete(#[trigger] self.field.irow(y))
                <==> self.pending_has(y))
        &&& !self.game_over ==> piece_inside(
            self.field.iw(),
            self.field.ih(),
            self.current_piece as int,
            self.current_rotation as int,
            self.current_x as int,
            self.current_y as int,
        )
        &&& self.lines_history@.len() <= 20
        &&& self.weights.wf()
    }

    /// Whether commands act at all: not over, not paused, no compaction
    /// outstanding.
    pub open spec fn can_act(self) -> bool {
        &&& !self.game_over
        &&& !self.paused
        &&& self.lines_to_clear@.len() == 0
    }

    /// The collision test of this board for the active piece kind.
    pub open spec fn fits_at(self, r: int, x: int, y: int) -> bool {
        fits_rows(
            self.field.irows(),
            self.field.iw(),
            self.current_piece as int,
            r,
            x,
            y,
        )
    }

    /// Build a fresh game on an empty bordered grid with the given first
    /// and next piece (randomness is injected here so tests can fix it),
    /// or report unusable dimensions.
    pub fn new(width: usize, height: usize, first_piece: usize, next_piece: usize) -> (r: Result<
        GameState,
        ConfigError,
    >)
        requires
            first_piece < 7,
            next_piece < 7,
        ensures
            r is Ok <==> dims_ok(width as int, height as int),
            (width < 6 || height < 5) ==> r == Result::<GameState, ConfigError>::Err(
                ConfigError::TooSmall,
            ),
            !(width < 6 || height < 5) && (width > 64 || height > 64) ==> r == Result::<
                GameState,
                ConfigError,
            >::Err(ConfigError::TooLarge),
            r matches Ok(g) ==> {
                &&& g.wf()
                &&& g.field.width == width
                &&& g.field.height == height
                &&& forall|x: int, y: int|
                    g.field.in_bounds(x, y) && !g.field.is_border(x, y)
                        ==> #[trigger] g.field.cell(x, y) == 0
                &&& g.current_piece == first_piece
                &&& g.current_rotation == 0
                &&& g.current_x == spawn_col(width as int)
                &&& g.current_y == 0
                &&& g.next_piece == next_piece
                &&& g.score == 0
                &&& g.piece_count == 0
                &&& g.speed == 20
                &&& g.speed_counter == 0
                &&& g.lines_to_clear@.len() == 0
                &&& !g.game_over
                &&& !g.paused
                &&& !g.ai_mode
                &&& g.ai_target_rotation == 0
                &&& g.ai_target_x == spawn_col(width as int)
                &&& g.lines_cleared == 0 && g.singles == 0 && g.doubles == 0 && g.triples == 0
                    && g.tetrises == 0
                &&& g.lines_history@.len() == 0
                &&& g.weights == Weights::standard_spec()
            },
    {
        let field = match Field::new(width, height) {
            Ok(f) => f,
            Err(e) => {
                return Err(e);
            },
        };
        let spawn_x = (width / 2) as i32 - 2;
        let mut gs = GameState {
            field,
            current_piece: first_piece,
            current_rotation: 0,
            current_x: spawn_x,
            current_y: 0,
            next_piece,
            score: 0,
            piece_count: 0,
            speed: 20,
            speed_counter: 0,
            lines_to_clear: Vec::new(),
            game_over: false,
            paused: false,
            ai_mode: false,
            ai_target_rotation: 0,
            ai_target_x: spawn_x,
            lines_cleared: 0,
            singles: 0,
            doubles: 0,
            triples: 0,
            tetrises: 0,
            lines_history: Vec::new(),
            weights: Weights::standard(),
        };
        proof {
            assert forall|y: int| 0 <= y < gs.field.ih() implies !row_complete(
                #[trigger] gs.field.irow(y),
            ) by {
                assert(gs.field.irow(y)[0] == gs.field.cell(1, y));
                assert(gs.field.irow(y)[0] == 0);
            }
            assert forall|px: int, py: int|
                0 <= px < 4 && 0 <= py < 4 && #[trigger] crate::pieces::piece_at(
                    first_piece as int,
                    px,
                    py,
                    0,
                ) implies crate::field::fit_ok(
                gs.field.irows(),
                gs.field.iw(),
                spawn_x as int,
                0,
                px,
                py,
            ) by {
                assert(gs.field.irows()[py][spawn_x + px - 1] == gs.field.cell(spawn_x + px, py));
            }
            assert(gs.fits_at(0, spawn_x as int, 0));
        }
        let fit = gs.does_piece_fit(gs.current_piece, gs.current_rotation, gs.current_x,
        gs.current_y);
        if !fit {
            gs.game_over = true;
        }
        Ok(gs)
    }

    /// Rotation index transform: canonical-mask index of local cell
    /// `(px, py)` under rotation `r`.
    pub fn rotate(px: usize, py: usize, r: usize) -> (res: usize)
        requires
            px < 4,
            py < 4,
        ensures
            res == crate::pieces::rot_index_spec(px as int, py as int, r as int),
            res < 16,
    {
        crate::pieces::rot_index(px, py, r)
    }

    /// Collision test: does `piece` under `rotation` fit at
    /// `(pos_x, pos_y)` on this board? Pure: the board is untouched and the
    /// result depends on the arguments alone.
    pub fn does_piece_fit(&self, piece: usize, rotation: usize, pos_x: i32, pos_y: i32) -> (res:
        bool)
        requires
            self.wf(),
            piece < 7,
            pos_x <= i32::MAX - 3,
            pos_y <= i32::MAX - 3,
        ensures
            res == fits_rows(
                self.field.irows(),
                self.field.iw(),
                piece as int,
                rotation as int,
                pos_x as int,
                pos_y as int,
            ),
    {
        piece_fits_field(&self.field, piece, rotation, pos_x, pos_y)
    }

    /// Shift the active piece one column left if the target placement fits;
    /// otherwise, or in an inactive state, do nothing.
    pub fn move_left(&mut self)
        requires
            old(self).wf(),
        ensures
            final(self).wf(),
            !old(self).can_act() ==> *final(self) == *old(self),
            old(self).can_act() && old(self).fits_at(
                old(self).current_rotation as int,
                old(self).current_x - 1,
                old(self).current_y as int,
            ) ==> *final(self) == (GameState {
                current_x: (old(self).current_x - 1) as i32,
                ..*old(self)
            }),
            old(self).can_act() && !old(self).fits_at(
                old(self).current_rotation as int,
                old(self).current_x - 1,
                old(self).current_y as int,
            ) ==> *final(self) == *old(self),
    {
        if self.game_over || self.paused || self.lines_to_clear.len() > 0 {
            return ;
        }
        if self.does_piece_fit(
            self.current_piece,
            self.current_rotation,
            self.current_x - 1,
            self.current_y,
        ) {
            self.current_x = self.current_x - 1;
            proof {
                crate::field::lemma_fits_origin(
                    self.field.irows(),
                    self.field.iw(),
                    self.current_piece as int,
                    self.current_rotation as int,
                    self.current_x as int,
                    self.current_y as int,
                );
            }
        }
    }

    /// Shift the active piece one column right if the target placement
    /// fits; otherwise, or in an inactive state, do nothing.
    pub fn move_right(&mut self)
        requires
            old(self).wf(),
        ensures
            final(self).wf(),
            !old(self).can_act() ==> *final(self) == *old(self),
            old(self).can_act() && old(self).fits_at(
                old(self).current_rotation as int,
                old(self).current_x + 1,
                old(self).current_y as int,
            ) ==> *final(self) == (GameState {
                current_x: (old(self).current_x + 1) as i32,
                ..*old(self)
            }),
            old(self).can_act() && !old(self).fits_at(
                old(self).current_rotation as int,
                old(self).current_x + 1,
                old(self).current_y as int,
            ) ==> *final(self) == *old(self),
    {
        if self.game_over || self.paused || self.lines_to_clear.len() > 0 {
            return ;
        }
        if self.does_piece_fit(
            self.current_piece,
            self.current_rotation,
            self.current_x + 1,
            self.current_y,
        ) {
            self.current_x = self.current_x + 1;
            proof {
                crate::field::lemma_fits_origin(
                    self.field.irows(),
                    self.field.iw(),
                    self.current_piece as int,
                    self.current_rotation as int,
                    self.current_x as int,
                    self.current_y as int,
                );
            }
        }
    }

    /// Advance the rotation by a quarter turn if the rotated placement fits
    /// at the current position; there is no wall-kick search.
    pub fn rotate_piece(&mut self)
        requires
            old(self).wf(),
        ensures
            final(self).wf(),
            !old(self).can_act() ==> *final(self) == *old(self),
            old(self).can_act() && old(self).fits_at(
                ((old(self).current_rotation + 1) % 4) as int,
                old(self).current_x as int,
                old(self).current_y as int,
            ) ==> *final(self) == (GameState {
                current_rotation: ((old(self).current_rotation + 1) % 4) as usize,
                ..*old(self)
            }),
            old(self).can_act() && !old(self).fits_at(
                ((old(self).current_rotation + 1) % 4) as int,
                old(self).current_x as int,
                old(self).current_y as int,
            ) ==> *final(self) == *old(self),
    {
        if self.game_over || self.paused || self.lines_to_clear.len() > 0 {
            return ;
        }
        let new_rotation = (self.current_rotation + 1) % 4;
        if self.does_piece_fit(self.current_piece, new_rotation, self.current_x, self.current_y) {
            self.current_rotation = new_rotation;
        }
    }

    /// The row the active piece would come to rest in if hard-dropped now;
    /// queryable at any time and mutates nothing.
    pub fn ghost_drop_y(&self) -> (res: i32)
        requires
            self.wf(),
        ensures
            res == drop_from(
                self.field.irows(),
                self.field.iw(),
                self.current_piece as int,
                self.current_rotation as int,
                self.current_x as int,
                self.current_y as int,
            ),
            self.current_y <= res <= 64,
    {
        drop_row(
            &self.field,
            self.current_piece,
            self.current_rotation,
            self.current_x,
            self.current_y,
        )
    }

    /// Snapshot of the board-quality metrics shown by the analytics panel:
    /// tallest column, hole count and bumpiness of the current grid. For
    /// display only; the move search recomputes its own features.
    pub fn board_stats(&self) -> (st: BoardStats)
        requires
            self.wf(),
        ensures
            st.max_height == crate::ai::max_cols(self.field.irows(), self.field.iw(), 0),
            st.holes == crate::ai::holes_total(self.field.irows(), self.field.iw()),
            st.bumpiness == crate::ai::bump_cols(self.field.irows(), self.field.iw(), 0),
    {
        let ghost rows = self.field.irows();
        let ghost iw = self.field.iw();
        let heights = crate::ai::column_heights(&self.field);
        let holes = crate::ai::count_holes(&self.field, &heights);
        let bump = crate::ai::bumpiness(&heights);
        proof {
            crate::ai::lemma_bump_eq(heights@, rows, iw, 0);
        }
        let mut maxh: i32 = 0;
        let mut c: usize = 0;
        while c < heights.len()
            invariant
                heights.len() == iw,
                forall|k: int| 0 <= k < iw ==> #[trigger] heights[k] == crate::ai::col_height(
                    rows,
                    k,
                ),
                forall|k: int| 0 <= k < iw ==> 0 <= #[trigger] heights[k] <= 64,
                c <= iw,
                maxh == crate::ai::max_cols_prefix(rows, c as int),
                0 <= maxh <= 64,
            decreases heights.len() - c,
        {
            if heights[c] > maxh {
                maxh = heights[c];
            }
            c = c + 1;
        }
        proof {
            crate::ai::lemma_max_prefix_total(rows, iw, iw);
        }
        BoardStats { max_height: maxh, holes, bumpiness: bump }
    }

    /// Write the active piece into the grid with value `piece + 1` and
    /// finish the piece lifecycle: score and piece count advance (25 points
    /// a lock, saturating), the fall speed quickens every tenth piece down
    /// to its floor, the touched complete rows are marked and recorded, the
    /// analytics counters and rolling history update, and the next piece
    /// spawns. The game ends exactly when the spawned piece collides.
    #[verifier::rlimit(100)]
    fn lock_piece(&mut self)
        requires
            old(self).wf(),
            !old(self).game_over,
            old(self).lines_to_clear@.len() == 0,
        ensures
            final(self).wf(),
            lock_rel(*old(self), *final(self)),
    {
        let ghost pre = *old(self);
        let ghost srows = stamped_rows(
            pre.field.irows(),
            pre.current_piece as int,
            pre.current_rotation as int,
            pre.current_x as int,
            pre.current_y as int,
        );
        stamp_piece(
            &mut self.field,
            self.current_piece,
            self.current_rotation,
            self.current_x,
            self.current_y,
        );
        proof {
            assert(self.field.irows() == srows);
            assert forall|cy: int|
                0 <= cy < pre.field.ih() && !(pre.current_y <= cy < pre.current_y
                    + 4) implies #[trigger] srows[cy] == pre.field.irow(cy) by {
                assert(srows[cy] =~= pre.field.irow(cy));
            }
        }
        self.score = if self.score > u32::MAX - 25 {
            u32::MAX
        } else {
            self.score + 25
        };
        self.piece_count = if self.piece_count == u32::MAX {
            u32::MAX
        } else {
            self.piece_count + 1
        };
        if self.piece_count % 10 == 0 && self.speed > 10 {
            self.speed = self.speed - 1;
        }
        let y0 = self.current_y;
        let mut py: usize = 0;
        while py < 4
            invariant
                pre.wf(),
                !pre.game_over,
                pre.lines_to_clear@.len() == 0,
                self.field.wf(),
                self.field.width == pre.field.width,
                self.field.height == pre.field.height,
                py <= 4,
                y0 == pre.current_y,
                0 <= y0 <= self.field.height,
                srows.len() == self.field.ih(),
                forall|cy: int|
                    0 <= cy < self.field.ih() ==> #[trigger] srows[cy].len() == self.field.iw(),
                forall|cy: int|
                    0 <= cy < self.field.ih() && !(y0 <= cy < y0 + 4) ==> #[trigger] srows[cy]
                        == pre.field.irow(cy),
                forall|cy: int|
                    0 <= cy < self.field.ih() ==> #[trigger] self.field.irow(cy) == (if y0 <= cy
                        < y0 + py && row_complete(srows[cy]) {
                        marked_row(self.field.iw())
                    } else {
                        srows[cy]
                    }),
                self.lines_to_clear@ + pending_rows_spec(srows, y0 as int, py as int)
                    == pending_rows_spec(srows, y0 as int, 0),
                forall|i: int|
                    0 <= i < self.lines_to_clear@.len() ==> #[trigger] self.lines_to_clear@[i]
                        < self.field.ih(),
                self.score == sat_add32(pre.score, 25),
                self.piece_count == sat_add32(pre.piece_count, 1),
                self.speed == (if self.piece_count % 10 == 0 && pre.speed > 10 {
                    (pre.speed - 1) as u32
                } else {
                    pre.speed
                }),
                self.speed_counter == pre.speed_counter,
                self.current_piece == pre.current_piece,
                self.current_rotation == pre.current_rotation,
                self.current_x == pre.current_x,
                self.current_y == pre.current_y,
                self.next_piece == pre.next_piece,
                self.game_over == pre.game_over,
                self.paused == pre.paused,
                self.ai_mode == pre.ai_mode,
                self.ai_target_rotation == pre.ai_target_rotation,
                self.ai_target_x == pre.ai_target_x,
                self.lines_cleared == pre.lines_cleared,
                self.singles == pre.singles,
                self.doubles == pre.doubles,
                self.triples == pre.triples,
                self.tetrises == pre.tetrises,
                self.lines_history@ == pre.lines_history@,
                self.weights == pre.weights,
            decreases 4 - py,
        {
            let ghost lpre = *self;
            let fy = y0 + py as i32;
            if fy < (self.field.height - 1) as i32 {
                let fyu = fy as usize;
                proof {
                    assert(self.field.irow(fyu as int) == srows[fyu as int]);
                }
                let complete = self.field.row_full(fyu);
                if complete {
                    mark_row(&mut self.field, fyu);
                    self.lines_to_clear.push(fyu);
                    proof {
                        assert(self.lines_to_clear@ =~= lpre.lines_to_clear@ + seq![fyu]);
                        assert((lpre.lines_to_clear@ + seq![fyu]) + pending_rows_spec(
                            srows,
                            y0 as int,
                            py + 1,
                        ) =~= lpre.lines_to_clear@ + (seq![fyu] + pending_rows_spec(
                            srows,
                            y0 as int,
                            py + 1,
                        )));
                        assert(pending_rows_spec(srows, y0 as int, py as int) == seq![fyu]
                            + pending_rows_spec(srows, y0 as int, py + 1));
                        assert forall|cy: int| 0 <= cy < self.field.ih() implies #[trigger] self.field.irow(
                            cy,
                        ) == (if y0 <= cy < y0 + py + 1 && row_complete(srows[cy]) {
                            marked_row(self.field.iw())
                        } else {
                            srows[cy]
                        }) by {
                            if cy != fyu as int {
                                assert(self.field.irow(cy) == lpre.field.irow(cy));
                            }
                        }
                    }
                } else {
                    proof {
                        assert(pending_rows_spec(srows, y0 as int, py as int)
                            == pending_rows_spec(srows, y0 as int, py + 1));
                    }
                }
            } else {
                proof {
                    assert(pending_rows_spec(srows, y0 as int, py as int) == pending_rows_spec(
                        srows,
                        y0 as int,
                        py + 1,
                    ));
                }
            }
            py = py + 1;
        }
        proof {
            lemma_pending_len(srows, y0 as int, 0);
            assert(self.lines_to_clear@ + Seq::<usize>::empty() =~= self.lines_to_clear@);
            assert(self.lines_to_clear@ == pending_rows_spec(srows, y0 as int, 0));
            assert(self.field.irows() =~~= mark_rows_spec(srows, y0 as int));
        }
        let n_us = self.lines_to_clear.len();
        let n = n_us as u32;
        self.lines_cleared = if self.lines_cleared > u32::MAX - n {
            u32::MAX
        } else {
            self.lines_cleared + n
        };
        if n == 1 {
            self.singles = if self.singles == u32::MAX {
                u32::MAX
            } else {
                self.singles + 1
            };
        } else if n == 2 {
            self.doubles = if self.doubles == u32::MAX {
                u32::MAX
            } else {
                self.doubles + 1
            };
        } else if n == 3 {
            self.triples = if self.triples == u32::MAX {
                u32::MAX
            } else {
                self.triples + 1
            };
        } else if n >= 4 {
            self.tetrises = if self.tetrises == u32::MAX {
                u32::MAX
            } else {
                self.tetrises + 1
            };
        }
        let ghost hist_pre = self.lines_history@;
        if self.lines_history.len() >= 20 {
            let _ = self.lines_history.remove(0);
            proof {
                assert(self.lines_history@ =~= hist_pre.drop_first());
            }
        }
        self.lines_history.push(n as u8);
        self.current_piece = self.next_piece;
        self.current_rotation = 0;
        self.current_x = (self.field.width / 2) as i32 - 2;
        self.current_y = 0;
        self.next_piece = crate::rng::random_piece();
        let fit = piece_fits_field(
            &self.field,
            self.current_piece,
            self.current_rotation,
            self.current_x,
            self.current_y,
        );
        if !fit {
            self.game_over = true;
        }
        proof {
            let iw = self.field.iw();
            let ih = self.field.ih();
            assert forall|y: int|
                0 <= y < ih implies (row_complete(#[trigger] self.field.irow(y))
                <==> self.pending_has(y)) by {
                lemma_pending_iff(srows, y0 as int, 0, y);
                let pend = pending_rows_spec(srows, y0 as int, 0);
                if y0 <= y < y0 + 4 && row_complete(srows[y]) {
                    assert(self.field.irow(y) == marked_row(iw));
                    assert(marked_row(iw)[0] != 0);
                    assert(row_complete(marked_row(iw)));
                    let i = choose|i: int| 0 <= i < pend.len() && pend[i] == y;
                    assert(self.lines_to_clear@[i] == y);
                    assert(self.pending_has(y));
                } else {
                    assert(self.field.irow(y) == srows[y]);
                    if !(y0 <= y < y0 + 4) {
                        assert(srows[y] == pre.field.irow(y));
                        assert(!pre.pending_has(y));
                        assert(!row_complete(pre.field.irow(y)));
                    }
                }
            }
            if !self.game_over {
                crate::field::lemma_fits_inside(
                    self.field.irows(),
                    iw,
                    self.current_piece as int,
                    self.current_rotation as int,
                    self.current_x as int,
                    self.current_y as int,
                );
            }
            assert(self.wf());
        }
    }

    /// Compact the marked rows: score the bonus, remove the rows, empty the
    /// pending list.
    fn clear_lines(&mut self)
        requires
            old(self).wf(),
            !old(self).game_over,
            !old(self).paused,
            old(self).lines_to_clear@.len() > 0,
        ensures
            final(self).wf(),
            compact_rel(*old(self), *final(self)),
    {
        let n = self.lines_to_clear.len();
        let bonus: u32 = if n == 0 {
            100
        } else if n == 1 {
            200
        } else if n == 2 {
            400
        } else if n == 3 {
            800
        } else {
            1600
        };
        self.score = if self.score > u32::MAX - bonus {
            u32::MAX
        } else {
            self.score + bonus
        };
        let _ = crate::field::clear_lines_sim(&mut self.field);
        self.lines_to_clear = Vec::new();
        proof {
            let iw = self.field.iw();
            crate::field::lemma_filter_elems(old(self).field.irows());
            crate::field::lemma_filter_len(old(self).field.irows());
            crate::field::lemma_empty_incomplete(iw);
            assert forall|y: int| 0 <= y < self.field.ih() implies !row_complete(
                #[trigger] self.field.irow(y),
            ) by {
                let k = crate::field::cleared_count(old(self).field.irows());
                assert(self.field.irow(y) == self.field.irows()[y]);
                if y < k {
                    assert(self.field.irows()[y] == crate::field::empty_row(iw));
                } else {
                    assert(self.field.irows()[y] == crate::field::filter_incomplete(
                        old(self).field.irows(),
                    )[y - k]);
                }
            }
            assert(self.wf());
        }
    }

    /// The periodic step: a no-op when over or paused; compaction when rows
    /// are pending; otherwise the speed counter advances and, on reaching
    /// the speed threshold, gravity forces the piece down one row or locks
    /// it.
    pub fn tick(&mut self)
        requires
            old(self).wf(),
        ensures
            final(self).wf(),
            (old(self).game_over || old(self).paused) ==> *final(self) == *old(self),
            (!old(self).game_over && !old(self).paused && old(self).lines_to_clear@.len() > 0)
                ==> compact_rel(*old(self), *final(self)),
            (old(self).can_act() && old(self).speed_counter + 1 < old(self).speed) ==> *final(self)
                == (GameState { speed_counter: (old(self).speed_counter + 1) as u32, ..*old(self) }),
            (old(self).can_act() && old(self).speed_counter + 1 >= old(self).speed) ==> force_rel(
                (GameState { speed_counter: 0u32, ..*old(self) }),
                *final(self),
            ),
    {
        if self.game_over || self.paused {
            return ;
        }
        if self.lines_to_clear.len() > 0 {
            self.clear_lines();
            return ;
        }
        self.speed_counter = self.speed_counter + 1;
        if self.speed_counter >= self.speed {
            self.speed_counter = 0;
            self.force_down();
        }
    }

    /// Gravity: descend one row or lock.
    fn force_down(&mut self)
        requires
            old(self).wf(),
            !old(self).game_over,
            !old(self).paused,
            old(self).lines_to_clear@.len() == 0,
        ensures
            final(self).wf(),
            force_rel(*old(self), *final(self)),
    {
        if self.does_piece_fit(
            self.current_piece,
            self.current_rotation,
            self.current_x,
            self.current_y + 1,
        ) {
            self.current_y = self.current_y + 1;
            proof {
                crate::field::lemma_fits_origin(
                    self.field.irows(),
                    self.field.iw(),
                    self.current_piece as int,
                    self.current_rotation as int,
                    self.current_x as int,
                    self.current_y as int,
                );
            }
        } else {
            self.lock_piece();
        }
    }

    /// Soft drop: one gravity step on demand; a no-op in an inactive state.
    pub fn move_down(&mut self)
        requires
            old(self).wf(),
        ensures
            final(self).wf(),
            !old(self).can_act() ==> *final(self) == *old(self),
            old(self).can_act() ==> force_rel(*old(self), *final(self)),
    {
        if self.game_over || self.paused || self.lines_to_clear.len() > 0 {
            return ;
        }
        self.force_down();
    }

    /// Hard drop: the piece falls to its resting row and locks immediately;
    /// a no-op in an inactive state.
    pub fn hard_drop(&mut self)
        requires
            old(self).wf(),
        ensures
            final(self).wf(),
            !old(self).can_act() ==> *final(self) == *old(self),
            old(self).can_act() ==> hard_drop_rel(*old(self), *final(self)),
    {
        if self.game_over || self.paused || self.lines_to_clear.len() > 0 {
            return ;
        }
        let ghost rows = self.field.irows();
        let ghost iw = self.field.iw();
        let d = drop_row(
            &self.field,
            self.current_piece,
            self.current_rotation,
            self.current_x,
            self.current_y,
        );
        proof {
            if fits_rows(rows, iw, self.current_piece as int, self.current_rotation as int,
            self.current_x as int, self.current_y + 1) {
                crate::ai::lemma_drop_fits(rows, iw, self.current_piece as int,
                self.current_rotation as int, self.current_x as int, self.current_y + 1);
                crate::field::lemma_fits_inside(rows, iw, self.current_piece as int,
                self.current_rotation as int, self.current_x as int, d as int);
            }
        }
        self.current_y = d;
        self.lock_piece();
    }

    /// One automated-play step: drain pending compaction first; otherwise
    /// rotate toward the target, slide up to two columns toward it, and
    /// hard-drop once aligned. Gravity is suppressed while aligning.
    pub fn ai_step(&mut self)
        requires
            old(self).wf(),
        ensures
            final(self).wf(),
            (old(self).game_over || old(self).paused) ==> *final(self) == *old(self),
            (!old(self).game_over && !old(self).paused && old(self).lines_to_clear@.len() > 0)
                ==> compact_rel(*old(self), *final(self)),
            old(self).can_act() ==> ai_step_rel(*old(self), *final(self)),
    {
        let ghost pre = *old(self);
        if self.game_over || self.paused {
            return ;
        }
        if self.lines_to_clear.len() > 0 {
            self.clear_lines();
            return ;
        }
        if self.current_rotation != self.ai_target_rotation {
            self.rotate_piece();
        }
        let ghost m1 = *self;
        if self.current_x < self.ai_target_x {
            self.move_right();
        } else if self.current_x > self.ai_target_x {
            self.move_left();
        }
        let ghost m2 = *self;
        if self.current_x < self.ai_target_x {
            self.move_right();
        } else if self.current_x > self.ai_target_x {
            self.move_left();
        }
        let ghost m3 = *self;
        if self.current_rotation == self.ai_target_rotation && self.current_x == self.ai_target_x {
            self.hard_drop();
        }
        proof {
            assert(rotate_step_rel(pre, m1));
            assert(slide_rel(m1, m2));
            assert(slide_rel(m2, m3));
            assert(ai_step_rel(pre, *self));
        }
    }

    /// Store the automated player's chosen target placement.
    pub fn set_ai_target(&mut self, rotation: usize, x: i32)
        requires
            old(self).wf(),
        ensures
            final(self).wf(),
            *final(self) == (GameState {
                ai_target_rotation: rotation,
                ai_target_x: x,
                ..*old(self)
            }),
    {
        self.ai_target_rotation = rotation;
        self.ai_target_x = x;
        proof {
            assert(self.field == old(self).field);
            assert forall|y: int| 0 <= y < self.field.ih() implies (row_complete(
                #[trigger] self.field.irow(y),
            ) <==> self.pending_has(y)) by {
                assert(row_complete(old(self).field.irow(y)) <==> old(self).pending_has(y));
                if old(self).pending_has(y) {
                    let i = choose|i: int|
                        0 <= i < old(self).lines_to_clear@.len() && old(self).lines_to_clear@[i]
                            == y;
                    assert(self.lines_to_clear@[i] == y);
                    assert(self.pending_has(y));
                }
                if self.pending_has(y) {
                    let i = choose|i: int|
                        0 <= i < self.lines_to_clear@.len() && self.lines_to_clear@[i] == y;
                    assert(old(self).lines_to_clear@[i] == y);
                    assert(old(self).pending_has(y));
                }
            }
        }
    }
}

} // verus!
