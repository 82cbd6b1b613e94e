//! The 4x4 game board: a grid of optional pieces with bounds- and
//! occupancy-checked placement.

use vstd::prelude::*;

use crate::building::{anchor_ok, template, Building};
use crate::grid::{grid_wf, Grid};
use crate::pattern::Resource;

verus! {

pub const BOARD_WIDTH: u8 = 4;

pub const BOARD_HEIGHT: u8 = 4;

/// The contents of an occupied board cell: a resource cube or a completed
/// building.
#[derive(Clone, Copy, Debug, PartialEq, Eq, Structural)]
pub enum Piece {
    Cube(Resource),
    Structure(Building),
}

/// The two recoverable placement errors.
#[derive(Clone, Copy, Debug, PartialEq, Eq, Structural)]
pub enum TinyTownsError {
    /// Attempting to place a piece in an occupied location.
    Occupied,
    /// Given coordinates are out of bounds of the board.
    OutOfBounds,
}

/// The cell index behind coordinate `(x, y)`: `x` is the major axis.
pub open spec fn board_index(x: u8, y: u8) -> int {
    x * BOARD_WIDTH + y
}

/// Whether `(x, y)` addresses a cell of the board.
pub open spec fn in_bounds(x: u8, y: u8) -> bool {
    x < BOARD_WIDTH && y < BOARD_HEIGHT
}

/// What a single placement does: out-of-bounds and occupied placements fail
/// and leave the board unchanged; otherwise the one addressed cell is filled
/// with the piece.
pub open spec fn place_result(
    pre: Seq<Option<Piece>>,
    post: Seq<Option<Piece>>,
    r: Result<(), TinyTownsError>,
    x: u8,
    y: u8,
    p: Piece,
) -> bool {
    if !in_bounds(x, y) {
        r == Err::<(), TinyTownsError>(TinyTownsError::OutOfBounds) && post == pre
    } else if pre[board_index(x, y)] is Some {
        r == Err::<(), TinyTownsError>(TinyTownsError::Occupied) && post == pre
    } else {
        r == Ok::<(), TinyTownsError>(()) && post == pre.update(
            board_index(x, y),
            Some(p),
        )
    }
}

/// The game board: 16 cells, each empty or holding one piece.  Cells are
/// created empty and transition to occupied at most once; no operation
/// removes or replaces a piece.
pub struct Board {
    pub board: Vec<Option<Piece>>,
}

impl Board {
    /// A board always holds exactly width times height cells.
    pub open spec fn wf(&self) -> bool {
        self.board@.len() == 16
    }

    /// Creates an empty board.
    pub fn new() -> (b: Board)
        ensures
            b.wf(),
            forall|i: int| 0 <= i < 16 ==> b.board@[i] is None,
    {
        let mut cells: Vec<Option<Piece>> = Vec::new();
        let mut i: usize = 0;
        while i < 16
            invariant
                0 <= i <= 16,
                cells@.len() == i,
                forall|k: int| 0 <= k < i ==> cells@[k] is None,
            decreases 16 - i,
        {
            cells.push(None);
            i += 1;
        }
        Board { board: cells }
    }

    /// The index of the cell addressed by `(x, y)`.
    pub fn get_board_index(&self, x: u8, y: u8) -> (i: u8)
        requires
            in_bounds(x, y),
        ensures
            i as int == board_index(x, y),
            i < 16,
    {
        x * BOARD_WIDTH + y
    }

    /// The piece at `(x, y)`, if any.  Assumes the caller has already
    /// validated the coordinates.
    pub fn get_piece(&self, x: u8, y: u8) -> (p: Option<Piece>)
        requires
            self.wf(),
            in_bounds(x, y),
        ensures
            p == self.board@[board_index(x, y)],
    {
        let index = self.get_board_index(x, y) as usize;
        self.board[index]
    }

    /// Places a resource cube at `(x, y)`.
    pub fn place_piece(&mut self, x: u8, y: u8, resource: Resource) -> (r: Result<
        (),
        TinyTownsError,
    >)
        requires
            old(self).wf(),
        ensures
            final(self).wf(),
            place_result(
                old(self).board@,
                final(self).board@,
                r,
                x,
                y,
                Piece::Cube(resource),
            ),
    {
        self.place(x, y, Piece::Cube(resource))
    }

    /// Places a completed building at `(x, y)`.
    pub fn place_building(&mut self, x: u8, y: u8, building: Building) -> (r: Result<
        (),
        TinyTownsError,
    >)
        requires
            old(self).wf(),
        ensures
            final(self).wf(),
            place_result(
                old(self).board@,
                final(self).board@,
                r,
                x,
                y,
                Piece::Structure(building),
            ),
    {
        self.place(x, y, Piece::Structure(building))
    }

    /// Places a piece at `(x, y)`: rejects coordinates off the board and
    /// cells that already hold a piece.
    fn place(&mut self, x: u8, y: u8, piece: Piece) -> (r: Result<(), TinyTownsError>)
        requires
            old(self).wf(),
        ensures
            final(self).wf(),
            place_result(old(self).board@, final(self).board@, r, x, y, piece),
    {
        if x >= BOARD_WIDTH || y >= BOARD_HEIGHT {
            return Err(TinyTownsError::OutOfBounds);
        }
        let index = self.get_board_index(x, y) as usize;
        if self.board[index].is_some() {
            return Err(TinyTownsError::Occupied);
        }
        self.board.set(index, Some(piece));
        Ok(())
    }

    /// Places a brick cube at `(x, y)`.
    pub fn place_brick(&mut self, x: u8, y: u8) -> (r: Result<(), TinyTownsError>)
        requires
            old(self).wf(),
        ensures
            final(self).wf(),
            place_result(
                old(self).board@,
                final(self).board@,
                r,
                x,
                y,
                Piece::Cube(Resource::Brick),
            ),
    {
        self.place_piece(x, y, Resource::Brick)
    }

    /// Places a glass cube at `(x, y)`.
    pub fn place_glass(&mut self, x: u8, y: u8) -> (r: Result<(), TinyTownsError>)
        requires
            old(self).wf(),
        ensures
            final(self).wf(),
            place_result(
                old(self).board@,
                final(self).board@,
                r,
                x,
                y,
                Piece::Cube(Resource::Glass),
            ),
    {
        self.place_piece(x, y, Resource::Glass)
    }

    /// Places a stone cube at `(x, y)`.
    pub fn place_stone(&mut self, x: u8, y: u8) -> (r: Result<(), TinyTownsError>)
        requires
            old(self).wf(),
        ensures
            final(self).wf(),
            place_result(
                old(self).board@,
                final(self).board@,
                r,
                x,
                y,
                Piece::Cube(Resource::Stone),
            ),
    {
        self.place_piece(x, y, Resource::Stone)
    }

    /// Places a wheat cube at `(x, y)`.
    pub fn place_wheat(&mut self, x: u8, y: u8) -> (r: Result<(), TinyTownsError>)
        requires
            old(self).wf(),
        ensures
            final(self).wf(),
            place_result(
                old(self).board@,
                final(self).board@,
                r,
                x,
                y,
                Piece::Cube(Resource::Wheat),
            ),
    {
        self.place_piece(x, y, Resource::Wheat)
    }

    /// Places a wood cube at `(x, y)`.
    pub fn place_wood(&mut self, x: u8, y: u8) -> (r: Result<(), TinyTownsError>)
        requires
            old(self).wf(),
        ensures
            final(self).wf(),
            place_result(
                old(self).board@,
                final(self).board@,
                r,
                x,
                y,
                Piece::Cube(Resource::Wood),
            ),
    {
        self.place_piece(x, y, Resource::Wood)
    }
}

/// What it means for a sequence of template cells to be placeable on board
/// `b` in order, with one `place_piece` call per required resource: every
/// required cell is in bounds and empty when its turn comes, gaps are
/// skipped.  Each step updates the board exactly as `place_result` says a
/// successful `place_piece` does.
pub open spec fn all_places_ok(
    b: Seq<Option<Piece>>,
    cells: Seq<((u8, u8), Option<Resource>)>,
) -> bool
    decreases cells.len(),
{
    if cells.len() == 0 {
        true
    } else {
        let xy = cells[0].0;
        match cells[0].1 {
            Option::None => all_places_ok(b, cells.drop_first()),
            Option::Some(rr) => {
                &&& in_bounds(xy.0, xy.1)
                &&& b[board_index(xy.0, xy.1)] is None
                &&& all_places_ok(
                    b.update(board_index(xy.0, xy.1), Some(Piece::Cube(rr))),
                    cells.drop_first(),
                )
            },
        }
    }
}

/// Cells at distinct in-bounds coordinates, each empty on the board, can be
/// placed one after the other without ever hitting an occupied cell.
proof fn lemma_places_ok(b: Seq<Option<Piece>>, cells: Seq<((u8, u8), Option<Resource>)>)
    requires
        b.len() == 16,
        forall|m: int|
            0 <= m < cells.len() ==> in_bounds((#[trigger] cells[m]).0.0, cells[m].0.1),
        forall|m1: int, m2: int| 0 <= m1 < m2 < cells.len() ==> cells[m1].0 != cells[m2].0,
        forall|m: int|
            0 <= m < cells.len() && (#[trigger] cells[m]).1 is Some ==> b[board_index(
                cells[m].0.0,
                cells[m].0.1,
            )] is None,
    ensures
        all_places_ok(b, cells),
    decreases cells.len(),
{
    if cells.len() == 0 {
    } else {
        let rest = cells.drop_first();
        let xy = cells[0].0;
        assert(in_bounds(xy.0, xy.1));
        assert forall|m: int| 0 <= m < rest.len() implies in_bounds(
            (#[trigger] rest[m]).0.0,
            rest[m].0.1,
        ) by {
            assert(rest[m] == cells[m + 1]);
        }
        assert forall|m1: int, m2: int| 0 <= m1 < m2 < rest.len() implies rest[m1].0
            != rest[m2].0 by {
            assert(rest[m1] == cells[m1 + 1] && rest[m2] == cells[m2 + 1]);
        }
        match cells[0].1 {
            Option::None => {
                assert forall|m: int|
                    0 <= m < rest.len() && (#[trigger] rest[m]).1 is Some implies b[board_index(
                    rest[m].0.0,
                    rest[m].0.1,
                )] is None by {
                    assert(rest[m] == cells[m + 1]);
                }
                lemma_places_ok(b, rest);
            },
            Option::Some(rr) => {
                let b2 = b.update(board_index(xy.0, xy.1), Some(Piece::Cube(rr)));
                assert forall|m: int|
                    0 <= m < rest.len() && (#[trigger] rest[m]).1 is Some implies b2[board_index(
                    rest[m].0.0,
                    rest[m].0.1,
                )] is None by {
                    assert(rest[m] == cells[m + 1]);
                    assert(cells[m + 1].0 != xy);
                    assert(board_index(rest[m].0.0, rest[m].0.1) != board_index(xy.0, xy.1));
                }
                lemma_places_ok(b2, rest);
            },
        }
    }
}

/// Placing a building's template on an empty board always succeeds: every
/// cell the Placement Enumerator emits for a fitting anchor is in bounds,
/// and no two entries of one template address the same cell, so the cube
/// placements it calls for never return `OutOfBounds` or `Occupied`.
pub proof fn lemma_template_placement_succeeds(g: Grid, x: int, y: int, b: Seq<Option<Piece>>)
    requires
        grid_wf(g),
        anchor_ok(g, x, y),
        b.len() == 16,
        forall|i: int| 0 <= i < 16 ==> b[i] is None,
    ensures
        all_places_ok(b, template(g, x, y)),
{
    let t = template(g, x, y);
    let w = g[0].len() as int;
    let h = g.len() as int;
    crate::building::lemma_template_in_bounds(g, x, y);
    assert forall|m: int| 0 <= m < t.len() implies in_bounds(
        (#[trigger] t[m]).0.0,
        t[m].0.1,
    ) by {}
    assert forall|m1: int, m2: int| 0 <= m1 < m2 < t.len() implies t[m1].0 != t[m2].0 by {
        vstd::arithmetic::div_mod::lemma_mod_bound(m1, w);
        vstd::arithmetic::div_mod::lemma_mod_bound(m2, w);
        vstd::arithmetic::div_mod::lemma_fundamental_div_mod(m1, w);
        vstd::arithmetic::div_mod::lemma_fundamental_div_mod(m2, w);
        assert(0 <= m1 / w && 0 <= m2 / w) by (nonlinear_arith)
            requires
                0 <= m1,
                0 <= m2,
                0 < w,
        ;
        assert(m1 / w < h && m2 / w < h) by (nonlinear_arith)
            requires
                m1 < h * w,
                m2 < h * w,
                0 < w,
                m1 == w * (m1 / w) + m1 % w,
                m2 == w * (m2 / w) + m2 % w,
                0 <= m1 % w < w,
                0 <= m2 % w < w,
        ;
        if t[m1].0 == t[m2].0 {
            assert(0 <= x + m1 % w < 4 && 0 <= x + m2 % w < 4);
            assert(0 <= y + m1 / w < 4 && 0 <= y + m2 / w < 4);
            assert(m1 % w == m2 % w && m1 / w == m2 / w);
            assert(false);
        }
    }
    lemma_places_ok(b, t);
}

} // verus!
