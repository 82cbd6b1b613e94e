//! Resources and building footprints.

use vstd::prelude::*;

use crate::grid::{grid_wf, gview, max_row_len, Grid};

verus! {

/// The kinds of resource cube a board cell can require or hold.
#[derive(Clone, Copy, Debug, PartialEq, Eq, Structural)]
pub enum Resource {
    Brick,
    Glass,
    Stone,
    Wheat,
    Wood,
}

/// One orientation of a building's footprint: a grid of cells, each either a
/// gap (`None`, transparent to matching) or a required resource, together
/// with the grid's derived width (longest row) and height (row count).
pub struct Pattern {
    pub coords: Vec<Vec<Option<Resource>>>,
    pub width: u8,
    pub height: u8,
}

impl Pattern {
    /// The mathematical grid this pattern stands for.
    pub open spec fn grid(&self) -> Grid {
        gview(self.coords@)
    }

    /// A well-formed pattern is a non-empty rectangular grid whose recorded
    /// width and height agree with the grid itself.
    pub open spec fn wf(&self) -> bool {
        &&& self.coords@.len() == self.height as int
        &&& 0 < self.height
        &&& 0 < self.width
        &&& forall|i: int|
            0 <= i < self.coords@.len() ==> (#[trigger] self.coords@[i])@.len()
                == self.width as int
    }

    /// Wraps a grid of cells, recording its height (row count) and width
    /// (longest row length).
    pub fn new(coords: Vec<Vec<Option<Resource>>>) -> (p: Pattern)
        requires
            0 < coords@.len() <= 255,
            forall|i: int| 0 <= i < coords@.len() ==> (#[trigger] coords@[i])@.len() <= 255,
        ensures
            p.coords@ == coords@,
            p.grid() == gview(coords@),
            p.height as int == coords@.len(),
            p.width as int == max_row_len(gview(coords@)),
    {
        let mut width: u8 = 0;
        let mut i: usize = 0;
        while i < coords.len()
            invariant
                0 <= i <= coords@.len(),
                coords@.len() <= 255,
                forall|k: int| 0 <= k < coords@.len() ==> (#[trigger] coords@[k])@.len() <= 255,
                width as int == max_row_len(gview(coords@).take(i as int)),
            decreases coords@.len() - i,
        {
            proof {
                assert(gview(coords@).take(i + 1).drop_last() =~= gview(coords@).take(i as int));
                assert(gview(coords@).take(i + 1).last() == coords@[i as int]@);
            }
            let row_len = coords[i].len();
            if row_len > width as usize {
                width = row_len as u8;
            }
            i += 1;
        }
        proof {
            assert(gview(coords@).take(coords@.len() as int) =~= gview(coords@));
        }
        let height = coords.len() as u8;
        Pattern { coords, width, height }
    }

    /// A well-formed pattern's grid is a well-formed grid whose dimensions
    /// are the pattern's recorded width and height.
    pub proof fn lemma_wf_grid(&self)
        requires
            self.wf(),
        ensures
            grid_wf(self.grid()),
            self.grid().len() == self.height as int,
            self.grid()[0].len() == self.width as int,
    {
        assert(gview(self.coords@)[0] == self.coords@[0]@);
        assert forall|i: int|
            0 <= i < self.grid().len() implies (#[trigger] self.grid()[i]).len()
            == self.grid()[0].len() by {
            assert(gview(self.coords@)[i] == self.coords@[i]@);
        }
    }

    /// Structural equality of two patterns' grids: true exactly when the two
    /// cell grids are identical element for element.
    pub fn same_grid(&self, other: &Pattern) -> (r: bool)
        ensures
            r == (self.grid() == other.grid()),
    {
        crate::grid::grid_eq(&self.coords, &other.coords)
    }
}

} // verus!
