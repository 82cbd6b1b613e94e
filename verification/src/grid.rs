//! Grids of optional resources and the eight symmetries of a square.
//!
//! A footprint is modelled as a `Seq` of rows, each a `Seq` of cells.  The
//! three generating transformations are `flip_h` (reverse the order of the
//! rows), `flip_v` (reverse the cells within each row) and `transpose`
//! (swap rows and columns).  Together they generate the dihedral group of
//! order eight, whose orbit of a grid is the set of its distinct
//! orientations.

use vstd::prelude::*;

use crate::pattern::Resource;

verus! {

broadcast use vstd::set::axiom_set_insert_len, vstd::set::axiom_set_empty_len;

/// The mathematical view of a footprint grid: a sequence of rows of cells.
pub type Grid = Seq<Seq<Option<Resource>>>;

/// The view of an executable grid.
pub open spec fn gview(g: Seq<Vec<Option<Resource>>>) -> Grid {
    g.map_values(|row: Vec<Option<Resource>>| row@)
}

/// The length of the longest row of a grid.
pub open spec fn max_row_len(g: Grid) -> int
    decreases g.len(),
{
    if g.len() == 0 {
        0
    } else {
        let m = max_row_len(g.drop_last());
        if g.last().len() > m {
            g.last().len() as int
        } else {
            m
        }
    }
}

/// A well-formed grid is non-empty and rectangular, with both dimensions
/// small enough to record in a byte.
pub open spec fn grid_wf(g: Grid) -> bool {
    &&& 0 < g.len() <= 255
    &&& 0 < g[0].len() <= 255
    &&& forall|i: int| 0 <= i < g.len() ==> (#[trigger] g[i]).len() == g[0].len()
}

/// On a rectangular grid the longest row is any row.
pub proof fn lemma_max_row_len_rect(g: Grid)
    requires
        g.len() > 0,
        forall|i: int| 0 <= i < g.len() ==> (#[trigger] g[i]).len() == g[0].len(),
    ensures
        max_row_len(g) == g[0].len(),
    decreases g.len(),
{
    if g.len() == 1 {
        assert(g.drop_last().len() == 0);
        assert(max_row_len(g.drop_last()) == 0);
        assert(g.last() == g[0]);
    } else {
        assert forall|i: int|
            0 <= i < g.drop_last().len() implies (#[trigger] g.drop_last()[i]).len()
            == g.drop_last()[0].len() by {
            assert(g.drop_last()[i] == g[i]);
            assert(g.drop_last()[0] == g[0]);
        }
        lemma_max_row_len_rect(g.drop_last());
        assert(g.drop_last()[0] == g[0]);
        assert(g.last() == g[g.len() - 1]);
    }
}

/// Mirror a grid top to bottom: reverse the order of its rows.
pub open spec fn flip_h(g: Grid) -> Grid {
    Seq::new(g.len(), |i: int| g[g.len() - 1 - i])
}

/// Reverse one row of cells.
pub open spec fn rev_row(r: Seq<Option<Resource>>) -> Seq<Option<Resource>> {
    Seq::new(r.len(), |j: int| r[r.len() - 1 - j])
}

/// Mirror a grid left to right: reverse the cells within each row.
pub open spec fn flip_v(g: Grid) -> Grid {
    Seq::new(g.len(), |i: int| rev_row(g[i]))
}

/// Swap rows and columns: row `i`, column `j` of the result is row `j`,
/// column `i` of the argument.
pub open spec fn transpose(g: Grid) -> Grid {
    Seq::new(g[0].len(), |i: int| Seq::new(g.len(), |j: int| g[j][i]))
}

pub proof fn lemma_flip_h_wf(g: Grid)
    requires
        grid_wf(g),
    ensures
        grid_wf(flip_h(g)),
        flip_h(g).len() == g.len(),
        flip_h(g)[0].len() == g[0].len(),
{
}

pub proof fn lemma_flip_v_wf(g: Grid)
    requires
        grid_wf(g),
    ensures
        grid_wf(flip_v(g)),
        flip_v(g).len() == g.len(),
        flip_v(g)[0].len() == g[0].len(),
{
}

pub proof fn lemma_transpose_wf(g: Grid)
    requires
        grid_wf(g),
    ensures
        grid_wf(transpose(g)),
        transpose(g).len() == g[0].len(),
        transpose(g)[0].len() == g.len(),
{
}

/// Reversing the rows twice gives the grid back.
pub proof fn lemma_flip_h_flip_h(g: Grid)
    ensures
        flip_h(flip_h(g)) == g,
{
    assert(flip_h(flip_h(g)) =~= g);
}

/// Reversing the cells of every row twice gives the grid back.
pub proof fn lemma_flip_v_flip_v(g: Grid)
    ensures
        flip_v(flip_v(g)) == g,
{
    assert forall|i: int| 0 <= i < g.len() implies flip_v(flip_v(g))[i] == g[i] by {
        assert(rev_row(rev_row(g[i])) =~= g[i]);
    }
    assert(flip_v(flip_v(g)) =~= g);
}

/// The two mirror flips commute.
pub proof fn lemma_flip_h_flip_v(g: Grid)
    ensures
        flip_h(flip_v(g)) == flip_v(flip_h(g)),
{
    assert(flip_h(flip_v(g)) =~= flip_v(flip_h(g)));
}

/// Transposing twice gives a rectangular grid back.
pub proof fn lemma_transpose_transpose(g: Grid)
    requires
        grid_wf(g),
    ensures
        transpose(transpose(g)) == g,
{
    assert forall|i: int| 0 <= i < g.len() implies transpose(transpose(g))[i] == g[i] by {
        assert(transpose(transpose(g))[i] =~= g[i]);
    }
    assert(transpose(transpose(g)) =~= g);
}

/// Transposing after a top-bottom mirror is a left-right mirror of the
/// transposition.
pub proof fn lemma_transpose_flip_h(g: Grid)
    requires
        grid_wf(g),
    ensures
        transpose(flip_h(g)) == flip_v(transpose(g)),
{
    assert forall|i: int| 0 <= i < transpose(flip_h(g)).len() implies transpose(flip_h(g))[i]
        == flip_v(transpose(g))[i] by {
        assert(transpose(flip_h(g))[i] =~= rev_row(transpose(g)[i]));
    }
    assert(transpose(flip_h(g)) =~= flip_v(transpose(g)));
}

/// Transposing after a left-right mirror is a top-bottom mirror of the
/// transposition.
pub proof fn lemma_transpose_flip_v(g: Grid)
    requires
        grid_wf(g),
    ensures
        transpose(flip_v(g)) == flip_h(transpose(g)),
{
    assert forall|i: int| 0 <= i < transpose(flip_v(g)).len() implies transpose(flip_v(g))[i]
        == flip_h(transpose(g))[i] by {
        assert(transpose(flip_v(g))[i] =~= flip_h(transpose(g))[i]);
    }
    assert(transpose(flip_v(g)) =~= flip_h(transpose(g)));
}

/// The orbit of a grid under the eight symmetries of the square: the grid
/// itself, its two mirror images, its half turn, its transposition, and the
/// three further images of the transposition.  Duplicates collapse, so the
/// orbit of a symmetric grid is smaller than eight.
pub open spec fn orbit(g: Grid) -> Set<Grid> {
    set!{
        g,
        flip_h(g),
        flip_v(g),
        flip_h(flip_v(g)),
        transpose(g),
        flip_h(transpose(g)),
        flip_v(transpose(g)),
        flip_h(flip_v(transpose(g))),
    }
}

/// Every member of the orbit of a well-formed grid is itself well formed,
/// and covers the same number of cells as the grid.
pub proof fn lemma_orbit_wf(g: Grid, s: Grid)
    requires
        grid_wf(g),
        orbit(g).contains(s),
    ensures
        grid_wf(s),
        s.len() * s[0].len() == g.len() * g[0].len(),
{
    lemma_flip_h_wf(g);
    lemma_flip_v_wf(g);
    lemma_flip_h_wf(flip_v(g));
    lemma_transpose_wf(g);
    lemma_flip_h_wf(transpose(g));
    lemma_flip_v_wf(transpose(g));
    lemma_flip_h_wf(flip_v(transpose(g)));
    if s == g {
    } else if s == flip_h(g) {
    } else if s == flip_v(g) {
    } else if s == flip_h(flip_v(g)) {
    } else {
        assert(s.len() == g[0].len() && s[0].len() == g.len());
        assert(g[0].len() * g.len() == g.len() * g[0].len()) by (nonlinear_arith);
    }
}

/// A quarter turn of the square: transpose, then reverse the rows.
/// Applied four times it is the identity; together with `flip_h` it
/// generates all eight symmetries.
pub open spec fn rot(g: Grid) -> Grid {
    flip_h(transpose(g))
}

/// How the quarter turn walks the eight members of the orbit: it cycles the
/// four rotations of the grid, and separately cycles the four rotations of
/// the grid's top-bottom mirror.
proof fn lemma_rot_cycle(g: Grid)
    requires
        grid_wf(g),
    ensures
        rot(rot(g)) == flip_h(flip_v(g)),
        rot(flip_h(flip_v(g))) == flip_v(transpose(g)),
        rot(flip_v(transpose(g))) == g,
        rot(flip_h(g)) == flip_h(flip_v(transpose(g))),
        rot(flip_h(flip_v(transpose(g)))) == flip_v(g),
        rot(flip_v(g)) == transpose(g),
        rot(transpose(g)) == flip_h(g),
        flip_h(rot(g)) == transpose(g),
        flip_h(flip_h(flip_v(g))) == flip_v(g),
{
    lemma_flip_h_wf(g);
    lemma_flip_v_wf(g);
    lemma_transpose_wf(g);
    lemma_flip_v_wf(transpose(g));
    lemma_flip_h_wf(transpose(g));
    lemma_transpose_transpose(g);
    lemma_transpose_flip_h(transpose(g));
    lemma_transpose_flip_h(flip_v(g));
    lemma_transpose_flip_v(g);
    lemma_flip_h_flip_v(transpose(g));
    lemma_flip_h_flip_h(flip_v(transpose(g)));
    lemma_transpose_flip_v(transpose(g));
    lemma_flip_h_flip_h(g);
    lemma_transpose_flip_h(g);
    lemma_transpose_flip_h(flip_v(transpose(g)));
    lemma_flip_h_flip_v(g);
    lemma_flip_h_flip_h(flip_v(g));
    lemma_flip_h_flip_h(transpose(g));
}

/// The orbit of the top-bottom mirror of a grid is the orbit of the grid.
pub proof fn lemma_orbit_flip_h(g: Grid)
    requires
        grid_wf(g),
    ensures
        orbit(flip_h(g)) == orbit(g),
{
    let hg = flip_h(g);
    lemma_flip_h_flip_h(g);
    lemma_flip_h_flip_v(g);
    lemma_flip_h_flip_h(flip_v(g));
    lemma_transpose_flip_h(g);
    lemma_flip_v_flip_v(transpose(g));
    assert(orbit(hg) =~= orbit(g));
}

/// The orbit of the left-right mirror of a grid is the orbit of the grid.
pub proof fn lemma_orbit_flip_v(g: Grid)
    requires
        grid_wf(g),
    ensures
        orbit(flip_v(g)) == orbit(g),
{
    let vg = flip_v(g);
    lemma_flip_v_flip_v(g);
    lemma_flip_h_flip_v(g);
    lemma_transpose_flip_v(g);
    lemma_flip_h_flip_h(transpose(g));
    lemma_flip_h_flip_v(transpose(g));
    lemma_flip_h_flip_h(flip_v(transpose(g)));
    assert(orbit(vg) =~= orbit(g));
}

/// The orbit of the transposition of a grid is the orbit of the grid.
pub proof fn lemma_orbit_transpose(g: Grid)
    requires
        grid_wf(g),
    ensures
        orbit(transpose(g)) == orbit(g),
{
    lemma_transpose_transpose(g);
    assert(orbit(transpose(g)) =~= orbit(g));
}

/// The symmetry group is closed: regenerating the orbit from any of its
/// members yields exactly the orbit of the original grid.
pub proof fn lemma_orbit_of_member(g: Grid, s: Grid)
    requires
        grid_wf(g),
        orbit(g).contains(s),
    ensures
        grid_wf(s),
        orbit(s) == orbit(g),
{
    lemma_orbit_wf(g, s);
    lemma_flip_v_wf(g);
    lemma_transpose_wf(g);
    lemma_flip_v_wf(transpose(g));
    if s == g {
    } else if s == flip_h(g) {
        lemma_orbit_flip_h(g);
    } else if s == flip_v(g) {
        lemma_orbit_flip_v(g);
    } else if s == flip_h(flip_v(g)) {
        lemma_orbit_flip_v(g);
        lemma_orbit_flip_h(flip_v(g));
    } else if s == transpose(g) {
        lemma_orbit_transpose(g);
    } else if s == flip_h(transpose(g)) {
        lemma_orbit_transpose(g);
        lemma_orbit_flip_h(transpose(g));
    } else if s == flip_v(transpose(g)) {
        lemma_orbit_transpose(g);
        lemma_orbit_flip_v(transpose(g));
    } else {
        assert(s == flip_h(flip_v(transpose(g))));
        lemma_orbit_transpose(g);
        lemma_orbit_flip_v(transpose(g));
        lemma_orbit_flip_h(flip_v(transpose(g)));
    }
}

/// The orbit of a grid always has exactly 1, 2, 4 or 8 members: its size
/// divides the order of the symmetry group of the square.
pub proof fn lemma_orbit_len(g: Grid)
    requires
        grid_wf(g),
    ensures
        orbit(g).finite(),
        orbit(g).len() == 1 || orbit(g).len() == 2 || orbit(g).len() == 4 || orbit(g).len()
            == 8,
{
    let a0 = g;
    let a1 = rot(g);
    let a2 = flip_h(flip_v(g));
    let a3 = flip_v(transpose(g));
    let b0 = flip_h(g);
    let b1 = transpose(g);
    let b2 = flip_v(g);
    let b3 = flip_h(flip_v(transpose(g)));
    lemma_rot_cycle(g);
    lemma_flip_h_flip_h(g);
    lemma_flip_h_flip_h(transpose(g));
    lemma_flip_h_flip_h(flip_v(g));
    lemma_flip_h_flip_h(flip_v(transpose(g)));
    if a1 == a0 {
        // the quarter turn fixes the grid: the four rotations collapse, and
        // so do the four rotations of the mirror
        assert(a2 == a0 && a3 == a0);
        assert(b1 == b0 && b2 == b0 && b3 == b0);
        if b0 == a0 {
            assert(orbit(g).len() == 1);
        } else {
            assert(orbit(g).len() == 2);
        }
    } else if a2 == a0 {
        // the half turn fixes the grid but the quarter turn does not
        assert(a3 == a1);
        assert(b2 == b0 && b3 == b1);
        assert(b0 != b1);
        if b0 == a0 || b0 == a1 {
            assert(b1 == a0 || b1 == a1);
            assert(orbit(g).len() == 2);
        } else {
            assert(b1 != a0 && b1 != a1);
            assert(orbit(g).len() == 4);
        }
    } else {
        // no rotation fixes the grid: the four rotations are distinct
        assert(a3 != a0 && a1 != a2 && a1 != a3 && a2 != a3);
        if b0 == a0 || b0 == a1 || b0 == a2 || b0 == a3 {
            // the mirror lands among the rotations, and its rotations
            // retrace them
            assert(orbit(g).len() == 4);
        } else {
            // mirror and rotations are all distinct: the full eight
            assert(b1 != b0 && b2 != b0 && b3 != b0 && b1 != b2 && b1 != b3 && b2 != b3);
            assert(b1 != a0 && b1 != a1 && b1 != a2 && b1 != a3);
            assert(b2 != a0 && b2 != a1 && b2 != a2 && b2 != a3);
            assert(b3 != a0 && b3 != a1 && b3 != a2 && b3 != a3);
            assert(orbit(g).len() == 8);
        }
    }
}

/// A grid fixed by none of the seven non-identity symmetries has all eight
/// orientations.
pub proof fn lemma_orbit_len_asymmetric(g: Grid)
    requires
        grid_wf(g),
        flip_h(g) != g,
        flip_v(g) != g,
        flip_h(flip_v(g)) != g,
        transpose(g) != g,
        flip_h(transpose(g)) != g,
        flip_v(transpose(g)) != g,
        flip_h(flip_v(transpose(g))) != g,
    ensures
        orbit(g).finite(),
        orbit(g).len() == 8,
{
    lemma_rot_cycle(g);
    lemma_flip_h_flip_h(g);
    lemma_flip_h_flip_h(transpose(g));
    lemma_flip_h_flip_h(flip_v(g));
    lemma_flip_h_flip_h(flip_v(transpose(g)));
    assert(orbit(g).len() == 8);
}

/// A grid fixed by the half turn and by no other non-identity symmetry has
/// exactly four orientations.
pub proof fn lemma_orbit_len_half_turn(g: Grid)
    requires
        grid_wf(g),
        flip_h(flip_v(g)) == g,
        flip_h(g) != g,
        flip_v(g) != g,
        transpose(g) != g,
        flip_h(transpose(g)) != g,
        flip_v(transpose(g)) != g,
        flip_h(flip_v(transpose(g))) != g,
    ensures
        orbit(g).finite(),
        orbit(g).len() == 4,
{
    lemma_rot_cycle(g);
    lemma_flip_h_flip_h(g);
    lemma_flip_h_flip_h(transpose(g));
    lemma_flip_h_flip_h(flip_v(g));
    lemma_flip_h_flip_h(flip_v(transpose(g)));
    // the rotations collapse to two, the mirrors to two more
    assert(flip_v(transpose(g)) == rot(g));
    assert(flip_v(g) == flip_h(g));
    assert(flip_h(flip_v(transpose(g))) == transpose(g));
    assert(orbit(g).len() == 4);
}

/// Copies one row of cells.
fn copy_row(row: &Vec<Option<Resource>>) -> (r: Vec<Option<Resource>>)
    ensures
        r@ == row@,
{
    let mut r: Vec<Option<Resource>> = Vec::new();
    let mut j: usize = 0;
    while j < row.len()
        invariant
            0 <= j <= row@.len(),
            r@ == row@.take(j as int),
        decreases row@.len() - j,
    {
        r.push(row[j]);
        proof {
            assert(r@ =~= row@.take(j + 1));
        }
        j += 1;
    }
    proof {
        assert(row@.take(row@.len() as int) =~= row@);
    }
    r
}

/// Copies a grid of cells.
pub fn copy_grid(g: &Vec<Vec<Option<Resource>>>) -> (r: Vec<Vec<Option<Resource>>>)
    ensures
        gview(r@) == gview(g@),
{
    let mut r: Vec<Vec<Option<Resource>>> = Vec::new();
    let mut i: usize = 0;
    while i < g.len()
        invariant
            0 <= i <= g@.len(),
            r@.len() == i,
            forall|k: int| 0 <= k < i ==> (#[trigger] r@[k])@ == g@[k]@,
        decreases g@.len() - i,
    {
        r.push(copy_row(&g[i]));
        i += 1;
    }
    proof {
        assert(gview(r@) =~~= gview(g@));
    }
    r
}

/// Builds the top-bottom mirror of a grid: the rows in reverse order.
pub fn flip_rows(g: &Vec<Vec<Option<Resource>>>) -> (r: Vec<Vec<Option<Resource>>>)
    ensures
        gview(r@) == flip_h(gview(g@)),
{
    let mut r: Vec<Vec<Option<Resource>>> = Vec::new();
    let mut i: usize = g.len();
    while i > 0
        invariant
            0 <= i <= g@.len(),
            r@.len() == g@.len() - i,
            forall|k: int| 0 <= k < r@.len() ==> (#[trigger] r@[k])@ == g@[g@.len() - 1 - k]@,
        decreases i,
    {
        i -= 1;
        r.push(copy_row(&g[i]));
    }
    proof {
        assert(gview(r@) =~~= flip_h(gview(g@)));
    }
    r
}

/// Builds the left-right mirror of a grid: each row's cells in reverse order.
pub fn flip_cells(g: &Vec<Vec<Option<Resource>>>) -> (r: Vec<Vec<Option<Resource>>>)
    ensures
        gview(r@) == flip_v(gview(g@)),
{
    let mut r: Vec<Vec<Option<Resource>>> = Vec::new();
    let mut i: usize = 0;
    while i < g.len()
        invariant
            0 <= i <= g@.len(),
            r@.len() == i,
            forall|k: int| 0 <= k < i ==> (#[trigger] r@[k])@ == rev_row(g@[k]@),
        decreases g@.len() - i,
    {
        let row = &g[i];
        let mut new_row: Vec<Option<Resource>> = Vec::new();
        let mut j: usize = row.len();
        while j > 0
            invariant
                0 <= j <= row@.len(),
                new_row@.len() == row@.len() - j,
                forall|k: int|
                    0 <= k < new_row@.len() ==> new_row@[k] == row@[row@.len() - 1 - k],
            decreases j,
        {
            j -= 1;
            new_row.push(row[j]);
        }
        proof {
            assert(new_row@ =~= rev_row(g@[i as int]@));
        }
        r.push(new_row);
        i += 1;
    }
    proof {
        assert(gview(r@) =~~= flip_v(gview(g@)));
    }
    r
}

/// Builds the transposition of a rectangular grid.
pub fn transpose_grid(g: &Vec<Vec<Option<Resource>>>) -> (r: Vec<Vec<Option<Resource>>>)
    requires
        grid_wf(gview(g@)),
    ensures
        gview(r@) == transpose(gview(g@)),
{
    let w = g[0].len();
    let h = g.len();
    let mut r: Vec<Vec<Option<Resource>>> = Vec::new();
    let mut i: usize = 0;
    while i < w
        invariant
            grid_wf(gview(g@)),
            w == gview(g@)[0].len(),
            h == g@.len(),
            0 <= i <= w,
            r@.len() == i,
            forall|k: int| 0 <= k < i ==> (#[trigger] r@[k])@ == transpose(gview(g@))[k],
        decreases w - i,
    {
        let mut new_row: Vec<Option<Resource>> = Vec::new();
        let mut j: usize = 0;
        while j < h
            invariant
                grid_wf(gview(g@)),
                w == gview(g@)[0].len(),
                h == g@.len(),
                0 <= i < w,
                0 <= j <= h,
                new_row@.len() == j,
                forall|k: int| 0 <= k < j ==> new_row@[k] == gview(g@)[k][i as int],
            decreases h - j,
        {
            proof {
                assert(gview(g@)[j as int] == g@[j as int]@);
                assert(g@[j as int]@.len() == w);
            }
            new_row.push(g[j][i]);
            j += 1;
        }
        proof {
            assert(new_row@ =~= transpose(gview(g@))[i as int]);
        }
        r.push(new_row);
        i += 1;
    }
    proof {
        assert(gview(r@) =~~= transpose(gview(g@)));
    }
    r
}

/// Compares two cells.
fn cell_eq(a: Option<Resource>, b: Option<Resource>) -> (r: bool)
    ensures
        r == (a == b),
{
    match (a, b) {
        (None, None) => true,
        (Some(x), Some(y)) => x == y,
        _ => false,
    }
}

/// Compares two rows of cells element for element.
fn row_eq(a: &Vec<Option<Resource>>, b: &Vec<Option<Resource>>) -> (r: bool)
    ensures
        r == (a@ == b@),
{
    if a.len() != b.len() {
        return false;
    }
    let mut j: usize = 0;
    while j < a.len()
        invariant
            a@.len() == b@.len(),
            0 <= j <= a@.len(),
            forall|k: int| 0 <= k < j ==> a@[k] == b@[k],
        decreases a@.len() - j,
    {
        if !cell_eq(a[j], b[j]) {
            return false;
        }
        j += 1;
    }
    proof {
        assert(a@ =~= b@);
    }
    true
}

/// Compares two grids element for element.
pub fn grid_eq(a: &Vec<Vec<Option<Resource>>>, b: &Vec<Vec<Option<Resource>>>) -> (r: bool)
    ensures
        r == (gview(a@) == gview(b@)),
{
    if a.len() != b.len() {
        proof {
            assert(gview(a@).len() == a@.len());
            assert(gview(b@).len() == b@.len());
        }
        return false;
    }
    let mut i: usize = 0;
    while i < a.len()
        invariant
            a@.len() == b@.len(),
            0 <= i <= a@.len(),
            forall|k: int| 0 <= k < i ==> (#[trigger] a@[k])@ == b@[k]@,
        decreases a@.len() - i,
    {
        if !row_eq(&a[i], &b[i]) {
            proof {
                assert(gview(a@)[i as int] != gview(b@)[i as int]);
            }
            return false;
        }
        i += 1;
    }
    proof {
        assert(gview(a@) =~~= gview(b@));
    }
    true
}

} // verus!
