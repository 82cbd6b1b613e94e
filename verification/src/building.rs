//! Buildings, their canonical footprints, the distinct orientations of a
//! footprint, and the enumeration of board placements.

use vstd::prelude::*;

use crate::grid::{
    copy_grid, flip_cells, flip_h, flip_rows, flip_v, grid_eq, grid_wf, gview,
    lemma_max_row_len_rect, lemma_orbit_wf, orbit, transpose, transpose_grid, Grid,
};
use crate::pattern::{Pattern, Resource};

verus! {

broadcast use vstd::set::axiom_set_insert_len, vstd::set::axiom_set_empty_len;

/// What a list of orientations must be: well-formed patterns, each a member
/// of the orbit of the canonical grid, together covering the whole orbit,
/// with no two alike, and each covering as many cells as the canonical grid.
pub open spec fn orientation_list_ok(cg: Grid, rs: Seq<Pattern>) -> bool {
    &&& forall|i: int| 0 <= i < rs.len() ==> (#[trigger] rs[i]).wf()
    &&& forall|i: int| 0 <= i < rs.len() ==> orbit(cg).contains((#[trigger] rs[i]).grid())
    &&& forall|s: Grid| #[trigger]
        orbit(cg).contains(s) ==> exists|i: int| 0 <= i < rs.len() && rs[i].grid() == s
    &&& forall|i: int, j: int| 0 <= i < j < rs.len() ==> rs[i].grid() != rs[j].grid()
    &&& forall|i: int|
        0 <= i < rs.len() ==> (#[trigger] rs[i]).width as int * rs[i].height as int == cg.len()
            * cg[0].len()
}

/// Whether anchoring grid `g` with its top-left cell at `(x, y)` keeps the
/// whole grid on the 4x4 board.
pub open spec fn anchor_ok(g: Grid, x: int, y: int) -> bool {
    &&& 0 <= x
    &&& 0 <= y
    &&& x + g[0].len() <= 4
    &&& y + g.len() <= 4
}

/// The placement template of grid `g` anchored at `(x, y)`: one entry per
/// cell in row-major order, pairing the absolute board coordinate of the
/// cell with its requirement (a resource, or a gap).
pub open spec fn template(g: Grid, x: int, y: int) -> Seq<((u8, u8), Option<Resource>)> {
    let w = g[0].len() as int;
    Seq::new(
        g.len() * g[0].len(),
        |k: int| ((((x + k % w) as u8), ((y + k / w) as u8)), g[k / w][k % w]),
    )
}

/// Whether the list `rs` holds the template `t`.
pub open spec fn contains_template(
    rs: Seq<Vec<((u8, u8), Option<Resource>)>>,
    t: Seq<((u8, u8), Option<Resource>)>,
) -> bool {
    exists|k: int| 0 <= k < rs.len() && (#[trigger] rs[k])@ == t
}

/// Where the enumerator's scan stands: whether template `t` belongs to a
/// triple of orientation index, column and row that the scan has already
/// passed when it stands at orientation `oi`, column `x`, row `y`.
spec fn emitted_before(
    pats: Seq<Pattern>,
    oi: int,
    x: int,
    y: int,
    t: Seq<((u8, u8), Option<Resource>)>,
) -> bool {
    exists|o2: int, x2: int, y2: int|
        0 <= o2 < pats.len() && #[trigger] anchor_ok(pats[o2].grid(), x2, y2) && (o2 < oi || (o2
            == oi && (x2 < x || (x2 == x && y2 < y)))) && t == template(pats[o2].grid(), x2, y2)
}

/// Whether `t` is the template of some member of the orbit of `cg` at some
/// anchor that fits the board.
pub open spec fn template_from_orbit(cg: Grid, t: Seq<((u8, u8), Option<Resource>)>) -> bool {
    exists|s: Grid, x: int, y: int|
        orbit(cg).contains(s) && #[trigger] anchor_ok(s, x, y) && t == template(s, x, y)
}

/// Appending a template to a list keeps every template the list already
/// held, and the list then holds the appended template.
proof fn lemma_contains_template_push(
    rs: Seq<Vec<((u8, u8), Option<Resource>)>>,
    v: Vec<((u8, u8), Option<Resource>)>,
)
    ensures
        contains_template(rs.push(v), v@),
        forall|t: Seq<((u8, u8), Option<Resource>)>| #[trigger]
            contains_template(rs, t) ==> contains_template(rs.push(v), t),
{
    assert(rs.push(v)[rs.len() as int]@ == v@);
    assert forall|t: Seq<((u8, u8), Option<Resource>)>| #[trigger]
        contains_template(rs, t) implies contains_template(rs.push(v), t) by {
        let k = choose|k: int| 0 <= k < rs.len() && (#[trigger] rs[k])@ == t;
        assert(rs.push(v)[k]@ == t);
    }
}

/// A template remembers where it came from: equal templates of well-formed
/// grids anchored on the board can only arise from the same grid at the
/// same anchor.
pub proof fn lemma_template_injective(g1: Grid, x1: int, y1: int, g2: Grid, x2: int, y2: int)
    requires
        grid_wf(g1),
        grid_wf(g2),
        anchor_ok(g1, x1, y1),
        anchor_ok(g2, x2, y2),
        template(g1, x1, y1) == template(g2, x2, y2),
    ensures
        g1 == g2,
        x1 == x2,
        y1 == y2,
{
    let w1 = g1[0].len() as int;
    let h1 = g1.len() as int;
    let w2 = g2[0].len() as int;
    let h2 = g2.len() as int;
    let t = template(g1, x1, y1);
    assert(t.len() == h1 * w1) by (nonlinear_arith)
        requires
            t.len() == g1.len() * g1[0].len(),
            h1 == g1.len(),
            w1 == g1[0].len(),
    ;
    assert(template(g2, x2, y2).len() == h2 * w2) by (nonlinear_arith)
        requires
            template(g2, x2, y2).len() == g2.len() * g2[0].len(),
            h2 == g2.len(),
            w2 == g2[0].len(),
    ;
    assert(1 <= h1 * w1) by (nonlinear_arith)
        requires
            1 <= h1,
            1 <= w1,
    ;
    // the first entry carries the anchor itself
    vstd::arithmetic::div_mod::lemma_fundamental_div_mod_converse(0, w1, 0, 0);
    vstd::arithmetic::div_mod::lemma_fundamental_div_mod_converse(0, w2, 0, 0);
    assert(t[0] == ((((x1) as u8), ((y1) as u8)), g1[0][0]));
    assert(t[0] == ((((x2) as u8), ((y2) as u8)), g2[0][0]));
    assert(x1 == x2 && y1 == y2);
    // the widths agree: otherwise the entry one full row in disagrees on
    // its row coordinate
    if w1 < w2 {
        assert(w1 < h2 * w2) by (nonlinear_arith)
            requires
                w1 < w2,
                1 <= h2,
                1 <= w2,
        ;
        assert(2 <= h1) by (nonlinear_arith)
            requires
                h1 * w1 == h2 * w2,
                w1 < h2 * w2,
                1 <= w1,
                1 <= h1,
        ;
        assert(w1 < h1 * w1) by (nonlinear_arith)
            requires
                2 <= h1,
                1 <= w1,
        ;
        vstd::arithmetic::div_mod::lemma_fundamental_div_mod_converse(w1, w1, 1, 0);
        vstd::arithmetic::div_mod::lemma_fundamental_div_mod_converse(w1, w2, 0, w1);
        assert(t[w1].0.1 == ((y1 + 1) as u8) && t[w1].0.1 == ((y2) as u8));
        assert(false);
    }
    if w2 < w1 {
        assert(w2 < h1 * w1) by (nonlinear_arith)
            requires
                w2 < w1,
                1 <= h1,
                1 <= w1,
        ;
        assert(2 <= h2) by (nonlinear_arith)
            requires
                h1 * w1 == h2 * w2,
                w2 < h1 * w1,
                1 <= w2,
                1 <= h2,
        ;
        assert(w2 < h2 * w2) by (nonlinear_arith)
            requires
                2 <= h2,
                1 <= w2,
        ;
        vstd::arithmetic::div_mod::lemma_fundamental_div_mod_converse(w2, w2, 1, 0);
        vstd::arithmetic::div_mod::lemma_fundamental_div_mod_converse(w2, w1, 0, w2);
        assert(t[w2].0.1 == ((y2 + 1) as u8) && t[w2].0.1 == ((y1) as u8));
        assert(false);
    }
    assert(w1 == w2);
    assert(h1 == h2) by (nonlinear_arith)
        requires
            h1 * w1 == h2 * w2,
            w1 == w2,
            1 <= w1,
    ;
    // the cell entries pin every cell of the grid
    assert forall|i: int| 0 <= i < h1 implies g1[i] == g2[i] by {
        assert forall|j: int| 0 <= j < w1 implies g1[i][j] == g2[i][j] by {
            let k = i * w1 + j;
            assert(0 <= k && k < h1 * w1) by (nonlinear_arith)
                requires
                    0 <= i < h1,
                    0 <= j < w1,
                    k == i * w1 + j,
            ;
            vstd::arithmetic::div_mod::lemma_fundamental_div_mod_converse(k, w1, i, j);
            assert(t[k].1 == g1[i][j]);
            assert(t[k].1 == g2[i][j]);
        }
        assert(g1[i] =~= g2[i]);
    }
    assert(g1 =~= g2);
}

/// Every coordinate of a template that fits the board lies within the
/// board: the column and the row are both below four.
pub proof fn lemma_template_in_bounds(g: Grid, x: int, y: int)
    requires
        grid_wf(g),
        anchor_ok(g, x, y),
    ensures
        template(g, x, y).len() == g.len() * g[0].len(),
        forall|m: int|
            0 <= m < template(g, x, y).len() ==> ((#[trigger] template(g, x, y)[m]).0.0 < 4
                && template(g, x, y)[m].0.1 < 4),
{
    let w = g[0].len() as int;
    let h = g.len() as int;
    assert forall|m: int|
        0 <= m < template(g, x, y).len() implies ((#[trigger] template(g, x, y)[m]).0.0 < 4
        && template(g, x, y)[m].0.1 < 4) by {
        vstd::arithmetic::div_mod::lemma_mod_bound(m, w);
        vstd::arithmetic::div_mod::lemma_fundamental_div_mod(m, w);
        if m / w < 0 {
            assert(w * (m / w) <= -w) by (nonlinear_arith)
                requires
                    m / w <= -1,
                    w > 0,
            ;
            assert(false);
        }
        if m / w >= h {
            assert(w * (m / w) >= w * h) by (nonlinear_arith)
                requires
                    m / w >= h,
                    w > 0,
            ;
            assert(m < h * w) by {
                assert(template(g, x, y).len() == h * w) by (nonlinear_arith)
                    requires
                        template(g, x, y).len() == g.len() * g[0].len(),
                        w == g[0].len(),
                        h == g.len(),
                ;
            }
            assert(w * h == h * w) by (nonlinear_arith);
            assert(false);
        }
        assert(0 <= x + m % w < 4);
        assert(0 <= y + m / w < 4);
    }
}

/// The number of distinct orientations of a building's footprint divides
/// eight: together with the length clause of `orientations`, the list that
/// function returns always has exactly 1, 2, 4 or 8 members.
pub proof fn lemma_orientation_count_divides(b: Building)
    ensures
        orbit(canonical_grid(b)).finite(),
        orbit(canonical_grid(b)).len() == 1 || orbit(canonical_grid(b)).len() == 2 || orbit(
            canonical_grid(b),
        ).len() == 4 || orbit(canonical_grid(b)).len() == 8,
{
    lemma_canonical_wf(b);
    crate::grid::lemma_orbit_len(canonical_grid(b));
}

/// The closed set of buildings in the game.  Each maps to exactly one
/// canonical footprint.
#[derive(Clone, Copy, Debug, PartialEq, Eq, Structural)]
pub enum Building {
    Well,
    Theater,
    TradingPost,
}

/// The canonical footprint of each building.
pub open spec fn canonical_grid(b: Building) -> Grid {
    match b {
        // W S
        Building::Well => seq![seq![Some(Resource::Wood), Some(Resource::Stone)]],
        //   S
        // W G W
        Building::Theater => seq![
            seq![None, Some(Resource::Stone), None],
            seq![Some(Resource::Wood), Some(Resource::Glass), Some(Resource::Wood)],
        ],
        // S W
        // S W B
        Building::TradingPost => seq![
            seq![Some(Resource::Stone), Some(Resource::Wood), None],
            seq![Some(Resource::Stone), Some(Resource::Wood), Some(Resource::Brick)],
        ],
    }
}

/// Every canonical footprint is a non-empty rectangular grid.
pub proof fn lemma_canonical_wf(b: Building)
    ensures
        grid_wf(canonical_grid(b)),
{
    let g = canonical_grid(b);
    match b {
        Building::Well => {
            assert forall|i: int| 0 <= i < g.len() implies (#[trigger] g[i]).len()
                == g[0].len() by {}
        },
        Building::Theater => {
            assert forall|i: int| 0 <= i < g.len() implies (#[trigger] g[i]).len()
                == g[0].len() by {
                assert(g[1].len() == 3);
            }
        },
        Building::TradingPost => {
            assert forall|i: int| 0 <= i < g.len() implies (#[trigger] g[i]).len()
                == g[0].len() by {
                assert(g[1].len() == 3);
            }
        },
    }
}

impl Building {
    /// The canonical footprint of this building.  The mapping is static: it
    /// is the sole source of building geometry.
    pub fn pattern(&self) -> (p: Pattern)
        ensures
            p.grid() == canonical_grid(*self),
            p.wf(),
            grid_wf(p.grid()),
    {
        let mut coords: Vec<Vec<Option<Resource>>> = Vec::new();
        match self {
            Building::Well => {
                let mut row: Vec<Option<Resource>> = Vec::new();
                row.push(Some(Resource::Wood));
                row.push(Some(Resource::Stone));
                coords.push(row);
            },
            Building::Theater => {
                let mut row0: Vec<Option<Resource>> = Vec::new();
                row0.push(None);
                row0.push(Some(Resource::Stone));
                row0.push(None);
                coords.push(row0);
                let mut row1: Vec<Option<Resource>> = Vec::new();
                row1.push(Some(Resource::Wood));
                row1.push(Some(Resource::Glass));
                row1.push(Some(Resource::Wood));
                coords.push(row1);
            },
            Building::TradingPost => {
                let mut row0: Vec<Option<Resource>> = Vec::new();
                row0.push(Some(Resource::Stone));
                row0.push(Some(Resource::Wood));
                row0.push(None);
                coords.push(row0);
                let mut row1: Vec<Option<Resource>> = Vec::new();
                row1.push(Some(Resource::Stone));
                row1.push(Some(Resource::Wood));
                row1.push(Some(Resource::Brick));
                coords.push(row1);
            },
        }
        proof {
            assert(gview(coords@) =~~= canonical_grid(*self));
            lemma_canonical_wf(*self);
            lemma_max_row_len_rect(gview(coords@));
        }
        Pattern::new(coords)
    }

    /// All geometrically distinct orientations of this building's canonical
    /// footprint: the orbit of the footprint under the eight symmetries of
    /// the square, deduplicated by structural equality.  The list always
    /// contains the canonical footprint itself, is never empty, and its
    /// length is the exact size of the orbit.
    pub fn orientations(&self) -> (r: Vec<Pattern>)
        ensures
            orientation_list_ok(canonical_grid(*self), r@),
            r@.len() == orbit(canonical_grid(*self)).len(),
            1 <= r@.len(),
            exists|i: int| 0 <= i < r@.len() && (#[trigger] r@[i]).grid() == canonical_grid(
                *self,
            ),
    {
        let base = self.pattern();
        let g0 = base.coords;
        let gh = flip_rows(&g0);
        let gv = flip_cells(&g0);
        let ghv = flip_rows(&gv);
        let gt = transpose_grid(&g0);
        let gth = flip_rows(&gt);
        let gtv = flip_cells(&gt);
        let gtvh = flip_rows(&gtv);
        let ghost cg = canonical_grid(*self);
        let ghost cview: Seq<Grid> = seq![
            cg,
            flip_h(cg),
            flip_v(cg),
            flip_h(flip_v(cg)),
            transpose(cg),
            flip_h(transpose(cg)),
            flip_v(transpose(cg)),
            flip_h(flip_v(transpose(cg))),
        ];
        let mut cands: Vec<Vec<Vec<Option<Resource>>>> = Vec::new();
        cands.push(g0);
        cands.push(gh);
        cands.push(gv);
        cands.push(ghv);
        cands.push(gt);
        cands.push(gth);
        cands.push(gtv);
        cands.push(gtvh);
        proof {
            assert(gview(cands@[0]@) == cview[0]);
            assert(gview(cands@[1]@) == cview[1]);
            assert(gview(cands@[2]@) == cview[2]);
            assert(gview(cands@[3]@) == cview[3]);
            assert(gview(cands@[4]@) == cview[4]);
            assert(gview(cands@[5]@) == cview[5]);
            assert(gview(cands@[6]@) == cview[6]);
            assert(gview(cands@[7]@) == cview[7]);
            assert forall|k: int| 0 <= k < 8 implies orbit(cg).contains(#[trigger] cview[k]) by {
                assert(orbit(cg).contains(cview[0]));
                assert(orbit(cg).contains(cview[1]));
                assert(orbit(cg).contains(cview[2]));
                assert(orbit(cg).contains(cview[3]));
                assert(orbit(cg).contains(cview[4]));
                assert(orbit(cg).contains(cview[5]));
                assert(orbit(cg).contains(cview[6]));
                assert(orbit(cg).contains(cview[7]));
            }
            assert forall|k: int| 0 <= k < 8 implies grid_wf(#[trigger] cview[k]) && cview[k].len()
                * cview[k][0].len() == cg.len() * cg[0].len() by {
                lemma_orbit_wf(cg, cview[k]);
            }
            assert forall|s: Grid| #[trigger] orbit(cg).contains(s) implies exists|k: int|
                0 <= k < 8 && cview[k] == s by {
                if s == cview[0] {
                } else if s == cview[1] {
                } else if s == cview[2] {
                } else if s == cview[3] {
                } else if s == cview[4] {
                } else if s == cview[5] {
                } else if s == cview[6] {
                } else {
                    assert(s == cview[7]);
                }
            }
        }
        let mut result: Vec<Pattern> = Vec::new();
        let ghost mut covered: Set<Grid> = Set::empty();
        let mut idx: usize = 0;
        while idx < cands.len()
            invariant
                cands@.len() == 8,
                cview.len() == 8,
                0 <= idx <= 8,
                forall|k: int| 0 <= k < 8 ==> gview((#[trigger] cands@[k])@) == cview[k],
                forall|k: int|
                    0 <= k < 8 ==> grid_wf(#[trigger] cview[k]) && cview[k].len()
                        * cview[k][0].len() == cg.len() * cg[0].len(),
                forall|k: int| 0 <= k < 8 ==> orbit(cg).contains(#[trigger] cview[k]),
                covered.finite(),
                covered.len() == result@.len(),
                forall|i: int|
                    0 <= i < result@.len() ==> covered.contains((#[trigger] result@[i]).grid()),
                forall|s: Grid| #[trigger]
                    covered.contains(s) ==> exists|i: int|
                        0 <= i < result@.len() && result@[i].grid() == s,
                forall|i: int| 0 <= i < result@.len() ==> (#[trigger] result@[i]).wf(),
                forall|i: int|
                    0 <= i < result@.len() ==> orbit(cg).contains(
                        (#[trigger] result@[i]).grid(),
                    ),
                forall|i: int|
                    0 <= i < result@.len() ==> (#[trigger] result@[i]).width as int
                        * result@[i].height as int == cg.len() * cg[0].len(),
                forall|i: int, j: int|
                    0 <= i < j < result@.len() ==> result@[i].grid() != result@[j].grid(),
                forall|k: int| 0 <= k < idx ==> covered.contains(#[trigger] cview[k]),
            decreases 8 - idx,
        {
            let mut found = false;
            let mut j: usize = 0;
            while j < result.len()
                invariant
                    cands@.len() == 8,
                    0 <= idx < 8,
                    0 <= j <= result@.len(),
                    found ==> exists|jj: int|
                        0 <= jj < result@.len() && (#[trigger] result@[jj]).grid() == gview(
                            cands@[idx as int]@,
                        ),
                    !found ==> forall|jj: int|
                        0 <= jj < j ==> (#[trigger] result@[jj]).grid() != gview(
                            cands@[idx as int]@,
                        ),
                decreases result@.len() - j,
            {
                if grid_eq(&result[j].coords, &cands[idx]) {
                    found = true;
                }
                j += 1;
            }
            if !found {
                let gcopy = copy_grid(&cands[idx]);
                proof {
                    assert(gview(gcopy@) == cview[idx as int]);
                    assert(gcopy@.len() == cview[idx as int].len());
                    assert forall|i: int|
                        0 <= i < gcopy@.len() implies (#[trigger] gcopy@[i])@.len() <= 255 by {
                        assert(gview(gcopy@)[i] == gcopy@[i]@);
                    }
                    lemma_max_row_len_rect(gview(gcopy@));
                }
                let p = Pattern::new(gcopy);
                proof {
                    assert forall|i: int|
                        0 <= i < p.coords@.len() implies (#[trigger] p.coords@[i])@.len()
                        == p.width as int by {
                        assert(gview(p.coords@)[i] == p.coords@[i]@);
                    }
                    assert(p.wf());
                    assert(p.width as int == cview[idx as int][0].len());
                    assert(p.height as int == cview[idx as int].len());
                    assert(p.width as int * p.height as int == cview[idx as int].len()
                        * cview[idx as int][0].len()) by (nonlinear_arith)
                        requires
                            p.width as int == cview[idx as int][0].len(),
                            p.height as int == cview[idx as int].len(),
                    ;
                    covered = covered.insert(p.grid());
                }
                let ghost prev = result@;
                result.push(p);
                proof {
                    assert forall|s: Grid| #[trigger] covered.contains(s) implies exists|i: int|
                        0 <= i < result@.len() && result@[i].grid() == s by {
                        if s == p.grid() {
                            assert(result@[result@.len() - 1].grid() == s);
                        } else {
                            let jj = choose|jj: int|
                                0 <= jj < prev.len() && (#[trigger] prev[jj]).grid() == s;
                            assert(result@[jj].grid() == s);
                        }
                    }
                }
            }
            idx += 1;
        }
        proof {
            assert forall|s: Grid| #[trigger] orbit(cg).contains(s) implies covered.contains(
                s,
            ) by {
                if s == cview[0] {
                } else if s == cview[1] {
                } else if s == cview[2] {
                } else if s == cview[3] {
                } else if s == cview[4] {
                } else if s == cview[5] {
                } else if s == cview[6] {
                } else {
                    assert(s == cview[7]);
                }
            }
            assert(covered =~= orbit(cg));
            assert(covered.contains(cview[0]));
        }
        result
    }

    /// Every placement of this building: for each distinct orientation of
    /// its footprint and each anchor at which that orientation fits the
    /// board, the full placement template.  Every listed template comes from
    /// such a pair, every such pair is listed, and every listed coordinate
    /// lies on the board.
    pub fn placement_templates(&self) -> (r: Vec<Vec<((u8, u8), Option<Resource>)>>)
        ensures
            forall|k: int|
                0 <= k < r@.len() ==> template_from_orbit(
                    canonical_grid(*self),
                    (#[trigger] r@[k])@,
                ),
            forall|s: Grid, x: int, y: int|
                orbit(canonical_grid(*self)).contains(s) && #[trigger] anchor_ok(s, x, y)
                    ==> contains_template(r@, template(s, x, y)),
            forall|k: int, m: int|
                0 <= k < r@.len() && 0 <= m < (#[trigger] r@[k])@.len() ==> ((
                #[trigger] r@[k]@[m]).0.0 < 4 && r@[k]@[m].0.1 < 4),
            forall|k1: int, k2: int|
                #![trigger r@[k1], r@[k2]]
                0 <= k1 < k2 < r@.len() ==> r@[k1]@ != r@[k2]@,
    {
        let pats = self.orientations();
        let ghost cg = canonical_grid(*self);
        let mut r: Vec<Vec<((u8, u8), Option<Resource>)>> = Vec::new();
        let mut pi: usize = 0;
        while pi < pats.len()
            invariant
                cg == canonical_grid(*self),
                orientation_list_ok(cg, pats@),
                0 <= pi <= pats@.len(),
                forall|k: int|
                    0 <= k < r@.len() ==> template_from_orbit(cg, (#[trigger] r@[k])@),
                forall|oi: int, x: int, y: int|
                    0 <= oi < pi && #[trigger] anchor_ok(pats@[oi].grid(), x, y)
                        ==> contains_template(r@, template(pats@[oi].grid(), x, y)),
                forall|k: int|
                    0 <= k < r@.len() ==> emitted_before(
                        pats@,
                        pi as int,
                        0,
                        0,
                        (#[trigger] r@[k])@,
                    ),
                forall|k1: int, k2: int|
                    #![trigger r@[k1], r@[k2]]
                    0 <= k1 < k2 < r@.len() ==> r@[k1]@ != r@[k2]@,
            decreases pats@.len() - pi,
        {
            let w = pats[pi].width as usize;
            let h = pats[pi].height as usize;
            let ghost g = pats@[pi as int].grid();
            proof {
                assert(pats@[pi as int].wf());
                assert(gview(pats@[pi as int].coords@)[0] == pats@[pi as int].coords@[0]@);
                assert(g.len() == h && g[0].len() == w);
            }
            let mut x: usize = 0;
            while x + w <= 4
                invariant
                    cg == canonical_grid(*self),
                    orientation_list_ok(cg, pats@),
                    0 <= pi < pats@.len(),
                    w == pats@[pi as int].width as usize,
                    h == pats@[pi as int].height as usize,
                    1 <= w,
                    1 <= h,
                    g == pats@[pi as int].grid(),
                    g.len() == h,
                    g[0].len() == w,
                    0 <= x <= 4,
                    forall|k: int|
                        0 <= k < r@.len() ==> template_from_orbit(cg, (#[trigger] r@[k])@),
                    forall|oi: int, xo: int, yo: int|
                        0 <= oi < pi && #[trigger] anchor_ok(pats@[oi].grid(), xo, yo)
                            ==> contains_template(r@, template(pats@[oi].grid(), xo, yo)),
                    forall|xx: int, yy: int|
                        0 <= xx < x && #[trigger] anchor_ok(g, xx, yy) ==> contains_template(
                            r@,
                            template(g, xx, yy),
                        ),
                    forall|k: int|
                        0 <= k < r@.len() ==> emitted_before(
                            pats@,
                            pi as int,
                            x as int,
                            0,
                            (#[trigger] r@[k])@,
                        ),
                    forall|k1: int, k2: int|
                        #![trigger r@[k1], r@[k2]]
                        0 <= k1 < k2 < r@.len() ==> r@[k1]@ != r@[k2]@,
                decreases 4 - x,
            {
                let mut y: usize = 0;
                while y + h <= 4
                    invariant
                        cg == canonical_grid(*self),
                        orientation_list_ok(cg, pats@),
                        0 <= pi < pats@.len(),
                        w == pats@[pi as int].width as usize,
                        h == pats@[pi as int].height as usize,
                        1 <= w,
                        1 <= h,
                        g == pats@[pi as int].grid(),
                        g.len() == h,
                        g[0].len() == w,
                        0 <= x <= 4,
                        x + w <= 4,
                        0 <= y <= 4,
                        forall|k: int|
                            0 <= k < r@.len() ==> template_from_orbit(cg, (#[trigger] r@[k])@),
                        forall|oi: int, xo: int, yo: int|
                            0 <= oi < pi && #[trigger] anchor_ok(pats@[oi].grid(), xo, yo)
                                ==> contains_template(r@, template(pats@[oi].grid(), xo, yo)),
                        forall|xx: int, yy: int|
                            0 <= xx < x && #[trigger] anchor_ok(g, xx, yy) ==> contains_template(
                                r@,
                                template(g, xx, yy),
                            ),
                        forall|yy: int|
                            0 <= yy < y ==> contains_template(
                                r@,
                                #[trigger] template(g, x as int, yy),
                            ),
                        forall|k: int|
                            0 <= k < r@.len() ==> emitted_before(
                                pats@,
                                pi as int,
                                x as int,
                                y as int,
                                (#[trigger] r@[k])@,
                            ),
                        forall|k1: int, k2: int|
                            #![trigger r@[k1], r@[k2]]
                            0 <= k1 < k2 < r@.len() ==> r@[k1]@ != r@[k2]@,
                    decreases 4 - y,
                {
                    let tmpl = build_template(&pats[pi], x, y);
                    let ghost prev = r@;
                    r.push(tmpl);
                    proof {
                        lemma_contains_template_push(prev, tmpl);
                        assert(orbit(cg).contains(g));
                        assert(anchor_ok(g, x as int, y as int));
                        assert(template_from_orbit(cg, tmpl@));
                        assert forall|k: int| 0 <= k < r@.len() implies emitted_before(
                            pats@,
                            pi as int,
                            x as int,
                            (y + 1) as int,
                            (#[trigger] r@[k])@,
                        ) by {
                            if k < prev.len() {
                                assert(r@[k] == prev[k]);
                                assert(emitted_before(
                                    pats@,
                                    pi as int,
                                    x as int,
                                    y as int,
                                    prev[k]@,
                                ));
                                let (o2, x2, y2) = choose|o2: int, x2: int, y2: int|
                                    0 <= o2 < pats@.len() && #[trigger] anchor_ok(
                                        pats@[o2].grid(),
                                        x2,
                                        y2,
                                    ) && (o2 < pi as int || (o2 == pi as int && (x2 < x as int
                                        || (x2 == x as int && y2 < y as int)))) && prev[k]@
                                        == template(pats@[o2].grid(), x2, y2);
                                assert(anchor_ok(pats@[o2].grid(), x2, y2));
                            } else {
                                assert(r@[k] == tmpl);
                                assert(anchor_ok(pats@[pi as int].grid(), x as int, y as int));
                            }
                        }
                        assert forall|k1: int, k2: int|
                            #![trigger r@[k1], r@[k2]]
                            0 <= k1 < k2 < r@.len() implies r@[k1]@ != r@[k2]@ by {
                            if k2 < prev.len() {
                                assert(r@[k1] == prev[k1] && r@[k2] == prev[k2]);
                            } else {
                                assert(r@[k2] == tmpl && r@[k1] == prev[k1]);
                                if prev[k1]@ == tmpl@ {
                                    assert(emitted_before(
                                        pats@,
                                        pi as int,
                                        x as int,
                                        y as int,
                                        prev[k1]@,
                                    ));
                                    let (o2, x2, y2) = choose|o2: int, x2: int, y2: int|
                                        0 <= o2 < pats@.len() && #[trigger] anchor_ok(
                                            pats@[o2].grid(),
                                            x2,
                                            y2,
                                        ) && (o2 < pi as int || (o2 == pi as int && (x2
                                            < x as int || (x2 == x as int && y2 < y as int))))
                                            && prev[k1]@ == template(pats@[o2].grid(), x2, y2);
                                    pats@[o2].lemma_wf_grid();
                                    pats@[pi as int].lemma_wf_grid();
                                    lemma_template_injective(
                                        pats@[o2].grid(),
                                        x2,
                                        y2,
                                        g,
                                        x as int,
                                        y as int,
                                    );
                                    if o2 < pi as int {
                                        assert(pats@[o2].grid() != pats@[pi as int].grid());
                                    }
                                    assert(false);
                                }
                            }
                        }
                    }
                    y += 1;
                }
                proof {
                    assert forall|k: int| 0 <= k < r@.len() implies emitted_before(
                        pats@,
                        pi as int,
                        (x + 1) as int,
                        0,
                        (#[trigger] r@[k])@,
                    ) by {
                        assert(emitted_before(pats@, pi as int, x as int, y as int, r@[k]@));
                        let (o2, x2, y2) = choose|o2: int, x2: int, y2: int|
                            0 <= o2 < pats@.len() && #[trigger] anchor_ok(
                                pats@[o2].grid(),
                                x2,
                                y2,
                            ) && (o2 < pi as int || (o2 == pi as int && (x2 < x as int || (x2
                                == x as int && y2 < y as int)))) && r@[k]@ == template(
                                pats@[o2].grid(),
                                x2,
                                y2,
                            );
                        assert(anchor_ok(pats@[o2].grid(), x2, y2));
                    }
                }
                x += 1;
            }
            proof {
                assert forall|k: int| 0 <= k < r@.len() implies emitted_before(
                    pats@,
                    (pi + 1) as int,
                    0,
                    0,
                    (#[trigger] r@[k])@,
                ) by {
                    assert(emitted_before(pats@, pi as int, x as int, 0, r@[k]@));
                    let (o2, x2, y2) = choose|o2: int, x2: int, y2: int|
                        0 <= o2 < pats@.len() && #[trigger] anchor_ok(pats@[o2].grid(), x2, y2)
                            && (o2 < pi as int || (o2 == pi as int && (x2 < x as int || (x2
                            == x as int && y2 < 0)))) && r@[k]@ == template(
                            pats@[o2].grid(),
                            x2,
                            y2,
                        );
                    assert(anchor_ok(pats@[o2].grid(), x2, y2));
                }
            }
            proof {
                assert forall|xo: int, yo: int| #[trigger]
                    anchor_ok(g, xo, yo) implies contains_template(r@, template(g, xo, yo)) by {
                    assert(xo + w <= 4 && 0 <= xo);
                    assert(xo < x);
                }
            }
            pi += 1;
        }
        proof {
            assert forall|s: Grid, x: int, y: int|
                orbit(cg).contains(s) && #[trigger] anchor_ok(s, x, y) implies contains_template(
                r@,
                template(s, x, y),
            ) by {
                let oi = choose|oi: int|
                    0 <= oi < pats@.len() && (#[trigger] pats@[oi]).grid() == s;
                assert(anchor_ok(pats@[oi].grid(), x, y));
            }
            assert forall|k: int, m: int|
                0 <= k < r@.len() && 0 <= m < (#[trigger] r@[k])@.len() implies ((
            #[trigger] r@[k]@[m]).0.0 < 4 && r@[k]@[m].0.1 < 4) by {
                let (s, x, y) = choose|s: Grid, x: int, y: int|
                    orbit(cg).contains(s) && #[trigger] anchor_ok(s, x, y) && r@[k]@ == template(
                        s,
                        x,
                        y,
                    );
                lemma_canonical_wf(*self);
                lemma_orbit_wf(cg, s);
                lemma_template_in_bounds(s, x, y);
            }
        }
        r
    }
}

/// Builds the placement template of one oriented pattern anchored at
/// `(x, y)`: the pattern's cells in row-major order, each paired with its
/// absolute board coordinate.
fn build_template(p: &Pattern, x: usize, y: usize) -> (t: Vec<((u8, u8), Option<Resource>)>)
    requires
        p.wf(),
        x + p.width as usize <= 4,
        y + p.height as usize <= 4,
    ensures
        t@ == template(p.grid(), x as int, y as int),
{
    let w = p.width as usize;
    let h = p.height as usize;
    let ghost g = p.grid();
    proof {
        assert(gview(p.coords@)[0] == p.coords@[0]@);
        assert(g.len() == h && g[0].len() == w);
        assert(template(g, x as int, y as int).len() == g.len() * g[0].len());
    }
    let mut t: Vec<((u8, u8), Option<Resource>)> = Vec::new();
    let mut dy: usize = 0;
    while dy < h
        invariant
            p.wf(),
            w == p.width as usize,
            h == p.height as usize,
            1 <= w,
            1 <= h,
            g == p.grid(),
            g.len() == h,
            g[0].len() == w,
            x + w <= 4,
            y + h <= 4,
            0 <= dy <= h,
            t@.len() == dy * w,
            t@ == template(g, x as int, y as int).take((dy * w) as int),
        decreases h - dy,
    {
        let mut dx: usize = 0;
        while dx < w
            invariant
                p.wf(),
                w == p.width as usize,
                h == p.height as usize,
                1 <= w,
                1 <= h,
                g == p.grid(),
                g.len() == h,
                g[0].len() == w,
                x + w <= 4,
                y + h <= 4,
                0 <= dy < h,
                0 <= dx <= w,
                t@.len() == dy * w + dx,
                t@ == template(g, x as int, y as int).take((dy * w + dx) as int),
            decreases w - dx,
        {
            proof {
                assert(dy * w + dx < h * w) by (nonlinear_arith)
                    requires
                        0 <= dy < h,
                        0 <= dx < w,
                ;
                assert(template(g, x as int, y as int).len() == h * w) by (nonlinear_arith)
                    requires
                        template(g, x as int, y as int).len() == g.len() * g[0].len(),
                        g.len() == h,
                        g[0].len() == w,
                ;
                assert(gview(p.coords@)[dy as int] == p.coords@[dy as int]@);
            }
            let cell = p.coords[dy][dx];
            t.push((((x + dx) as u8, (y + dy) as u8), cell));
            proof {
                let k = (dy * w + dx) as int;
                vstd::arithmetic::div_mod::lemma_fundamental_div_mod_converse(
                    k,
                    w as int,
                    dy as int,
                    dx as int,
                );
                assert(template(g, x as int, y as int)[k] == ((((x + dx) as u8), ((y
                    + dy) as u8)), g[dy as int][dx as int]));
                assert(t@ =~= template(g, x as int, y as int).take(k + 1));
            }
            dx += 1;
        }
        proof {
            assert(dy * w + w == (dy + 1) * w) by (nonlinear_arith);
        }
        dy += 1;
    }
    proof {
        assert(t@.len() == h * w);
        assert(template(g, x as int, y as int).len() == h * w) by (nonlinear_arith)
            requires
                template(g, x as int, y as int).len() == g.len() * g[0].len(),
                g.len() == h,
                g[0].len() == w,
        ;
        assert(t@ =~= template(g, x as int, y as int));
    }
    t
}

} // verus!
