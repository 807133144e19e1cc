//! Frame planning for the terminal: the first frame writes every cell, each
//! later one only the cells that changed since the frame before.

use vstd::prelude::*;
use crate::render::{Cell, Grid, Style, apply_changes, covers_grid, diff, diff_upto, lemma_diff_complete};

verus! {

pub struct Adapter {
    prev: Option<Grid>,
}

/// Every cell of a grid with its position, row by row.
pub open spec fn all_cells(g: (usize, Seq<(Style, Seq<char>)>)) -> Seq<(usize, usize, (Style, Seq<char>))> {
    Seq::new(
        ((g.1.len() / (g.0 as nat)) * g.0) as nat,
        |i: int| ((i / (g.0 as int)) as usize, (i % (g.0 as int)) as usize, g.1[i]),
    )
}

/// The cells a frame writes: all of them with no frame before, otherwise
/// the ones that differ from the frame before.
pub open spec fn frame_cells(
    prev: Option<(usize, Seq<(Style, Seq<char>)>)>,
    curr: (usize, Seq<(Style, Seq<char>)>),
) -> Seq<(usize, usize, (Style, Seq<char>))> {
    match prev {
        None => all_cells(curr),
        Some(p) => diff_upto(p, curr, (p.1.len() / (p.0 as nat)) * p.0),
    }
}

/// `curr` can follow `prev`: it has a width, and it has the width and the
/// height of the frame drawn last, if there is one.
pub open spec fn drawable(
    prev: Option<(usize, Seq<(Style, Seq<char>)>)>,
    curr: (usize, Seq<(Style, Seq<char>)>),
) -> bool {
    &&& curr.0 >= 1
    &&& match prev {
        None => true,
        Some(p) => p.0 == curr.0 && p.1.len() / (p.0 as nat) == curr.1.len() / (curr.0 as nat),
    }
}

impl Adapter {
    /// The frame drawn last.
    pub closed spec fn previous(&self) -> Option<(usize, Seq<(Style, Seq<char>)>)> {
        match &self.prev {
            Some(g) => Some(g@),
            None => None,
        }
    }

    pub fn new() -> (a: Adapter)
        ensures
            a.previous() is None,
    {
        Adapter { prev: None }
    }

    /// The cells to write for frame `curr`, with their positions: all of
    /// them with no frame drawn yet, otherwise the ones that differ from the
    /// frame drawn last.
    pub fn frame<'a>(&self, curr: &'a Grid) -> (cells: Vec<(usize, usize, &'a Cell)>)
        requires
            curr@.0 >= 1,
            self.previous() matches Some(p) ==> covers_grid(p, curr@),
        ensures
            cells@.map_values(|t: (usize, usize, &'a Cell)| (t.0, t.1, t.2@)) == frame_cells(
                self.previous(),
                curr@,
            ),
    {
        match &self.prev {
            Some(prev) => diff(prev, curr),
            None => every_cell(curr),
        }
    }

    /// Records `curr` as the frame drawn last, once its cells are written.
    pub fn commit(&mut self, curr: &Grid)
        ensures
            final(self).previous() == Some(curr@),
    {
        self.prev = Some(curr.duplicate());
    }
}

impl Adapter {
    /// Whether `curr` can be drawn as the next frame: it has a width, and it
    /// has the shape of the frame drawn last, if any.
    pub fn can_draw(&self, curr: &Grid) -> (b: bool)
        ensures
            b == drawable(self.previous(), curr@),
            b ==> (self.previous() matches Some(p) ==> covers_grid(p, curr@)),
    {
        let w = curr.width();
        if w == 0 {
            return false;
        }
        let h = curr.height();
        match &self.prev {
            None => true,
            Some(p) => {
                if p.width() != w || p.height() != h {
                    return false;
                }
                proof {
                    let pv = p@;
                    let cv = curr@;
                    assert forall|i: int|
                        0 <= i < (pv.1.len() / (pv.0 as nat)) * pv.0 implies #[trigger] ((i / (pv.0 as int)) * cv.0
                        + i % (pv.0 as int)) < cv.1.len() by {
                        vstd::arithmetic::div_mod::lemma_fundamental_div_mod(i, pv.0 as int);
                        vstd::arithmetic::div_mod::lemma_fundamental_div_mod(cv.1.len() as int, cv.0 as int);
                        vstd::arithmetic::div_mod::lemma_mod_pos_bound(cv.1.len() as int, cv.0 as int);
                        assert((i / (pv.0 as int)) * cv.0 + i % (pv.0 as int) == i) by (nonlinear_arith)
                            requires
                                i == pv.0 * (i / (pv.0 as int)) + i % (pv.0 as int),
                                pv.0 == cv.0,
                        ;
                        assert(i < cv.1.len()) by (nonlinear_arith)
                            requires
                                i < (pv.1.len() / (pv.0 as nat)) * pv.0,
                                (pv.1.len() / (pv.0 as nat)) == (cv.1.len() / (cv.0 as nat)),
                                pv.0 == cv.0,
                                cv.1.len() == cv.0 * (cv.1.len() / (cv.0 as nat)) + cv.1.len() % (cv.0 as nat),
                                cv.1.len() % (cv.0 as nat) >= 0,
                        ;
                    }
                }
                true
            },
        }
    }
}

impl Default for Adapter {
    fn default() -> (a: Adapter)
        ensures
            a.previous() is None,
    {
        Adapter::new()
    }
}

proof fn lemma_all_cells_prefix(screen: Seq<(Style, Seq<char>)>, curr: (usize, Seq<(Style, Seq<char>)>), k: int)
    requires
        curr.0 >= 1,
        screen.len() == curr.1.len(),
        curr.1.len() % (curr.0 as nat) == 0,
        curr.1.len() <= usize::MAX,
        0 <= k <= curr.1.len(),
    ensures
        all_cells(curr).len() == curr.1.len(),
        apply_changes(screen, curr.0 as int, all_cells(curr).take(k)) == Seq::new(
            screen.len(),
            |i: int| if i < k { curr.1[i] } else { screen[i] },
        ),
    decreases k,
{
    let w = curr.0 as int;
    let n = curr.1.len() as int;
    vstd::arithmetic::div_mod::lemma_fundamental_div_mod(n, w);
    assert((n / w) * w == n) by (nonlinear_arith)
        requires
            n == w * (n / w) + n % w,
            n % w == 0,
    ;
    if k == 0 {
        assert(all_cells(curr).take(0) =~= Seq::empty());
        assert(Seq::new(screen.len(), |i: int| if i < 0 { curr.1[i] } else { screen[i] }) =~= screen);
    } else {
        lemma_all_cells_prefix(screen, curr, k - 1);
        let cs = all_cells(curr).take(k);
        assert(cs.drop_last() =~= all_cells(curr).take(k - 1));
        let i = k - 1;
        vstd::arithmetic::div_mod::lemma_fundamental_div_mod(i, w);
        assert((i / w) * w + i % w == i) by (nonlinear_arith)
            requires
                i == w * (i / w) + i % w,
        ;
        vstd::arithmetic::div_mod::lemma_div_pos_is_pos(i, w);
        vstd::arithmetic::div_mod::lemma_mod_pos_bound(i, w);
        assert(i / w <= i) by (nonlinear_arith)
            requires
                0 <= i,
                w >= 1,
                i == w * (i / w) + i % w,
                i % w >= 0,
        ;
        let c = cs.last();
        assert(c == ((i / w) as usize, (i % w) as usize, curr.1[i]));
        assert(c.0 * w + c.1 == i);
        assert(apply_changes(screen, w, cs) =~= Seq::new(
            screen.len(),
            |j: int| if j < k { curr.1[j] } else { screen[j] },
        ));
    }
}

/// Writing the cells a frame lists onto the screen gives that frame: with
/// no frame before, onto any screen of its size; otherwise onto a screen
/// that shows the frame before, of the same shape.
pub proof fn lemma_frame_complete(
    prev: Option<(usize, Seq<(Style, Seq<char>)>)>,
    screen: Seq<(Style, Seq<char>)>,
    curr: (usize, Seq<(Style, Seq<char>)>),
)
    requires
        curr.0 >= 1,
        curr.1.len() % (curr.0 as nat) == 0,
        curr.1.len() <= usize::MAX,
        screen.len() == curr.1.len(),
        prev matches Some(p) ==> p == (curr.0, screen),
    ensures
        apply_changes(screen, curr.0 as int, frame_cells(prev, curr)) == curr.1,
{
    match prev {
        Some(p) => {
            lemma_diff_complete(p, curr);
        },
        None => {
            let n = curr.1.len() as int;
            lemma_all_cells_prefix(screen, curr, n);
            assert(all_cells(curr).take(n) =~= all_cells(curr));
            assert(Seq::new(screen.len(), |i: int| if i < n { curr.1[i] } else { screen[i] }) =~= curr.1);
        },
    }
}

fn every_cell<'a>(curr: &'a Grid) -> (cells: Vec<(usize, usize, &'a Cell)>)
    requires
        curr@.0 >= 1,
    ensures
        cells@.map_values(|t: (usize, usize, &'a Cell)| (t.0, t.1, t.2@)) == all_cells(curr@),
{
    let w = curr.width();
    let h = curr.height();
    proof {
        vstd::arithmetic::div_mod::lemma_fundamental_div_mod(curr@.1.len() as int, w as int);
        assert(w * h <= curr@.1.len()) by (nonlinear_arith)
            requires
                h == curr@.1.len() / (w as nat),
                w >= 1,
        ;
    }
    let total = w * h;
    assert(total == (curr@.1.len() / (curr@.0 as nat)) * curr@.0) by (nonlinear_arith)
        requires
            total == w * h,
            h == curr@.1.len() / (curr@.0 as nat),
            w == curr@.0,
    ;
    let mut cells: Vec<(usize, usize, &'a Cell)> = Vec::new();
    let mut index: usize = 0;
    while index < total
        invariant
            index <= total,
            w == curr@.0,
            w >= 1,
            total == (curr@.1.len() / (curr@.0 as nat)) * curr@.0,
            total <= curr@.1.len(),
            cells@.map_values(|t: (usize, usize, &'a Cell)| (t.0, t.1, t.2@)) == all_cells(curr@).subrange(
                0,
                index as int,
            ),
        decreases total - index,
    {
        let row = index / w;
        let col = index % w;
        proof {
            vstd::arithmetic::div_mod::lemma_fundamental_div_mod(index as int, w as int);
            assert(row * w + col == index) by (nonlinear_arith)
                requires
                    index == w * (index / w) + index % w,
                    row == index / w,
                    col == index % w,
            ;
        }
        let c = curr.cell(row, col);
        let ghost before = cells@;
        cells.push((row, col, c));
        assert(cells@.map_values(|t: (usize, usize, &'a Cell)| (t.0, t.1, t.2@)) =~= before.map_values(
            |t: (usize, usize, &'a Cell)| (t.0, t.1, t.2@),
        ).push((row, col, c@)));
        assert(all_cells(curr@)[index as int] == (row, col, c@));
        assert(cells@.map_values(|t: (usize, usize, &'a Cell)| (t.0, t.1, t.2@)) =~= all_cells(curr@).subrange(
            0,
            index + 1,
        ));
        index += 1;
    }
    assert(all_cells(curr@).subrange(0, total as int) =~= all_cells(curr@));
    cells
}

} // verus!
