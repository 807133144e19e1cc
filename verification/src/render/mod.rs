//! The pure rendering core: styles, cells, a cell grid, the viewport, text
//! coordinates, and the render and diff functions.

pub mod adapter;

use vstd::prelude::*;
use vstd::utf8::*;
use vstd::string::*;
use crate::encoding::{lemma_boundary_iff, lemma_ascii_next_boundary, substr, str_len};
use crate::buffer::Buffer;
use crate::markdown::{Highlight, kind_style, style_for};
use crate::selection::{Selection, SelectionSet};
use crate::text::{grapheme_starts, grapheme_chars, str_width, grapheme_width, partitions};

verus! {

#[derive(Clone, PartialEq, Eq, Structural, Debug, Copy)]
pub enum Colour {
    Rgb(u8, u8, u8),
}

#[derive(Clone, Debug, PartialEq, Eq, Structural, Copy)]
pub struct Style {
    pub bold: bool,
    pub fg: Option<Colour>,
    pub bg: Option<Colour>,
}

/// Not bold, no colours.
pub open spec fn plain_style() -> Style {
    Style { bold: false, fg: None, bg: None }
}

impl Default for Style {
    fn default() -> (s: Style)
        ensures
            s == plain_style(),
    {
        Style { bold: false, fg: None, bg: None }
    }
}

impl Style {
    pub fn new(bold: bool, fg: Option<Colour>, bg: Option<Colour>) -> (s: Style)
        ensures
            s == (Style { bold, fg, bg }),
    {
        Style { bold, fg, bg }
    }
}

/// One terminal cell: a grapheme and its style. A blank cell holds a space.
#[derive(Clone, Debug, PartialEq)]
pub struct Cell {
    style: Style,
    grapheme: String,
}

impl View for Cell {
    type V = (Style, Seq<char>);

    closed spec fn view(&self) -> (Style, Seq<char>) {
        (self.style, self.grapheme@)
    }
}

impl Cell {
    pub fn new(grapheme: &str) -> (c: Cell)
        ensures
            c@ == (plain_style(), grapheme@),
    {
        Cell { style: Style::default(), grapheme: grapheme.to_owned() }
    }

    pub fn grapheme(&self) -> (g: &str)
        ensures
            g@ == self@.1,
    {
        self.grapheme.as_str()
    }

    pub fn blank() -> (c: Cell)
        ensures
            c@ == (plain_style(), seq![' ']),
    {
        let c = Cell::new(" ");
        proof {
            reveal_strlit(" ");
        }
        c
    }

    pub fn style(&self) -> (s: &Style)
        ensures
            *s == self@.0,
    {
        &self.style
    }

    pub fn is_bold(&self) -> (b: bool)
        ensures
            b == self@.0.bold,
    {
        self.style.bold
    }

    pub fn foreground(&self) -> (c: Option<Colour>)
        ensures
            c == self@.0.fg,
    {
        self.style.fg
    }

    pub fn background(&self) -> (c: Option<Colour>)
        ensures
            c == self@.0.bg,
    {
        self.style.bg
    }

    /// A cell showing the same grapheme in the same style.
    pub fn duplicate(&self) -> (c: Cell)
        ensures
            c@ == self@,
    {
        Cell { style: self.style, grapheme: self.grapheme.clone() }
    }

    /// Both cells show the same grapheme in the same style.
    pub fn same_as(&self, other: &Cell) -> (b: bool)
        ensures
            b == (self@ == other@),
    {
        self.style == other.style && self.grapheme == other.grapheme
    }
}

/// What each cell shows.
pub open spec fn cell_views(cells: Seq<Cell>) -> Seq<(Style, Seq<char>)> {
    cells.map_values(|c: Cell| c@)
}

/// A blank cell.
pub open spec fn blank_cell() -> (Style, Seq<char>) {
    (plain_style(), seq![' '])
}

/// A grid of cells stored row by row; its height is the number of cells
/// divided by its width.
#[derive(Clone)]
pub struct Grid {
    width: usize,
    cells: Vec<Cell>,
}

impl View for Grid {
    type V = (usize, Seq<(Style, Seq<char>)>);

    closed spec fn view(&self) -> (usize, Seq<(Style, Seq<char>)>) {
        (self.width, cell_views(self.cells@))
    }
}

/// The top-left corner in the document and the size of the visible window.
pub struct Viewport {
    top: usize,
    left: usize,
    rows: usize,
    cols: usize,
}

impl View for Viewport {
    /// `(top, left, rows, cols)`
    type V = (usize, usize, usize, usize);

    closed spec fn view(&self) -> (usize, usize, usize, usize) {
        (self.top, self.left, self.rows, self.cols)
    }
}

impl Viewport {
    #[verifier::type_invariant]
    spec fn has_area(self) -> bool {
        self.rows >= 1 && self.cols >= 1
    }

    pub fn new(top: usize, left: usize, rows: usize, cols: usize) -> (v: Viewport)
        requires
            rows >= 1,
            cols >= 1,
        ensures
            v@ == (top, left, rows, cols),
    {
        Viewport { top, left, rows, cols }
    }

    pub fn top(&self) -> (t: usize)
        ensures
            t == self@.0,
    {
        self.top
    }

    pub fn left(&self) -> (l: usize)
        ensures
            l == self@.1,
    {
        self.left
    }

    pub fn rows(&self) -> (r: usize)
        ensures
            r == self@.2,
            r >= 1,
    {
        proof {
            use_type_invariant(self);
        }
        self.rows
    }

    pub fn cols(&self) -> (c: usize)
        ensures
            c == self@.3,
            c >= 1,
    {
        proof {
            use_type_invariant(self);
        }
        self.cols
    }
}

impl Grid {
    pub fn new(width: usize, height: usize) -> (g: Grid)
        requires
            width >= 1,
            height >= 1,
            width * height <= usize::MAX,
        ensures
            g@.0 == width,
            g@.1 == Seq::new((width * height) as nat, |i: int| blank_cell()),
    {
        let n = width * height;
        let mut cells: Vec<Cell> = Vec::new();
        let mut i: usize = 0;
        while i < n
            invariant
                i <= n,
                cells@.len() == i,
                cell_views(cells@) == Seq::new(i as nat, |k: int| blank_cell()),
            decreases n - i,
        {
            let ghost before = cells@;
            let c = Cell::blank();
            cells.push(c);
            assert(cells@ == before.push(c));
            assert forall|k: int| 0 <= k < i + 1 implies #[trigger] cell_views(cells@)[k] == blank_cell() by {
                if k < i {
                    assert(cells@[k] == before[k]);
                    assert(cell_views(before)[k] == blank_cell());
                }
            }
            i += 1;
            assert(cell_views(cells@) =~= Seq::new(i as nat, |k: int| blank_cell()));
        }
        Grid { width, cells }
    }

    /// A grid of the same width with the same cells.
    pub fn duplicate(&self) -> (g: Grid)
        ensures
            g@ == self@,
    {
        let mut cells: Vec<Cell> = Vec::new();
        let mut i: usize = 0;
        while i < self.cells.len()
            invariant
                i <= self.cells@.len(),
                cell_views(cells@) == cell_views(self.cells@).subrange(0, i as int),
            decreases self.cells@.len() - i,
        {
            let c = self.cells[i].duplicate();
            let ghost before = cells@;
            cells.push(c);
            assert(cell_views(cells@) =~= cell_views(before).push(c@));
            assert(cell_views(self.cells@)[i as int] == self.cells@[i as int]@);
            assert(cell_views(cells@) =~= cell_views(self.cells@).subrange(0, i + 1));
            i += 1;
        }
        assert(cell_views(self.cells@).subrange(0, self.cells@.len() as int) =~= cell_views(self.cells@));
        Grid { width: self.width, cells }
    }

    pub fn width(&self) -> (w: usize)
        ensures
            w == self@.0,
    {
        self.width
    }

    pub fn height(&self) -> (h: usize)
        requires
            self@.0 >= 1,
        ensures
            h == self@.1.len() / (self@.0 as nat),
            self@.1.len() <= usize::MAX,
    {
        let n = self.cells.len();
        assert(cell_views(self.cells@).len() == n);
        n / self.width
    }

    fn cell_index(&self, row: usize, col: usize) -> (i: usize)
        requires
            row * self@.0 + col < self@.1.len(),
        ensures
            i == row * self@.0 + col,
    {
        let n = self.cells.len();
        assert(cell_views(self.cells@).len() == n);
        assert(row * self.width <= row * self.width + col);
        row * self.width + col
    }

    pub fn cell(&self, row: usize, col: usize) -> (c: &Cell)
        requires
            row * self@.0 + col < self@.1.len(),
        ensures
            c@ == self@.1[row * self@.0 + col],
    {
        let index = self.cell_index(row, col);
        &self.cells[index]
    }

    pub fn set_cell(&mut self, row: usize, col: usize, cell: Cell)
        requires
            row * old(self)@.0 + col < old(self)@.1.len(),
        ensures
            final(self)@ == (old(self)@.0, old(self)@.1.update(row * old(self)@.0 + col, cell@)),
    {
        let index = self.cell_index(row, col);
        let ghost c = cell@;
        self.cells.set(index, cell);
        assert(cell_views(self.cells@) =~= old(self)@.1.update(index as int, c));
    }

    pub fn set_style(&mut self, row: usize, col: usize, style: Style)
        requires
            row * old(self)@.0 + col < old(self)@.1.len(),
        ensures
            final(self)@ == (
                old(self)@.0,
                old(self)@.1.update(row * old(self)@.0 + col, (style, old(self)@.1[row * old(self)@.0 + col].1)),
            ),
    {
        let index = self.cell_index(row, col);
        self.cells[index].style = style;
        assert(cell_views(self.cells@) =~= old(self)@.1.update(
            index as int,
            (style, old(self)@.1[index as int].1),
        ));
    }
}

/// The byte that encodes a line feed.
pub open spec fn is_newline(b: u8) -> bool {
    b == 10
}

/// Line and column reached after the bytes `b`: every byte that starts a
/// character either ends the line (a line feed) or advances the column.
pub open spec fn line_col(b: Seq<u8>) -> (int, int)
    decreases b.len(),
{
    if b.len() == 0 {
        (0, 0)
    } else {
        let prev = line_col(b.drop_last());
        let x = b.last();
        if is_continuation_byte(x) {
            prev
        } else if is_newline(x) {
            (prev.0 + 1, 0)
        } else {
            (prev.0, prev.1 + 1)
        }
    }
}

/// Line and column of byte offset `p` of `b`.
pub open spec fn line_col_at(b: Seq<u8>, p: int) -> (int, int) {
    line_col(b.subrange(0, p))
}

/// How many line feeds `b` holds.
pub open spec fn newline_count(b: Seq<u8>) -> int
    decreases b.len(),
{
    if b.len() == 0 {
        0
    } else {
        newline_count(b.drop_last()) + if is_newline(b.last()) {
            1int
        } else {
            0int
        }
    }
}

/// How many characters start in `b`.
pub open spec fn char_count(b: Seq<u8>) -> int
    decreases b.len(),
{
    if b.len() == 0 {
        0
    } else {
        char_count(b.drop_last()) + if is_continuation_byte(b.last()) {
            0int
        } else {
            1int
        }
    }
}

/// Where the line holding offset `p` starts: just after the last line feed
/// before `p`, or at 0.
pub open spec fn line_start_at(b: Seq<u8>, p: int) -> int
    decreases p,
{
    if p <= 0 {
        0
    } else if is_newline(b[p - 1]) {
        p
    } else {
        line_start_at(b, p - 1)
    }
}

/// The start of the line holding `p` is on the same line at column 0, just
/// after a line feed unless it is 0, and is 0 only on the first line.
pub proof fn lemma_line_start(b: Seq<u8>, p: int)
    requires
        0 <= p <= b.len(),
    ensures
        0 <= line_start_at(b, p) <= p,
        line_start_at(b, p) > 0 ==> is_newline(b[line_start_at(b, p) - 1]),
        line_col_at(b, line_start_at(b, p)) == (line_col_at(b, p).0, 0int),
        line_start_at(b, p) == 0 ==> line_col_at(b, p).0 == 0,
    decreases p,
{
    if p == 0 {
        assert(b.subrange(0, 0) =~= Seq::<u8>::empty());
    } else {
        lemma_line_col_step(b, p - 1);
        if !is_newline(b[p - 1]) {
            lemma_line_start(b, p - 1);
        }
    }
}

/// Lines and columns count as `byte_to_line_col` counts them: the line of
/// offset `p` is the number of line feeds before it, and its column the
/// number of characters from the start of its line up to it.
pub proof fn lemma_line_col_counts(b: Seq<u8>, p: int)
    requires
        0 <= p <= b.len(),
    ensures
        0 <= line_start_at(b, p) <= p,
        line_col_at(b, p) == (
            newline_count(b.subrange(0, p)),
            char_count(b.subrange(line_start_at(b, p), p)),
        ),
    decreases p,
{
    if p == 0 {
        assert(b.subrange(0, 0) =~= Seq::<u8>::empty());
    } else {
        lemma_line_col_counts(b, p - 1);
        lemma_line_col_step(b, p - 1);
        let x = b[p - 1];
        assert(b.subrange(0, p).drop_last() =~= b.subrange(0, p - 1));
        assert(b.subrange(0, p).last() == x);
        assert(is_newline(x) ==> !is_continuation_byte(x));
        if is_newline(x) {
            assert(b.subrange(p, p) =~= Seq::<u8>::empty());
        } else {
            let st = line_start_at(b, p - 1);
            assert(b.subrange(st, p).drop_last() =~= b.subrange(st, p - 1));
            assert(b.subrange(st, p).last() == x);
        }
    }
}

/// The offset `line_col_to_byte` finds, scanning from `q`: the first
/// character start on the target line at the target column, or the end of
/// that line when it is shorter; `None` when the text has no such line.
pub open spec fn find_line_col(b: Seq<u8>, line: int, col: int, q: int) -> Option<int>
    decreases b.len() - q,
{
    if q >= b.len() {
        let lc = line_col(b);
        if lc.0 == line && lc.1 >= col {
            Some(b.len() as int)
        } else {
            None
        }
    } else if is_continuation_byte(b[q]) {
        find_line_col(b, line, col, q + 1)
    } else {
        let lc = line_col_at(b, q);
        if lc.0 == line && lc.1 == col {
            Some(q)
        } else if is_newline(b[q]) && lc.0 == line {
            Some(q)
        } else {
            find_line_col(b, line, col, q + 1)
        }
    }
}

proof fn lemma_line_col_step(b: Seq<u8>, q: int)
    requires
        0 <= q < b.len(),
    ensures
        line_col_at(b, q + 1) == ({
            let prev = line_col_at(b, q);
            if is_continuation_byte(b[q]) {
                prev
            } else if is_newline(b[q]) {
                (prev.0 + 1, 0)
            } else {
                (prev.0, prev.1 + 1)
            }
        }),
{
    assert(b.subrange(0, q + 1).drop_last() =~= b.subrange(0, q));
}

pub fn byte_to_line_col(text: &str, offset: usize) -> (r: Option<(usize, usize)>)
    ensures
        r is None <==> offset > text.spec_bytes().len(),
        r matches Some(lc) ==> (lc.0 as int, lc.1 as int) == line_col_at(
            text.spec_bytes(),
            offset as int,
        ),
{
    let bytes = text.as_bytes();
    if offset > bytes.len() {
        return None;
    }
    let mut col: usize = 0;
    let mut line: usize = 0;
    let mut i: usize = 0;
    while i < offset
        invariant
            i <= offset <= bytes@.len(),
            bytes@ == text.spec_bytes(),
            (line as int, col as int) == line_col_at(bytes@, i as int),
            line <= i,
            col <= i,
        decreases offset - i,
    {
        proof {
            lemma_line_col_step(bytes@, i as int);
        }
        let x = bytes[i];
        if 0x80 <= x && x <= 0xbf {
        } else if x == 10 {
            line += 1;
            col = 0;
        } else {
            col += 1;
        }
        i += 1;
    }
    Some((line, col))
}

pub fn line_col_to_byte(text: &str, target_line: usize, target_col: usize) -> (r: Option<usize>)
    ensures
        r matches Some(q) ==> find_line_col(text.spec_bytes(), target_line as int, target_col as int, 0) == Some(q as int),
        r is None ==> find_line_col(text.spec_bytes(), target_line as int, target_col as int, 0) is None,
{
    let bytes = text.as_bytes();
    let n = bytes.len();
    let ghost b = bytes@;
    if n == 0 && target_line == 0 && target_col == 0 {
        return Some(0);
    }
    let mut current_col: usize = 0;
    let mut current_line: usize = 0;
    let mut q: usize = 0;
    while q < n
        invariant
            q <= n == b.len(),
            b == bytes@,
            b == text.spec_bytes(),
            (current_line as int, current_col as int) == line_col_at(b, q as int),
            current_line <= q,
            current_col <= q,
            find_line_col(b, target_line as int, target_col as int, 0) == find_line_col(
                b,
                target_line as int,
                target_col as int,
                q as int,
            ),
        decreases n - q,
    {
        proof {
            lemma_line_col_step(b, q as int);
        }
        let x = bytes[q];
        if !(0x80 <= x && x <= 0xbf) {
            if current_line == target_line && current_col == target_col {
                return Some(q);
            }
            if x == 10 {
                if current_line == target_line {
                    return Some(q);
                }
                current_line += 1;
                current_col = 0;
            } else {
                current_col += 1;
            }
        }
        q += 1;
    }
    assert(b.subrange(0, q as int) =~= b);
    if current_line == target_line && current_col >= target_col {
        return Some(n);
    }
    None
}


/// What `find_line_col` finds is a character start at or after `q`, or the end.
pub proof fn lemma_find_line_col_result(b: Seq<u8>, line: int, col: int, q: int)
    requires
        0 <= q,
    ensures
        find_line_col(b, line, col, q) matches Some(r) ==> {
            &&& (q <= r <= b.len() || (q > b.len() && r == b.len()))
            &&& (r == b.len() || !is_continuation_byte(b[r]))
        },
    decreases b.len() - q,
{
    if q < b.len() {
        lemma_find_line_col_result(b, line, col, q + 1);
    }
}

/// Lex order on (line, column).
pub open spec fn lc_le(a: (int, int), b: (int, int)) -> bool {
    a.0 < b.0 || (a.0 == b.0 && a.1 <= b.1)
}

/// Lines and columns only grow along the text; a line feed or a character
/// start moves strictly forward.
pub proof fn lemma_line_col_mono(b: Seq<u8>, q: int, p: int)
    requires
        0 <= q <= p <= b.len(),
    ensures
        lc_le(line_col_at(b, q), line_col_at(b, p)),
        line_col_at(b, q).1 >= 0,
        q < p && !is_continuation_byte(b[q]) ==> lc_le(line_col_at(b, q + 1), line_col_at(b, p)),
        q < p && !is_continuation_byte(b[q]) ==> line_col_at(b, q) != line_col_at(b, p),
        q < p && is_newline(b[q]) ==> line_col_at(b, q).0 < line_col_at(b, p).0,
    decreases p - q,
{
    lemma_line_col_nonneg(b.subrange(0, q));
    if q < p {
        lemma_line_col_step(b, q);
        lemma_line_col_mono(b, q + 1, p);
    }
}

pub proof fn lemma_line_col_nonneg(b: Seq<u8>)
    ensures
        line_col(b).0 >= 0,
        line_col(b).1 >= 0,
    decreases b.len(),
{
    if b.len() > 0 {
        lemma_line_col_nonneg(b.drop_last());
    }
}

/// What `find_line_col` finds, scanning from a position not past the target,
/// lies on the target line, at a column not past the target: at the target
/// column itself, or at the line feed (or end) of a shorter line.
pub proof fn lemma_find_line_col_found(b: Seq<u8>, line: int, col: int, q: int)
    requires
        0 <= q <= b.len(),
        col >= 0,
        line_col_at(b, q).0 < line || (line_col_at(b, q).0 == line && line_col_at(b, q).1 <= col),
    ensures
        find_line_col(b, line, col, q) matches Some(r) ==> {
            &&& line_col_at(b, r).0 == line
            &&& line_col_at(b, r).1 <= col
            &&& (line_col_at(b, r).1 == col || (r < b.len() && is_newline(b[r])))
        },
    decreases b.len() - q,
{
    if q == b.len() {
        assert(b.subrange(0, q) =~= b);
    } else {
        lemma_line_col_step(b, q);
        lemma_line_col_nonneg(b.subrange(0, q));
        let lc = line_col_at(b, q);
        if is_continuation_byte(b[q]) {
            lemma_find_line_col_found(b, line, col, q + 1);
        } else if !((lc.0 == line && lc.1 == col) || (is_newline(b[q]) && lc.0 == line)) {
            lemma_find_line_col_found(b, line, col, q + 1);
        }
    }
}

/// Asking for a line that ends before the end of the text always finds an
/// offset.
pub proof fn lemma_find_line_col_exists(b: Seq<u8>, line: int, col: int, q: int)
    requires
        0 <= q <= b.len(),
        line_col_at(b, q).0 <= line < line_col(b).0,
    ensures
        find_line_col(b, line, col, q) is Some,
    decreases b.len() - q,
{
    if q == b.len() {
        assert(b.subrange(0, q) =~= b);
    } else {
        lemma_line_col_step(b, q);
        let lc = line_col_at(b, q);
        if !is_continuation_byte(b[q]) && lc.0 == line && (lc.1 == col || is_newline(b[q])) {
        } else {
            lemma_find_line_col_exists(b, line, col, q + 1);
        }
    }
}

/// The text coordinates of a character boundary lead back to it:
/// `line_col_to_byte` inverts `byte_to_line_col` on character boundaries.
pub proof fn lemma_line_col_round_trip(b: Seq<u8>, p: int)
    requires
        valid_utf8(b),
        is_char_boundary(b, p),
    ensures
        find_line_col(b, line_col_at(b, p).0, line_col_at(b, p).1, 0) == Some(p),
{
    lemma_boundary_iff(b, p);
    lemma_round_trip_from(b, p, 0);
}

proof fn lemma_round_trip_from(b: Seq<u8>, p: int, q: int)
    requires
        0 <= q <= p <= b.len(),
        p == b.len() || !is_continuation_byte(b[p]),
    ensures
        find_line_col(b, line_col_at(b, p).0, line_col_at(b, p).1, q) == Some(p),
    decreases p - q,
{
    let t = line_col_at(b, p);
    if q == p {
        if p == b.len() {
            assert(b.subrange(0, p) =~= b);
        }
    } else {
        lemma_line_col_mono(b, q, p);
        lemma_round_trip_from(b, p, q + 1);
    }
}


/// `prev` compared cell by cell with `curr`, in row-major order over the
/// first `k` cells of `prev`: the position and new cell of each change.
pub open spec fn diff_upto(
    prev: (usize, Seq<(Style, Seq<char>)>),
    curr: (usize, Seq<(Style, Seq<char>)>),
    k: int,
) -> Seq<(usize, usize, (Style, Seq<char>))>
    decreases k,
{
    if k <= 0 {
        Seq::empty()
    } else {
        let earlier = diff_upto(prev, curr, k - 1);
        let i = k - 1;
        let row = i / (prev.0 as int);
        let col = i % (prev.0 as int);
        let now = curr.1[row * curr.0 + col];
        if prev.1[i] != now {
            earlier.push((row as usize, col as usize, now))
        } else {
            earlier
        }
    }
}

/// Every cell position of `prev` names a cell of `curr` too.
pub open spec fn covers_grid(prev: (usize, Seq<(Style, Seq<char>)>), curr: (usize, Seq<(Style, Seq<char>)>)) -> bool {
    &&& prev.0 >= 1
    &&& forall|i: int|
        0 <= i < (prev.1.len() / (prev.0 as nat)) * prev.0 ==> #[trigger] ((i / (prev.0 as int)) * curr.0 + i
            % (prev.0 as int)) < curr.1.len()
}

/// The cells of `curr` that differ from `prev`, with their positions.
pub fn diff<'a>(prev: &Grid, curr: &'a Grid) -> (changes: Vec<(usize, usize, &'a Cell)>)
    requires
        covers_grid(prev@, curr@),
    ensures
        changes@.map_values(|t: (usize, usize, &'a Cell)| (t.0, t.1, t.2@)) == diff_upto(
            prev@,
            curr@,
            (prev@.1.len() / (prev@.0 as nat)) * prev@.0,
        ),
{
    let mut changes: Vec<(usize, usize, &'a Cell)> = Vec::new();
    let w = prev.width();
    let h = prev.height();
    let n = prev.cells.len();
    assert(cell_views(prev.cells@).len() == n);
    proof {
        vstd::arithmetic::div_mod::lemma_fundamental_div_mod(prev@.1.len() as int, w as int);
        assert(w * h <= prev@.1.len()) by (nonlinear_arith)
            requires h == prev@.1.len() / (w as nat), w >= 1;
    }
    let total = w * h;
    let mut index: usize = 0;
    while index < total
        invariant
            index <= total,
            w == prev@.0,
            w >= 1,
            total == (prev@.1.len() / (prev@.0 as nat)) * prev@.0,
            total == w * h,
            total <= prev@.1.len(),
            covers_grid(prev@, curr@),
            changes@.map_values(|t: (usize, usize, &'a Cell)| (t.0, t.1, t.2@)) == diff_upto(
                prev@,
                curr@,
                index as int,
            ),
        decreases total - index,
    {
        let row = index / w;
        let col = index % w;
        proof {
            vstd::arithmetic::div_mod::lemma_fundamental_div_mod(index as int, w as int);
            assert(((index as int / w as int) * curr@.0 + index as int % w as int) < curr@.1.len());
        }
        let a = prev.cell(row, col);
        let b = curr.cell(row, col);
        let ghost before = changes@;
        if !a.same_as(b) {
            changes.push((row, col, b));
            assert(changes@.map_values(|t: (usize, usize, &'a Cell)| (t.0, t.1, t.2@)) =~= before.map_values(
                |t: (usize, usize, &'a Cell)| (t.0, t.1, t.2@),
            ).push((row, col, b@)));
        }
        index += 1;
    }
    changes
}


/// `cells`, a grid `w` wide, with each listed change written into it in turn.
pub open spec fn apply_changes(
    cells: Seq<(Style, Seq<char>)>,
    w: int,
    changes: Seq<(usize, usize, (Style, Seq<char>))>,
) -> Seq<(Style, Seq<char>)>
    decreases changes.len(),
{
    if changes.len() == 0 {
        cells
    } else {
        let c = changes.last();
        apply_changes(cells, w, changes.drop_last()).update(c.0 * w + c.1, c.2)
    }
}

/// Writing the changes `diff` lists onto the earlier grid gives the later
/// one: the changes are exactly the cells that differ.
pub proof fn lemma_diff_complete(prev: (usize, Seq<(Style, Seq<char>)>), curr: (usize, Seq<(Style, Seq<char>)>))
    requires
        prev.0 == curr.0,
        prev.0 >= 1,
        prev.1.len() == curr.1.len(),
        prev.1.len() <= usize::MAX,
        prev.1.len() % (prev.0 as nat) == 0,
    ensures
        apply_changes(prev.1, prev.0 as int, diff_upto(prev, curr, (prev.1.len() / (prev.0 as nat)) * prev.0))
            == curr.1,
{
    let w = prev.0 as int;
    let n = prev.1.len() as int;
    vstd::arithmetic::div_mod::lemma_fundamental_div_mod(n, w);
    assert((n / w) * w == n) by (nonlinear_arith)
        requires
            n == w * (n / w) + n % w,
            n % w == 0,
    ;
    lemma_diff_prefix(prev, curr, n);
    assert(Seq::new(n as nat, |i: int| if i < n { curr.1[i] } else { prev.1[i] }) =~= curr.1);
}

proof fn lemma_diff_prefix(prev: (usize, Seq<(Style, Seq<char>)>), curr: (usize, Seq<(Style, Seq<char>)>), k: int)
    requires
        prev.0 == curr.0,
        prev.0 >= 1,
        prev.1.len() == curr.1.len(),
        prev.1.len() <= usize::MAX,
        0 <= k <= prev.1.len(),
    ensures
        apply_changes(prev.1, prev.0 as int, diff_upto(prev, curr, k)) == Seq::new(
            prev.1.len(),
            |i: int| if i < k { curr.1[i] } else { prev.1[i] },
        ),
        forall|j: int| 0 <= j < diff_upto(prev, curr, k).len() ==> {
            let c = #[trigger] diff_upto(prev, curr, k)[j];
            0 <= c.0 * prev.0 + c.1 < k
        },
    decreases k,
{
    let w = prev.0 as int;
    let target = Seq::new(prev.1.len(), |i: int| if i < k { curr.1[i] } else { prev.1[i] });
    if k == 0 {
        assert(apply_changes(prev.1, w, diff_upto(prev, curr, 0)) =~= target);
    } else {
        lemma_diff_prefix(prev, curr, k - 1);
        let i = k - 1;
        let row = i / w;
        let col = i % w;
        vstd::arithmetic::div_mod::lemma_fundamental_div_mod(i, w);
        vstd::arithmetic::div_mod::lemma_mod_pos_bound(i, w);
        vstd::arithmetic::div_mod::lemma_div_pos_is_pos(i, w);
        assert(row * w + col == i) by (nonlinear_arith)
            requires
                i == w * row + col,
        ;
        let earlier = diff_upto(prev, curr, k - 1);
        let now = curr.1[row * curr.0 + col];
        assert(row <= i) by (nonlinear_arith)
            requires
                i == w * row + col,
                w >= 1,
                col >= 0,
                row >= 0,
        ;
        assert((row as usize) as int == row);
        assert((col as usize) as int == col);
        if prev.1[i] != now {
            let d = earlier.push((row as usize, col as usize, now));
            assert(d.drop_last() =~= earlier);
            assert(apply_changes(prev.1, w, d) =~= target);
            assert forall|j: int| 0 <= j < d.len() implies {
                let c = #[trigger] d[j];
                0 <= c.0 * prev.0 + c.1 < k
            } by {
                if j < earlier.len() {
                    assert(d[j] == earlier[j]);
                }
            }
        } else {
            assert(apply_changes(prev.1, w, earlier) =~= target);
        }
    }
}

/// Offset of the first line feed at or after `from`, or the end of the text.
pub open spec fn next_newline(b: Seq<u8>, from: int) -> int
    decreases b.len() - from,
{
    if from >= b.len() {
        b.len() as int
    } else if is_newline(b[from]) {
        from
    } else {
        next_newline(b, from + 1)
    }
}

pub proof fn lemma_next_newline(b: Seq<u8>, from: int)
    requires
        0 <= from,
    ensures
        from <= b.len() ==> from <= next_newline(b, from) <= b.len(),
        next_newline(b, from) < b.len() ==> is_newline(b[next_newline(b, from)]),
        forall|k: int| from <= k < next_newline(b, from) ==> !is_newline(#[trigger] b[k]),
    decreases b.len() - from,
{
    if from < b.len() && !is_newline(b[from]) {
        lemma_next_newline(b, from + 1);
    }
}

/// The byte ranges of the lines of `b` from `from` on, as `str::lines` splits
/// them: at each line feed, dropping a carriage return right before it, and
/// with no empty line after a final line feed.
pub open spec fn lines_from(b: Seq<u8>, from: int) -> Seq<(int, int)>
    decreases b.len() - from,
{
    if from < 0 || from >= b.len() {
        Seq::empty()
    } else {
        let nl = next_newline(b, from);
        let end = if nl < b.len() && nl > from && b[nl - 1] == 13 {
            nl - 1
        } else {
            nl
        };
        proof {
            lemma_next_newline(b, from);
        }
        if nl < b.len() {
            seq![(from, end)] + lines_from(b, nl + 1)
        } else {
            seq![(from, end)]
        }
    }
}

/// The lines of the text.
pub open spec fn text_lines(b: Seq<u8>) -> Seq<(int, int)> {
    lines_from(b, 0)
}

/// The display width `render` gives grapheme `g`: that of its first grapheme.
pub open spec fn cell_width(g: Seq<char>) -> int {
    str_width(grapheme_chars(encode_utf8(g), grapheme_starts(g), 0)) as int
}

/// Characters of grapheme `j` of the line with bytes `lb`.
pub open spec fn line_grapheme(lb: Seq<u8>, j: int) -> Seq<char> {
    grapheme_chars(lb, grapheme_starts(decode_utf8(lb)), j)
}

/// The document column where grapheme `j` of a line starts.
pub open spec fn doc_col(lb: Seq<u8>, j: int) -> int
    decreases j,
{
    if j <= 0 {
        0
    } else {
        doc_col(lb, j - 1) + cell_width(line_grapheme(lb, j - 1))
    }
}

/// Among the first `k` graphemes of a line, the last one starting at
/// document column `c`.
pub open spec fn last_at_col(lb: Seq<u8>, c: int, k: int) -> Option<int>
    decreases k,
{
    if k <= 0 {
        None
    } else if doc_col(lb, k - 1) == c {
        Some(k - 1)
    } else {
        last_at_col(lb, c, k - 1)
    }
}

/// What the cell at document column `c` of line bytes `lb` shows.
pub open spec fn text_at(lb: Seq<u8>, c: int) -> Seq<char> {
    match last_at_col(lb, c, grapheme_starts(decode_utf8(lb)).len() as int) {
        Some(j) => line_grapheme(lb, j),
        None => seq![' '],
    }
}

/// Bytes of line `l` of the text.
pub open spec fn line_bytes(b: Seq<u8>, l: int) -> Seq<u8> {
    b.subrange(text_lines(b)[l].0, text_lines(b)[l].1)
}

/// The cells after the text is drawn: each viewport cell shows the grapheme
/// that starts at its document line and column, or a blank.
pub open spec fn text_cells(b: Seq<u8>, vp: (usize, usize, usize, usize)) -> Seq<(Style, Seq<char>)> {
    Seq::new(
        (vp.2 * vp.3) as nat,
        |i: int|
            {
                let r = i / (vp.3 as int);
                let c = i % (vp.3 as int);
                let l = vp.0 + r;
                if l < text_lines(b).len() {
                    (plain_style(), text_at(line_bytes(b, l), vp.1 + c))
                } else {
                    blank_cell()
                }
            },
    )
}

/// Index of the first grapheme start after `o`, looking from index `i` on
/// (the number of starts when there is none).
pub open spec fn first_start_after(starts: Seq<usize>, o: int, i: int) -> int
    decreases starts.len() - i,
{
    if i < 0 || i >= starts.len() {
        starts.len() as int
    } else if starts[i] > o {
        i
    } else {
        first_start_after(starts, o, i + 1)
    }
}

/// The grapheme of line bytes `lb` that holds offset `o`; past the last
/// grapheme at the line's end.
pub open spec fn grapheme_index(lb: Seq<u8>, o: int) -> int {
    let st = grapheme_starts(decode_utf8(lb));
    if o >= lb.len() {
        st.len() as int
    } else {
        first_start_after(st, o, 0) - 1
    }
}

/// The offset of byte `p` within the line `(s, e)`, kept within the line.
pub open spec fn offset_in_line(p: int, s: int, e: int) -> int {
    if p < s {
        0
    } else if p > e {
        e - s
    } else {
        p - s
    }
}

/// The document column at which byte `p` is drawn: the column where the
/// grapheme holding it starts, the widths of the graphemes before it on its
/// line summed (a byte after the last line is at its character column).
pub open spec fn display_col(b: Seq<u8>, p: int) -> int {
    let lc = line_col_at(b, p);
    if lc.0 < text_lines(b).len() {
        let se = text_lines(b)[lc.0];
        let lb = b.subrange(se.0, se.1);
        doc_col(lb, grapheme_index(lb, offset_in_line(p, se.0, se.1)))
    } else {
        lc.1
    }
}

/// The grid cell of byte `byte`, when its line and display column are in
/// view.
pub open spec fn grid_index(b: Seq<u8>, vp: (usize, usize, usize, usize), byte: int) -> Option<int> {
    if byte < 0 || byte > b.len() {
        None
    } else {
        let r = line_col_at(b, byte).0 - vp.0;
        let c = display_col(b, byte) - vp.1;
        if 0 <= r < vp.2 && 0 <= c < vp.3 {
            Some(r * vp.3 + c)
        } else {
            None
        }
    }
}

/// Restyle one cell.
pub open spec fn paint_at(cells: Seq<(Style, Seq<char>)>, at: Option<int>, style: Style) -> Seq<(Style, Seq<char>)> {
    match at {
        Some(i) => cells.update(i, (style, cells[i].1)),
        None => cells,
    }
}

/// Restyle the cells of bytes `lo..hi`, in order.
pub open spec fn paint_range(
    cells: Seq<(Style, Seq<char>)>,
    b: Seq<u8>,
    vp: (usize, usize, usize, usize),
    lo: int,
    hi: int,
    style: Style,
) -> Seq<(Style, Seq<char>)>
    decreases hi - lo,
{
    if lo >= hi {
        cells
    } else {
        paint_range(paint_at(cells, grid_index(b, vp, lo), style), b, vp, lo + 1, hi, style)
    }
}

/// Restyle the cells of each highlight in turn.
pub open spec fn paint_highlights(
    cells: Seq<(Style, Seq<char>)>,
    b: Seq<u8>,
    vp: (usize, usize, usize, usize),
    hs: Seq<Highlight>,
) -> Seq<(Style, Seq<char>)>
    decreases hs.len(),
{
    if hs.len() == 0 {
        cells
    } else {
        paint_highlights(
            paint_range(cells, b, vp, hs[0].start as int, hs[0].end as int, kind_style(hs[0].kind)),
            b,
            vp,
            hs.drop_first(),
        )
    }
}

/// A selected range: light text on dark blue.
pub open spec fn selection_style() -> Style {
    Style { bold: false, fg: Some(Colour::Rgb(230, 230, 255)), bg: Some(Colour::Rgb(40, 40, 80)) }
}

/// The cursor: grey on grey.
pub open spec fn cursor_style() -> Style {
    Style { bold: false, fg: Some(Colour::Rgb(160, 160, 160)), bg: Some(Colour::Rgb(80, 80, 80)) }
}

/// Restyle each selection's range (lowest offset up to, not including, the
/// highest) and then its head, selection by selection.
pub open spec fn paint_selections(
    cells: Seq<(Style, Seq<char>)>,
    b: Seq<u8>,
    vp: (usize, usize, usize, usize),
    sels: Seq<Selection>,
) -> Seq<(Style, Seq<char>)>
    decreases sels.len(),
{
    if sels.len() == 0 {
        cells
    } else {
        let s = sels[0];
        let ranged = paint_range(cells, b, vp, s.low(), s.high(), selection_style());
        paint_selections(
            paint_at(ranged, grid_index(b, vp, s.spec_head() as int), cursor_style()),
            b,
            vp,
            sels.drop_first(),
        )
    }
}

/// The cells `render` draws.
pub open spec fn rendered(
    b: Seq<u8>,
    sels: Seq<Selection>,
    vp: (usize, usize, usize, usize),
    hs: Seq<Highlight>,
) -> Seq<(Style, Seq<char>)> {
    paint_selections(paint_highlights(text_cells(b, vp), b, vp, hs), b, vp, sels)
}

/// Two grids' cells show the same graphemes, whatever their styles.
pub open spec fn same_graphemes(a: Seq<(Style, Seq<char>)>, b: Seq<(Style, Seq<char>)>) -> bool {
    &&& a.len() == b.len()
    &&& forall|j: int| 0 <= j < a.len() ==> (#[trigger] a[j]).1 == b[j].1
}

proof fn lemma_grid_index_in_grid(b: Seq<u8>, vp: (usize, usize, usize, usize), byte: int)
    ensures
        grid_index(b, vp, byte) matches Some(i) ==> 0 <= i < vp.2 * vp.3,
{
    if let Some(i) = grid_index(b, vp, byte) {
        let r = line_col_at(b, byte).0 - vp.0;
        let c = display_col(b, byte) - vp.1;
        assert(0 <= r * vp.3 + c < vp.2 * vp.3) by (nonlinear_arith)
            requires
                0 <= r < vp.2,
                0 <= c < vp.3,
        ;
    }
}

proof fn lemma_paint_range_graphemes(
    cells: Seq<(Style, Seq<char>)>,
    b: Seq<u8>,
    vp: (usize, usize, usize, usize),
    lo: int,
    hi: int,
    style: Style,
)
    requires
        cells.len() == vp.2 * vp.3,
    ensures
        same_graphemes(paint_range(cells, b, vp, lo, hi, style), cells),
    decreases hi - lo,
{
    if lo < hi {
        lemma_grid_index_in_grid(b, vp, lo);
        let next = paint_at(cells, grid_index(b, vp, lo), style);
        assert(same_graphemes(next, cells));
        lemma_paint_range_graphemes(next, b, vp, lo + 1, hi, style);
    }
}

proof fn lemma_paint_highlights_graphemes(
    cells: Seq<(Style, Seq<char>)>,
    b: Seq<u8>,
    vp: (usize, usize, usize, usize),
    hs: Seq<Highlight>,
)
    requires
        cells.len() == vp.2 * vp.3,
    ensures
        same_graphemes(paint_highlights(cells, b, vp, hs), cells),
    decreases hs.len(),
{
    if hs.len() > 0 {
        let next = paint_range(cells, b, vp, hs[0].start as int, hs[0].end as int, kind_style(hs[0].kind));
        lemma_paint_range_graphemes(cells, b, vp, hs[0].start as int, hs[0].end as int, kind_style(hs[0].kind));
        lemma_paint_highlights_graphemes(next, b, vp, hs.drop_first());
    }
}

proof fn lemma_paint_selections_graphemes(
    cells: Seq<(Style, Seq<char>)>,
    b: Seq<u8>,
    vp: (usize, usize, usize, usize),
    sels: Seq<Selection>,
)
    requires
        cells.len() == vp.2 * vp.3,
    ensures
        same_graphemes(paint_selections(cells, b, vp, sels), cells),
    decreases sels.len(),
{
    if sels.len() > 0 {
        let s0 = sels[0];
        let ranged = paint_range(cells, b, vp, s0.low(), s0.high(), selection_style());
        lemma_paint_range_graphemes(cells, b, vp, s0.low(), s0.high(), selection_style());
        lemma_grid_index_in_grid(b, vp, s0.spec_head() as int);
        let next = paint_at(ranged, grid_index(b, vp, s0.spec_head() as int), cursor_style());
        assert(same_graphemes(next, ranged));
        lemma_paint_selections_graphemes(next, b, vp, sels.drop_first());
    }
}

/// Every grapheme of the line bytes `lb` is one column wide.
pub open spec fn unit_width(lb: Seq<u8>) -> bool {
    forall|j: int| 0 <= j < grapheme_starts(decode_utf8(lb)).len() ==> cell_width(#[trigger] line_grapheme(lb, j)) == 1
}

proof fn lemma_unit_doc_col(lb: Seq<u8>, j: int)
    requires
        unit_width(lb),
        0 <= j <= grapheme_starts(decode_utf8(lb)).len(),
    ensures
        doc_col(lb, j) == j,
    decreases j,
{
    if j > 0 {
        lemma_unit_doc_col(lb, j - 1);
        assert(cell_width(line_grapheme(lb, j - 1)) == 1);
    }
}

proof fn lemma_unit_last_at_col(lb: Seq<u8>, c: int, k: int)
    requires
        unit_width(lb),
        0 <= k <= grapheme_starts(decode_utf8(lb)).len(),
        c >= 0,
    ensures
        last_at_col(lb, c, k) == (if c < k {
            Some(c)
        } else {
            None::<int>
        }),
    decreases k,
{
    if k > 0 {
        lemma_unit_doc_col(lb, k - 1);
        lemma_unit_last_at_col(lb, c, k - 1);
    }
}

/// Where every grapheme of the shown lines is one column wide, `render`
/// shows text by grapheme count: cell `(r, c)` shows grapheme `left + c` of
/// line `top + r`, or a blank where that line or grapheme does not exist,
/// whatever the selections and highlights.
pub proof fn lemma_render_unit_width(
    b: Seq<u8>,
    sels: Seq<Selection>,
    vp: (usize, usize, usize, usize),
    hs: Seq<Highlight>,
    r: int,
    c: int,
)
    requires
        vp.3 >= 1,
        0 <= r < vp.2,
        0 <= c < vp.3,
        vp.0 + r < text_lines(b).len() ==> unit_width(line_bytes(b, vp.0 + r)),
    ensures
        rendered(b, sels, vp, hs).len() == vp.2 * vp.3,
        rendered(b, sels, vp, hs)[r * vp.3 + c].1 == (if vp.0 + r < text_lines(b).len() && vp.1 + c
            < grapheme_starts(decode_utf8(line_bytes(b, vp.0 + r))).len() {
            line_grapheme(line_bytes(b, vp.0 + r), vp.1 + c)
        } else {
            seq![' ']
        }),
{
    let cells = text_cells(b, vp);
    lemma_paint_highlights_graphemes(cells, b, vp, hs);
    let painted = paint_highlights(cells, b, vp, hs);
    lemma_paint_selections_graphemes(painted, b, vp, sels);
    let i = r * vp.3 + c;
    assert(0 <= i < vp.2 * vp.3) by (nonlinear_arith)
        requires
            0 <= r < vp.2,
            0 <= c < vp.3,
            i == r * vp.3 + c,
    ;
    vstd::arithmetic::div_mod::lemma_fundamental_div_mod_converse(i, vp.3 as int, r, c);
    if vp.0 + r < text_lines(b).len() {
        let lb = line_bytes(b, vp.0 + r);
        lemma_unit_last_at_col(lb, vp.1 + c, grapheme_starts(decode_utf8(lb)).len() as int);
    }
}

/// Summing widths along a visible line never overflows before drawing stops
/// at the right edge.
pub open spec fn line_width_fits(lb: Seq<u8>, left: int, cols: int) -> bool {
    forall|j: int|
        0 <= j < grapheme_starts(decode_utf8(lb)).len() ==> (doc_col(lb, j) >= left + cols
            || #[trigger] doc_col(lb, j + 1) <= usize::MAX)
}

/// `render` can run: the grid and the visible line numbers fit in a `usize`
/// and the visible lines' widths do not overflow while they are drawn.
pub open spec fn renderable(b: Seq<u8>, vp: (usize, usize, usize, usize)) -> bool {
    &&& vp.0 + vp.2 - 1 <= usize::MAX
    &&& vp.2 * vp.3 <= usize::MAX
    &&& forall|r: int|
        0 <= r < vp.2 && vp.0 + r < text_lines(b).len() ==> line_width_fits(
            #[trigger] line_bytes(b, vp.0 + r),
            vp.1 as int,
            vp.3 as int,
        )
}


/// `lines` are the byte ranges of the lines of `b`, each between character
/// boundaries.
pub open spec fn lines_of(lines: Seq<(usize, usize)>, b: Seq<u8>) -> bool {
    &&& lines.len() == text_lines(b).len()
    &&& forall|k: int|
        0 <= k < lines.len() ==> {
            let p = #[trigger] lines[k];
            &&& (p.0 as int, p.1 as int) == text_lines(b)[k]
            &&& p.0 <= p.1
            &&& is_char_boundary(b, p.0 as int)
            &&& is_char_boundary(b, p.1 as int)
        }
}

/// The byte ranges of the lines of `text`, each between character boundaries.
fn line_ranges(text: &str) -> (r: Vec<(usize, usize)>)
    ensures
        r@.len() == text_lines(text.spec_bytes()).len(),
        forall|k: int|
            0 <= k < r@.len() ==> {
                let p = #[trigger] r@[k];
                &&& (p.0 as int, p.1 as int) == text_lines(text.spec_bytes())[k]
                &&& p.0 <= p.1
                &&& is_char_boundary(text.spec_bytes(), p.0 as int)
                &&& is_char_boundary(text.spec_bytes(), p.1 as int)
            },
{
    let bytes = text.as_bytes();
    let ghost b = bytes@;
    let n = bytes.len();
    proof {
        encode_utf8_valid_utf8(text@);
        is_char_boundary_start_end_of_seq(b);
    }
    let mut out: Vec<(usize, usize)> = Vec::new();
    let mut pos: usize = 0;
    while pos < n
        invariant
            b == bytes@,
            b == text.spec_bytes(),
            valid_utf8(b),
            n == b.len(),
            pos <= n,
            is_char_boundary(b, pos as int),
            out@.len() + lines_from(b, pos as int).len() == text_lines(b).len(),
            forall|k: int| 0 <= k < out@.len() ==> (#[trigger] out@[k]).0 <= out@[k].1,
            forall|k: int|
                0 <= k < out@.len() ==> ((#[trigger] out@[k]).0 as int, out@[k].1 as int)
                    == text_lines(b)[k],
            forall|k: int|
                0 <= k < lines_from(b, pos as int).len() ==> #[trigger] lines_from(b, pos as int)[k]
                    == text_lines(b)[out@.len() + k],
            forall|k: int|
                0 <= k < out@.len() ==> is_char_boundary(b, (#[trigger] out@[k]).0 as int)
                    && is_char_boundary(b, out@[k].1 as int),
        decreases n - pos,
    {
        let mut nl = pos;
        while nl < n && bytes[nl] != 10
            invariant
                pos <= nl <= n,
                n == b.len(),
                b == bytes@,
                next_newline(b, pos as int) == next_newline(b, nl as int),
            decreases n - nl,
        {
            nl += 1;
        }
        proof {
            lemma_next_newline(b, pos as int);
            assert(next_newline(b, nl as int) == nl);
        }
        let end = if nl < n && nl > pos && bytes[nl - 1] == 13 { nl - 1 } else { nl };
        proof {
            lemma_boundary_iff(b, nl as int);
            lemma_boundary_iff(b, end as int);
            let rest = lines_from(b, pos as int);
            assert(rest[0] == (pos as int, end as int));
            assert(text_lines(b)[out@.len() as int] == (pos as int, end as int));
            if nl < n {
                lemma_ascii_next_boundary(b, nl as int);
                assert forall|k: int| 0 <= k < lines_from(b, nl + 1).len() implies #[trigger] lines_from(b, nl + 1)[k]
                    == text_lines(b)[out@.len() + 1 + k] by {
                    assert(lines_from(b, nl + 1)[k] == rest[k + 1]);
                }
            }
        }
        let ghost before = out@;
        out.push((pos, end));
        proof {
            assert forall|k: int| 0 <= k < out@.len() implies ((#[trigger] out@[k]).0 as int, out@[k].1 as int)
                == text_lines(b)[k] by {
                if k < before.len() {
                    assert(out@[k] == before[k]);
                }
            }
        }
        if nl < n {
            pos = nl + 1;
        } else {
            pos = n;
        }
    }
    proof {
        assert(lines_from(b, pos as int).len() == 0);
    }
    out
}


proof fn lemma_doc_col_mono(lb: Seq<u8>, j: int, k: int)
    requires
        0 <= j <= k,
    ensures
        doc_col(lb, j) <= doc_col(lb, k),
    decreases k - j,
{
    if j < k {
        lemma_doc_col_mono(lb, j, k - 1);
    }
}

proof fn lemma_last_at_col_skip(lb: Seq<u8>, c: int, j: int, k: int)
    requires
        0 <= j <= k,
        forall|i: int| j <= i < k ==> doc_col(lb, i) != c,
    ensures
        last_at_col(lb, c, k) == last_at_col(lb, c, j),
    decreases k - j,
{
    if j < k {
        lemma_last_at_col_skip(lb, c, j, k - 1);
    }
}

/// What row `r` of the grid shows after the first `j` graphemes of a line
/// are drawn.
pub open spec fn drawn_upto(lb: Seq<u8>, left: int, c: int, j: int) -> Seq<char> {
    match last_at_col(lb, left + c, j) {
        Some(k) => line_grapheme(lb, k),
        None => seq![' '],
    }
}

/// Draws one line into row `r`, which must be blank.
fn draw_line(grid: &mut Grid, r: usize, line: &str, left: usize, cols: usize)
    requires
        old(grid)@.0 == cols,
        cols >= 1,
        (r + 1) * cols <= old(grid)@.1.len(),
        forall|c: int| 0 <= c < cols ==> #[trigger] old(grid)@.1[r * cols + c] == blank_cell(),
        line_width_fits(line.spec_bytes(), left as int, cols as int),
    ensures
        final(grid)@.0 == cols,
        final(grid)@.1.len() == old(grid)@.1.len(),
        forall|i: int|
            0 <= i < old(grid)@.1.len() && !(r * cols <= i < (r + 1) * cols) ==> final(grid)@.1[i]
                == old(grid)@.1[i],
        forall|c: int|
            0 <= c < cols ==> #[trigger] final(grid)@.1[r * cols + c] == (
                plain_style(),
                text_at(line.spec_bytes(), left + c),
            ),
{
    let ghost lb = line.spec_bytes();
    let ghost g0 = grid@.1;
    let starts = crate::text::grapheme_offsets(line);
    let n = str_len(line);
    proof {
        encode_utf8_valid_utf8(line@);
        encode_utf8_decode_utf8(line@);
        assert(decode_utf8(lb) == line@);
    }
    let mut document_col: usize = 0;
    let mut j: usize = 0;
    while j < starts.len()
        invariant_except_break
            grid@.0 == cols,
            grid@.1.len() == g0.len(),
            (r + 1) * cols <= g0.len(),
            cols >= 1,
            lb == line.spec_bytes(),
            valid_utf8(lb),
            decode_utf8(lb) == line@,
            n == lb.len(),
            starts@ == grapheme_starts(line@),
            partitions(lb, starts@),
            line_width_fits(lb, left as int, cols as int),
            j <= starts@.len(),
            document_col == doc_col(lb, j as int),
            forall|i: int| 0 <= i < g0.len() && !(r * cols <= i < (r + 1) * cols) ==> grid@.1[i] == g0[i],
            forall|c: int|
                0 <= c < cols ==> #[trigger] grid@.1[r * cols + c] == (
                    plain_style(),
                    drawn_upto(lb, left as int, c, j as int),
                ),
        ensures
            grid@.0 == cols,
            grid@.1.len() == g0.len(),
            forall|i: int| 0 <= i < g0.len() && !(r * cols <= i < (r + 1) * cols) ==> grid@.1[i] == g0[i],
            forall|c: int|
                0 <= c < cols ==> #[trigger] grid@.1[r * cols + c] == (
                    plain_style(),
                    text_at(lb, left + c),
                ),
        decreases starts@.len() - j,
    {
        proof {
            crate::text::lemma_grapheme_piece(lb, starts@, j as int);
        }
        let end = if j + 1 < starts.len() { starts[j + 1] } else { n };
        let g = substr(line, starts[j], end);
        proof {
            encode_utf8_decode_utf8(g@);
            assert(g@ == line_grapheme(lb, j as int));
            if g@.len() == 0 {
                assert(g.spec_bytes().len() == 0);
            }
        }
        let width = grapheme_width(g);
        if document_col >= left {
            let vc = document_col - left;
            if vc >= cols {
                proof {
                    assert forall|c: int| 0 <= c < cols implies #[trigger] grid@.1[r * cols + c] == (
                        plain_style(),
                        text_at(lb, left + c),
                    ) by {
                        assert forall|i: int| j <= i < starts@.len() implies doc_col(lb, i) != left + c by {
                            lemma_doc_col_mono(lb, j as int, i);
                        }
                        lemma_last_at_col_skip(lb, left + c, j as int, starts@.len() as int);
                    }
                }
                break;
            }
            let ghost before = grid@.1;
            proof {
                assert(r * cols + vc < (r + 1) * cols) by (nonlinear_arith)
                    requires vc < cols;
            }
            grid.set_cell(r, vc, Cell::new(g));
            proof {
                assert forall|c: int| 0 <= c < cols implies #[trigger] grid@.1[r * cols + c] == (
                    plain_style(),
                    drawn_upto(lb, left as int, c, j + 1),
                ) by {
                    if c != vc {
                        assert(r * cols + c < (r + 1) * cols) by (nonlinear_arith)
                            requires 0 <= c < cols;
                        assert(r * cols + c != r * cols + vc);
                        assert(before[r * cols + c] == grid@.1[r * cols + c]);
                    }
                }
                assert forall|i: int| 0 <= i < g0.len() && !(r * cols <= i < (r + 1) * cols) implies grid@.1[i] == g0[i] by {
                    assert(i != r * cols + vc);
                }
            }
        } else {
            proof {
                assert forall|c: int| 0 <= c < cols implies #[trigger] grid@.1[r * cols + c] == (
                    plain_style(),
                    drawn_upto(lb, left as int, c, j + 1),
                ) by {
                    assert(doc_col(lb, j as int) != left + c);
                }
            }
        }
        proof {
            assert(doc_col(lb, j as int + 1) <= usize::MAX);
        }
        document_col = document_col + width;
        j += 1;
    }
    proof {
        if j == starts.len() {
        }
    }
}


/// Row and column of cell `i` in a grid `cols` wide.
proof fn lemma_row_col(i: int, cols: int)
    requires
        0 <= i,
        cols >= 1,
    ensures
        i == (i / cols) * cols + i % cols,
        0 <= i % cols < cols,
        0 <= i / cols,
{
    vstd::arithmetic::div_mod::lemma_fundamental_div_mod(i, cols);
    vstd::arithmetic::div_mod::lemma_mod_pos_bound(i, cols);
    vstd::arithmetic::div_mod::lemma_div_pos_is_pos(i, cols);
    assert((i / cols) * cols == cols * (i / cols)) by (nonlinear_arith);
}

/// The document column of the grapheme of `line` that holds offset `o`, when
/// it lies left of column `left + cols`; `None` when it lies at or right of
/// that column.
fn column_in_line(line: &str, o: usize, left: usize, cols: usize) -> (r: Option<usize>)
    requires
        cols >= 1,
        line_width_fits(line.spec_bytes(), left as int, cols as int),
    ensures
        ({
            let lb = line.spec_bytes();
            let c = doc_col(lb, grapheme_index(lb, o as int));
            match r {
                Some(x) => x == c && c < left + cols,
                None => c >= left + cols,
            }
        }),
{
    let ghost lb = line.spec_bytes();
    let starts = crate::text::grapheme_offsets(line);
    let n = str_len(line);
    proof {
        encode_utf8_valid_utf8(line@);
        encode_utf8_decode_utf8(line@);
        assert(decode_utf8(lb) == line@);
    }
    let ghost st = starts@;
    let k: usize = if o >= n {
        starts.len()
    } else {
        let mut i: usize = 0;
        while i < starts.len() && starts[i] <= o
            invariant
                i <= st.len(),
                st == starts@,
                first_start_after(st, o as int, 0) == first_start_after(st, o as int, i as int),
                i == 0 || st[i - 1] <= o,
            decreases st.len() - i,
        {
            i += 1;
        }
        proof {
            assert(st.len() > 0);
            assert(st[0] == 0);
        }
        i - 1
    };
    assert(k == grapheme_index(lb, o as int));
    assert(k <= st.len());
    let mut col: usize = 0;
    let mut j: usize = 0;
    while j < k
        invariant
            j <= k,
            k <= st.len(),
            st == starts@,
            st == grapheme_starts(line@),
            lb == line.spec_bytes(),
            valid_utf8(lb),
            decode_utf8(lb) == line@,
            n == lb.len(),
            partitions(lb, st),
            line_width_fits(lb, left as int, cols as int),
            col == doc_col(lb, j as int),
            col < left + cols,
            k == grapheme_index(lb, o as int),
        decreases k - j,
    {
        proof {
            crate::text::lemma_grapheme_piece(lb, st, j as int);
        }
        let end = if j + 1 < starts.len() { starts[j + 1] } else { n };
        let g = substr(line, starts[j], end);
        proof {
            encode_utf8_decode_utf8(g@);
            assert(g@ == line_grapheme(lb, j as int));
            if g@.len() == 0 {
                assert(g.spec_bytes().len() == 0);
            }
            assert(doc_col(lb, j as int + 1) <= usize::MAX);
        }
        let width = grapheme_width(g);
        col = col + width;
        j += 1;
        if col >= left && col - left >= cols {
            proof {
                lemma_doc_col_mono(lb, j as int, k as int);
            }
            return None;
        }
    }
    Some(col)
}

/// Restyles the cell of byte `byte` when its line and display column are in
/// view; `lines` are the text's lines.
fn paint_byte(
    grid: &mut Grid,
    text: &str,
    lines: &Vec<(usize, usize)>,
    viewport: &Viewport,
    byte: usize,
    style: Style,
)
    requires
        old(grid)@.0 == viewport@.3,
        old(grid)@.1.len() == viewport@.2 * viewport@.3,
        renderable(text.spec_bytes(), viewport@),
        valid_utf8(text.spec_bytes()),
        lines_of(lines@, text.spec_bytes()),
    ensures
        final(grid)@.0 == viewport@.3,
        final(grid)@.1.len() == old(grid)@.1.len(),
        final(grid)@.1 == paint_at(old(grid)@.1, grid_index(text.spec_bytes(), viewport@, byte as int), style),
{
    let ghost b = text.spec_bytes();
    let ghost vp = viewport@;
    if let Some((line, col)) = byte_to_line_col(text, byte) {
        let top = viewport.top();
        let left = viewport.left();
        let rows = viewport.rows();
        let cols = viewport.cols();
        if line >= top && line - top < rows {
            let r = line - top;
            let shown: Option<usize> = if line < lines.len() {
                let (s0, s1) = lines[line];
                let o = if byte < s0 {
                    0
                } else if byte > s1 {
                    s1 - s0
                } else {
                    byte - s0
                };
                let l = substr(text, s0, s1);
                proof {
                    assert(lines@[line as int] == (s0, s1));
                    assert(l.spec_bytes() == line_bytes(b, vp.0 + r));
                    assert(0 <= r < vp.2 && vp.0 + r < text_lines(b).len());
                }
                column_in_line(l, o, left, cols)
            } else if col >= left && col - left < cols {
                Some(col)
            } else {
                None
            };
            if let Some(dc) = shown {
                if dc >= left {
                    let c = dc - left;
                    if c < cols {
                        proof {
                            assert(r * cols + c < rows * cols) by (nonlinear_arith)
                                requires
                                    r < rows,
                                    c < cols,
                            ;
                        }
                        grid.set_style(r, c, style);
                    }
                }
            }
        }
    }
}

/// Restyles the cells of bytes `lo..hi`.
fn paint_span(
    grid: &mut Grid,
    text: &str,
    lines: &Vec<(usize, usize)>,
    viewport: &Viewport,
    lo: usize,
    hi: usize,
    style: Style,
)
    requires
        old(grid)@.0 == viewport@.3,
        old(grid)@.1.len() == viewport@.2 * viewport@.3,
        renderable(text.spec_bytes(), viewport@),
        valid_utf8(text.spec_bytes()),
        lines_of(lines@, text.spec_bytes()),
    ensures
        final(grid)@.0 == viewport@.3,
        final(grid)@.1.len() == old(grid)@.1.len(),
        final(grid)@.1 == paint_range(old(grid)@.1, text.spec_bytes(), viewport@, lo as int, hi as int, style),
{
    let ghost b = text.spec_bytes();
    let ghost g0 = grid@.1;
    let mut i = lo;
    while i < hi
        invariant
            lo <= i || lo >= hi,
            grid@.0 == viewport@.3,
            grid@.1.len() == g0.len(),
            g0.len() == viewport@.2 * viewport@.3,
            b == text.spec_bytes(),
            renderable(b, viewport@),
            valid_utf8(b),
            lines_of(lines@, b),
            paint_range(g0, b, viewport@, lo as int, hi as int, style) == paint_range(
                grid@.1,
                b,
                viewport@,
                i as int,
                hi as int,
                style,
            ),
        decreases hi - i,
    {
        paint_byte(grid, text, lines, viewport, i, style);
        i += 1;
    }
}

/// Draws the visible text, then the highlights, then the selections and their
/// heads, into a grid of the viewport's size.
pub fn render<B: Buffer>(
    buff: &B,
    selections: &SelectionSet,
    viewport: &Viewport,
    highlights: &[Highlight],
) -> (g: Grid)
    requires
        renderable(buff.bytes(), viewport@),
    ensures
        g@.0 == viewport@.3,
        g@.1 == rendered(buff.bytes(), selections@.1, viewport@, highlights@),
{
    let ghost b = buff.bytes();
    let ghost vp = viewport@;
    proof {
        buff.lemma_valid();
        is_char_boundary_start_end_of_seq(b);
    }
    let text = buff.slice(0, buff.len());
    assert(text.spec_bytes() =~= b);
    let lines = line_ranges(text);
    let top = viewport.top();
    let left = viewport.left();
    let rows = viewport.rows();
    let cols = viewport.cols();
    assert(cols * rows == rows * cols) by (nonlinear_arith);
    let mut grid = Grid::new(cols, rows);
    let mut r: usize = 0;
    while r < rows
        invariant
            vp == viewport@,
            vp == (top, left, rows, cols),
            rows >= 1,
            cols >= 1,
            renderable(b, vp),
            text.spec_bytes() == b,
            valid_utf8(b),
            lines@.len() == text_lines(b).len(),
            forall|k: int|
                0 <= k < lines@.len() ==> {
                    let p = #[trigger] lines@[k];
                    &&& (p.0 as int, p.1 as int) == text_lines(b)[k]
                    &&& p.0 <= p.1
                    &&& is_char_boundary(b, p.0 as int)
                    &&& is_char_boundary(b, p.1 as int)
                },
            r <= rows,
            grid@.0 == cols,
            grid@.1.len() == rows * cols,
            forall|i: int|
                0 <= i < rows * cols ==> #[trigger] grid@.1[i] == if i / (cols as int) < r {
                    text_cells(b, vp)[i]
                } else {
                    blank_cell()
                },
        decreases rows - r,
    {
        let ghost before = grid@.1;
        let doc_line = top + r;
        let ghost drawn = doc_line < lines.len();
        if doc_line < lines.len() {
            let (s0, s1) = lines[doc_line];
            let line = substr(text, s0, s1);
            proof {
                assert(line.spec_bytes() == line_bytes(b, vp.0 + r));
                assert((r + 1) * cols <= rows * cols) by (nonlinear_arith)
                    requires
                        r < rows,
                ;
                assert forall|c: int| 0 <= c < cols implies #[trigger] grid@.1[r * cols + c] == blank_cell() by {
                    assert(r * cols + c < (r + 1) * cols) by (nonlinear_arith)
                        requires
                            0 <= c < cols,
                    ;
                    vstd::arithmetic::div_mod::lemma_fundamental_div_mod_converse(
                        r * cols + c,
                        cols as int,
                        r as int,
                        c,
                    );
                }
            }
            draw_line(&mut grid, r, line, left, cols);
        }
        proof {
            assert forall|i: int| 0 <= i < rows * cols implies #[trigger] grid@.1[i] == if i / (cols as int) < r + 1 {
                text_cells(b, vp)[i]
            } else {
                blank_cell()
            } by {
                lemma_row_col(i, cols as int);
                let q = i / (cols as int);
                let m = i % (cols as int);
                if q < r {
                    assert(i < r * cols) by (nonlinear_arith)
                        requires
                            i == q * cols + m,
                            q < r,
                            m < cols,
                    ;
                    assert(grid@.1[i] == before[i]);
                } else if q > r {
                    assert(i >= (r + 1) * cols) by (nonlinear_arith)
                        requires
                            i == q * cols + m,
                            q > r,
                            m >= 0,
                    ;
                    assert(grid@.1[i] == before[i]);
                } else {
                    assert(i == r * cols + m);
                    if drawn {
                        assert(grid@.1[r * cols + m] == (
                            plain_style(),
                            text_at(line_bytes(b, vp.0 + r), left + m),
                        ));
                    } else {
                        assert(grid@.1[i] == before[i]);
                    }
                }
            }
        }
        r += 1;
    }
    proof {
        assert forall|i: int| 0 <= i < rows * cols implies #[trigger] grid@.1[i] == text_cells(b, vp)[i] by {
            lemma_row_col(i, cols as int);
            let q = i / (cols as int);
            let m = i % (cols as int);
            assert(q < rows) by (nonlinear_arith)
                requires
                    i == q * cols + m,
                    i < rows * cols,
                    m >= 0,
            ;
        }
        assert(grid@.1 =~= text_cells(b, vp));
    }
    let ghost hs = highlights@;
    let ghost cells0 = grid@.1;
    assert(hs.subrange(0, hs.len() as int) =~= hs);
    let mut k: usize = 0;
    while k < highlights.len()
        invariant
            vp == viewport@,
            text.spec_bytes() == b,
            hs == highlights@,
            k <= hs.len(),
            renderable(b, vp),
            valid_utf8(b),
            lines_of(lines@, b),
            grid@.0 == vp.3,
            grid@.1.len() == vp.2 * vp.3,
            paint_highlights(cells0, b, vp, hs) == paint_highlights(
                grid@.1,
                b,
                vp,
                hs.subrange(k as int, hs.len() as int),
            ),
        decreases hs.len() - k,
    {
        let h = highlights[k];
        let style = style_for(h.kind);
        proof {
            assert(hs.subrange(k as int, hs.len() as int).drop_first() =~= hs.subrange(
                k + 1,
                hs.len() as int,
            ));
        }
        paint_span(&mut grid, text, &lines, viewport, h.start, h.end, style);
        k += 1;
    }
    let ghost sels = selections@.1;
    let ghost cells1 = grid@.1;
    assert(sels.subrange(0, sels.len() as int) =~= sels);
    let sel_style = Style::new(false, Some(Colour::Rgb(230, 230, 255)), Some(Colour::Rgb(40, 40, 80)));
    let cur_style = Style::new(false, Some(Colour::Rgb(160, 160, 160)), Some(Colour::Rgb(80, 80, 80)));
    let mut k: usize = 0;
    while k < selections.selections.len()
        invariant
            vp == viewport@,
            text.spec_bytes() == b,
            sels == selections@.1,
            k <= sels.len(),
            renderable(b, vp),
            valid_utf8(b),
            lines_of(lines@, b),
            sel_style == selection_style(),
            cur_style == cursor_style(),
            grid@.0 == vp.3,
            grid@.1.len() == vp.2 * vp.3,
            paint_selections(cells1, b, vp, sels) == paint_selections(
                grid@.1,
                b,
                vp,
                sels.subrange(k as int, sels.len() as int),
            ),
        decreases sels.len() - k,
    {
        let s = selections.selections[k];
        let anchor = s.anchor();
        let head = s.head();
        let (lo, hi) = if anchor <= head { (anchor, head) } else { (head, anchor) };
        proof {
            assert(sels.subrange(k as int, sels.len() as int).drop_first() =~= sels.subrange(
                k + 1,
                sels.len() as int,
            ));
        }
        paint_span(&mut grid, text, &lines, viewport, lo, hi, sel_style);
        paint_byte(&mut grid, text, &lines, viewport, head, cur_style);
        k += 1;
    }
    grid
}


/// Whether the running document column of `line` stays within a `usize`
/// until drawing reaches column `left + cols`.
fn line_fits(line: &str, left: usize, cols: usize) -> (ok: bool)
    ensures
        ok == line_width_fits(line.spec_bytes(), left as int, cols as int),
{
    let ghost lb = line.spec_bytes();
    let starts = crate::text::grapheme_offsets(line);
    let n = str_len(line);
    proof {
        encode_utf8_valid_utf8(line@);
        encode_utf8_decode_utf8(line@);
    }
    let mut document_col: usize = 0;
    let mut j: usize = 0;
    while j < starts.len()
        invariant
            lb == line.spec_bytes(),
            valid_utf8(lb),
            decode_utf8(lb) == line@,
            n == lb.len(),
            starts@ == grapheme_starts(line@),
            partitions(lb, starts@),
            j <= starts@.len(),
            document_col == doc_col(lb, j as int),
            forall|i: int|
                0 <= i < j ==> (doc_col(lb, i) >= left + cols || #[trigger] doc_col(lb, i + 1)
                    <= usize::MAX),
        decreases starts@.len() - j,
    {
        if document_col >= left && document_col - left >= cols {
            proof {
                assert forall|i: int| 0 <= i < grapheme_starts(decode_utf8(lb)).len() implies (doc_col(lb, i)
                    >= left + cols || #[trigger] doc_col(lb, i + 1) <= usize::MAX) by {
                    if i >= j {
                        lemma_doc_col_mono(lb, j as int, i);
                    }
                }
            }
            return true;
        }
        proof {
            crate::text::lemma_grapheme_piece(lb, starts@, j as int);
        }
        let end = if j + 1 < starts.len() { starts[j + 1] } else { n };
        let g = substr(line, starts[j], end);
        proof {
            encode_utf8_decode_utf8(g@);
            assert(g@ == line_grapheme(lb, j as int));
            if g@.len() == 0 {
                assert(g.spec_bytes().len() == 0);
            }
        }
        let width = grapheme_width(g);
        match document_col.checked_add(width) {
            Some(next) => {
                document_col = next;
            },
            None => {
                assert(!(doc_col(lb, j as int) >= left + cols || doc_col(lb, j + 1) <= usize::MAX));
                return false;
            },
        }
        j += 1;
    }
    true
}

/// `render`, when the viewport and the visible lines allow it: `None` when
/// the grid or a line number would not fit in a `usize`, or a visible line's
/// running width would overflow before drawing stops at the right edge.
pub fn render_checked<B: Buffer>(
    buff: &B,
    selections: &SelectionSet,
    viewport: &Viewport,
    highlights: &[Highlight],
) -> (g: Option<Grid>)
    ensures
        g is Some <==> renderable(buff.bytes(), viewport@),
        g matches Some(grid) ==> grid@.0 == viewport@.3 && grid@.1 == rendered(
            buff.bytes(),
            selections@.1,
            viewport@,
            highlights@,
        ),
{
    let ghost b = buff.bytes();
    let ghost vp = viewport@;
    proof {
        buff.lemma_valid();
        is_char_boundary_start_end_of_seq(b);
    }
    let top = viewport.top();
    let left = viewport.left();
    let rows = viewport.rows();
    let cols = viewport.cols();
    if top.checked_add(rows - 1).is_none() || rows.checked_mul(cols).is_none() {
        return None;
    }
    let text = buff.slice(0, buff.len());
    assert(text.spec_bytes() =~= b);
    let lines = line_ranges(text);
    let mut r: usize = 0;
    while r < rows
        invariant
            vp == viewport@,
            vp == (top, left, rows, cols),
            rows >= 1,
            top + rows - 1 <= usize::MAX,
            b == buff.bytes(),
            text.spec_bytes() == b,
            lines@.len() == text_lines(b).len(),
            forall|k: int|
                0 <= k < lines@.len() ==> {
                    let p = #[trigger] lines@[k];
                    &&& (p.0 as int, p.1 as int) == text_lines(b)[k]
                    &&& p.0 <= p.1
                    &&& is_char_boundary(b, p.0 as int)
                    &&& is_char_boundary(b, p.1 as int)
                },
            r <= rows,
            forall|q: int|
                0 <= q < r && vp.0 + q < text_lines(b).len() ==> line_width_fits(
                    #[trigger] line_bytes(b, vp.0 + q),
                    vp.1 as int,
                    vp.3 as int,
                ),
        decreases rows - r,
    {
        let doc_line = top + r;
        if doc_line < lines.len() {
            let (s0, s1) = lines[doc_line];
            let line = substr(text, s0, s1);
            assert(line.spec_bytes() == line_bytes(b, vp.0 + r));
            if !line_fits(line, left, cols) {
                proof {
                    let q = r as int;
                    assert(0 <= q < vp.2 && vp.0 + q < text_lines(b).len());
                    assert(!line_width_fits(line_bytes(b, vp.0 + q), vp.1 as int, vp.3 as int));
                    assert(!renderable(b, vp));
                }
                return None;
            }
        }
        r += 1;
    }
    Some(render(buff, selections, viewport, highlights))
}

} // verus!
