use manotz::buffer::GapBuffer;
use manotz::markdown::{highlight, style_for, Highlight, HighlightKind};
use manotz::render::adapter::Adapter;
use manotz::render::{
    byte_to_line_col, diff, line_col_to_byte, render, render_checked, Cell, Colour, Grid, Style, Viewport,
};
use manotz::selection::{Selection, SelectionSet};

#[test]
fn render_cell_contains_grapheme() {
    assert_eq!(Cell::new("H").grapheme(), "H");
}

#[test]
fn render_cell_blank_is_space() {
    assert_eq!(Cell::blank().grapheme(), " ");
}

#[test]
fn render_grid_blank() {
    let g = Grid::new(4, 2);
    assert_eq!(g.width(), 4);
    assert_eq!(g.height(), 2);
    assert_eq!(g.cell(0, 0).grapheme(), " ");
}

#[test]
fn render_grid_set_cell() {
    let mut g = Grid::new(2, 2);
    g.set_cell(0, 1, Cell::new("X"));
    assert_eq!(g.cell(0, 1).grapheme(), "X");
    assert_eq!(g.cell(0, 0).grapheme(), " ");
}

#[test]
fn render_viewport_blank() {
    let vp = Viewport::new(2, 3, 10, 15);
    assert_eq!(vp.top(), 2);
    assert_eq!(vp.left(), 3);
    assert_eq!(vp.rows(), 10);
    assert_eq!(vp.cols(), 15);
}

#[test]
fn render_line_pads_blanks() {
    let buf = GapBuffer::new("Hi");
    let selections = SelectionSet::single(Selection::cursor(0));
    let viewport = Viewport::new(0, 0, 1, 3);
    let grid = render(&buf, &selections, &viewport, &[]);
    assert_eq!(grid.width(), 3);
    assert_eq!(grid.height(), 1);
    assert_eq!(grid.cell(0, 1).grapheme(), "i");
    assert_eq!(grid.cell(0, 2).grapheme(), " ");
}

#[test]
fn render_scrolls_vertically() {
    let buffer = GapBuffer::new("AB\nCD\nEF");
    let selections = SelectionSet::single(Selection::cursor(0));
    let viewport = Viewport::new(1, 0, 2, 2);
    let grid = render(&buffer, &selections, &viewport, &[]);

    assert_eq!(grid.width(), 2);
    assert_eq!(grid.height(), 2);
    assert_eq!(grid.cell(0, 0).grapheme(), "C");
    assert_eq!(grid.cell(0, 1).grapheme(), "D");
    assert_eq!(grid.cell(1, 0).grapheme(), "E");
    assert_eq!(grid.cell(1, 1).grapheme(), "F");
}

#[test]
fn render_scrolls_horizontally() {
    let buffer = GapBuffer::new("ABCDE");
    let selections = SelectionSet::single(Selection::cursor(0));
    let viewport = Viewport::new(0, 2, 1, 2);
    let grid = render(&buffer, &selections, &viewport, &[]);

    assert_eq!(grid.width(), 2);
    assert_eq!(grid.height(), 1);
    assert_eq!(grid.cell(0, 0).grapheme(), "C");
    assert_eq!(grid.cell(0, 1).grapheme(), "D");
}

#[test]
fn render_short_doc_pads_blank_rows() {
    let buffer = GapBuffer::new("AB\nCD");
    let selections = SelectionSet::single(Selection::cursor(0));
    let viewport = Viewport::new(0, 0, 4, 3);
    let grid = render(&buffer, &selections, &viewport, &[]);
    assert_eq!(grid.cell(2, 0).grapheme(), " ");
    assert_eq!(grid.cell(3, 0).grapheme(), " ");
}

#[test]
fn byte_to_line_col_at_start() {
    assert_eq!(byte_to_line_col("Hi", 0), Some((0, 0)));
}

#[test]
fn byte_to_line_col_after_newline() {
    assert_eq!(byte_to_line_col("AB\nCD", 3), Some((1, 0)))
}

#[test]
fn line_col_to_byte_start_of_second_line() {
    assert_eq!(line_col_to_byte("AB\nCD", 1, 0), Some(3));
}

#[test]
fn grid_set_style() {
    let buffer = GapBuffer::new("Hello");
    let selections = SelectionSet::single(Selection::cursor(0));
    let viewport = Viewport::new(0, 0, 3, 3);
    let mut grid = render(&buffer, &selections, &viewport, &[]);

    let style = Style {
        bold: true,
        fg: Some(Colour::Rgb(1, 1, 1)),
        bg: Some(Colour::Rgb(2, 2, 2)),
    };

    grid.set_style(0, 0, style);

    assert!(grid.cell(0, 0).style().bold);
    assert_eq!(grid.cell(0, 0).style().fg, Some(Colour::Rgb(1, 1, 1)));
    assert_eq!(grid.cell(0, 0).style().bg, Some(Colour::Rgb(2, 2, 2)));
}

#[test]
fn render_shows_cursor() {
    let buffer = GapBuffer::new("Hi");
    let selections = SelectionSet::single(Selection::cursor(0));
    let viewport = Viewport::new(0, 0, 1, 3);
    let grid = render(&buffer, &selections, &viewport, &[]);

    assert!(!grid.cell(0, 0).is_bold());
    assert_eq!(grid.cell(0, 0).background(), Some(Colour::Rgb(80, 80, 80)));
    assert_eq!(grid.cell(0, 1).background(), None);
}

#[test]
fn render_hides_cursor_scrolled_left() {
    let buffer = GapBuffer::new("ABCDE");
    let selections = SelectionSet::single(Selection::cursor(0));
    let viewport = Viewport::new(0, 2, 5, 5);
    let grid = render(&buffer, &selections, &viewport, &[]);

    assert_eq!(grid.cell(0, 0).background(), None);
}

#[test]
fn render_hides_cursor_scrolled_up() {
    let buffer = GapBuffer::new("AB\nCD");
    let selections = SelectionSet::single(Selection::cursor(0));
    let viewport = Viewport::new(1, 0, 5, 5);
    let grid = render(&buffer, &selections, &viewport, &[]);

    assert_eq!(grid.cell(0, 0).background(), None);
}

#[test]
fn render_cursor_on_second_line() {
    let buffer = GapBuffer::new("AB\nCD");
    let selections = SelectionSet::single(Selection::cursor(3));
    let viewport = Viewport::new(0, 0, 5, 5);
    let grid = render(&buffer, &selections, &viewport, &[]);

    assert_eq!(grid.cell(1, 0).background(), Some(Colour::Rgb(80, 80, 80)));
}

#[test]
fn render_wide_char_takes_two_cols() {
    let buffer = GapBuffer::new("中A");
    let selections = SelectionSet::single(Selection::cursor(0));
    let viewport = Viewport::new(0, 0, 5, 5);
    let grid = render(&buffer, &selections, &viewport, &[]);

    assert_eq!(grid.cell(0, 0).grapheme(), "中");
    assert_eq!(grid.cell(0, 1).grapheme(), " ");
    assert_eq!(grid.cell(0, 2).grapheme(), "A");
}

#[test]
fn diff_identical_grid_returns_empty() {
    let a = Grid::new(3, 2);
    let b = Grid::new(3, 2);

    let changes = diff(&a, &b);

    assert!(changes.is_empty())
}

#[test]
fn diff_returns_changed_cell() {
    let a = Grid::new(3, 2);
    let mut b = Grid::new(3, 2);

    b.set_cell(1, 0, Cell::new("X"));

    let changes = diff(&a, &b);

    assert!(changes.len() == 1);
    assert!(changes[0].0 == 1);
    assert!(changes[0].1 == 0);
    assert_eq!(changes[0].2.grapheme(), "X");
}

#[test]
fn render_selection_range_styles_range_cells() {
    let buffer = GapBuffer::new("ABCDE");
    let selections = SelectionSet::single(Selection::new(1, 3));
    let viewport = Viewport::new(0, 0, 1, 5);
    let grid = render(&buffer, &selections, &viewport, &[]);

    assert_eq!(grid.cell(0, 0).background(), None);

    assert_eq!(grid.cell(0, 1).background(), Some(Colour::Rgb(40, 40, 80)));
    assert_eq!(grid.cell(0, 1).foreground(), Some(Colour::Rgb(230, 230, 255)));
    assert_eq!(grid.cell(0, 2).background(), Some(Colour::Rgb(40, 40, 80)));
    assert_eq!(grid.cell(0, 2).foreground(), Some(Colour::Rgb(230, 230, 255)));

    assert_eq!(grid.cell(0, 3).background(), Some(Colour::Rgb(80, 80, 80)));
}

#[test]
fn render_applies_markdown_heading_style() {
    let buffer = GapBuffer::new("# Heading");
    let selections = SelectionSet::single(Selection::cursor(0));
    let viewport = Viewport::new(0, 0, 1, 10);
    let highlights = highlight("# Heading");

    let grid = render(&buffer, &selections, &viewport, &highlights);

    let expected_style = style_for(HighlightKind::Heading);

    assert_eq!(grid.cell(0, 1).style(), &expected_style);
}

#[test]
fn line_col_round_trip_on_multibyte_text() {
    let text = "héllo\nwörld";
    for offset in [0usize, 1, 3, 6, 7, 10, 13] {
        let (line, col) = byte_to_line_col(text, offset).unwrap();
        assert_eq!(line_col_to_byte(text, line, col), Some(offset));
    }
    assert_eq!(byte_to_line_col(text, 14), None);
}

#[test]
fn line_col_to_byte_clamps_to_end_of_shorter_line() {
    assert_eq!(line_col_to_byte("A\nBCD", 0, 5), Some(1));
    assert_eq!(line_col_to_byte("A\nBCD", 3, 0), None);
}

#[test]
fn render_drops_carriage_return_before_line_feed() {
    let buffer = GapBuffer::new("AB\r\nCD");
    let selections = SelectionSet::single(Selection::cursor(5));
    let viewport = Viewport::new(0, 0, 2, 3);
    let grid = render(&buffer, &selections, &viewport, &[]);
    assert_eq!(grid.cell(0, 2).grapheme(), " ");
    assert_eq!(grid.cell(1, 0).grapheme(), "C");
}

#[test]
fn render_paints_highlight_over_its_bytes() {
    let buffer = GapBuffer::new("a `b` c");
    let selections = SelectionSet::single(Selection::cursor(6));
    let viewport = Viewport::new(0, 0, 1, 8);
    let spans = vec![Highlight { start: 2, end: 5, kind: HighlightKind::Code }];
    let grid = render(&buffer, &selections, &viewport, &spans);
    assert_eq!(grid.cell(0, 1).background(), None);
    assert_eq!(grid.cell(0, 2).background(), Some(Colour::Rgb(40, 44, 52)));
    assert_eq!(grid.cell(0, 4).background(), Some(Colour::Rgb(40, 44, 52)));
    assert_eq!(grid.cell(0, 5).background(), None);
}

#[test]
fn render_checked_matches_render() {
    let buffer = GapBuffer::new("AB\nCD");
    let selections = SelectionSet::single(Selection::cursor(1));
    let viewport = Viewport::new(0, 0, 2, 2);
    let checked = render_checked(&buffer, &selections, &viewport, &[]).unwrap();
    let plain = render(&buffer, &selections, &viewport, &[]);
    assert!(diff(&checked, &plain).is_empty());
    let huge = Viewport::new(usize::MAX, 0, 2, 2);
    assert!(render_checked(&buffer, &selections, &huge, &[]).is_none());
}

#[test]
fn cell_same_as_compares_grapheme_and_style() {
    let a = Cell::new("x");
    let b = Cell::new("x");
    let c = Cell::new("y");
    assert!(a.same_as(&b));
    assert!(!a.same_as(&c));
    assert!(a.duplicate().same_as(&a));
}

#[test]
fn adapter_first_frame_writes_every_cell_then_only_changes() {
    let mut adapter = Adapter::new();
    let a = Grid::new(2, 2);
    let first = adapter.frame(&a);
    assert_eq!(first.len(), 4);
    assert_eq!((first[3].0, first[3].1), (1, 1));
    adapter.commit(&a);
    let mut b = Grid::new(2, 2);
    b.set_cell(0, 1, Cell::new("Z"));
    let second = adapter.frame(&b);
    assert_eq!(second.len(), 1);
    assert_eq!((second[0].0, second[0].1), (0, 1));
    assert_eq!(second[0].2.grapheme(), "Z");
    adapter.commit(&b);
    let third = adapter.frame(&b);
    assert!(third.is_empty());
}

#[test]
fn adapter_can_draw_only_frames_of_the_same_shape() {
    let mut adapter = Adapter::new();
    let first = Grid::new(3, 2);
    assert!(adapter.can_draw(&first));
    let _ = adapter.frame(&first);
    adapter.commit(&first);
    assert!(adapter.can_draw(&Grid::new(3, 2)));
    assert!(!adapter.can_draw(&Grid::new(4, 2)));
    assert!(!adapter.can_draw(&Grid::new(3, 3)));
}

#[test]
fn render_paints_the_cursor_on_the_cell_after_a_wide_character() {
    let g = render(
        &GapBuffer::new("中A"),
        &SelectionSet::single(Selection::cursor(3)),
        &Viewport::new(0, 0, 1, 5),
        &[],
    );
    assert_eq!(g.cell(0, 2).grapheme(), "A");
    assert_eq!(g.cell(0, 2).background(), Some(Colour::Rgb(80, 80, 80)));
    assert_eq!(g.cell(0, 1).background(), None);
}

#[test]
fn render_highlights_by_display_column() {
    let hs = vec![Highlight { start: 3, end: 4, kind: HighlightKind::Code }];
    let g = render(
        &GapBuffer::new("中A"),
        &SelectionSet::single(Selection::cursor(0)),
        &Viewport::new(0, 0, 1, 5),
        &hs,
    );
    assert_eq!(g.cell(0, 2).background(), style_for(HighlightKind::Code).bg);
    assert_eq!(g.cell(0, 1).background(), None);
}

#[test]
fn first_frame_writes_every_cell_and_later_frames_only_changes() {
    let mut adapter = Adapter::new();
    let first = Grid::new(3, 2);
    assert_eq!(adapter.frame(&first).len(), 6);
    // until the frame is committed, the next frame is written whole again
    assert_eq!(adapter.frame(&first).len(), 6);
    adapter.commit(&first);
    let mut second = Grid::new(3, 2);
    second.set_cell(1, 2, Cell::new("x"));
    let changes = adapter.frame(&second);
    assert_eq!(changes.len(), 1);
    assert_eq!((changes[0].0, changes[0].1), (1, 2));
    assert_eq!(changes[0].2.grapheme(), "x");
}

#[test]
fn render_shows_graphemes_by_count_when_each_is_one_column() {
    let g = render(
        &GapBuffer::new("abcdef\nxyz\n"),
        &SelectionSet::single(Selection::cursor(0)),
        &Viewport::new(1, 1, 2, 4),
        &[],
    );
    assert_eq!(g.cell(0, 0).grapheme(), "y");
    assert_eq!(g.cell(0, 1).grapheme(), "z");
    assert_eq!(g.cell(0, 2).grapheme(), " ");
    assert_eq!(g.cell(1, 0).grapheme(), " ");
}
