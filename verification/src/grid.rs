//! Drawing a pane's grid of cells with as few color and attribute changes
//! as possible.

use crate::ansi::{all_placeable, cmds, push_cmd, Attr, Cmd, CmdView, Color};
use crate::layout::Rect;
use vstd::prelude::*;

verus! {

/// A 24-bit colour.
#[derive(Clone, Copy, PartialEq, Eq, Structural)]
pub struct Rgb {
    pub r: u8,
    pub g: u8,
    pub b: u8,
}

/// How a cell's text is styled.
#[derive(Clone, Copy, PartialEq, Eq, Structural)]
pub struct Style {
    pub bold: bool,
    pub italic: bool,
    pub underline: bool,
    pub inverse: bool,
}

/// One cell of a pane.
pub struct Cell {
    /// The cell only makes room for a wide character beside it.
    pub spacer: bool,
    /// The cell's own colours, where it has them.
    pub fg: Option<Rgb>,
    pub bg: Option<Rgb>,
    pub style: Option<Style>,
    /// What stands in the cell; empty for a blank.
    pub text: String,
}

/// A cell with its text as a sequence of characters.
pub struct CellView {
    pub spacer: bool,
    pub fg: Option<Rgb>,
    pub bg: Option<Rgb>,
    pub style: Option<Style>,
    pub text: Seq<char>,
}

impl View for Cell {
    type V = CellView;

    open spec fn view(&self) -> CellView {
        CellView {
            spacer: self.spacer,
            fg: self.fg,
            bg: self.bg,
            style: self.style,
            text: self.text@,
        }
    }
}

/// The cells of a row with their texts as sequences of characters.
pub open spec fn row_view(row: Vec<Cell>) -> Seq<CellView> {
    row@.map_values(|c: Cell| c@)
}

/// The contents of a pane's terminal: its rows, its default colours, and
/// the cursor where it is visible.
pub struct Grid {
    pub fg: Rgb,
    pub bg: Rgb,
    pub rows: Vec<Vec<Cell>>,
    pub cursor: Option<(u16, u16)>,
}

/// A grid with its texts as sequences of characters.
pub struct GridView {
    pub fg: Rgb,
    pub bg: Rgb,
    pub rows: Seq<Seq<CellView>>,
    pub cursor: Option<(u16, u16)>,
}

impl View for Grid {
    type V = GridView;

    open spec fn view(&self) -> GridView {
        GridView {
            fg: self.fg,
            bg: self.bg,
            rows: self.rows@.map_values(|r: Vec<Cell>| row_view(r)),
            cursor: self.cursor,
        }
    }
}

/// Grids with their texts as sequences of characters.
pub open spec fn grid_views(s: Seq<Grid>) -> Seq<GridView> {
    s.map_values(|g: Grid| g@)
}

/// The SGR state we last emitted, so we only send color/attribute
/// sequences when a cell actually differs from the previous one.
#[derive(Clone, Copy, PartialEq, Eq, Structural)]
pub struct Pen {
    pub fg: Color,
    pub bg: Color,
    pub bold: bool,
    pub italic: bool,
    pub underline: bool,
}

/// A 24-bit colour as a drawing colour.
pub open spec fn rgb(c: Rgb) -> Color {
    Color::Rgb { r: c.r, g: c.g, b: c.b }
}

/// A 24-bit colour as a drawing colour.
pub fn color(c: Rgb) -> (r: Color)
    ensures
        r == rgb(c),
{
    Color::Rgb { r: c.r, g: c.g, b: c.b }
}

/// A cell's own colour, or the default.
pub open spec fn color_or(c: Option<Rgb>, default: Color) -> Color {
    match c {
        Some(c) => rgb(c),
        None => default,
    }
}

/// The pen that a cell is drawn with.
pub open spec fn cell_pen(c: CellView, default: Pen) -> Pen {
    let fg = color_or(c.fg, default.fg);
    let bg = color_or(c.bg, default.bg);
    match c.style {
        Some(s) => Pen {
            fg: if s.inverse {
                bg
            } else {
                fg
            },
            bg: if s.inverse {
                fg
            } else {
                bg
            },
            bold: s.bold,
            italic: s.italic,
            underline: s.underline,
        },
        None => Pen { fg, bg, ..default },
    }
}

/// An attribute where it is wanted.
pub open spec fn attr_if(wanted: bool, a: Attr) -> Seq<CmdView> {
    if wanted {
        seq![CmdView::Attr(a)]
    } else {
        Seq::empty()
    }
}

/// Whether two pens differ in an attribute.
pub open spec fn attrs_differ(pen: Pen, next: Pen) -> bool {
    pen.bold != next.bold || pen.italic != next.italic || pen.underline != next.underline
}

/// What changes one pen into another. Attributes can only be cleared by a
/// full reset, which also clears colors.
pub open spec fn pen_change(pen: Pen, next: Pen) -> Seq<CmdView> {
    let reset = attrs_differ(pen, next);
    (if reset {
        seq![CmdView::Attr(Attr::Reset)] + attr_if(next.bold, Attr::Bold) + attr_if(
            next.italic,
            Attr::Italic,
        ) + attr_if(next.underline, Attr::Underlined)
    } else {
        Seq::empty()
    }) + (if reset || pen.fg != next.fg {
        seq![CmdView::Fg(next.fg)]
    } else {
        Seq::empty()
    }) + (if reset || pen.bg != next.bg {
        seq![CmdView::Bg(next.bg)]
    } else {
        Seq::empty()
    })
}

/// Emit the escape sequences needed to go from `pen` to `next`.
pub fn apply_pen(out: &mut Vec<Cmd>, pen: &mut Pen, next: Pen)
    ensures
        *final(pen) == next,
        cmds(final(out)@) == cmds(old(out)@) + pen_change(*old(pen), next),
        all_placeable(cmds(old(out)@)) ==> all_placeable(cmds(final(out)@)),
{
    // Attributes can only be cleared by a full reset, which also
    // clears colors, so re-emit everything in that case.
    let reset: bool = pen.bold != next.bold || pen.italic != next.italic || pen.underline
        != next.underline;
    if reset {
        push_cmd(out, Cmd::Attr(Attr::Reset));
        if next.bold {
            push_cmd(out, Cmd::Attr(Attr::Bold));
        }
        if next.italic {
            push_cmd(out, Cmd::Attr(Attr::Italic));
        }
        if next.underline {
            push_cmd(out, Cmd::Attr(Attr::Underlined));
        }
    }
    if reset || pen.fg != next.fg {
        push_cmd(out, Cmd::Fg(next.fg));
    }
    if reset || pen.bg != next.bg {
        push_cmd(out, Cmd::Bg(next.bg));
    }
    assert(cmds(out@) =~= cmds(old(out)@) + pen_change(*old(pen), next));
    *pen = next;
}

/// What a cell's text is drawn as: a blank where it is empty.
pub open spec fn cell_text(c: CellView) -> Seq<char> {
    if c.text.len() == 0 {
        " "@
    } else {
        c.text
    }
}

/// What a cell is drawn as. A wide character already advanced the cursor
/// two columns, so nothing is printed for its spacer cell.
pub open spec fn cell_drawn(c: CellView, default: Pen, pen: Pen) -> Seq<CmdView> {
    if c.spacer {
        Seq::empty()
    } else {
        pen_change(pen, cell_pen(c, default)).push(CmdView::Print(cell_text(c)))
    }
}

/// The pen after a cell.
pub open spec fn pen_after(c: CellView, default: Pen, pen: Pen) -> Pen {
    if c.spacer {
        pen
    } else {
        cell_pen(c, default)
    }
}

/// The first `n` cells of a row and the pen after them.
pub open spec fn row_drawn(row: Seq<CellView>, default: Pen, pen: Pen, n: int) -> (
    Seq<CmdView>,
    Pen,
)
    decreases n,
{
    if n <= 0 {
        (Seq::empty(), pen)
    } else {
        let (before, at) = row_drawn(row, default, pen, n - 1);
        (before + cell_drawn(row[n - 1], default, at), pen_after(row[n - 1], default, at))
    }
}

/// The first `n` rows of a grid and the pen after them.
pub open spec fn grid_rows_drawn(
    rows: Seq<Seq<CellView>>,
    r: Rect,
    default: Pen,
    n: int,
) -> (Seq<CmdView>, Pen)
    decreases n,
{
    if n <= 0 {
        (Seq::empty(), default)
    } else {
        let (before, at) = grid_rows_drawn(rows, r, default, n - 1);
        let row = rows[n - 1];
        let (drawn, after) = row_drawn(row, default, at, row.len() as int);
        (before + seq![CmdView::MoveTo(r.x, (r.y + n - 1) as u16)] + drawn, after)
    }
}

/// The pen of a grid's default colours.
pub open spec fn default_pen(g: GridView) -> Pen {
    Pen { fg: rgb(g.fg), bg: rgb(g.bg), bold: false, italic: false, underline: false }
}

/// A grid with its top-left at the origin of a rectangle.
pub open spec fn grid_drawn(g: GridView, r: Rect) -> Seq<CmdView> {
    let pen = default_pen(g);
    seq![CmdView::Attr(Attr::Reset), CmdView::Fg(pen.fg), CmdView::Bg(pen.bg)] + grid_rows_drawn(
        g.rows,
        r,
        pen,
        g.rows.len() as int,
    ).0
}

/// Where a grid's cursor stands on the screen.
pub open spec fn cursor_at(g: GridView, r: Rect) -> Option<(u16, u16)> {
    match g.cursor {
        Some((x, y)) => Some(((r.x + x) as u16, (r.y + y) as u16)),
        None => None,
    }
}

/// A grid drawn at a rectangle stays on a screen with 16-bit coordinates.
pub open spec fn drawable(g: GridView, r: Rect) -> bool {
    &&& r.x < u16::MAX
    &&& r.y + g.rows.len() <= u16::MAX
    &&& g.cursor matches Some((x, y)) ==> r.x + x < u16::MAX && r.y + y < u16::MAX
}

fn pen_of(c: &Cell, default: Pen) -> (r: Pen)
    ensures
        r == cell_pen(c@, default),
{
    let mut fg: Color = match c.fg {
        Some(c) => color(c),
        None => default.fg,
    };
    let mut bg: Color = match c.bg {
        Some(c) => color(c),
        None => default.bg,
    };
    match c.style {
        Some(s) => {
            if s.inverse {
                std::mem::swap(&mut fg, &mut bg);
            }
            Pen { fg, bg, bold: s.bold, italic: s.italic, underline: s.underline }
        },
        None => Pen {
            fg,
            bg,
            bold: default.bold,
            italic: default.italic,
            underline: default.underline,
        },
    }
}

fn text_of(c: &Cell) -> (r: String)
    ensures
        r@ == cell_text(c@),
{
    if c.text.as_str().is_empty() {
        let mut r: String = String::new();
        r.append(" ");
        assert(r@ =~= " "@);
        r
    } else {
        c.text.clone()
    }
}

fn draw_row(out: &mut Vec<Cmd>, row: &Vec<Cell>, default: Pen, pen: &mut Pen)
    ensures
        ({
            let (drawn, after) = row_drawn(row_view(*row), default, *old(pen), row@.len() as int);
            cmds(final(out)@) == cmds(old(out)@) + drawn && *final(pen) == after
        }),
        all_placeable(cmds(old(out)@)) ==> all_placeable(cmds(final(out)@)),
{
    let ghost first = cmds(out@);
    let ghost v = row_view(*row);
    let ghost start = *pen;
    let mut i: usize = 0;
    assert(first + row_drawn(v, default, start, 0).0 =~= first);
    while i < row.len()
        invariant
            i <= row@.len(),
            v == row_view(*row),
            all_placeable(first) ==> all_placeable(cmds(out@)),
            cmds(out@) == first + row_drawn(v, default, start, i as int).0,
            *pen == row_drawn(v, default, start, i as int).1,
        decreases row@.len() - i,
    {
        assert(v[i as int] == row@[i as int]@);
        // A wide character already advanced the cursor two columns;
        // printing anything for its spacer cell would clobber the glyph's
        // right half.
        if !row[i].spacer {
            let next: Pen = pen_of(&row[i], default);
            apply_pen(out, pen, next);
            push_cmd(out, Cmd::Print(text_of(&row[i])));
        }
        i = i + 1;
        assert(cmds(out@) =~= first + row_drawn(v, default, start, i as int).0);
    }
}

/// Draw one terminal's grid with its top-left at `rect`'s origin. Returns
/// the coordinates of the terminal's cursor if visible.
pub fn draw_at(grid: &Grid, out: &mut Vec<Cmd>, rect: Rect) -> (cursor: Option<(u16, u16)>)
    requires
        drawable(grid@, rect),
    ensures
        cmds(final(out)@) == cmds(old(out)@) + grid_drawn(grid@, rect),
        cursor == cursor_at(grid@, rect),
        all_placeable(cmds(old(out)@)) ==> all_placeable(cmds(final(out)@)),
{
    let ghost first = cmds(out@);
    let ghost g = grid@;
    let default = Pen {
        fg: color(grid.fg),
        bg: color(grid.bg),
        bold: false,
        italic: false,
        underline: false,
    };
    let mut pen: Pen = default;
    push_cmd(out, Cmd::Attr(Attr::Reset));
    push_cmd(out, Cmd::Fg(pen.fg));
    push_cmd(out, Cmd::Bg(pen.bg));
    let ghost head = cmds(out@);
    let mut i: usize = 0;
    assert(head + grid_rows_drawn(g.rows, rect, default, 0).0 =~= head);
    while i < grid.rows.len()
        invariant
            i <= grid.rows@.len(),
            g == grid@,
            drawable(g, rect),
            all_placeable(first) ==> all_placeable(cmds(out@)),
            cmds(out@) == head + grid_rows_drawn(g.rows, rect, default, i as int).0,
            pen == grid_rows_drawn(g.rows, rect, default, i as int).1,
        decreases grid.rows@.len() - i,
    {
        assert(g.rows[i as int] == row_view(grid.rows@[i as int]));
        push_cmd(out, Cmd::MoveTo(rect.x, rect.y + i as u16));
        draw_row(out, &grid.rows[i], default, &mut pen);
        i = i + 1;
        assert(cmds(out@) =~= head + grid_rows_drawn(g.rows, rect, default, i as int).0);
    }
    assert(cmds(out@) =~= first + grid_drawn(g, rect));
    // Report where the cursor should sit for this terminal.
    match grid.cursor {
        Some((x, y)) => Some((rect.x + x, rect.y + y)),
        None => None,
    }
}

/// The pen of a terminal after a command.
pub open spec fn pen_step(pen: Pen, c: CmdView) -> Pen {
    match c {
        CmdView::Attr(Attr::Reset) => Pen {
            fg: Color::Reset,
            bg: Color::Reset,
            bold: false,
            italic: false,
            underline: false,
        },
        CmdView::Attr(Attr::Bold) => Pen { bold: true, ..pen },
        CmdView::Attr(Attr::Italic) => Pen { italic: true, ..pen },
        CmdView::Attr(Attr::Underlined) => Pen { underline: true, ..pen },
        CmdView::Fg(c) => Pen { fg: c, ..pen },
        CmdView::Bg(c) => Pen { bg: c, ..pen },
        _ => pen,
    }
}

/// The pen of a terminal after a queue of commands.
pub open spec fn pen_through(pen: Pen, c: Seq<CmdView>) -> Pen
    decreases c.len(),
{
    if c.len() == 0 {
        pen
    } else {
        pen_step(pen_through(pen, c.drop_last()), c.last())
    }
}

proof fn lemma_pen_push(pen: Pen, c: Seq<CmdView>, x: CmdView)
    ensures
        pen_through(pen, c.push(x)) == pen_step(pen_through(pen, c), x),
{
    assert(c.push(x).drop_last() =~= c);
}

proof fn lemma_pen_add(pen: Pen, a: Seq<CmdView>, b: Seq<CmdView>)
    ensures
        pen_through(pen, a + b) == pen_through(pen_through(pen, a), b),
    decreases b.len(),
{
    if b.len() == 0 {
        assert(a + b =~= a);
    } else {
        lemma_pen_add(pen, a, b.drop_last());
        assert((a + b).drop_last() =~= a + b.drop_last());
    }
}

/// What goes from one pen to another leaves a terminal with the first pen
/// with the second one, and nothing is sent between equal pens.
pub proof fn law_pen_change(pen: Pen, next: Pen)
    ensures
        pen_through(pen, pen_change(pen, next)) == next,
        pen == next ==> pen_change(pen, next).len() == 0,
{
    let reset = attrs_differ(pen, next);
    let none = Seq::<CmdView>::empty();
    let a = if reset {
        none.push(CmdView::Attr(Attr::Reset))
    } else {
        none
    };
    let b = if reset && next.bold {
        a.push(CmdView::Attr(Attr::Bold))
    } else {
        a
    };
    let c = if reset && next.italic {
        b.push(CmdView::Attr(Attr::Italic))
    } else {
        b
    };
    let d = if reset && next.underline {
        c.push(CmdView::Attr(Attr::Underlined))
    } else {
        c
    };
    let e = if reset || pen.fg != next.fg {
        d.push(CmdView::Fg(next.fg))
    } else {
        d
    };
    let f = if reset || pen.bg != next.bg {
        e.push(CmdView::Bg(next.bg))
    } else {
        e
    };
    assert(f =~= pen_change(pen, next));
    lemma_pen_push(pen, none, CmdView::Attr(Attr::Reset));
    lemma_pen_push(pen, a, CmdView::Attr(Attr::Bold));
    lemma_pen_push(pen, b, CmdView::Attr(Attr::Italic));
    lemma_pen_push(pen, c, CmdView::Attr(Attr::Underlined));
    lemma_pen_push(pen, d, CmdView::Fg(next.fg));
    lemma_pen_push(pen, e, CmdView::Bg(next.bg));
}

/// Every cell of a row is drawn with its own pen, whatever was sent before
/// it: the pen kept along the row is the one the terminal has.
pub proof fn law_row_pen(row: Seq<CellView>, default: Pen, pen: Pen, n: int)
    requires
        0 <= n <= row.len(),
    ensures
        pen_through(pen, row_drawn(row, default, pen, n).0) == row_drawn(row, default, pen, n).1,
    decreases n,
{
    if n > 0 {
        law_row_pen(row, default, pen, n - 1);
        let (before, at) = row_drawn(row, default, pen, n - 1);
        let c = row[n - 1];
        lemma_pen_add(pen, before, cell_drawn(c, default, at));
        if !c.spacer {
            law_pen_change(at, cell_pen(c, default));
            lemma_pen_push(
                at,
                pen_change(at, cell_pen(c, default)),
                CmdView::Print(cell_text(c)),
            );
        }
    }
}

} // verus!
