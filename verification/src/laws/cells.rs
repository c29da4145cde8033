//! What the cells of a frame come to: what a pane shows cell by cell, and
//! where the dividers run.

use crate::ansi::{printed, Attr, CmdView, Color};
use crate::dividers::{all_keys, box_of, cells_drawn, dividers_drawn, lines_at, Lines};
use crate::grid::{
    cell_drawn, cell_pen, cell_text, grid_drawn, grid_rows_drawn, law_pen_change, pen_through,
    row_drawn, CellView, GridView, Pen, Rgb,
};
use crate::laws::drawing::lemma_printed_add;
use crate::layout::{halves, law_halves, Layout, Rect, SplitDir};
use vstd::prelude::*;

verus! {

/// A cell is drawn in its own colours, or the pane's where it has none,
/// swapped when it is inverse, and with its own attributes; what is drawn is
/// its text, or a blank. The second half of a wide character draws nothing.
pub proof fn law_cell(c: CellView, default: Pen, pen: Pen)
    ensures
        ({
            let d = cell_drawn(c, default, pen);
            let fg = match c.fg {
                Some(k) => Color::Rgb { r: k.r, g: k.g, b: k.b },
                None => default.fg,
            };
            let bg = match c.bg {
                Some(k) => Color::Rgb { r: k.r, g: k.g, b: k.b },
                None => default.bg,
            };
            let at = pen_through(pen, d.drop_last());
            &&& c.spacer ==> d.len() == 0
            &&& !c.spacer ==> {
                &&& d.len() > 0
                &&& d.last() == CmdView::Print(
                    if c.text.len() > 0 {
                        c.text
                    } else {
                        seq![' ']
                    },
                )
                &&& printed(d) == if c.text.len() > 0 {
                    c.text
                } else {
                    seq![' ']
                }
                &&& c.style matches Some(s) ==> at == (if s.inverse {
                    Pen {
                        fg: bg,
                        bg: fg,
                        bold: s.bold,
                        italic: s.italic,
                        underline: s.underline,
                    }
                } else {
                    Pen { fg, bg, bold: s.bold, italic: s.italic, underline: s.underline }
                })
                &&& c.style is None ==> at == (Pen {
                    fg,
                    bg,
                    bold: default.bold,
                    italic: default.italic,
                    underline: default.underline,
                })
            }
        }),
{
    reveal_strlit(" ");
    assert(" "@ =~= seq![' ']);
    if !c.spacer {
        let next = cell_pen(c, default);
        let change = crate::grid::pen_change(pen, next);
        law_pen_change(pen, next);
        let d = cell_drawn(c, default, pen);
        assert(d.drop_last() =~= change);
        lemma_silent(pen, next);
        assert(printed(d) =~= cell_text(c));
    }
}

proof fn lemma_silent(pen: Pen, next: Pen)
    ensures
        printed(crate::grid::pen_change(pen, next)) == Seq::<char>::empty(),
        forall|i: int|
            0 <= i < crate::grid::pen_change(pen, next).len() ==> !((
            #[trigger] crate::grid::pen_change(pen, next)[i]) is MoveTo),
{
    let c = crate::grid::pen_change(pen, next);
    assert forall|i: int| 0 <= i < c.len() implies !((#[trigger] c[i]) is MoveTo) && !(c[i] is Print) by {}
    lemma_no_print(c);
}

proof fn lemma_no_print(c: Seq<CmdView>)
    requires
        forall|i: int| 0 <= i < c.len() ==> !((#[trigger] c[i]) is Print),
    ensures
        printed(c) == Seq::<char>::empty(),
    decreases c.len(),
{
    if c.len() > 0 {
        assert(!(c[c.len() - 1] is Print));
        assert forall|i: int| 0 <= i < c.drop_last().len() implies !((
        #[trigger] c.drop_last()[i]) is Print) by {
            assert(c.drop_last()[i] == c[i]);
        }
        lemma_no_print(c.drop_last());
        assert(printed(c) =~= Seq::<char>::empty());
    }
}

/// The text of the first `n` cells of a row: their texts one after the other,
/// a blank for each cell without, nothing for the second half of a wide
/// character.
pub open spec fn row_text(row: Seq<CellView>, n: int) -> Seq<char>
    decreases n,
{
    if n <= 0 {
        Seq::empty()
    } else if row[n - 1].spacer {
        row_text(row, n - 1)
    } else if row[n - 1].text.len() > 0 {
        row_text(row, n - 1) + row[n - 1].text
    } else {
        row_text(row, n - 1).push(' ')
    }
}

/// A row of a pane prints the texts of its cells in their order.
pub proof fn law_row_text(row: Seq<CellView>, default: Pen, pen: Pen, n: int)
    requires
        0 <= n <= row.len(),
    ensures
        printed(row_drawn(row, default, pen, n).0) == row_text(row, n),
    decreases n,
{
    if n > 0 {
        law_row_text(row, default, pen, n - 1);
        let (before, at) = row_drawn(row, default, pen, n - 1);
        law_cell(row[n - 1], default, at);
        let d = cell_drawn(row[n - 1], default, at);
        lemma_printed_add(before, d);
        assert(printed(row_drawn(row, default, pen, n).0) =~= row_text(row, n));
    }
}

proof fn lemma_row_still(row: Seq<CellView>, default: Pen, pen: Pen, n: int)
    requires
        0 <= n <= row.len(),
    ensures
        forall|i: int|
            0 <= i < row_drawn(row, default, pen, n).0.len() ==> !((#[trigger] row_drawn(
                row,
                default,
                pen,
                n,
            ).0[i]) is MoveTo),
    decreases n,
{
    if n > 0 {
        lemma_row_still(row, default, pen, n - 1);
        let (before, at) = row_drawn(row, default, pen, n - 1);
        let d = cell_drawn(row[n - 1], default, at);
        let all = row_drawn(row, default, pen, n).0;
        lemma_silent(at, cell_pen(row[n - 1], default));
        assert forall|i: int| 0 <= i < all.len() implies !((#[trigger] all[i]) is MoveTo) by {
            if i < before.len() {
                assert(all[i] == before[i]);
            } else {
                assert(all[i] == d[i - before.len()]);
            }
        }
    }
}

/// Row `k` of a pane stands in what is drawn of it: the cursor goes to the
/// row's first cell in the pane's rectangle, then the row is drawn, and the
/// cursor goes nowhere else until the row is done.
pub open spec fn row_stands(c: Seq<CmdView>, g: GridView, r: Rect, k: int, i: int, n: int) -> bool {
    &&& 0 <= i && 0 <= n && i + 1 + n <= c.len()
    &&& c[i] == CmdView::MoveTo(r.x, (r.y + k) as u16)
    &&& printed(c.subrange(i + 1, i + 1 + n)) == row_text(g.rows[k], g.rows[k].len() as int)
    &&& forall|j: int| i < j < i + 1 + n ==> !((#[trigger] c[j]) is MoveTo)
    &&& i + 1 + n == c.len() || c[i + 1 + n] is MoveTo
}

/// A pane is drawn row by row, each from its first column on, in the pane's
/// rectangle; it starts from the pane's own colours without attributes.
pub proof fn law_pane_rows(g: GridView, r: Rect, k: int)
    requires
        0 <= k < g.rows.len(),
        r.y + g.rows.len() <= u16::MAX,
    ensures
        ({
            let c = grid_drawn(g, r);
            &&& c[0] == CmdView::Attr(Attr::Reset)
            &&& c[1] == CmdView::Fg(Color::Rgb { r: g.fg.r, g: g.fg.g, b: g.fg.b })
            &&& c[2] == CmdView::Bg(Color::Rgb { r: g.bg.r, g: g.bg.g, b: g.bg.b })
            &&& exists|i: int, n: int| #[trigger] row_stands(c, g, r, k, i, n)
        }),
{
    let pen = crate::grid::default_pen(g);
    let rows = grid_rows_drawn(g.rows, r, pen, g.rows.len() as int).0;
    let c = grid_drawn(g, r);
    lemma_grid_rows(g, r, pen, g.rows.len() as int, k);
    let (i, n) = choose|i: int, n: int| #[trigger] row_stands(rows, g, r, k, i, n);
    assert forall|j: int| 0 <= j < rows.len() implies c[3 + j] == rows[j] by {}
    assert(c.subrange(3 + i + 1, 3 + i + 1 + n) =~= rows.subrange(i + 1, i + 1 + n));
    assert forall|j: int| 3 + i < j < 3 + i + 1 + n implies !((#[trigger] c[j]) is MoveTo) by {
        assert(c[j] == rows[j - 3]);
    }
    assert(row_stands(c, g, r, k, 3 + i, n));
}

proof fn lemma_grid_rows(g: GridView, r: Rect, pen: Pen, m: int, k: int)
    requires
        0 <= k < m <= g.rows.len(),
    ensures
        exists|i: int, n: int| #[trigger]
            row_stands(grid_rows_drawn(g.rows, r, pen, m).0, g, r, k, i, n),
    decreases m,
{
    let all = grid_rows_drawn(g.rows, r, pen, m).0;
    let (before, at) = grid_rows_drawn(g.rows, r, pen, m - 1);
    let row = g.rows[m - 1];
    let drawn = row_drawn(row, pen, at, row.len() as int).0;
    let b = before.len() as int;
    assert(all[b] == CmdView::MoveTo(r.x, (r.y + m - 1) as u16));
    if k < m - 1 {
        lemma_grid_rows(g, r, pen, m - 1, k);
        let (i, n) = choose|i: int, n: int| #[trigger] row_stands(before, g, r, k, i, n);
        assert forall|j: int| 0 <= j < before.len() implies all[j] == before[j] by {}
        assert(all.subrange(i + 1, i + 1 + n) =~= before.subrange(i + 1, i + 1 + n));
        assert forall|j: int| i < j < i + 1 + n implies !((#[trigger] all[j]) is MoveTo) by {
            assert(all[j] == before[j]);
        }
        assert(row_stands(all, g, r, k, i, n));
    } else {
        law_row_text(row, pen, at, row.len() as int);
        lemma_row_still(row, pen, at, row.len() as int);
        let n = drawn.len() as int;
        assert(all.subrange(b + 1, b + 1 + n) =~= drawn);
        assert forall|j: int| b < j < b + 1 + n implies !((#[trigger] all[j]) is MoveTo) by {
            assert(all[j] == drawn[j - b - 1]);
        }
        assert(row_stands(all, g, r, k, b, n));
    }
}

/// Where a pane's cursor stands on the screen: at its cell, counted from the
/// corner of the pane's rectangle.
pub proof fn law_cursor_cell(g: GridView, r: Rect)
    requires
        crate::grid::drawable(g, r),
    ensures
        match g.cursor {
            Some((x, y)) => crate::grid::cursor_at(g, r) matches Some((cx, cy)) && cx == r.x + x
                && cy == r.y + y,
            None => crate::grid::cursor_at(g, r) is None,
        },
{
}

/// Every cell of the pane area belongs to a pane or to a divider, and to one
/// of them only.
pub proof fn law_dividers_fill(l: Layout, r: Rect, x: int, y: int)
    requires
        r.fits(),
        l.solid(),
        r.has(x, y),
    ensures
        lines_at(l, r, x, y).on <==> (forall|i: int|
            0 <= i < l.rect_seq(r).len() ==> !(#[trigger] l.rect_seq(r)[i]).1.has(x, y)),
    decreases l,
{
    match l {
        Layout::Empty => {},
        Layout::Pane(p) => {
            assert(l.rect_seq(r)[0].1.has(x, y));
        },
        Layout::Split { dir, a, b } => {
            law_halves(dir, r);
            let (ra, rb) = halves(dir, r);
            let sa = a.rect_seq(ra);
            let sb = b.rect_seq(rb);
            let all = l.rect_seq(r);
            if lines_at(l, r, x, y).on {
                assert forall|i: int| 0 <= i < all.len() implies !(#[trigger] all[i]).1.has(
                    x,
                    y,
                ) by {
                    if all[i].1.has(x, y) {
                        crate::dividers::law_dividers_between_panes(l, r, i, x, y);
                    }
                }
            } else {
                if ra.has(x, y) {
                    law_dividers_fill(*a, ra, x, y);
                    let i = choose|i: int| 0 <= i < sa.len() && (#[trigger] sa[i]).1.has(x, y);
                    assert(all[i] == sa[i]);
                } else {
                    assert(rb.has(x, y));
                    law_dividers_fill(*b, rb, x, y);
                    let i = choose|i: int| 0 <= i < sb.len() && (#[trigger] sb[i]).1.has(x, y);
                    assert(all[sa.len() + i] == sb[i]);
                }
            }
        },
    }
}

/// Divider lines run on from cell to cell: what leads down leads up from the
/// cell below, what leads right leads left from the cell on the right; and a
/// cell of a divider has a line through it.
pub proof fn law_dividers_run_on(l: Layout, r: Rect, x: int, y: int)
    ensures
        lines_at(l, r, x, y).down == lines_at(l, r, x, y + 1).up,
        lines_at(l, r, x, y).right == lines_at(l, r, x + 1, y).left,
        lines_at(l, r, x, y).on ==> (lines_at(l, r, x, y).up && lines_at(l, r, x, y).down) || (
        lines_at(l, r, x, y).left && lines_at(l, r, x, y).right),
    decreases l,
{
    if let Layout::Split { dir, a, b } = l {
        let (ra, rb) = halves(dir, r);
        law_dividers_run_on(*a, ra, x, y);
        law_dividers_run_on(*b, rb, x, y);
    }
}

/// The divider of a split runs between its halves from end to end: down the
/// column after the left half, or along the row after the top half.
pub proof fn law_divider_of_split(dir: SplitDir, a: Layout, b: Layout, r: Rect, x: int, y: int)
    requires
        r.fits(),
        r.has(x, y),
    ensures
        ({
            let l = Layout::Split { dir, a: Box::new(a), b: Box::new(b) };
            let c = lines_at(l, r, x, y);
            match dir {
                SplitDir::Vertical => x == r.x + (r.w - 1) / 2 ==> c.on && c.up && c.down,
                SplitDir::Horizontal => y == r.y + (r.h - 1) / 2 ==> c.on && c.left && c.right,
            }
        }),
{
}

/// The lines that a box character draws from the middle of its cell: up, down,
/// left and right.
pub open spec fn arms(c: char) -> (bool, bool, bool, bool) {
    (
        c == '│' || c == '┤' || c == '├' || c == '┴' || c == '┼',
        c == '│' || c == '┤' || c == '├' || c == '┬' || c == '┼',
        c == '─' || c == '┤' || c == '┴' || c == '┬' || c == '┼',
        c == '─' || c == '├' || c == '┴' || c == '┬' || c == '┼',
    )
}

/// A divider is drawn with the character whose lines are those that meet in
/// its cell.
pub proof fn law_box_joins(c: Lines)
    requires
        (c.up && c.down) || (c.left && c.right),
    ensures
        arms(box_of(c)) == (c.up, c.down, c.left, c.right),
{
}

/// Whether a cell lies right outside a rectangle, corners and all.
pub open spec fn around(f: Rect, x: int, y: int) -> bool {
    &&& f.x - 1 <= x <= f.x + f.w && f.y - 1 <= y <= f.y + f.h
    &&& !(f.x <= x < f.x + f.w && f.y <= y < f.y + f.h)
}

/// The cell (`x`, `y`) of a divider is drawn at `i`.
pub open spec fn cell_at(c: Seq<CmdView>, l: Layout, r: Rect, x: int, y: int, i: int) -> bool {
    &&& 0 <= i && i + 1 < c.len()
    &&& c[i] == CmdView::MoveTo(x as u16, y as u16)
    &&& c[i + 1] == CmdView::Print(seq![box_of(lines_at(l, r, x, y))])
}

/// Dividers are drawn dim, and in the accent colour where they run around the
/// focused pane: first come the dim ones, then those in the accent colour,
/// from `m` on. Every cell of a divider is drawn in its part.
pub proof fn law_dividers_highlight(
    l: Layout,
    r: Rect,
    f: Rect,
    accent: Color,
    x: int,
    y: int,
)
    requires
        l is Split,
        0 <= x <= u16::MAX,
        0 <= y <= u16::MAX,
        lines_at(l, r, x, y).on,
    ensures
        ({
            let c = dividers_drawn(l, r, Some(f), accent);
            &&& c[0] == CmdView::Attr(Attr::Reset) && c[1] == CmdView::Attr(Attr::Dim)
            &&& exists|m: int, i: int|
                2 <= m && m + 3 < c.len() && c[m] == CmdView::Attr(Attr::Reset) && c[m + 1]
                    == CmdView::Fg(accent) && #[trigger] cell_at(c, l, r, x, y, i) && (if around(
                    f,
                    x,
                    y,
                ) {
                    m + 2 <= i < c.len() - 2
                } else {
                    2 <= i < m
                }) && #[trigger] plain_from(c, 2, m) && plain_from(c, m + 2, c.len() - 2)
            &&& c[c.len() - 2] == CmdView::Attr(Attr::Reset) && c[c.len() - 1] == CmdView::Fg(
                Color::Reset,
            )
        }),
{
    reveal(dividers_drawn);
    let c = dividers_drawn(l, r, Some(f), accent);
    let dim = cells_drawn(l, r, Some(f), false, all_keys());
    let lit = cells_drawn(l, r, Some(f), true, all_keys());
    let key = y * 65536 + x;
    let framed = crate::dividers::framing(Some(f), x, y);
    assert(0 <= key < all_keys()) by (nonlinear_arith)
        requires
            0 <= x <= 65535,
            0 <= y <= 65535,
            key == y * 65536 + x,
            all_keys() == 0x1_0000_0000,
    ;
    assert(key % 65536 == x && key / 65536 == y) by (nonlinear_arith)
        requires
            0 <= x <= 65535,
            0 <= y,
            key == y * 65536 + x,
    ;
    assert(framed == around(f, x, y));
    lemma_cells(l, r, f, framed, all_keys(), key, x, y);
    lemma_cells_plain(l, r, f, false, all_keys());
    lemma_cells_plain(l, r, f, true, all_keys());
    let m = 2 + dim.len() as int;
    let part = if framed {
        lit
    } else {
        dim
    };
    let start = if framed {
        m + 2
    } else {
        2
    };
    let i = choose|i: int| #[trigger] cell_at(part, l, r, x, y, i);
    assert(c.len() == 2 + dim.len() + 2 + lit.len() + 2);
    assert forall|j: int| 0 <= j < dim.len() implies c[2 + j] == dim[j] by {}
    assert forall|j: int| 0 <= j < lit.len() implies c[m + 2 + j] == lit[j] by {}
    assert(c[start + i] == part[i]);
    assert(c[start + (i + 1)] == part[i + 1]);
    assert(cell_at(c, l, r, x, y, start + i));
    assert(plain_from(c, 2, m)) by {
        assert forall|j: int| 2 <= j < m implies (#[trigger] c[j]) is MoveTo || c[j] is Print by {
            assert(c[j] == dim[j - 2]);
        }
    }
    assert(plain_from(c, m + 2, c.len() - 2)) by {
        assert forall|j: int| m + 2 <= j < c.len() - 2 implies (#[trigger] c[j]) is MoveTo
            || c[j] is Print by {
            assert(c[j] == lit[j - m - 2]);
        }
    }
    assert(m + 3 < c.len());
}

/// Between `a` and `b` the colours and attributes stay as they are.
pub open spec fn plain_from(c: Seq<CmdView>, a: int, b: int) -> bool {
    forall|j: int| a <= j < b ==> (#[trigger] c[j]) is MoveTo || c[j] is Print
}

proof fn lemma_cells(
    l: Layout,
    r: Rect,
    f: Rect,
    framed: bool,
    n: int,
    key: int,
    x: int,
    y: int,
)
    requires
        0 <= key < n,
        key % 65536 == x,
        key / 65536 == y,
        lines_at(l, r, x, y).on,
        crate::dividers::framing(Some(f), x, y) == framed,
    ensures
        exists|i: int| #[trigger] cell_at(cells_drawn(l, r, Some(f), framed, n), l, r, x, y, i),
    decreases n,
{
    let c = cells_drawn(l, r, Some(f), framed, n);
    let before = cells_drawn(l, r, Some(f), framed, n - 1);
    if key < n - 1 {
        lemma_cells(l, r, f, framed, n - 1, key, x, y);
        let i = choose|i: int| #[trigger] cell_at(before, l, r, x, y, i);
        assert(c[i] == before[i] && c[i + 1] == before[i + 1]);
        assert(cell_at(c, l, r, x, y, i));
    } else {
        let i = before.len() as int;
        assert(cell_at(c, l, r, x, y, i));
    }
}

proof fn lemma_cells_plain(l: Layout, r: Rect, f: Rect, framed: bool, n: int)
    ensures
        forall|j: int|
            0 <= j < cells_drawn(l, r, Some(f), framed, n).len() ==> (#[trigger] cells_drawn(
                l,
                r,
                Some(f),
                framed,
                n,
            )[j]) is MoveTo || cells_drawn(l, r, Some(f), framed, n)[j] is Print,
    decreases n,
{
    if n > 0 {
        lemma_cells_plain(l, r, f, framed, n - 1);
        let c = cells_drawn(l, r, Some(f), framed, n);
        let before = cells_drawn(l, r, Some(f), framed, n - 1);
        assert forall|j: int| 0 <= j < c.len() implies (#[trigger] c[j]) is MoveTo
            || c[j] is Print by {
            if j < before.len() {
                assert(c[j] == before[j]);
            }
        }
    }
}

} // verus!
