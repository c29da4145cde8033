//! The divider lines between panes: which cells they run through, and which
//! box-drawing character joins the lines that meet in a cell.

use crate::ansi::{all_placeable, cmds, push_cmd, Attr, Cmd, CmdView, Color};
use crate::layout::{halves, split_rect, Layout, Rect, SplitDir};
use std::collections::BTreeMap;
use vstd::prelude::*;
use vstd::std_specs::cmp::OrdSpec;
use vstd::std_specs::iter::IteratorSpec;

verus! {

broadcast use vstd::laws_cmp::group_laws_cmp;

// Line-component bits for box-drawing junction resolution.
pub const B_UP: u8 = 1;

pub const B_DOWN: u8 = 2;

pub const B_LEFT: u8 = 4;

pub const B_RIGHT: u8 = 8;

/// The lines that meet in a cell. A cell that is `on` lies on a divider;
/// the others only tell a neighboring divider that a line abuts it.
#[derive(Clone, Copy, PartialEq, Eq, Structural)]
pub struct Lines {
    pub up: bool,
    pub down: bool,
    pub left: bool,
    pub right: bool,
    pub on: bool,
}

/// No line at all.
pub open spec fn no_lines() -> Lines {
    Lines { up: false, down: false, left: false, right: false, on: false }
}

/// All the lines of both.
pub open spec fn joined(a: Lines, b: Lines) -> Lines {
    Lines {
        up: a.up || b.up,
        down: a.down || b.down,
        left: a.left || b.left,
        right: a.right || b.right,
        on: a.on || b.on,
    }
}

/// The lines that the divider of one split brings into a cell. It runs
/// across the whole rectangle and is announced just past both of its ends.
pub open spec fn divider_at(dir: SplitDir, r: Rect, x: int, y: int) -> Lines {
    match dir {
        SplitDir::Horizontal => if y == r.y + halves(dir, r).0.h {
            Lines {
                left: r.x <= x <= r.x + r.w,
                right: r.x - 1 <= x < r.x + r.w,
                on: r.x <= x < r.x + r.w,
                ..no_lines()
            }
        } else {
            no_lines()
        },
        SplitDir::Vertical => if x == r.x + halves(dir, r).0.w {
            Lines {
                up: r.y <= y <= r.y + r.h,
                down: r.y - 1 <= y < r.y + r.h,
                on: r.y <= y < r.y + r.h,
                ..no_lines()
            }
        } else {
            no_lines()
        },
    }
}

/// The lines that the dividers of a layout bring into a cell.
pub open spec fn lines_at(l: Layout, r: Rect, x: int, y: int) -> Lines
    decreases l,
{
    match l {
        Layout::Split { dir, a, b } => joined(
            divider_at(dir, r, x, y),
            joined(lines_at(*a, halves(dir, r).0, x, y), lines_at(*b, halves(dir, r).1, x, y)),
        ),
        _ => no_lines(),
    }
}

/// The lines that a set of bits stands for.
pub open spec fn lines_of(bits: u8, on: bool) -> Lines {
    Lines {
        up: bits & B_UP != 0,
        down: bits & B_DOWN != 0,
        left: bits & B_LEFT != 0,
        right: bits & B_RIGHT != 0,
        on,
    }
}

/// Where a cell is kept: cells are kept in reading order.
pub open spec fn cell_key(x: int, y: int) -> int {
    y * 65536 + x
}

/// The lines kept under a key.
pub open spec fn kept(m: Map<u32, (u8, bool)>, key: int) -> Lines {
    if 0 <= key <= u32::MAX && m.contains_key(key as u32) {
        lines_of(m[key as u32].0, m[key as u32].1)
    } else {
        no_lines()
    }
}

/// Only cells with a line are kept, with no bits but those of the four lines.
pub open spec fn tidy(m: Map<u32, (u8, bool)>) -> bool {
    forall|key: u32| #[trigger]
        m.contains_key(key) ==> kept(m, key as int) != no_lines() && m[key].0 < 16
}

/// The bits that stand for the lines of a cell.
pub open spec fn bits_of(c: Lines) -> u8 {
    ((if c.up {
        B_UP as int
    } else {
        0
    }) + (if c.down {
        B_DOWN as int
    } else {
        0
    }) + (if c.left {
        B_LEFT as int
    } else {
        0
    }) + (if c.right {
        B_RIGHT as int
    } else {
        0
    })) as u8
}

/// What is kept of a cell with these lines; nothing when it has none.
pub open spec fn filed(c: Lines) -> Option<(u8, bool)> {
    if c == no_lines() {
        None
    } else {
        Some((bits_of(c), c.on))
    }
}

/// What is kept under a key.
pub open spec fn file(m: Map<u32, (u8, bool)>, key: int) -> Option<(u8, bool)> {
    if 0 <= key <= u32::MAX && m.contains_key(key as u32) {
        Some(m[key as u32])
    } else {
        None
    }
}

/// The lines of a cell fix what is kept of it, to the bit.
pub proof fn law_lines_fix_bits(m: Map<u32, (u8, bool)>, key: int)
    requires
        tidy(m),
    ensures
        file(m, key) == filed(kept(m, key)),
{
    if 0 <= key <= u32::MAX && m.contains_key(key as u32) {
        let b = m[key as u32].0;
        assert(b == (if b & 1 != 0 {
            1u8
        } else {
            0u8
        }) + (if b & 2 != 0 {
            2u8
        } else {
            0u8
        }) + (if b & 4 != 0 {
            4u8
        } else {
            0u8
        }) + (if b & 8 != 0 {
            8u8
        } else {
            0u8
        })) by (bit_vector)
            requires
                b < 16,
        ;
    }
}

/// Maps that keep the same lines in every cell are the same.
pub proof fn law_same_lines_same_map(m: Map<u32, (u8, bool)>, n: Map<u32, (u8, bool)>)
    requires
        tidy(m),
        tidy(n),
        forall|x: int, y: int|
            on_screen(x, y) ==> #[trigger] kept(m, cell_key(x, y)) == kept(n, cell_key(x, y)),
    ensures
        m == n,
{
    assert forall|k: u32| #[trigger] m.contains_key(k) == n.contains_key(k) && (m.contains_key(k)
        ==> m[k] == n[k]) by {
        let (x, y) = (k as int % 65536, k as int / 65536);
        assert(on_screen(x, y));
        assert(cell_key(x, y) == k);
        assert(kept(m, cell_key(x, y)) == kept(n, cell_key(x, y)));
        law_lines_fix_bits(m, k as int);
        law_lines_fix_bits(n, k as int);
    }
    assert(m =~= n);
}

/// A cell on the screen.
pub open spec fn on_screen(x: int, y: int) -> bool {
    0 <= x <= u16::MAX && 0 <= y <= u16::MAX
}

/// `new` keeps what `old` keeps, and `more` lines in each cell.
pub open spec fn gained(
    old: Map<u32, (u8, bool)>,
    new: Map<u32, (u8, bool)>,
    more: spec_fn(int, int) -> Lines,
) -> bool {
    forall|x: int, y: int|
        on_screen(x, y) ==> #[trigger] kept(new, cell_key(x, y)) == joined(
            kept(old, cell_key(x, y)),
            more(x, y),
        )
}

fn key_of(x: u16, y: u16) -> (r: u32)
    ensures
        r == cell_key(x as int, y as int),
{
    y as u32 * 65536 + x as u32
}

proof fn lemma_keys_differ(x: int, y: int, p: int, q: int)
    requires
        on_screen(x, y),
        on_screen(p, q),
        cell_key(x, y) == cell_key(p, q),
    ensures
        x == p,
        y == q,
{
}

proof fn lemma_bits(a: u8, b: u8)
    ensures
        lines_of(a | b, false) == joined(lines_of(a, false), lines_of(b, false)),
        lines_of(0, false) == no_lines(),
{
    assert((a | b) & 1 != 0 <==> a & 1 != 0 || b & 1 != 0) by (bit_vector);
    assert((a | b) & 2 != 0 <==> a & 2 != 0 || b & 2 != 0) by (bit_vector);
    assert((a | b) & 4 != 0 <==> a & 4 != 0 || b & 4 != 0) by (bit_vector);
    assert((a | b) & 8 != 0 <==> a & 8 != 0 || b & 8 != 0) by (bit_vector);
    assert(0u8 & 1 == 0 && 0u8 & 2 == 0 && 0u8 & 4 == 0 && 0u8 & 8 == 0) by (bit_vector);
}

/// Add lines to one cell.
fn mark(cells: &mut BTreeMap<u32, (u8, bool)>, key: u32, bits: u8, on: bool)
    requires
        tidy(old(cells)@),
        lines_of(bits, false) != no_lines(),
        bits < 16,
    ensures
        tidy(final(cells)@),
        forall|k: int| #[trigger]
            kept(final(cells)@, k) == if k == key {
                joined(kept(old(cells)@, k), lines_of(bits, on))
            } else {
                kept(old(cells)@, k)
            },
{
    let ghost before = cells@;
    let (had, was): (u8, bool) = match cells.get(&key) {
        Some(c) => *c,
        None => (0, false),
    };
    cells.insert(key, (had | bits, was || on));
    proof {
        lemma_bits(had, bits);
        let after = cells@;
        assert(after == before.insert(key, (had | bits, was || on)));
        assert(kept(before, key as int) == lines_of(had, was));
        assert forall|k: int| #[trigger] kept(after, k) == if k == key {
            joined(kept(before, k), lines_of(bits, on))
        } else {
            kept(before, k)
        } by {
            if k != key && 0 <= k <= u32::MAX {
                assert(after.contains_key(k as u32) == before.contains_key(k as u32));
            }
        }
        assert((had | bits) < 16) by (bit_vector)
            requires
                had < 16,
                bits < 16,
        ;
        assert forall|k: u32| #[trigger] after.contains_key(k) implies kept(after, k as int)
            != no_lines() && after[k].0 < 16 by {
            if k != key {
                assert(before.contains_key(k));
                assert(kept(after, k as int) == kept(before, k as int));
            }
        }
    }
}

proof fn lemma_line_bits()
    ensures
        lines_of(B_LEFT | B_RIGHT, true) == (Lines {
            left: true,
            right: true,
            on: true,
            ..no_lines()
        }),
        lines_of(B_UP | B_DOWN, true) == (Lines { up: true, down: true, on: true, ..no_lines() }),
        lines_of(B_RIGHT, false) == (Lines { right: true, ..no_lines() }),
        lines_of(B_LEFT, false) == (Lines { left: true, ..no_lines() }),
        lines_of(B_UP, false) == (Lines { up: true, ..no_lines() }),
        lines_of(B_DOWN, false) == (Lines { down: true, ..no_lines() }),
        B_LEFT | B_RIGHT < 16,
        B_UP | B_DOWN < 16,
{
    assert((4u8 | 8u8) == 12u8) by (bit_vector);
    assert((1u8 | 2u8) == 3u8) by (bit_vector);
    assert(12u8 & 1 == 0 && 12u8 & 2 == 0 && 12u8 & 4 != 0 && 12u8 & 8 != 0) by (bit_vector);
    assert(3u8 & 1 != 0 && 3u8 & 2 != 0 && 3u8 & 4 == 0 && 3u8 & 8 == 0) by (bit_vector);
    assert(1u8 & 1 != 0 && 1u8 & 2 == 0 && 1u8 & 4 == 0 && 1u8 & 8 == 0) by (bit_vector);
    assert(2u8 & 1 == 0 && 2u8 & 2 != 0 && 2u8 & 4 == 0 && 2u8 & 8 == 0) by (bit_vector);
    assert(4u8 & 1 == 0 && 4u8 & 2 == 0 && 4u8 & 4 != 0 && 4u8 & 8 == 0) by (bit_vector);
    assert(8u8 & 1 == 0 && 8u8 & 2 == 0 && 8u8 & 4 == 0 && 8u8 & 8 != 0) by (bit_vector);
}

/// Collect the divider of one horizontal split.
fn collect_row(rect: Rect, y: u16, cells: &mut BTreeMap<u32, (u8, bool)>)
    requires
        rect.fits(),
        y == rect.y + halves(SplitDir::Horizontal, rect).0.h,
        tidy(old(cells)@),
    ensures
        tidy(final(cells)@),
        gained(
            old(cells)@,
            final(cells)@,
            |x: int, y: int| divider_at(SplitDir::Horizontal, rect, x, y),
        ),
{
    let ghost first = cells@;
    proof {
        lemma_line_bits();
    }
    let end: u16 = rect.x + rect.w;
    let mut x: u16 = rect.x;
    while x < end
        invariant
            rect.x <= x <= end,
            end == rect.x + rect.w,
            tidy(cells@),
            gained(
                first,
                cells@,
                |p: int, q: int|
                    if q == y && rect.x <= p < x {
                        Lines { left: true, right: true, on: true, ..no_lines() }
                    } else {
                        no_lines()
                    },
            ),
        decreases end - x,
    {
        let ghost before = cells@;
        proof {
            lemma_line_bits();
            lemma_bits(0, B_LEFT | B_RIGHT);
        }
        mark(cells, key_of(x, y), B_LEFT | B_RIGHT, true);
        proof {
            assert forall|p: int, q: int| on_screen(p, q) implies #[trigger] kept(
                cells@,
                cell_key(p, q),
            ) == joined(
                kept(first, cell_key(p, q)),
                if q == y && rect.x <= p < x + 1 {
                    Lines { left: true, right: true, on: true, ..no_lines() }
                } else {
                    no_lines()
                },
            ) by {
                if cell_key(p, q) == cell_key(x as int, y as int) {
                    lemma_keys_differ(p, q, x as int, y as int);
                }
            }
        }
        x = x + 1;
    }
    // Tell abutting vertical dividers a line arrives from the side.
    let ghost before = cells@;
    if rect.x > 0 {
        mark(cells, key_of(rect.x - 1, y), B_RIGHT, false);
    }
    let ghost between = cells@;
    mark(cells, key_of(end, y), B_LEFT, false);
    proof {
        assert forall|p: int, q: int| on_screen(p, q) implies #[trigger] kept(
            cells@,
            cell_key(p, q),
        ) == joined(
            kept(first, cell_key(p, q)),
            divider_at(SplitDir::Horizontal, rect, p, q),
        ) by {
            if cell_key(p, q) == cell_key(end as int, y as int) {
                lemma_keys_differ(p, q, end as int, y as int);
            }
            if rect.x > 0 && cell_key(p, q) == cell_key(rect.x - 1, y as int) {
                lemma_keys_differ(p, q, rect.x - 1, y as int);
            }
        }
    }
}

/// Collect the divider of one vertical split.
fn collect_column(rect: Rect, x: u16, cells: &mut BTreeMap<u32, (u8, bool)>)
    requires
        rect.fits(),
        x == rect.x + halves(SplitDir::Vertical, rect).0.w,
        tidy(old(cells)@),
    ensures
        tidy(final(cells)@),
        gained(
            old(cells)@,
            final(cells)@,
            |x: int, y: int| divider_at(SplitDir::Vertical, rect, x, y),
        ),
{
    let ghost first = cells@;
    proof {
        lemma_line_bits();
    }
    let end: u16 = rect.y + rect.h;
    let mut y: u16 = rect.y;
    while y < end
        invariant
            rect.y <= y <= end,
            end == rect.y + rect.h,
            tidy(cells@),
            gained(
                first,
                cells@,
                |p: int, q: int|
                    if p == x && rect.y <= q < y {
                        Lines { up: true, down: true, on: true, ..no_lines() }
                    } else {
                        no_lines()
                    },
            ),
        decreases end - y,
    {
        let ghost before = cells@;
        proof {
            lemma_line_bits();
            lemma_bits(0, B_UP | B_DOWN);
        }
        mark(cells, key_of(x, y), B_UP | B_DOWN, true);
        proof {
            assert forall|p: int, q: int| on_screen(p, q) implies #[trigger] kept(
                cells@,
                cell_key(p, q),
            ) == joined(
                kept(first, cell_key(p, q)),
                if p == x && rect.y <= q < y + 1 {
                    Lines { up: true, down: true, on: true, ..no_lines() }
                } else {
                    no_lines()
                },
            ) by {
                if cell_key(p, q) == cell_key(x as int, y as int) {
                    lemma_keys_differ(p, q, x as int, y as int);
                }
            }
        }
        y = y + 1;
    }
    let ghost before = cells@;
    if rect.y > 0 {
        mark(cells, key_of(x, rect.y - 1), B_DOWN, false);
    }
    let ghost between = cells@;
    mark(cells, key_of(x, end), B_UP, false);
    proof {
        assert forall|p: int, q: int| on_screen(p, q) implies #[trigger] kept(
            cells@,
            cell_key(p, q),
        ) == joined(
            kept(first, cell_key(p, q)),
            divider_at(SplitDir::Vertical, rect, p, q),
        ) by {
            if cell_key(p, q) == cell_key(x as int, end as int) {
                lemma_keys_differ(p, q, x as int, end as int);
            }
            if rect.y > 0 && cell_key(p, q) == cell_key(x as int, rect.y - 1) {
                lemma_keys_differ(p, q, x as int, rect.y - 1);
            }
        }
    }
}

/// Collect the lines that the dividers of a layout bring into each cell. What
/// a cell had before it keeps; a single pane brings nothing.
pub fn collect_dividers(layout: &Layout, rect: Rect, cells: &mut BTreeMap<u32, (u8, bool)>)
    requires
        rect.fits(),
        tidy(old(cells)@),
    ensures
        tidy(final(cells)@),
        gained(old(cells)@, final(cells)@, |x: int, y: int| lines_at(*layout, rect, x, y)),
        forall|x: int, y: int|
            on_screen(x, y) ==> #[trigger] file(final(cells)@, cell_key(x, y)) == filed(
                joined(kept(old(cells)@, cell_key(x, y)), lines_at(*layout, rect, x, y)),
            ),
        layout !is Split ==> final(cells)@ == old(cells)@,
    decreases layout,
{
    let ghost start = cells@;
    match layout {
        Layout::Split { dir, a, b } => {
            let ghost first = cells@;
            let (ra, rb): (Rect, Rect) = split_rect(*dir, rect);
            proof {
                crate::layout::law_halves(*dir, rect);
            }
            match dir {
                SplitDir::Horizontal => collect_row(rect, rect.y + ra.h, cells),
                SplitDir::Vertical => collect_column(rect, rect.x + ra.w, cells),
            }
            let ghost second = cells@;
            collect_dividers(a, ra, cells);
            let ghost third = cells@;
            collect_dividers(b, rb, cells);
            proof {
                assert forall|x: int, y: int| on_screen(x, y) implies #[trigger] kept(
                    cells@,
                    cell_key(x, y),
                ) == joined(
                    kept(first, cell_key(x, y)),
                    lines_at(*layout, rect, x, y),
                ) by {
                    assert(kept(third, cell_key(x, y)) == joined(
                        kept(second, cell_key(x, y)),
                        lines_at(**a, ra, x, y),
                    ));
                    assert(kept(second, cell_key(x, y)) == joined(
                        kept(first, cell_key(x, y)),
                        divider_at(*dir, rect, x, y),
                    ));
                }
            }
        },
        _ => {},
    }
    proof {
        assert forall|x: int, y: int| on_screen(x, y) implies #[trigger] file(
            cells@,
            cell_key(x, y),
        ) == filed(joined(kept(start, cell_key(x, y)), lines_at(*layout, rect, x, y))) by {
            law_lines_fix_bits(cells@, cell_key(x, y));
            assert(kept(cells@, cell_key(x, y)) == joined(
                kept(start, cell_key(x, y)),
                lines_at(*layout, rect, x, y),
            ));
        }
    }
}

/// The box-drawing character that joins the lines of a cell.
pub open spec fn box_of(c: Lines) -> char {
    if c.up && c.down && c.left && c.right {
        '┼'
    } else if c.up && c.down && c.left {
        '┤'
    } else if c.up && c.down && c.right {
        '├'
    } else if c.up && c.left && c.right {
        '┴'
    } else if c.down && c.left && c.right {
        '┬'
    } else if c.up && c.down {
        '│'
    } else {
        '─'
    }
}

/// The box-drawing character of a set of bits.
pub fn box_char(bits: u8) -> (r: char)
    ensures
        r == box_of(lines_of(bits, false)),
{
    let (u, d, l, r): (bool, bool, bool, bool) = (
        bits & B_UP != 0,
        bits & B_DOWN != 0,
        bits & B_LEFT != 0,
        bits & B_RIGHT != 0,
    );
    match (u, d, l, r) {
        (true, true, true, true) => '┼',
        (true, true, true, false) => '┤',
        (true, true, false, true) => '├',
        (true, false, true, true) => '┴',
        (false, true, true, true) => '┬',
        (true, true, _, _) => '│',
        _ => '─',
    }
}

/// Whether a cell lies on the one-cell ring around `f`.
pub open spec fn frames(f: Rect, x: int, y: int) -> bool {
    &&& f.x - 1 <= x <= f.x + f.w
    &&& f.y - 1 <= y <= f.y + f.h
    &&& x == f.x - 1 || x == f.x + f.w || y == f.y - 1 || y == f.y + f.h
}

/// Whether a divider cell lies on the one-cell ring around `f`: the
/// dividers that visually frame that pane (corners included).
pub fn touches(f: Rect, x: u16, y: u16) -> (r: bool)
    requires
        f.fits(),
        x < u16::MAX,
        y < u16::MAX,
    ensures
        r == frames(f, x as int, y as int),
{
    let x_in: bool = x + 1 >= f.x && x <= f.x + f.w;
    let y_in: bool = y + 1 >= f.y && y <= f.y + f.h;
    let on_vertical: bool = (x + 1 == f.x || x == f.x + f.w) && y_in;
    let on_horizontal: bool = (y + 1 == f.y || y == f.y + f.h) && x_in;
    on_vertical || on_horizontal
}

/// Whether a cell frames the focused pane.
pub open spec fn framing(f: Option<Rect>, x: int, y: int) -> bool {
    match f {
        Some(r) => frames(r, x, y),
        None => false,
    }
}

/// What is drawn in the cell under a key when the cells that frame the
/// focused pane are drawn, or the others.
pub open spec fn cell_drawn(
    l: Layout,
    r: Rect,
    f: Option<Rect>,
    framed: bool,
    key: int,
) -> Seq<CmdView> {
    let x = key % 65536;
    let y = key / 65536;
    let c = lines_at(l, r, x, y);
    if c.on && framing(f, x, y) == framed {
        seq![CmdView::MoveTo(x as u16, y as u16), CmdView::Print(seq![box_of(c)])]
    } else {
        Seq::empty()
    }
}

/// What is drawn in the cells before a key, in reading order.
pub open spec fn cells_drawn(
    l: Layout,
    r: Rect,
    f: Option<Rect>,
    framed: bool,
    key: int,
) -> Seq<CmdView>
    decreases key,
{
    if key <= 0 {
        Seq::empty()
    } else {
        cells_drawn(l, r, f, framed, key - 1) + cell_drawn(l, r, f, framed, key - 1)
    }
}

/// One past the last key.
pub open spec fn all_keys() -> int {
    0x1_0000_0000
}

/// The divider lines of a layout: dim ones first, then those that frame the
/// focused pane in the accent color.
#[verifier::opaque]
pub open spec fn dividers_drawn(l: Layout, r: Rect, f: Option<Rect>, accent: Color) -> Seq<
    CmdView,
> {
    if l is Split {
        seq![CmdView::Attr(Attr::Reset), CmdView::Attr(Attr::Dim)] + cells_drawn(
            l,
            r,
            f,
            false,
            all_keys(),
        ) + seq![CmdView::Attr(Attr::Reset), CmdView::Fg(accent)] + cells_drawn(
            l,
            r,
            f,
            true,
            all_keys(),
        ) + seq![CmdView::Attr(Attr::Reset), CmdView::Fg(Color::Reset)]
    } else {
        Seq::empty()
    }
}

/// A list of the kept cells by increasing key.
spec fn lists(list: Seq<(u32, (u8, bool))>, m: Map<u32, (u8, bool)>) -> bool {
    &&& forall|i: int, j: int| 0 <= i < j < list.len() ==> (#[trigger] list[i]).0 < (#[trigger] list[j]).0
    &&& forall|i: int|
        0 <= i < list.len() ==> m.contains_key((#[trigger] list[i]).0) && m[list[i].0] == list[i].1
    &&& forall|k: u32| #[trigger]
        m.contains_key(k) ==> exists|i: int| 0 <= i < list.len() && (#[trigger] list[i]).0 == k
}

/// The kept cells in reading order.
fn in_reading_order(cells: &BTreeMap<u32, (u8, bool)>) -> (r: Vec<(u32, (u8, bool))>)
    ensures
        lists(r@, cells@),
{
    let mut r: Vec<(u32, (u8, bool))> = Vec::new();
    let ghost m = cells@;
    let entries = cells.iter();
    let ghost v = entries.remaining();
    for kv in it: entries
        invariant
            it.seq() == v,
            r@.len() == it.index(),
            forall|i: int|
                0 <= i < r@.len() ==> (#[trigger] r@[i]).0 == *it.seq()[i].0 && r@[i].1
                    == *it.seq()[i].1,
    {
        r.push((*kv.0, *kv.1));
    }
    proof {
        assert(vstd::std_specs::btree::increasing_seq(
            v.map_values(|kv: (&u32, &(u8, bool))| *kv.0),
        ));
        let ks = v.map_values(|kv: (&u32, &(u8, bool))| *kv.0);
        assert forall|i: int, j: int| 0 <= i < j < r@.len() implies (#[trigger] r@[i]).0 < (
        #[trigger] r@[j]).0 by {
            assert(ks[i] == r@[i].0);
            assert(ks[j] == r@[j].0);
            assert(ks[i].cmp_spec(&ks[j]) is Less);
        }
        assert forall|i: int| 0 <= i < r@.len() implies m.contains_key((#[trigger] r@[i]).0)
            && m[r@[i].0] == r@[i].1 by {
            assert(m.contains_key(*v[i].0));
        }
        assert forall|k: u32| #[trigger] m.contains_key(k) implies exists|i: int|
            0 <= i < r@.len() && (#[trigger] r@[i]).0 == k by {
            assert(v.contains((&k, &m[k])));
            let i = choose|i: int| 0 <= i < v.len() && v[i] == (&k, &m[k]);
            assert(r@[i].0 == k);
        }
    }
    r
}

/// What drawing the first `n` listed cells gives.
spec fn list_drawn(
    list: Seq<(u32, (u8, bool))>,
    f: Option<Rect>,
    framed: bool,
    n: int,
) -> Seq<CmdView>
    decreases n,
{
    if n <= 0 {
        Seq::empty()
    } else {
        let before = list_drawn(list, f, framed, n - 1);
        let x = list[n - 1].0 as int % 65536;
        let y = list[n - 1].0 as int / 65536;
        if list[n - 1].1.1 && framing(f, x, y) == framed {
            before + seq![
                CmdView::MoveTo(x as u16, y as u16),
                CmdView::Print(seq![box_of(lines_of(list[n - 1].1.0, true))]),
            ]
        } else {
            before
        }
    }
}

/// Cells without a divider draw nothing.
proof fn lemma_gap(l: Layout, r: Rect, f: Option<Rect>, framed: bool, from: int, to: int)
    requires
        0 <= from <= to,
        forall|k: int|
            from <= k < to ==> !(#[trigger] lines_at(l, r, k % 65536, k / 65536)).on,
    ensures
        cells_drawn(l, r, f, framed, to) == cells_drawn(l, r, f, framed, from),
    decreases to - from,
{
    if from < to {
        lemma_gap(l, r, f, framed, from, to - 1);
        assert(!lines_at(l, r, (to - 1) % 65536, (to - 1) / 65536).on);
        assert(cells_drawn(l, r, f, framed, to - 1) + Seq::<CmdView>::empty() =~= cells_drawn(
            l,
            r,
            f,
            framed,
            to - 1,
        ));
    }
}

/// What was collected for a layout.
spec fn collected(m: Map<u32, (u8, bool)>, l: Layout, r: Rect) -> bool {
    &&& tidy(m)
    &&& forall|x: int, y: int|
        on_screen(x, y) ==> #[trigger] kept(m, cell_key(x, y)) == lines_at(l, r, x, y)
}

proof fn lemma_list_drawn(
    list: Seq<(u32, (u8, bool))>,
    m: Map<u32, (u8, bool)>,
    l: Layout,
    r: Rect,
    f: Option<Rect>,
    framed: bool,
    n: int,
)
    requires
        lists(list, m),
        collected(m, l, r),
        0 <= n <= list.len(),
    ensures
        list_drawn(list, f, framed, n) == cells_drawn(
            l,
            r,
            f,
            framed,
            if n < list.len() {
                list[n].0 as int
            } else {
                all_keys()
            },
        ),
    decreases n,
{
    let to = if n < list.len() {
        list[n].0 as int
    } else {
        all_keys()
    };
    let from = if n == 0 {
        0
    } else {
        list[n - 1].0 + 1
    };
    assert forall|k: int| from <= k < to implies !(#[trigger] lines_at(
        l,
        r,
        k % 65536,
        k / 65536,
    )).on by {
        assert(on_screen(k % 65536, k / 65536));
        assert(cell_key(k % 65536, k / 65536) == k);
        assert(kept(m, k) == lines_at(l, r, k % 65536, k / 65536));
        if m.contains_key(k as u32) {
            let i = choose|i: int| 0 <= i < list.len() && (#[trigger] list[i]).0 == k as u32;
            if i < n - 1 {
                assert(list[i].0 < list[n - 1].0);
            } else if i > n {
                assert(list[n].0 < list[i].0);
            }
        }
    }
    lemma_gap(l, r, f, framed, from, to);
    if n > 0 {
        lemma_list_drawn(list, m, l, r, f, framed, n - 1);
        let k = list[n - 1].0 as int;
        let (x, y) = (k % 65536, k / 65536);
        assert(on_screen(x, y));
        assert(cell_key(x, y) == k);
        assert(m.contains_key(list[n - 1].0));
        let (bits, on) = list[n - 1].1;
        assert(kept(m, k) == lines_of(bits, on));
        let before = list_drawn(list, f, framed, n - 1);
        assert(before + Seq::<CmdView>::empty() =~= before);
    }
}

/// Divider cells lie within the layout's area or just past its far edges.
proof fn lemma_lines_bound(l: Layout, r: Rect, x: int, y: int)
    requires
        r.fits(),
        lines_at(l, r, x, y).on,
    ensures
        r.x <= x <= r.x + r.w,
        r.y <= y <= r.y + r.h,
    decreases l,
{
    if let Layout::Split { dir, a, b } = l {
        crate::layout::law_halves(dir, r);
        let (ra, rb) = halves(dir, r);
        if lines_at(*a, ra, x, y).on {
            lemma_lines_bound(*a, ra, x, y);
        }
        if lines_at(*b, rb, x, y).on {
            lemma_lines_bound(*b, rb, x, y);
        }
    }
}

fn one_char(c: char) -> (r: String)
    ensures
        r@ == seq![c],
{
    let mut r: String = String::new();
    r.push(c);
    assert(r@ =~= seq![c]);
    r
}

/// Draw the listed cells that frame the focused pane, or the others.
fn draw_cells(
    out: &mut Vec<Cmd>,
    list: &Vec<(u32, (u8, bool))>,
    focused: Option<Rect>,
    framed: bool,
)
    requires
        focused matches Some(f) ==> f.fits(),
        forall|i: int|
            0 <= i < list@.len() && (#[trigger] list@[i]).1.1 ==> list@[i].0 as int % 65536
                < u16::MAX && list@[i].0 as int / 65536 < u16::MAX,
    ensures
        cmds(final(out)@) == cmds(old(out)@) + list_drawn(
            list@,
            focused,
            framed,
            list@.len() as int,
        ),
        all_placeable(cmds(old(out)@)) ==> all_placeable(cmds(final(out)@)),
{
    let ghost first = cmds(out@);
    let mut i: usize = 0;
    assert(first + list_drawn(list@, focused, framed, 0) =~= first);
    while i < list.len()
        invariant
            i <= list@.len(),
            focused matches Some(f) ==> f.fits(),
            forall|i: int|
                0 <= i < list@.len() && (#[trigger] list@[i]).1.1 ==> list@[i].0 as int % 65536
                    < u16::MAX && list@[i].0 as int / 65536 < u16::MAX,
            cmds(out@) == first + list_drawn(list@, focused, framed, i as int),
            all_placeable(first) ==> all_placeable(cmds(out@)),
        decreases list@.len() - i,
    {
        let (key, (bits, on)): (u32, (u8, bool)) = list[i];
        let x: u16 = (key % 65536) as u16;
        let y: u16 = (key / 65536) as u16;
        assert(list@[i as int].0 == key);
        if on {
            let near: bool = match focused {
                Some(f) => touches(f, x, y),
                None => false,
            };
            if near == framed {
                push_cmd(out, Cmd::MoveTo(x, y));
                push_cmd(out, Cmd::Print(one_char(box_char(bits))));
            }
        }
        i = i + 1;
        assert(cmds(out@) =~= first + list_drawn(list@, focused, framed, i as int));
    }
}

/// What the list of collected cells says of the layout.
proof fn lemma_listed(
    list: Seq<(u32, (u8, bool))>,
    m: Map<u32, (u8, bool)>,
    l: Layout,
    r: Rect,
    f: Option<Rect>,
)
    requires
        lists(list, m),
        collected(m, l, r),
        r.x + r.w < u16::MAX,
        r.y + r.h < u16::MAX,
    ensures
        list.len() > 0 <==> l is Split,
        forall|i: int|
            0 <= i < list.len() && (#[trigger] list[i]).1.1 ==> list[i].0 as int % 65536 < u16::MAX
                && list[i].0 as int / 65536 < u16::MAX,
        list_drawn(list, f, false, list.len() as int) == cells_drawn(l, r, f, false, all_keys()),
        list_drawn(list, f, true, list.len() as int) == cells_drawn(l, r, f, true, all_keys()),
{
    if l is Split {
        lemma_split_has_lines(l, r, m);
    } else if list.len() > 0 {
        let k = list[0].0;
        let (x, y) = (k as int % 65536, k as int / 65536);
        assert(m.contains_key(k));
        assert(on_screen(x, y));
        assert(cell_key(x, y) == k);
        assert(kept(m, cell_key(x, y)) == lines_at(l, r, x, y));
    }
    assert forall|i: int| 0 <= i < list.len() && (#[trigger] list[i]).1.1 implies list[i].0 as int
        % 65536 < u16::MAX && list[i].0 as int / 65536 < u16::MAX by {
        let k = list[i].0 as int;
        let (x, y) = (k % 65536, k / 65536);
        assert(on_screen(x, y));
        assert(cell_key(x, y) == k);
        assert(m.contains_key(list[i].0));
        lemma_lines_bound(l, r, x, y);
    }
    lemma_list_drawn(list, m, l, r, f, false, list.len() as int);
    lemma_list_drawn(list, m, l, r, f, true, list.len() as int);
}

/// Draw the divider lines of every split, resolving crossings and tees
/// (`┬ ┴ ├ ┤ ┼`) where dividers meet instead of overdrawing. Divider
/// cells that border the focused pane are drawn in the accent color so
/// the active terminal reads as framed.
pub fn draw_dividers(
    out: &mut Vec<Cmd>,
    layout: &Layout,
    rect: Rect,
    focused: Option<Rect>,
    accent: Color,
)
    requires
        rect.x + rect.w < u16::MAX,
        rect.y + rect.h < u16::MAX,
        focused matches Some(f) ==> f.fits(),
    ensures
        cmds(final(out)@) == cmds(old(out)@) + dividers_drawn(*layout, rect, focused, accent),
        all_placeable(cmds(old(out)@)) ==> all_placeable(cmds(final(out)@)),
{
    let ghost first = cmds(out@);
    let ghost l = *layout;
    let mut cells: BTreeMap<u32, (u8, bool)> = BTreeMap::new();
    let ghost none = cells@;
    collect_dividers(layout, rect, &mut cells);
    let list: Vec<(u32, (u8, bool))> = in_reading_order(&cells);
    proof {
        assert(collected(cells@, l, rect)) by {
            assert forall|x: int, y: int| on_screen(x, y) implies #[trigger] kept(
                cells@,
                cell_key(x, y),
            ) == lines_at(l, rect, x, y) by {
                assert(kept(none, cell_key(x, y)) == no_lines());
            }
        }
        lemma_listed(list@, cells@, l, rect, focused);
        reveal(dividers_drawn);
    }
    if list.len() == 0 {
        assert(cmds(out@) =~= first + dividers_drawn(l, rect, focused, accent));
        return;
    }
    // Dim pass for dividers away from the focused pane...
    push_cmd(out, Cmd::Attr(Attr::Reset));
    push_cmd(out, Cmd::Attr(Attr::Dim));
    draw_cells(out, &list, focused, false);
    // ...then an accent pass for the ones framing it.
    push_cmd(out, Cmd::Attr(Attr::Reset));
    push_cmd(out, Cmd::Fg(accent));
    draw_cells(out, &list, focused, true);
    push_cmd(out, Cmd::Attr(Attr::Reset));
    push_cmd(out, Cmd::Fg(Color::Reset));
    assert(cmds(out@) =~= first + dividers_drawn(l, rect, focused, accent));
}

proof fn lemma_split_has_lines(l: Layout, r: Rect, m: Map<u32, (u8, bool)>)
    requires
        l is Split,
        r.fits(),
        collected(m, l, r),
    ensures
        exists|k: u32| m.contains_key(k),
{
    let dir = l->dir;
    crate::layout::law_halves(dir, r);
    let (x, y) = match dir {
        SplitDir::Horizontal => (r.x + r.w, r.y + halves(dir, r).0.h),
        SplitDir::Vertical => (r.x + halves(dir, r).0.w, r.y + r.h),
    };
    let c = divider_at(dir, r, x, y);
    assert(c.left || c.up);
    assert(on_screen(x, y));
    assert(kept(m, cell_key(x, y)) == lines_at(l, r, x, y));
    assert(m.contains_key(cell_key(x, y) as u32));
}

/// A divider never runs through a pane: no cell of a pane lies on a line.
pub proof fn law_dividers_between_panes(l: Layout, r: Rect, i: int, x: int, y: int)
    requires
        r.fits(),
        0 <= i < l.rect_seq(r).len(),
        l.rect_seq(r)[i].1.has(x, y),
    ensures
        !lines_at(l, r, x, y).on,
    decreases l,
{
    if let Layout::Split { dir, a, b } = l {
        crate::layout::law_halves(dir, r);
        let (ra, rb) = halves(dir, r);
        let n = a.rect_seq(ra).len();
        crate::layout::law_panes_tile(*a, ra);
        crate::layout::law_panes_tile(*b, rb);
        if i < n {
            assert(l.rect_seq(r)[i] == a.rect_seq(ra)[i]);
            law_dividers_between_panes(*a, ra, i, x, y);
            if lines_at(*b, rb, x, y).on {
                lemma_lines_bound(*b, rb, x, y);
            }
        } else {
            assert(l.rect_seq(r)[i] == b.rect_seq(rb)[i - n]);
            law_dividers_between_panes(*b, rb, i - n, x, y);
            if lines_at(*a, ra, x, y).on {
                lemma_lines_bound(*a, ra, x, y);
            }
        }
    }
}

/// Where two dividers meet, the cell shows a crossing or a tee and not one
/// of the lines: a cell on a divider that another line reaches from the
/// side gets a character that joins them.
pub proof fn law_junctions_join(c: Lines)
    requires
        c.on,
    ensures
        c.up && c.down && (c.left || c.right) ==> box_of(c) != '│' && box_of(c) != '─',
        c.left && c.right && (c.up || c.down) ==> box_of(c) != '│' && box_of(c) != '─',
{
}

} // verus!
