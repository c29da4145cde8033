//! Drawing: pane grids, the tab bar, manager overlays and the name prompt as
//! queues of drawing commands.

use crate::ansi::{all_placeable, cmds, push_cmd, Attr, Cmd, CmdView, Color};
use crate::config::BarPosition;
use crate::dividers::{dividers_drawn, draw_dividers};
use crate::grid::{
    cursor_at, draw_at, drawable, grid_drawn, grid_views, Grid, GridView,
};
use crate::layout::{whole, Rect};
use crate::model::{Session, SessionView, Tab, TabView};
use crate::text::{fit, fitted, push_repeated, repeated, to_chars};
use vstd::prelude::*;

verus! {

/// The pane area of a client screen: everything except the tab bar row.
pub open spec fn content(size: (u16, u16)) -> (u16, u16) {
    if size.1 >= 2 {
        (size.0, (size.1 - 1) as u16)
    } else {
        size
    }
}

/// The pane area of a client screen: everything except the tab bar row.
/// Sessions are laid out and shells sized to this, so it must be used for
/// split/navigation geometry too.
pub fn content_size(size: (u16, u16)) -> (r: (u16, u16))
    ensures
        r == content(size),
{
    if size.1 >= 2 {
        (size.0, size.1 - 1)
    } else {
        size
    }
}

/// How many rows of a client screen lie above the pane area.
pub open spec fn above(bar: BarPosition, size: (u16, u16)) -> u16 {
    if bar == BarPosition::Top && size.1 >= 2 {
        1
    } else {
        0
    }
}

/// How many rows of a client screen lie above the pane area.
pub fn rows_above(bar: BarPosition, size: (u16, u16)) -> (r: u16)
    ensures
        r == above(bar, size),
{
    if bar == BarPosition::Top && size.1 >= 2 {
        1
    } else {
        0
    }
}

/// The row of the tab bar.
pub open spec fn bar_row(bar: BarPosition, size: (u16, u16)) -> u16 {
    match bar {
        BarPosition::Bottom => (size.1 - 1) as u16,
        BarPosition::Top => 0,
    }
}

/// A rectangle of the pane area, `n` rows further down.
pub open spec fn lowered(r: Rect, n: u16) -> Rect {
    Rect { x: r.x, y: (r.y + n) as u16, w: r.w, h: r.h }
}

/// Where the panes of a tab stand on a client screen.
pub open spec fn placed(t: TabView, size: (u16, u16), bar: BarPosition) -> Seq<(u64, Rect)> {
    t.visible(content(size)).map_values(
        |e: (u64, Rect)| (e.0, lowered(e.1, above(bar, size))),
    )
}

/// Every pane and the tab bar have rows of their own, whichever side the
/// bar is on: a pane lies on the screen, no two panes share a cell, and
/// none lies on the row of the bar.
pub proof fn law_bar_apart(t: TabView, size: (u16, u16), bar: BarPosition)
    requires
        size.1 >= 2,
    ensures
        bar_row(bar, size) < size.1,
        forall|i: int| #![trigger placed(t, size, bar)[i]]
            0 <= i < placed(t, size, bar).len() ==> {
                let r = placed(t, size, bar)[i].1;
                &&& r.within(whole(size))
                &&& r.y + r.h <= bar_row(bar, size) || bar_row(bar, size) < r.y
            },
        forall|i: int, j: int|
            0 <= i < j < placed(t, size, bar).len() ==> (#[trigger] placed(t, size, bar)[i]).1.apart(
                (#[trigger] placed(t, size, bar)[j]).1,
            ),
{
    crate::layout::law_panes_tile(t.layout, whole(content(size)));
    let rs = t.visible(content(size));
    let ps = placed(t, size, bar);
    assert forall|i: int, j: int| 0 <= i < j < ps.len() implies (#[trigger] ps[i]).1.apart(
        (#[trigger] ps[j]).1,
    ) by {
        let n = above(bar, size);
        assert(rs[i].1.apart(rs[j].1));
        assert forall|x: int, y: int| !(#[trigger] ps[i].1.has(x, y) && ps[j].1.has(x, y)) by {
            assert(!(rs[i].1.has(x, y - n) && rs[j].1.has(x, y - n)));
        }
    }
}

/// The panes of a tab where they stand on a client screen.
fn place_panes(tab: &Tab, size: (u16, u16), bar: BarPosition) -> (r: Vec<(u64, Rect)>)
    requires
        size.1 < u16::MAX,
    ensures
        r@ == placed(tab@, size, bar),
        crate::model::all_fit(r@),
{
    let area: (u16, u16) = content_size(size);
    let n: u16 = rows_above(bar, size);
    let rs: Vec<(u64, Rect)> = tab.visible_rects(area);
    proof {
        crate::layout::law_panes_tile(tab.layout, whole(area));
    }
    let mut r: Vec<(u64, Rect)> = Vec::new();
    let mut i: usize = 0;
    while i < rs.len()
        invariant
            i <= rs@.len(),
            n == above(bar, size),
            size.1 < u16::MAX,
            forall|k: int|
                0 <= k < rs@.len() ==> (#[trigger] rs@[k]).1.within(whole(content(size)))
                    && rs@[k].1.fits(),
            r@.len() == i,
            forall|k: int| 0 <= k < i ==> #[trigger] r@[k] == (rs@[k].0, lowered(rs@[k].1, n)),
            crate::model::all_fit(r@),
        decreases rs@.len() - i,
    {
        let e: Rect = rs[i].1;
        assert(rs@[i as int].1.within(whole(content(size))));
        r.push((rs[i].0, Rect { x: e.x, y: e.y + n, w: e.w, h: e.h }));
        i = i + 1;
    }
    assert(r@ =~= placed(tab@, size, bar));
    r
}

/// Queue a text.
fn print(out: &mut Vec<Cmd>, s: &str)
    ensures
        cmds(final(out)@) == cmds(old(out)@).push(CmdView::Print(s@)),
        all_placeable(cmds(old(out)@)) ==> all_placeable(cmds(final(out)@)),
{
    push_cmd(out, Cmd::Print(own(s)));
}

fn own(s: &str) -> (r: String)
    ensures
        r@ == s@,
{
    let mut r: String = String::new();
    r.append(s);
    assert(r@ =~= s@);
    r
}

fn queue_attr(out: &mut Vec<Cmd>, a: Attr)
    ensures
        cmds(final(out)@) == cmds(old(out)@).push(CmdView::Attr(a)),
        all_placeable(cmds(old(out)@)) ==> all_placeable(cmds(final(out)@)),
{
    push_cmd(out, Cmd::Attr(a));
}

/// A name between two blanks.
pub open spec fn chip(name: Seq<char>) -> Seq<char> {
    " "@ + name + " "@
}

/// How a tab is labelled; a fullscreened tab advertises it.
pub open spec fn tab_label(t: TabView) -> Seq<char> {
    if t.zoomed {
        " "@ + t.name + " [F] "@
    } else {
        chip(t.name)
    }
}

/// The tabs of a bar from `i` on, with `used` of its `cols` columns taken:
/// the open tab in accent, the rest dim. Tabs past the right edge are
/// dropped.
pub open spec fn tabs_drawn(
    s: SessionView,
    i: int,
    used: nat,
    cols: nat,
    accent: Color,
) -> Seq<CmdView>
    decreases s.tabs.len() - i,
{
    if i >= s.tabs.len() || used + tab_label(s.tabs[i]).len() > cols {
        Seq::empty()
    } else {
        let style = if i == s.active_tab {
            seq![CmdView::Fg(accent), CmdView::Attr(Attr::Reverse)]
        } else {
            seq![CmdView::Attr(Attr::Dim)]
        };
        style + seq![CmdView::Print(tab_label(s.tabs[i])), CmdView::Attr(Attr::Reset)] + tabs_drawn(
            s,
            i + 1,
            used + tab_label(s.tabs[i]).len(),
            cols,
            accent,
        )
    }
}

/// The tab bar: the session name as an accent chip where it fits, then the
/// tabs.
#[verifier::opaque]
pub open spec fn bar_drawn(
    s: SessionView,
    size: (u16, u16),
    accent: Color,
    bar: BarPosition,
) -> Seq<CmdView> {
    let name = chip(s.name);
    let fits = name.len() <= size.0;
    seq![CmdView::MoveTo(0, bar_row(bar, size)), CmdView::Attr(Attr::Reset)] + (if fits {
        seq![
            CmdView::Fg(accent),
            CmdView::Attr(Attr::Reverse),
            CmdView::Print(name),
            CmdView::Attr(Attr::Reset),
        ]
    } else {
        Seq::empty()
    }) + tabs_drawn(
        s,
        0,
        if fits {
            name.len()
        } else {
            0
        },
        size.0 as nat,
        accent,
    ) + seq![CmdView::ClearLine]
}

fn chip_text(name: &String) -> (r: String)
    ensures
        r@ == chip(name@),
{
    let mut r: String = String::new();
    r.append(" ");
    r.append(name.as_str());
    r.append(" ");
    assert(r@ =~= chip(name@));
    r
}

fn label_text(t: &Tab) -> (r: String)
    ensures
        r@ == tab_label(t@),
{
    if t.zoomed {
        let mut r: String = String::new();
        r.append(" ");
        r.append(t.name.as_str());
        r.append(" [F] ");
        assert(r@ =~= tab_label(t@));
        r
    } else {
        chip_text(&t.name)
    }
}

/// The tab bar: the session name as an accent chip, then the tabs, the
/// open tab in accent, the rest dim. Segments past the right edge are
/// dropped.
pub fn draw_tab_bar(
    out: &mut Vec<Cmd>,
    session: &Session,
    size: (u16, u16),
    accent: Color,
    bar: BarPosition,
)
    requires
        size.1 >= 1,
    ensures
        cmds(final(out)@) == cmds(old(out)@) + bar_drawn(session@, size, accent, bar),
        all_placeable(cmds(old(out)@)) ==> all_placeable(cmds(final(out)@)),
{
    let ghost first = cmds(out@);
    let ghost s = session@;
    proof {
        reveal(bar_drawn);
    }
    let row: u16 = match bar {
        BarPosition::Bottom => size.1 - 1,
        BarPosition::Top => 0,
    };
    push_cmd(out, Cmd::MoveTo(0, row));
    queue_attr(out, Attr::Reset);
    let cols: usize = size.0 as usize;
    let mut used: usize = 0;
    // Session name as a chip: accent background, terminal-background
    // text (accent foreground + reverse adapts to any theme).
    let name: String = chip_text(&session.name);
    let width: usize = to_chars(name.as_str()).len();
    if width <= cols {
        push_cmd(out, Cmd::Fg(accent));
        queue_attr(out, Attr::Reverse);
        push_cmd(out, Cmd::Print(name));
        queue_attr(out, Attr::Reset);
        used = width;
    }
    let ghost head = cmds(out@);
    let ghost all = tabs_drawn(s, 0, used as nat, cols as nat, accent);
    assert(head + all + seq![CmdView::ClearLine] =~= first + bar_drawn(s, size, accent, bar));
    let mut i: usize = 0;
    let mut full: bool = false;
    while i < session.tabs.len() && !full
        invariant
            i <= session.tabs@.len(),
            s == session@,
            used <= cols,
            all_placeable(first) ==> all_placeable(cmds(out@)),
            !full ==> cmds(out@) + tabs_drawn(s, i as int, used as nat, cols as nat, accent)
                == head + all,
            full ==> cmds(out@) == head + all,
        decreases session.tabs@.len() - i, if full { 0int } else { 1int },
    {
        let ghost before = cmds(out@);
        let label: String = label_text(&session.tabs[i]);
        assert(label@ == tab_label(s.tabs[i as int]));
        let width: usize = to_chars(label.as_str()).len();
        if width > cols - used {
            full = true;
            assert(before + tabs_drawn(s, i as int, used as nat, cols as nat, accent) =~= before);
        } else {
            if i == session.active_tab {
                // Accent background chip: accent foreground + reverse gives
                // accent-colored background with terminal-background text.
                push_cmd(out, Cmd::Fg(accent));
                queue_attr(out, Attr::Reverse);
            } else {
                queue_attr(out, Attr::Dim);
            }
            push_cmd(out, Cmd::Print(label));
            queue_attr(out, Attr::Reset);
            proof {
                let rest = tabs_drawn(s, i + 1, (used + width) as nat, cols as nat, accent);
                assert(cmds(out@) + rest =~= before + tabs_drawn(
                    s,
                    i as int,
                    used as nat,
                    cols as nat,
                    accent,
                ));
            }
            used = used + width;
            i = i + 1;
        }
    }
    assert(cmds(out@) =~= head + all);
    push_cmd(out, Cmd::ClearLine);
    assert(cmds(out@) =~= first + bar_drawn(s, size, accent, bar));
}

/// One row of a manager panel.
pub struct ListItem {
    pub label: String,
    /// The currently open session/tab, marked with an accent dot.
    pub active: bool,
    /// Rendered dim (e.g. a pinned session that isn't running).
    pub dim: bool,
}

/// A row with its label as a sequence of characters.
pub struct ItemView {
    pub label: Seq<char>,
    pub active: bool,
    pub dim: bool,
}

impl View for ListItem {
    type V = ItemView;

    open spec fn view(&self) -> ItemView {
        ItemView { label: self.label@, active: self.active, dim: self.dim }
    }
}

/// Rows with their labels as sequences of characters.
pub open spec fn item_views(s: Seq<ListItem>) -> Seq<ItemView> {
    s.map_values(|i: ListItem| i@)
}

/// A centered, rounded panel geometry for the overlays.
#[derive(Clone, Copy, PartialEq, Eq, Structural)]
pub struct Panel {
    pub x: u16,
    pub y: u16,
    /// Interior width (inside the borders, minus 1-cell side padding).
    pub iw: usize,
}

/// The larger of two numbers.
pub open spec fn larger(a: nat, b: nat) -> nat {
    if a < b {
        b
    } else {
        a
    }
}

/// How wide a panel is: wide enough for its title and what it shows, but at
/// least 24 columns and never up to the edges of the screen.
pub open spec fn panel_width(title: Seq<char>, min_interior: nat, size: (u16, u16)) -> int {
    let need = larger(min_interior, title.len() + 2) + 4;
    if need < 24 {
        24
    } else if need > size.0 - 2 {
        size.0 - 2
    } else {
        need as int
    }
}

/// The place of something of a length in the middle of a screen.
pub open spec fn centered(len: int, screen: u16) -> int {
    if screen < len {
        0
    } else {
        (screen - len) / 2
    }
}

/// Where a panel stands.
#[verifier::opaque]
pub open spec fn panel_at(
    title: Seq<char>,
    body_rows: u16,
    min_interior: nat,
    size: (u16, u16),
) -> Panel {
    let w = panel_width(title, min_interior, size);
    Panel {
        x: centered(w, size.0) as u16,
        y: centered(body_rows + 2, size.1) as u16,
        iw: (w - 4) as usize,
    }
}

/// The first `n` blank rows of a panel.
pub open spec fn rows_drawn(p: Panel, n: int) -> Seq<CmdView>
    decreases n,
{
    if n <= 0 {
        Seq::empty()
    } else {
        rows_drawn(p, n - 1) + seq![
            CmdView::MoveTo(p.x, (p.y + n) as u16),
            CmdView::Print("│"@ + repeated(' ', (p.iw + 2) as nat) + "│"@),
        ]
    }
}

/// How many dashes follow a panel's title in the top border.
pub open spec fn dashes(w: int, title: Seq<char>) -> nat {
    if w < title.len() + 5 {
        0
    } else {
        (w - (title.len() + 5)) as nat
    }
}

/// The panel frame (rounded corners, dim border, bold inline title) and its
/// blank interior rows.
#[verifier::opaque]
pub open spec fn panel_drawn(
    title: Seq<char>,
    body_rows: u16,
    min_interior: nat,
    size: (u16, u16),
) -> Seq<CmdView> {
    let p = panel_at(title, body_rows, min_interior, size);
    top_drawn(p, title) + rows_drawn(p, body_rows as int) + seq![
        CmdView::MoveTo(p.x, (p.y + body_rows + 1) as u16),
        CmdView::Print("╰"@ + repeated('─', (p.iw + 2) as nat) + "╯"@),
        CmdView::Attr(Attr::Reset),
    ]
}

fn between(left: &str, fill: char, n: usize, right: &str) -> (r: String)
    ensures
        r@ == left@ + repeated(fill, n as nat) + right@,
{
    let mut r: String = String::new();
    r.append(left);
    push_repeated(&mut r, fill, n);
    r.append(right);
    assert(r@ =~= left@ + repeated(fill, n as nat) + right@);
    r
}

/// Find a panel's place on the screen.
fn place_panel(title: &str, body_rows: u16, min_interior: u128, size: (u16, u16)) -> (p: Panel)
    requires
        size.0 >= 26,
        body_rows <= 65533,
        min_interior <= u64::MAX as u128 + 8,
    ensures
        p == panel_at(title@, body_rows, min_interior as nat, size),
        20 <= p.iw,
        p.x + p.iw + 4 < size.0,
        p.y + body_rows + 2 <= u16::MAX,
{
    proof {
        reveal(panel_at);
    }
    let len: u128 = to_chars(title).len() as u128;
    let wide: u128 = if min_interior < len + 2 {
        len + 2
    } else {
        min_interior
    };
    let need: u128 = wide + 4;
    let w: u16 = if need < 24 {
        24
    } else if need > (size.0 - 2) as u128 {
        size.0 - 2
    } else {
        need as u16
    };
    let h: u16 = body_rows + 2;
    let x: u16 = if size.0 < w {
        0
    } else {
        (size.0 - w) / 2
    };
    let y: u16 = if size.1 < h {
        0
    } else {
        (size.1 - h) / 2
    };
    Panel { x, y, iw: w as usize - 4 }
}

/// The top border of a panel with the title inline: `╭─ title ────╮`.
pub open spec fn top_drawn(p: Panel, title: Seq<char>) -> Seq<CmdView> {
    let cut = fitted(title, p.iw as nat);
    seq![
        CmdView::MoveTo(p.x, p.y),
        CmdView::Attr(Attr::Reset),
        CmdView::Attr(Attr::Dim),
        CmdView::Print("╭─ "@),
        CmdView::Attr(Attr::Reset),
        CmdView::Attr(Attr::Bold),
        CmdView::Print(cut),
        CmdView::Attr(Attr::Reset),
        CmdView::Attr(Attr::Dim),
        CmdView::Print(" "@ + repeated('─', dashes(p.iw + 4, cut)) + "╮"@),
    ]
}

fn draw_top(out: &mut Vec<Cmd>, title: &str, p: Panel)
    requires
        p.iw <= 65535,
        p.x < u16::MAX,
        p.y < u16::MAX,
    ensures
        cmds(final(out)@) == cmds(old(out)@) + top_drawn(p, title@),
        all_placeable(cmds(old(out)@)) ==> all_placeable(cmds(final(out)@)),
{
    let cut: String = fit(title, p.iw);
    let shown: usize = to_chars(cut.as_str()).len();
    let w: usize = p.iw + 4;
    let dash_count: usize = if shown > w || w - shown < 5 {
        0
    } else {
        w - shown - 5
    };
    push_cmd(out, Cmd::MoveTo(p.x, p.y));
    queue_attr(out, Attr::Reset);
    queue_attr(out, Attr::Dim);
    print(out, "╭─ ");
    queue_attr(out, Attr::Reset);
    queue_attr(out, Attr::Bold);
    push_cmd(out, Cmd::Print(cut));
    queue_attr(out, Attr::Reset);
    queue_attr(out, Attr::Dim);
    push_cmd(out, Cmd::Print(between(" ", '─', dash_count, "╮")));
    assert(cmds(out@) =~= cmds(old(out)@) + top_drawn(p, title@));
}

/// Draw the panel frame (rounded corners, dim border, bold inline title)
/// and `body_rows` blank interior rows, returning the geometry.
fn draw_panel(
    out: &mut Vec<Cmd>,
    title: &str,
    body_rows: u16,
    min_interior: u128,
    size: (u16, u16),
) -> (p: Panel)
    requires
        size.0 >= 26,
        body_rows <= 65533,
        min_interior <= u64::MAX as u128 + 8,
    ensures
        p == panel_at(title@, body_rows, min_interior as nat, size),
        20 <= p.iw,
        p.x + p.iw + 4 < size.0,
        p.y + body_rows + 2 <= u16::MAX,
        cmds(final(out)@) == cmds(old(out)@) + panel_drawn(
            title@,
            body_rows,
            min_interior as nat,
            size,
        ),
        all_placeable(cmds(old(out)@)) ==> all_placeable(cmds(final(out)@)),
{
    let ghost first = cmds(out@);
    let p: Panel = place_panel(title, body_rows, min_interior, size);
    draw_top(out, title, p);
    let ghost head = cmds(out@);
    let mut row: u16 = 0;
    assert(cmds(out@) =~= head + rows_drawn(p, 0));
    while row < body_rows
        invariant
            row <= body_rows <= 65533,
            p.y + body_rows + 2 <= 65535,
            p.iw <= 65535,
            p.x < u16::MAX,
            all_placeable(first) ==> all_placeable(cmds(out@)),
            cmds(out@) == head + rows_drawn(p, row as int),
        decreases body_rows - row,
    {
        row = row + 1;
        push_cmd(out, Cmd::MoveTo(p.x, p.y + row));
        push_cmd(out, Cmd::Print(between("│", ' ', p.iw + 2, "│")));
        assert(cmds(out@) =~= head + rows_drawn(p, row as int));
    }
    push_cmd(out, Cmd::MoveTo(p.x, p.y + body_rows + 1));
    push_cmd(out, Cmd::Print(between("╰", '─', p.iw + 2, "╯")));
    queue_attr(out, Attr::Reset);
    proof {
        reveal(panel_drawn);
    }
    assert(cmds(out@) =~= first + panel_drawn(title@, body_rows, min_interior as nat, size));
    p
}

/// How many entries a manager shows at once.
pub open spec fn max_shown(size: (u16, u16)) -> nat {
    if size.1 < 7 {
        1
    } else {
        (size.1 - 6) as nat
    }
}

/// How many entries are scrolled off the top so that the selection shows.
pub open spec fn scrolled_off(selected: usize, size: (u16, u16)) -> nat {
    if selected < max_shown(size) {
        0
    } else {
        (selected + 1 - max_shown(size)) as nat
    }
}

/// How many entries a manager shows.
pub open spec fn shown_count(len: nat, selected: usize, size: (u16, u16)) -> nat {
    let off = scrolled_off(selected, size);
    if len <= off {
        0
    } else if len - off < max_shown(size) {
        (len - off) as nat
    } else {
        max_shown(size)
    }
}

/// The room that the first `n` entries take, and the footer.
pub open spec fn room_for(items: Seq<ItemView>, footer: Seq<char>, n: int) -> nat
    decreases n,
{
    if n <= 0 {
        footer.len()
    } else {
        larger(room_for(items, footer, n - 1), items[n - 1].label.len() + 4)
    }
}

/// One entry of a manager, in row `row` of its panel.
pub open spec fn item_drawn(
    item: ItemView,
    chosen: bool,
    p: Panel,
    row: int,
    accent: Color,
) -> Seq<CmdView> {
    seq![CmdView::MoveTo((p.x + 2) as u16, (p.y + 2 + row) as u16)] + (if chosen {
        seq![CmdView::Fg(accent), CmdView::Print("❯ "@), CmdView::Attr(Attr::Bold)]
    } else {
        seq![CmdView::Print("  "@)]
    }) + (if item.active && chosen {
        seq![CmdView::Fg(accent), CmdView::Print("● "@)]
    } else if item.active {
        seq![CmdView::Fg(accent), CmdView::Print("● "@), CmdView::Fg(Color::Reset)]
    } else {
        seq![CmdView::Print("  "@)]
    }) + (if item.dim && !chosen {
        seq![CmdView::Attr(Attr::Dim)]
    } else {
        Seq::empty()
    }) + seq![
        CmdView::Print(fitted(item.label, (p.iw - 4) as nat)),
        CmdView::Attr(Attr::Reset),
        CmdView::Fg(Color::Reset),
    ]
}

/// The first `n` entries of a manager that shows those from `off` on.
pub open spec fn items_drawn(
    items: Seq<ItemView>,
    off: int,
    selected: usize,
    p: Panel,
    accent: Color,
    n: int,
) -> Seq<CmdView>
    decreases n,
{
    if n <= 0 {
        Seq::empty()
    } else {
        items_drawn(items, off, selected, p, accent, n - 1) + item_drawn(
            items[off + n - 1],
            off + n - 1 == selected,
            p,
            n - 1,
            accent,
        )
    }
}

/// The start of an overlay: the screen is cleared behind a synchronized
/// update.
pub open spec fn overlay_start() -> Seq<CmdView> {
    seq![
        CmdView::BeginSync,
        CmdView::Hide,
        CmdView::Attr(Attr::Reset),
        CmdView::ClearAll,
    ]
}

/// A manager overlay: a centered panel listing sessions or tabs, windowed
/// if the screen is short.
pub open spec fn manager_drawn(
    title: Seq<char>,
    items: Seq<ItemView>,
    selected: usize,
    size: (u16, u16),
    accent: Color,
    footer: Seq<char>,
) -> Seq<CmdView> {
    let n = shown_count(items.len(), selected, size);
    let rows = (n + 3) as u16;
    let room = room_for(items, footer, items.len() as int);
    let p = panel_at(title, rows, room, size);
    overlay_start() + panel_drawn(title, rows, room, size) + items_drawn(
        items,
        scrolled_off(selected, size) as int,
        selected,
        p,
        accent,
        n as int,
    ) + footer_drawn(p, rows as int, footer)
}

/// The dim footer in a row of a panel, and the end of the overlay.
pub open spec fn footer_drawn(p: Panel, row: int, footer: Seq<char>) -> Seq<CmdView> {
    seq![
        CmdView::MoveTo((p.x + 2) as u16, (p.y + row) as u16),
        CmdView::Attr(Attr::Dim),
        CmdView::Print(fitted(footer, p.iw as nat)),
        CmdView::Attr(Attr::Reset),
        CmdView::EndSync,
    ]
}

fn draw_footer(out: &mut Vec<Cmd>, p: Panel, row: u16, footer: &str)
    requires
        p.x + 2 < u16::MAX,
        p.y + row < u16::MAX,
    ensures
        cmds(final(out)@) == cmds(old(out)@) + footer_drawn(p, row as int, footer@),
        all_placeable(cmds(old(out)@)) ==> all_placeable(cmds(final(out)@)),
{
    push_cmd(out, Cmd::MoveTo(p.x + 2, p.y + row));
    queue_attr(out, Attr::Dim);
    push_cmd(out, Cmd::Print(fit(footer, p.iw)));
    queue_attr(out, Attr::Reset);
    push_cmd(out, Cmd::EndSync);
    assert(cmds(out@) =~= cmds(old(out)@) + footer_drawn(p, row as int, footer@));
}

fn start_overlay(out: &mut Vec<Cmd>)
    ensures
        cmds(final(out)@) == cmds(old(out)@) + overlay_start(),
        all_placeable(cmds(old(out)@)) ==> all_placeable(cmds(final(out)@)),
{
    push_cmd(out, Cmd::BeginSync);
    push_cmd(out, Cmd::Hide);
    queue_attr(out, Attr::Reset);
    push_cmd(out, Cmd::ClearAll);
    assert(cmds(out@) =~= cmds(old(out)@) + overlay_start());
}

fn draw_item(out: &mut Vec<Cmd>, item: &ListItem, chosen: bool, p: Panel, row: u16, accent: Color)
    requires
        p.x + 2 < u16::MAX,
        p.y + 2 + row < u16::MAX,
        p.iw >= 4,
    ensures
        cmds(final(out)@) == cmds(old(out)@) + item_drawn(item@, chosen, p, row as int, accent),
        all_placeable(cmds(old(out)@)) ==> all_placeable(cmds(final(out)@)),
{
    push_cmd(out, Cmd::MoveTo(p.x + 2, p.y + 2 + row));
    if chosen {
        push_cmd(out, Cmd::Fg(accent));
        print(out, "❯ ");
        queue_attr(out, Attr::Bold);
    } else {
        print(out, "  ");
    }
    if item.active {
        push_cmd(out, Cmd::Fg(accent));
        print(out, "● ");
        if !chosen {
            push_cmd(out, Cmd::Fg(Color::Reset));
        }
    } else {
        print(out, "  ");
    }
    if item.dim && !chosen {
        queue_attr(out, Attr::Dim);
    }
    push_cmd(out, Cmd::Print(fit(item.label.as_str(), p.iw - 4)));
    queue_attr(out, Attr::Reset);
    push_cmd(out, Cmd::Fg(Color::Reset));
    assert(cmds(out@) =~= cmds(old(out)@) + item_drawn(item@, chosen, p, row as int, accent));
}

fn measure(items: &Vec<ListItem>, footer: &str) -> (r: u128)
    ensures
        r == room_for(item_views(items@), footer@, items@.len() as int),
        r <= u64::MAX as u128 + 8,
{
    let ghost v = item_views(items@);
    let mut room: u128 = to_chars(footer).len() as u128;
    let mut i: usize = 0;
    while i < items.len()
        invariant
            i <= items@.len(),
            v == item_views(items@),
            room == room_for(v, footer@, i as int),
            room <= u64::MAX as u128 + 8,
        decreases items@.len() - i,
    {
        let len: u128 = to_chars(items[i].label.as_str()).len() as u128 + 4;
        assert(v[i as int].label == items@[i as int].label@);
        if room < len {
            room = len;
        }
        i = i + 1;
    }
    room
}

/// Draw a manager overlay: a centered panel listing sessions or tabs,
/// with a `❯` selector, an accent dot on the open entry, and stopped
/// entries dimmed.
pub fn draw_manager(
    out: &mut Vec<Cmd>,
    title: &str,
    items: &Vec<ListItem>,
    selected: usize,
    size: (u16, u16),
    accent: Color,
    footer: &str,
)
    requires
        size.0 >= 26,
        selected < usize::MAX,
    ensures
        cmds(final(out)@) == cmds(old(out)@) + manager_drawn(
            title@,
            item_views(items@),
            selected,
            size,
            accent,
            footer@,
        ),
        all_placeable(cmds(old(out)@)) ==> all_placeable(cmds(final(out)@)),
{
    let ghost first = cmds(out@);
    let ghost v = item_views(items@);
    start_overlay(out);
    // Window the list if the screen is short.
    let most: usize = if size.1 < 7 {
        1
    } else {
        size.1 as usize - 6
    };
    let offset: usize = if selected < most {
        0
    } else {
        selected + 1 - most
    };
    let shown: usize = if items.len() <= offset {
        0
    } else if items.len() - offset < most {
        items.len() - offset
    } else {
        most
    };
    assert(shown == shown_count(v.len(), selected, size));
    let body_rows: u16 = shown as u16 + 3;
    let room: u128 = measure(items, footer);
    let p: Panel = draw_panel(out, title, body_rows, room, size);
    let ghost head = cmds(out@);
    let mut row: usize = 0;
    assert(head + items_drawn(v, offset as int, selected, p, accent, 0) =~= head);
    while row < shown
        invariant
            row <= shown,
            items.len() == items@.len(),
            offset + shown <= items.len() || shown == 0,
            v == item_views(items@),
            p.x + 2 < u16::MAX,
            p.y + 2 + shown < u16::MAX,
            shown < 65535,
            p.iw >= 4,
            all_placeable(first) ==> all_placeable(cmds(out@)),
            cmds(out@) == head + items_drawn(
                v,
                offset as int,
                selected,
                p,
                accent,
                row as int,
            ),
        decreases shown - row,
    {
        let i: usize = offset + row;
        assert(v[i as int] == items@[i as int]@);
        draw_item(out, &items[i], i == selected, p, row as u16, accent);
        row = row + 1;
        assert(cmds(out@) =~= head + items_drawn(
            v,
            offset as int,
            selected,
            p,
            accent,
            row as int,
        ));
    }
    draw_footer(out, p, body_rows, footer);
    assert(cmds(out@) =~= first + manager_drawn(title@, v, selected, size, accent, footer@));
}

/// The name prompt as a centered panel, the visible cursor parked at the
/// end of the typed name.
pub open spec fn naming_drawn(
    title: Seq<char>,
    name: Seq<char>,
    size: (u16, u16),
    accent: Color,
    footer: Seq<char>,
) -> Seq<CmdView> {
    let room = larger(name.len() + 6, footer.len());
    overlay_start() + panel_drawn(title, 4, room, size) + prompt_drawn(
        panel_at(title, 4, room, size),
        name,
        accent,
        footer,
    )
}

/// What stands in the panel of the name prompt.
pub open spec fn prompt_drawn(p: Panel, name: Seq<char>, accent: Color, footer: Seq<char>) -> Seq<
    CmdView,
> {
    seq![
        CmdView::MoveTo((p.x + 2) as u16, (p.y + 2) as u16),
        CmdView::Fg(accent),
        CmdView::Print("❯ "@),
        CmdView::Fg(Color::Reset),
        CmdView::Print(fitted(name, (p.iw - 2) as nat)),
        CmdView::MoveTo((p.x + 2) as u16, (p.y + 4) as u16),
        CmdView::Attr(Attr::Dim),
        CmdView::Print(fitted(footer, p.iw as nat)),
        CmdView::Attr(Attr::Reset),
        CmdView::MoveTo(
            (p.x + 4 + (if name.len() < p.iw {
                name.len() as int
            } else {
                p.iw as int
            })) as u16,
            (p.y + 2) as u16,
        ),
        CmdView::Show,
        CmdView::EndSync,
    ]
}

fn draw_prompt(out: &mut Vec<Cmd>, p: Panel, name: &str, accent: Color, footer: &str)
    requires
        2 <= p.iw,
        p.x + p.iw + 4 < u16::MAX,
        p.y + 4 < u16::MAX,
    ensures
        cmds(final(out)@) == cmds(old(out)@) + prompt_drawn(p, name@, accent, footer@),
        all_placeable(cmds(old(out)@)) ==> all_placeable(cmds(final(out)@)),
{
    let len: usize = to_chars(name).len();
    push_cmd(out, Cmd::MoveTo(p.x + 2, p.y + 2));
    push_cmd(out, Cmd::Fg(accent));
    print(out, "❯ ");
    push_cmd(out, Cmd::Fg(Color::Reset));
    push_cmd(out, Cmd::Print(fit(name, p.iw - 2)));
    push_cmd(out, Cmd::MoveTo(p.x + 2, p.y + 4));
    queue_attr(out, Attr::Dim);
    push_cmd(out, Cmd::Print(fit(footer, p.iw)));
    queue_attr(out, Attr::Reset);
    // Park the visible cursor at the end of the typed name.
    let at: usize = if len < p.iw {
        len
    } else {
        p.iw
    };
    push_cmd(out, Cmd::MoveTo(p.x + 4 + at as u16, p.y + 2));
    push_cmd(out, Cmd::Show);
    push_cmd(out, Cmd::EndSync);
    assert(cmds(out@) =~= cmds(old(out)@) + prompt_drawn(p, name@, accent, footer@));
}

/// Draw the name prompt for a new session/tab as a centered panel.
pub fn draw_naming(
    out: &mut Vec<Cmd>,
    title: &str,
    name: &str,
    size: (u16, u16),
    accent: Color,
    footer: &str,
)
    requires
        size.0 >= 26,
    ensures
        cmds(final(out)@) == cmds(old(out)@) + naming_drawn(title@, name@, size, accent, footer@),
        all_placeable(cmds(old(out)@)) ==> all_placeable(cmds(final(out)@)),
{
    let ghost first = cmds(out@);
    start_overlay(out);
    let len: usize = to_chars(name).len();
    let long: u128 = to_chars(footer).len() as u128;
    let room: u128 = if len as u128 + 6 < long {
        long
    } else {
        len as u128 + 6
    };
    let p: Panel = draw_panel(out, title, 4, room, size);
    draw_prompt(out, p, name, accent, footer);
    assert(cmds(out@) =~= first + naming_drawn(title@, name@, size, accent, footer@));
}

/// The selected entry of a manager is among those shown.
pub proof fn law_selection_shown(len: nat, selected: usize, size: (u16, u16))
    requires
        selected < len,
    ensures
        scrolled_off(selected, size) <= selected < scrolled_off(selected, size) + shown_count(
            len,
            selected,
            size,
        ),
{
}

/// A panel lies within the screen where the screen is high enough for it.
pub proof fn law_panel_on_screen(
    title: Seq<char>,
    body_rows: u16,
    min_interior: nat,
    size: (u16, u16),
)
    requires
        size.0 >= 26,
        body_rows + 2 <= size.1,
    ensures
        ({
            let p = panel_at(title, body_rows, min_interior, size);
            p.x + p.iw + 4 <= size.0 && p.y + body_rows + 2 <= size.1
        }),
{
    reveal(panel_at);
}

/// Every visible pane has a grid that stays on the screen.
pub open spec fn grids_ok(grids: Seq<GridView>, rs: Seq<(u64, Rect)>) -> bool {
    &&& grids.len() == rs.len()
    &&& forall|i: int| 0 <= i < grids.len() ==> drawable(#[trigger] grids[i], rs[i].1)
}

/// The first `n` panes.
pub open spec fn panes_drawn(grids: Seq<GridView>, rs: Seq<(u64, Rect)>, n: int) -> Seq<CmdView>
    decreases n,
{
    if n <= 0 {
        Seq::empty()
    } else {
        panes_drawn(grids, rs, n - 1) + grid_drawn(grids[n - 1], rs[n - 1].1)
    }
}

/// The last of the first `n` panes that is the focused one.
pub open spec fn focus_entry(rs: Seq<(u64, Rect)>, focused: u64, n: int) -> Option<int>
    decreases n,
{
    if n <= 0 {
        None
    } else if rs[n - 1].0 == focused {
        Some(n - 1)
    } else {
        focus_entry(rs, focused, n - 1)
    }
}

/// One frame of the viewed session: the open tab's panes, dim divider lines
/// between them, the tab bar, and the focused pane's cursor.
pub open spec fn session_drawn(
    s: SessionView,
    grids: Seq<GridView>,
    size: (u16, u16),
    accent: Color,
    bar: BarPosition,
) -> Seq<CmdView> {
    let tab = s.tab();
    let rs = placed(tab, size, bar);
    seq![CmdView::BeginSync, CmdView::Hide] + panes_drawn(grids, rs, rs.len() as int) + (if tab.zoomed {
        Seq::empty()
    } else {
        dividers_drawn(
            tab.layout,
            lowered(whole(content(size)), above(bar, size)),
            focus_rect(rs, tab.focused),
            accent,
        )
    }) + (if size.1 >= 2 {
        bar_drawn(s, size, accent, bar)
    } else {
        Seq::empty()
    }) + (match focus_cursor(grids, rs, tab.focused) {
        Some((x, y)) => seq![CmdView::MoveTo(x, y), CmdView::Show],
        None => Seq::empty(),
    }) + seq![CmdView::EndSync]
}

/// The rectangle of the focused pane, where it is visible.
pub open spec fn focus_rect(rs: Seq<(u64, Rect)>, focused: u64) -> Option<Rect> {
    match focus_entry(rs, focused, rs.len() as int) {
        Some(k) => Some(rs[k].1),
        None => None,
    }
}

/// Where the focused pane's cursor stands, where it is visible.
pub open spec fn focus_cursor(
    grids: Seq<GridView>,
    rs: Seq<(u64, Rect)>,
    focused: u64,
) -> Option<(u16, u16)> {
    match focus_entry(rs, focused, rs.len() as int) {
        Some(k) => cursor_at(grids[k], rs[k].1),
        None => None,
    }
}

/// Draw the visible panes. Returns the rectangle of the focused pane and
/// its cursor.
fn draw_panes(
    grids: &Vec<Grid>,
    rs: &Vec<(u64, Rect)>,
    focused: u64,
    out: &mut Vec<Cmd>,
) -> (r: (Option<Rect>, Option<(u16, u16)>))
    requires
        grids_ok(grid_views(grids@), rs@),
        crate::model::all_fit(rs@),
    ensures
        cmds(final(out)@) == cmds(old(out)@) + panes_drawn(
            grid_views(grids@),
            rs@,
            rs@.len() as int,
        ),
        all_placeable(cmds(old(out)@)) ==> all_placeable(cmds(final(out)@)),
        r.0 == focus_rect(rs@, focused),
        r.1 == focus_cursor(grid_views(grids@), rs@, focused),
        r.0 matches Some(f) ==> f.fits(),
        r.1 matches Some((x, y)) ==> x < u16::MAX && y < u16::MAX,
{
    let ghost first = cmds(out@);
    let ghost v = grid_views(grids@);
    let mut cursor: Option<(u16, u16)> = None;
    let mut focus: Option<Rect> = None;
    let mut i: usize = 0;
    assert(first + panes_drawn(v, rs@, 0) =~= first);
    while i < rs.len()
        invariant
            i <= rs@.len(),
            v == grid_views(grids@),
            grids_ok(v, rs@),
            grids@.len() == v.len(),
            crate::model::all_fit(rs@),
            all_placeable(first) ==> all_placeable(cmds(out@)),
            cmds(out@) == first + panes_drawn(v, rs@, i as int),
            focus == (match focus_entry(rs@, focused, i as int) {
                Some(k) => Some(rs@[k].1),
                None => None,
            }),
            cursor == (match focus_entry(rs@, focused, i as int) {
                Some(k) => cursor_at(v[k], rs@[k].1),
                None => None,
            }),
            focus matches Some(r) ==> r.fits(),
            cursor matches Some((x, y)) ==> x < u16::MAX && y < u16::MAX,
        decreases rs@.len() - i,
    {
        let rect: Rect = rs[i].1;
        assert(v[i as int] == grids@[i as int]@);
        let pane_cursor: Option<(u16, u16)> = draw_at(&grids[i], out, rect);
        assert(rs@[i as int].1.fits());
        if rs[i].0 == focused {
            cursor = pane_cursor;
            focus = Some(rect);
        }
        i = i + 1;
        assert(cmds(out@) =~= first + panes_drawn(v, rs@, i as int));
    }
    (focus, cursor)
}

/// Draw one frame of the viewed session: the active tab's panes at their
/// rectangles, dim divider lines between them, the tab bar, and the
/// focused pane's cursor. `grids` holds what the visible panes show,
/// in layout order.
#[verifier::rlimit(30)]
pub fn draw_session(
    session: &Session,
    grids: &Vec<Grid>,
    out: &mut Vec<Cmd>,
    size: (u16, u16),
    accent: Color,
    bar: BarPosition,
)
    requires
        session@.live(),
        size.0 < u16::MAX,
        size.1 < u16::MAX,
        grids_ok(grid_views(grids@), placed(session@.tab(), size, bar)),
    ensures
        cmds(final(out)@) == cmds(old(out)@) + session_drawn(
            session@,
            grid_views(grids@),
            size,
            accent,
            bar,
        ),
        all_placeable(cmds(old(out)@)) ==> all_placeable(cmds(final(out)@)),
{
    let ghost first = cmds(out@);
    let ghost v = grid_views(grids@);
    let area: (u16, u16) = content_size(size);
    let tab: &Tab = &session.tabs[session.active_tab];
    assert(session@.tab() == tab@);
    let rs: Vec<(u64, Rect)> = place_panes(tab, size, bar);
    push_cmd(out, Cmd::BeginSync);
    push_cmd(out, Cmd::Hide);
    let ghost start = seq![CmdView::BeginSync, CmdView::Hide];
    assert(cmds(out@) =~= first + start);
    let (focus, cursor): (Option<Rect>, Option<(u16, u16)>) = draw_panes(
        grids,
        &rs,
        tab.focused,
        out,
    );
    let ghost panes = panes_drawn(v, rs@, rs@.len() as int);
    let full = Rect { x: 0, y: rows_above(bar, size), w: area.0, h: area.1 };
    let ghost lines = if tab.zoomed {
        Seq::empty()
    } else {
        dividers_drawn(tab.layout, full, focus, accent)
    };
    if !tab.zoomed {
        draw_dividers(out, &tab.layout, full, focus, accent);
    }
    assert(cmds(out@) =~= first + start + panes + lines);
    let ghost tabs = if size.1 >= 2 {
        bar_drawn(session@, size, accent, bar)
    } else {
        Seq::empty()
    };
    if size.1 >= 2 {
        draw_tab_bar(out, session, size, accent, bar);
    }
    assert(cmds(out@) =~= first + start + panes + lines + tabs);
    if let Some((x, y)) = cursor {
        push_cmd(out, Cmd::MoveTo(x, y));
        push_cmd(out, Cmd::Show);
    }
    push_cmd(out, Cmd::EndSync);
    assert(cmds(out@) =~= first + session_drawn(session@, v, size, accent, bar));
}

} // verus!
