//! What is drawn: the tab bar, the frame around panes, dividers and cursor,
//! the overlays, and what a pane shows.

use crate::ansi::{printed, Attr, CmdView, Color};
use crate::config::BarPosition;
use crate::grid::{grid_drawn, GridView};
use crate::layout::{law_rects_are_panes, whole, Rect};
use crate::model::{SessionView, TabView};
use crate::render::{
    bar_drawn, content, focus_entry, item_drawn, items_drawn, manager_drawn, naming_drawn, panel_at,
    panes_drawn, placed, session_drawn, tab_label, tabs_drawn, ItemView, Panel,
};
use crate::text::fitted;
use vstd::prelude::*;

verus! {

/// The label of a tab in the bar: its name with a blank on either side, and a
/// mark before the last blank when the tab is zoomed.
pub open spec fn bar_label(t: TabView) -> Seq<char> {
    if t.zoomed {
        seq![' '] + t.name + seq![' ', '[', 'F', ']', ' ']
    } else {
        seq![' '] + t.name + seq![' ']
    }
}

/// How many columns the labels of the first `n` tabs take.
pub open spec fn labels_width(s: SessionView, n: int) -> nat
    decreases n,
{
    if n <= 0 {
        0
    } else {
        labels_width(s, n - 1) + bar_label(s.tabs[n - 1]).len()
    }
}

/// How many of the columns the session's name takes in the bar.
pub open spec fn chip_width(s: SessionView, cols: u16) -> nat {
    if s.name.len() + 2 <= cols {
        s.name.len() + 2
    } else {
        0
    }
}

/// Exactly the first `m` tabs have their labels in a bar of `cols` columns.
pub open spec fn labels_fit(s: SessionView, cols: u16, m: int) -> bool {
    &&& 0 <= m <= s.tabs.len()
    &&& chip_width(s, cols) + labels_width(s, m) <= cols
    &&& m < s.tabs.len() ==> chip_width(s, cols) + labels_width(s, m + 1) > cols
}

/// The label of tab `k` stands at `p`: as a chip in the accent colour when the
/// tab is open, dim otherwise.
pub open spec fn label_at(c: Seq<CmdView>, p: int, s: SessionView, k: int, accent: Color) -> bool {
    if k == s.active_tab {
        &&& 0 <= p && p + 4 <= c.len()
        &&& c[p] == CmdView::Fg(accent)
        &&& c[p + 1] == CmdView::Attr(Attr::Reverse)
        &&& c[p + 2] == CmdView::Print(bar_label(s.tabs[k]))
        &&& c[p + 3] == CmdView::Attr(Attr::Reset)
    } else {
        &&& 0 <= p && p + 3 <= c.len()
        &&& c[p] == CmdView::Attr(Attr::Dim)
        &&& c[p + 1] == CmdView::Print(bar_label(s.tabs[k]))
        &&& c[p + 2] == CmdView::Attr(Attr::Reset)
    }
}

/// The label of tab `k` stands where it comes after `head` commands and the
/// labels of the tabs before it.
pub open spec fn label_follows(
    c: Seq<CmdView>,
    head: int,
    s: SessionView,
    k: int,
    accent: Color,
) -> bool {
    label_at(
        c,
        head + 3 * k + (if s.active_tab < k {
            1int
        } else {
            0
        }),
        s,
        k,
        accent,
    )
}

proof fn lemma_label(t: TabView)
    ensures
        tab_label(t) == bar_label(t),
{
    reveal_strlit(" ");
    reveal_strlit(" [F] ");
    assert(tab_label(t) =~= bar_label(t));
}

/// Where the label of tab `k` stands, counted from that of tab `i`.
spec fn label_place(s: SessionView, i: int, k: int) -> int {
    3 * (k - i) + (if i <= s.active_tab < k {
        1int
    } else {
        0
    })
}

proof fn lemma_width_monotone(s: SessionView, i: int, m: int)
    requires
        0 <= i <= m,
    ensures
        labels_width(s, i) <= labels_width(s, m),
    decreases m,
{
    if i < m {
        lemma_width_monotone(s, i, m - 1);
    }
}

proof fn lemma_tabs_drawn(
    s: SessionView,
    i: int,
    used: nat,
    cols: nat,
    accent: Color,
    m: int,
)
    requires
        0 <= i <= m <= s.tabs.len(),
        used + labels_width(s, m) - labels_width(s, i) <= cols,
        m < s.tabs.len() ==> used + labels_width(s, m + 1) - labels_width(s, i) > cols,
    ensures
        ({
            let r = tabs_drawn(s, i, used, cols, accent);
            &&& r.len() == label_place(s, i, m)
            &&& forall|k: int|
                i <= k < m ==> #[trigger] label_at(r, label_place(s, i, k), s, k, accent)
        }),
    decreases m - i,
{
    let r = tabs_drawn(s, i, used, cols, accent);
    if i < s.tabs.len() {
        lemma_label(s.tabs[i]);
    }
    if i < m {
        lemma_width_monotone(s, i + 1, m);
        let w = bar_label(s.tabs[i]).len();
        lemma_tabs_drawn(s, i + 1, used + w, cols, accent, m);
        let rest = tabs_drawn(s, i + 1, used + w, cols, accent);
        let n = if i == s.active_tab {
            4int
        } else {
            3
        };
        assert(r.len() == n + rest.len());
        assert forall|j: int| 0 <= j < rest.len() implies r[n + j] == rest[j] by {}
        assert forall|k: int| i <= k < m implies #[trigger] label_at(
            r,
            label_place(s, i, k),
            s,
            k,
            accent,
        ) by {
            if k > i {
                let p = label_place(s, i + 1, k);
                assert(label_at(rest, p, s, k, accent));
                assert(label_place(s, i, k) == n + p);
                assert(r[n + p] == rest[p]);
                assert(r[n + (p + 1)] == rest[p + 1]);
                assert(r[n + (p + 2)] == rest[p + 2]);
                if k == s.active_tab {
                    assert(r[n + (p + 3)] == rest[p + 3]);
                }
            }
        }
    }
}

/// The tab bar stands on its row, below the panes or above them. It begins
/// with the session's name as a chip in the accent colour, where it fits, and
/// goes on with the labels of the tabs, in their order, as many as fit: that
/// of the open tab as a chip in the accent colour, every other one dim.
/// Nothing else is in it, and the rest of the row is cleared.
pub proof fn law_tab_bar(
    s: SessionView,
    size: (u16, u16),
    accent: Color,
    bar: BarPosition,
    m: int,
)
    requires
        size.1 >= 1,
        labels_fit(s, size.0, m),
    ensures
        ({
            let c = bar_drawn(s, size, accent, bar);
            let chip = s.name.len() + 2 <= size.0;
            let head = if chip {
                6int
            } else {
                2
            };
            &&& c[0] == CmdView::MoveTo(
                0,
                if bar == BarPosition::Top {
                    0
                } else {
                    (size.1 - 1) as u16
                },
            )
            &&& c[1] == CmdView::Attr(Attr::Reset)
            &&& chip ==> c[2] == CmdView::Fg(accent) && c[3] == CmdView::Attr(Attr::Reverse)
                && c[4] == CmdView::Print(seq![' '] + s.name + seq![' ']) && c[5]
                == CmdView::Attr(Attr::Reset)
            &&& forall|k: int|
                0 <= k < m ==> #[trigger] label_follows(c, head, s, k, accent)
            &&& c.len() == head + 3 * m + (if s.active_tab < m {
                1int
            } else {
                0
            }) + 1
            &&& c.last() == CmdView::ClearLine
        }),
{
    reveal(bar_drawn);
    reveal_strlit(" ");
    let c = bar_drawn(s, size, accent, bar);
    let fits = s.name.len() + 2 <= size.0;
    let used = chip_width(s, size.0);
    let tabs = tabs_drawn(s, 0, used, size.0 as nat, accent);
    let head = if fits {
        6int
    } else {
        2
    };
    assert(crate::render::chip(s.name) =~= seq![' '] + s.name + seq![' ']);
    lemma_tabs_drawn(s, 0, used, size.0 as nat, accent, m);
    assert(c.len() == head + tabs.len() + 1);
    assert forall|j: int| 0 <= j < tabs.len() implies c[head + j] == tabs[j] by {}
    assert forall|k: int| 0 <= k < m implies #[trigger] label_follows(c, head, s, k, accent) by {
        let p = label_place(s, 0, k);
        assert(label_at(tabs, p, s, k, accent));
        assert(c[head + p] == tabs[p]);
        assert(c[head + (p + 1)] == tabs[p + 1]);
        assert(c[head + (p + 2)] == tabs[p + 2]);
        if k == s.active_tab {
            assert(c[head + (p + 3)] == tabs[p + 3]);
        }
    }
}

/// `part` stands in `c` from `i` on.
pub open spec fn part_at(c: Seq<CmdView>, i: int, part: Seq<CmdView>) -> bool {
    0 <= i && i + part.len() <= c.len() && c.subrange(i, i + part.len()) == part
}

/// `part` stands in `c`.
pub open spec fn stands(c: Seq<CmdView>, part: Seq<CmdView>) -> bool {
    exists|i: int| #[trigger] part_at(c, i, part)
}

/// How many commands the first `k` panes take.
pub open spec fn panes_before(grids: Seq<GridView>, rs: Seq<(u64, Rect)>, k: int) -> nat
    decreases k,
{
    if k <= 0 {
        0
    } else {
        panes_before(grids, rs, k - 1) + grid_drawn(grids[k - 1], rs[k - 1].1).len()
    }
}

proof fn lemma_panes_drawn(grids: Seq<GridView>, rs: Seq<(u64, Rect)>, n: int, k: int)
    requires
        0 <= k < n,
    ensures
        panes_drawn(grids, rs, n).len() == panes_before(grids, rs, n),
        part_at(
            panes_drawn(grids, rs, n),
            panes_before(grids, rs, k) as int,
            grid_drawn(grids[k], rs[k].1),
        ),
    decreases n,
{
    let c = panes_drawn(grids, rs, n);
    let before = panes_drawn(grids, rs, n - 1);
    let part = grid_drawn(grids[k], rs[k].1);
    let i = panes_before(grids, rs, k) as int;
    if k < n - 1 {
        lemma_panes_drawn(grids, rs, n - 1, k);
        assert(c.subrange(i, i + part.len()) =~= before.subrange(i, i + part.len()));
    } else {
        lemma_panes_len(grids, rs, n - 1);
        assert(c.subrange(i, i + part.len()) =~= part);
    }
}

proof fn lemma_panes_len(grids: Seq<GridView>, rs: Seq<(u64, Rect)>, n: int)
    ensures
        panes_drawn(grids, rs, n).len() == panes_before(grids, rs, n),
    decreases n,
{
    if n > 0 {
        lemma_panes_len(grids, rs, n - 1);
    }
}

proof fn lemma_focus_entry(rs: Seq<(u64, Rect)>, focused: u64, n: int, k: int)
    requires
        0 <= k < n <= rs.len(),
        rs[k].0 == focused,
        forall|j: int| 0 <= j < rs.len() && (#[trigger] rs[j]).0 == focused ==> j == k,
    ensures
        focus_entry(rs, focused, n) == Some(k),
    decreases n,
{
    if n - 1 != k {
        assert(rs[n - 1].0 != focused);
        lemma_focus_entry(rs, focused, n - 1, k);
    }
}

proof fn lemma_placed_focus(t: TabView, size: (u16, u16), bar: BarPosition, k: int)
    requires
        t.live(),
        0 <= k < placed(t, size, bar).len(),
        placed(t, size, bar)[k].0 == t.focused,
    ensures
        focus_entry(placed(t, size, bar), t.focused, placed(t, size, bar).len() as int) == Some(k),
{
    let rs = placed(t, size, bar);
    let inner = t.visible(content(size));
    law_rects_are_panes(t.layout, whole(content(size)));
    assert forall|j: int| 0 <= j < rs.len() && (#[trigger] rs[j]).0 == t.focused implies j == k by {
        assert(inner[j].0 == rs[j].0);
        assert(inner[k].0 == rs[k].0);
        if !t.zoomed {
            assert(t.layout.pane_seq()[j] == t.layout.pane_seq()[k]);
        }
    }
    lemma_focus_entry(rs, t.focused, rs.len() as int, k);
}

/// A frame of a session hides the cursor, draws every shown pane at its
/// rectangle, in layout order, and the tab bar where there is a row for it; it
/// ends with the cursor at its cell of the focused pane, where that pane shows
/// one, and without a cursor otherwise.
pub proof fn law_frame(
    s: SessionView,
    grids: Seq<GridView>,
    size: (u16, u16),
    accent: Color,
    bar: BarPosition,
    f: int,
    k: int,
)
    requires
        s.live(),
        grids.len() == placed(s.tab(), size, bar).len(),
        0 <= f < grids.len(),
        placed(s.tab(), size, bar)[f].0 == s.tab().focused,
        0 <= k < grids.len(),
    ensures
        ({
            let c = session_drawn(s, grids, size, accent, bar);
            let rs = placed(s.tab(), size, bar);
            let n = c.len() as int;
            let tail = match grids[f].cursor {
                Some(_) => 3int,
                None => 1,
            };
            let b = bar_drawn(s, size, accent, bar);
            &&& c[0] == CmdView::BeginSync && c[1] == CmdView::Hide && c[n - 1] == CmdView::EndSync
            &&& part_at(c, 2int + panes_before(grids, rs, k), grid_drawn(grids[k], rs[k].1))
            &&& grids[f].cursor matches Some((x, y)) ==> c[n - 3] == CmdView::MoveTo(
                (rs[f].1.x + x) as u16,
                (rs[f].1.y + y) as u16,
            ) && c[n - 2] == CmdView::Show
            &&& size.1 >= 2 ==> part_at(c, n - tail - b.len(), b)
            &&& s.tab().zoomed && size.1 >= 2 ==> n == 2 + panes_before(grids, rs, rs.len() as int)
                + b.len() + tail
            &&& s.tab().zoomed && size.1 < 2 ==> n == 2 + panes_before(grids, rs, rs.len() as int)
                + tail
        }),
{
    let c = session_drawn(s, grids, size, accent, bar);
    let t = s.tab();
    assert(s.tabs[s.active_tab as int].live());
    let rs = placed(t, size, bar);
    lemma_placed_focus(t, size, bar, f);
    lemma_panes_drawn(grids, rs, rs.len() as int, k);
    let panes = panes_drawn(grids, rs, rs.len() as int);
    let part = grid_drawn(grids[k], rs[k].1);
    let at = panes_before(grids, rs, k) as int;
    assert(c.subrange(2 + at, 2 + at + part.len()) =~= panes.subrange(at, at + part.len()));
    let b = bar_drawn(s, size, accent, bar);
    let n = c.len() as int;
    let tail = match grids[f].cursor {
        Some(_) => 3int,
        None => 1,
    };
    if size.1 >= 2 {
        assert(c.subrange(n - tail - b.len(), n - tail) =~= b);
    }
}

/// The dividers of a frame are those of the open tab's layout in the pane
/// area, drawn after the panes and around the focused one; a zoomed tab has
/// none.
pub proof fn law_frame_dividers(
    s: SessionView,
    grids: Seq<GridView>,
    size: (u16, u16),
    accent: Color,
    bar: BarPosition,
    f: int,
)
    requires
        s.live(),
        !s.tab().zoomed,
        size.1 >= 2,
        grids.len() == placed(s.tab(), size, bar).len(),
        0 <= f < grids.len(),
        placed(s.tab(), size, bar)[f].0 == s.tab().focused,
    ensures
        ({
            let rs = placed(s.tab(), size, bar);
            let down = if bar == BarPosition::Top {
                1u16
            } else {
                0u16
            };
            part_at(
                session_drawn(s, grids, size, accent, bar),
                2int + panes_before(grids, rs, rs.len() as int),
                crate::dividers::dividers_drawn(
                    s.tab().layout,
                    Rect { x: 0, y: down, w: size.0, h: (size.1 - 1) as u16 },
                    Some(rs[f].1),
                    accent,
                ),
            )
        }),
{
    let c = session_drawn(s, grids, size, accent, bar);
    let t = s.tab();
    assert(s.tabs[s.active_tab as int].live());
    let rs = placed(t, size, bar);
    lemma_placed_focus(t, size, bar, f);
    lemma_panes_len(grids, rs, rs.len() as int);
    let down = if bar == BarPosition::Top {
        1u16
    } else {
        0u16
    };
    let d = crate::dividers::dividers_drawn(
        t.layout,
        Rect { x: 0, y: down, w: size.0, h: (size.1 - 1) as u16 },
        Some(rs[f].1),
        accent,
    );
    let at = 2 + panes_before(grids, rs, rs.len() as int);
    assert(c.subrange(at as int, (at + d.len()) as int) =~= d);
}

/// A panel is as wide as its title and what it shows need, from 24 columns to
/// the screen's width less two, and stands in the middle of the screen.
pub proof fn law_panel_fits_and_centers(
    title: Seq<char>,
    body_rows: u16,
    interior: nat,
    size: (u16, u16),
)
    requires
        size.0 >= 26,
        body_rows <= u16::MAX - 2,
    ensures
        ({
            let p = panel_at(title, body_rows, interior, size);
            let wide = p.iw + 4;
            let want = (if interior > title.len() + 2 {
                interior
            } else {
                title.len() + 2
            }) + 4;
            &&& want <= 24 ==> wide == 24
            &&& 24 <= want <= size.0 - 2 ==> wide == want
            &&& want > size.0 - 2 && want >= 24 ==> wide == size.0 - 2
            &&& p.x <= size.0 - wide - p.x <= p.x + 1
            &&& body_rows + 2 <= size.1 ==> p.y <= size.1 - (body_rows + 2) - p.y <= p.y + 1
            &&& body_rows + 2 > size.1 ==> p.y == 0
        }),
{
    reveal(panel_at);
}

/// A row of a manager stands at its place in the panel. The selected one has
/// an arrow in the accent colour and is bold; the one that is viewed has a dot
/// in the accent colour; one that does not run is dim, unless it is selected.
/// The label is cut to the panel.
pub proof fn law_item_row(item: ItemView, chosen: bool, p: Panel, row: int, accent: Color)
    ensures
        ({
            let c = item_drawn(item, chosen, p, row, accent);
            &&& c[0] == CmdView::MoveTo((p.x + 2) as u16, (p.y + 2 + row) as u16)
            &&& printed(c) == (if chosen {
                "❯ "@
            } else {
                "  "@
            }) + (if item.active {
                "● "@
            } else {
                "  "@
            }) + fitted(item.label, (p.iw - 4) as nat)
            &&& c.contains(CmdView::Attr(Attr::Bold)) <==> chosen
            &&& c.contains(CmdView::Attr(Attr::Dim)) <==> item.dim && !chosen
            &&& accent != Color::Reset ==> (c.contains(CmdView::Fg(accent)) <==> chosen
                || item.active)
            &&& !c.contains(CmdView::Attr(Attr::Reverse))
            &&& c[c.len() - 3] == CmdView::Print(fitted(item.label, (p.iw - 4) as nat))
            &&& c[c.len() - 2] == CmdView::Attr(Attr::Reset)
            &&& c[c.len() - 1] == CmdView::Fg(Color::Reset)
        }),
{
    let c = item_drawn(item, chosen, p, row, accent);
    let label = fitted(item.label, (p.iw - 4) as nat);
    let arrow = if chosen {
        seq![CmdView::Fg(accent), CmdView::Print("❯ "@), CmdView::Attr(Attr::Bold)]
    } else {
        seq![CmdView::Print("  "@)]
    };
    let dot = if item.active && chosen {
        seq![CmdView::Fg(accent), CmdView::Print("● "@)]
    } else if item.active {
        seq![CmdView::Fg(accent), CmdView::Print("● "@), CmdView::Fg(Color::Reset)]
    } else {
        seq![CmdView::Print("  "@)]
    };
    let dim = if item.dim && !chosen {
        seq![CmdView::Attr(Attr::Dim)]
    } else {
        Seq::empty()
    };
    let end = seq![
        CmdView::Print(label),
        CmdView::Attr(Attr::Reset),
        CmdView::Fg(Color::Reset),
    ];
    let first = seq![CmdView::MoveTo((p.x + 2) as u16, (p.y + 2 + row) as u16)];
    assert(c =~= first + arrow + dot + dim + end);
    lemma_printed_add(first + arrow + dot + dim, end);
    lemma_printed_add(first + arrow + dot, dim);
    lemma_printed_add(first + arrow, dot);
    lemma_printed_add(first, arrow);
    reveal_with_fuel(printed, 5);
    assert(first.drop_last() =~= Seq::<CmdView>::empty());
    assert(arrow.drop_last().len() == arrow.len() - 1);
    assert(printed(first) =~= Seq::<char>::empty());
    let a = if chosen {
        "❯ "@
    } else {
        "  "@
    };
    let d = if item.active {
        "● "@
    } else {
        "  "@
    };
    assert(printed(arrow) =~= a);
    assert(printed(dot) =~= d);
    assert(printed(dim) =~= Seq::<char>::empty());
    assert(printed(end) =~= label);
    assert(printed(c) =~= a + d + label);
    if chosen {
        assert(c[3] == CmdView::Attr(Attr::Bold));
        assert(c[1] == CmdView::Fg(accent));
    }
    if item.active {
        assert(c[1int + arrow.len()] == CmdView::Fg(accent));
    }
    if item.dim && !chosen {
        assert(c[1int + arrow.len() + dot.len()] == CmdView::Attr(Attr::Dim));
    }
}

pub(crate) proof fn lemma_printed_add(a: Seq<CmdView>, b: Seq<CmdView>)
    ensures
        printed(a + b) == printed(a) + printed(b),
    decreases b.len(),
{
    if b.len() == 0 {
        assert(a + b =~= a);
        assert(printed(a) + printed(b) =~= printed(a));
    } else {
        lemma_printed_add(a, b.drop_last());
        assert((a + b).drop_last() =~= a + b.drop_last());
        assert((a + b).last() == b.last());
        assert(printed(a + b) =~= printed(a) + printed(b));
    }
}

proof fn lemma_items_drawn(
    items: Seq<ItemView>,
    off: int,
    selected: usize,
    p: Panel,
    accent: Color,
    n: int,
    k: int,
)
    requires
        0 <= k < n,
    ensures
        stands(
            items_drawn(items, off, selected, p, accent, n),
            item_drawn(items[off + k], off + k == selected, p, k, accent),
        ),
    decreases n,
{
    let c = items_drawn(items, off, selected, p, accent, n);
    let before = items_drawn(items, off, selected, p, accent, n - 1);
    let part = item_drawn(items[off + k], off + k == selected, p, k, accent);
    if k < n - 1 {
        lemma_items_drawn(items, off, selected, p, accent, n - 1, k);
        let i = choose|i: int| #[trigger] part_at(before, i, part);
        assert(c.subrange(i, i + part.len()) =~= before.subrange(i, i + part.len()));
        assert(part_at(c, i, part));
    } else {
        let i = before.len() as int;
        assert(c.subrange(i, i + part.len()) =~= part);
        assert(part_at(c, i, part));
    }
}

/// A manager shows a window of its list that holds the selected entry: all of
/// it where it fits, otherwise as many rows as fit, scrolled no further than
/// the selection needs. Row `k` shows entry `off + k`, marked as selected when
/// it is the selected one and only then. Its title is bold on top, its footer
/// dim at the bottom.
pub proof fn law_manager_panel(
    title: Seq<char>,
    items: Seq<ItemView>,
    selected: usize,
    size: (u16, u16),
    accent: Color,
    footer: Seq<char>,
    off: nat,
    n: nat,
    room: nat,
    k: int,
)
    requires
        selected < items.len(),
        ({
            let cap = if size.1 < 7 {
                1
            } else {
                size.1 - 6
            };
            &&& off == if selected < cap {
                0
            } else {
                selected + 1 - cap
            }
            &&& n == if items.len() - off < cap {
                items.len() - off
            } else {
                cap
            }
        }),
        room >= footer.len(),
        forall|i: int| 0 <= i < items.len() ==> room >= (#[trigger] items[i]).label.len() + 4,
        room == footer.len() || exists|i: int|
            0 <= i < items.len() && room == (#[trigger] items[i]).label.len() + 4,
        0 <= k < n,
    ensures
        ({
            let c = manager_drawn(title, items, selected, size, accent, footer);
            let p = panel_at(title, (n + 3) as u16, room, size);
            let end = c.len() as int;
            &&& off <= selected < off + n
            &&& c[0] == CmdView::BeginSync && c[1] == CmdView::Hide && c[2] == CmdView::Attr(
                Attr::Reset,
            ) && c[3] == CmdView::ClearAll
            &&& c[4] == CmdView::MoveTo(p.x, p.y)
            &&& c[9] == CmdView::Attr(Attr::Bold) && c[10] == CmdView::Print(
                fitted(title, p.iw as nat),
            ) && c[11] == CmdView::Attr(Attr::Reset)
            &&& stands(c, item_drawn(items[off + k], off + k == selected, p, k, accent))
            &&& c[end - 5] == CmdView::MoveTo((p.x + 2) as u16, (p.y + n + 3) as u16)
            &&& c[end - 4] == CmdView::Attr(Attr::Dim) && c[end - 3] == CmdView::Print(
                fitted(footer, p.iw as nat),
            ) && c[end - 2] == CmdView::Attr(Attr::Reset) && c[end - 1] == CmdView::EndSync
        }),
{
    let c = manager_drawn(title, items, selected, size, accent, footer);
    assert(n == crate::render::shown_count(items.len(), selected, size));
    assert(off == crate::render::scrolled_off(selected, size));
    assert(room == crate::render::room_for(items, footer, items.len() as int)) by {
        lemma_room(items, footer, items.len() as int);
    }
    let rows = (n + 3) as u16;
    let p = panel_at(title, rows, room, size);
    let list = items_drawn(items, off as int, selected, p, accent, n as int);
    let frame = crate::render::panel_drawn(title, rows, room, size);
    let foot = crate::render::footer_drawn(p, rows as int, footer);
    lemma_panel_top(title, rows, room, size);
    assert(c == crate::render::overlay_start() + frame + list + foot);
    lemma_items_drawn(items, off as int, selected, p, accent, n as int, k);
    lemma_four_parts(
        crate::render::overlay_start(),
        frame,
        list,
        foot,
        item_drawn(items[off + k], off + k == selected, p, k, accent),
    );
}

proof fn lemma_four_parts(
    a: Seq<CmdView>,
    b: Seq<CmdView>,
    c: Seq<CmdView>,
    d: Seq<CmdView>,
    part: Seq<CmdView>,
)
    requires
        stands(c, part),
    ensures
        ({
            let all = a + b + c + d;
            &&& stands(all, part)
            &&& all.len() == a.len() + b.len() + c.len() + d.len()
            &&& forall|i: int| 0 <= i < a.len() ==> #[trigger] all[i] == a[i]
            &&& forall|i: int| a.len() <= i < a.len() + b.len() ==> #[trigger] all[i] == b[i
                - a.len()]
            &&& forall|i: int|
                all.len() - d.len() <= i < all.len() ==> #[trigger] all[i] == d[i - (all.len()
                    - d.len())]
        }),
{
    let all = a + b + c + d;
    let i = choose|i: int| #[trigger] part_at(c, i, part);
    let at = a.len() + b.len() + i;
    assert(all.subrange(at, at + part.len()) =~= c.subrange(i, i + part.len()));
    assert(part_at(all, at, part));
}

proof fn lemma_panel_top(title: Seq<char>, body_rows: u16, interior: nat, size: (u16, u16))
    ensures
        ({
            let c = crate::render::panel_drawn(title, body_rows, interior, size);
            let p = panel_at(title, body_rows, interior, size);
            &&& c.len() >= 10
            &&& c[0] == CmdView::MoveTo(p.x, p.y)
            &&& c[5] == CmdView::Attr(Attr::Bold)
            &&& c[6] == CmdView::Print(fitted(title, p.iw as nat))
            &&& c[7] == CmdView::Attr(Attr::Reset)
        }),
{
    reveal(crate::render::panel_drawn);
}

proof fn lemma_room(items: Seq<ItemView>, footer: Seq<char>, n: int)
    requires
        0 <= n <= items.len(),
    ensures
        ({
            let room = crate::render::room_for(items, footer, n);
            &&& room >= footer.len()
            &&& forall|i: int| 0 <= i < n ==> room >= (#[trigger] items[i]).label.len() + 4
            &&& room == footer.len() || exists|i: int|
                0 <= i < n && room == (#[trigger] items[i]).label.len() + 4
        }),
    decreases n,
{
    if n > 0 {
        lemma_room(items, footer, n - 1);
    }
}

/// The name prompt shows the name as typed behind an arrow in the accent
/// colour, its title bold on top and its footer dim below, and leaves the
/// cursor right after the name.
pub proof fn law_name_prompt(
    title: Seq<char>,
    name: Seq<char>,
    size: (u16, u16),
    accent: Color,
    footer: Seq<char>,
)
    ensures
        ({
            let c = naming_drawn(title, name, size, accent, footer);
            let room = if name.len() + 6 > footer.len() {
                name.len() + 6
            } else {
                footer.len()
            };
            let p = panel_at(title, 4, room, size);
            let end = c.len() as int;
            &&& c[0] == CmdView::BeginSync && c[1] == CmdView::Hide && c[2] == CmdView::Attr(
                Attr::Reset,
            ) && c[3] == CmdView::ClearAll
            &&& c[9] == CmdView::Attr(Attr::Bold) && c[10] == CmdView::Print(
                fitted(title, p.iw as nat),
            )
            &&& c[end - 12] == CmdView::MoveTo((p.x + 2) as u16, (p.y + 2) as u16)
            &&& c[end - 11] == CmdView::Fg(accent) && c[end - 10] == CmdView::Print("❯ "@)
                && c[end - 9] == CmdView::Fg(Color::Reset)
            &&& c[end - 8] == CmdView::Print(fitted(name, (p.iw - 2) as nat))
            &&& c[end - 7] == CmdView::MoveTo((p.x + 2) as u16, (p.y + 4) as u16)
            &&& c[end - 6] == CmdView::Attr(Attr::Dim) && c[end - 5] == CmdView::Print(
                fitted(footer, p.iw as nat),
            )
            &&& name.len() < p.iw ==> c[end - 3] == CmdView::MoveTo(
                (p.x + 4 + name.len()) as u16,
                (p.y + 2) as u16,
            )
            &&& c[end - 2] == CmdView::Show && c[end - 1] == CmdView::EndSync
        }),
{
    reveal(crate::render::panel_drawn);
}

/// The frame of a panel: its sides on every row, its corners above and below,
/// as wide as the panel.
pub proof fn law_panel_frame(
    title: Seq<char>,
    body_rows: u16,
    interior: nat,
    size: (u16, u16),
    i: int,
)
    requires
        0 <= i < body_rows,
    ensures
        ({
            let c = crate::render::panel_drawn(title, body_rows, interior, size);
            let p = panel_at(title, body_rows, interior, size);
            let blank = crate::text::repeated(' ', (p.iw + 2) as nat);
            let line = crate::text::repeated('─', (p.iw + 2) as nat);
            &&& c.len() == 10 + 2 * body_rows + 3
            &&& c[0] == CmdView::MoveTo(p.x, p.y)
            &&& c[3] == CmdView::Print("╭─ "@)
            &&& c[9] == CmdView::Print(
                " "@ + crate::text::repeated(
                    '─',
                    if fitted(title, p.iw as nat).len() + 1 <= p.iw {
                        (p.iw - 1 - fitted(title, p.iw as nat).len()) as nat
                    } else {
                        0
                    },
                ) + "╮"@,
            )
            &&& c[10 + 2 * i] == CmdView::MoveTo(p.x, (p.y + i + 1) as u16)
            &&& c[10 + 2 * i + 1] == CmdView::Print("│"@ + blank + "│"@)
            &&& c[10 + 2 * body_rows] == CmdView::MoveTo(p.x, (p.y + body_rows + 1) as u16)
            &&& c[10 + 2 * body_rows + 1] == CmdView::Print("╰"@ + line + "╯"@)
            &&& c[10 + 2 * body_rows + 2] == CmdView::Attr(Attr::Reset)
        }),
{
    reveal(crate::render::panel_drawn);
    let p = panel_at(title, body_rows, interior, size);
    lemma_rows(p, body_rows as int, i);
    let rows = crate::render::rows_drawn(p, body_rows as int);
    let c = crate::render::panel_drawn(title, body_rows, interior, size);
    assert(c[10 + (2 * i)] == rows[2 * i]);
    assert(c[10 + (2 * i + 1)] == rows[2 * i + 1]);
}

proof fn lemma_rows(p: Panel, n: int, i: int)
    requires
        0 <= i < n,
    ensures
        ({
            let c = crate::render::rows_drawn(p, n);
            &&& c.len() == 2 * n
            &&& c[2 * i] == CmdView::MoveTo(p.x, (p.y + i + 1) as u16)
            &&& c[2 * i + 1] == CmdView::Print(
                "│"@ + crate::text::repeated(' ', (p.iw + 2) as nat) + "│"@,
            )
        }),
    decreases n,
{
    if n == 1 {
        assert(crate::render::rows_drawn(p, 0).len() == 0);
    } else if i < n - 1 {
        lemma_rows(p, n - 1, i);
    } else {
        lemma_rows(p, n - 1, 0);
    }
}

} // verus!
