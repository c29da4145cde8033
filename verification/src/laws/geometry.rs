//! What splitting, closing, zooming and focusing do to the panes of a tab and
//! to their rectangles.

use crate::layout::{
    halves, law_rects_are_panes, law_split_adds, lemma_contains_add, lemma_no_duplicates_parts,
    lemma_without_absent, whole, Layout, NavDir, Rect, SplitDir,
};
use crate::model::{
    edgemost, entry_of, gap, lemma_entry_of, lemma_position, lemma_solid_has_panes, nearest,
    position, resizes, Fresh, SessionView, TabView,
};
use crate::effect::EffectView;
use vstd::prelude::*;

verus! {

/// A single pane has the whole area.
pub proof fn law_one_pane_has_all(p: u64, area: Rect)
    ensures
        Layout::Pane(p).rect_seq(area) == seq![(p, area)],
        Layout::Pane(p).pane_seq() == seq![p],
{
}

/// Splitting a pane that has the rectangle `q` side by side leaves it the
/// columns on the left and gives the new pane those on the right, half each
/// with one column of divider between them; stacking does the same with rows,
/// the new pane below. It does so wherever the pane stands in the tab.
pub proof fn law_split_halves_the_pane(
    l: Layout,
    id: u64,
    dir: SplitDir,
    new: u64,
    area: Rect,
    q: Rect,
)
    requires
        l.rect_seq(area).contains((id, q)),
    ensures
        ({
            let after = l.with_split(id, dir, new).rect_seq(area);
            match dir {
                SplitDir::Vertical => {
                    let left = if q.w == 0 {
                        0
                    } else {
                        (q.w - 1) / 2
                    };
                    let right = if q.w == 0 {
                        0
                    } else {
                        q.w - 1 - left
                    };
                    &&& after.contains((id, Rect { x: q.x, y: q.y, w: left as u16, h: q.h }))
                    &&& after.contains(
                        (
                            new,
                            Rect {
                                x: (q.x + q.w - right) as u16,
                                y: q.y,
                                w: right as u16,
                                h: q.h,
                            },
                        ),
                    )
                },
                SplitDir::Horizontal => {
                    let top = if q.h == 0 {
                        0
                    } else {
                        (q.h - 1) / 2
                    };
                    let bottom = if q.h == 0 {
                        0
                    } else {
                        q.h - 1 - top
                    };
                    &&& after.contains((id, Rect { x: q.x, y: q.y, w: q.w, h: top as u16 }))
                    &&& after.contains(
                        (
                            new,
                            Rect {
                                x: q.x,
                                y: (q.y + q.h - bottom) as u16,
                                w: q.w,
                                h: bottom as u16,
                            },
                        ),
                    )
                },
            }
        }),
    decreases l,
{
    let after = l.with_split(id, dir, new);
    match l {
        Layout::Empty => {},
        Layout::Pane(p) => {
            let rs = l.rect_seq(area);
            let i = choose|i: int| 0 <= i < rs.len() && rs[i] == (id, q);
            assert(rs[i] == (p, area));
            let (x, y) = halves(dir, area);
            reveal_with_fuel(Layout::rect_seq, 2);
            assert(after.rect_seq(area) =~= seq![(p, x), (new, y)]);
            assert(after.rect_seq(area)[0] == (p, x));
            assert(after.rect_seq(area)[1] == (new, y));
        },
        Layout::Split { dir: d, a, b } => {
            let (x, y) = halves(d, area);
            lemma_contains_add(a.rect_seq(x), b.rect_seq(y), (id, q));
            let a2 = a.with_split(id, dir, new);
            let b2 = b.with_split(id, dir, new);
            assert forall|e: (u64, Rect)| #[trigger]
                a2.rect_seq(x).contains(e) || b2.rect_seq(y).contains(e) implies after.rect_seq(
                area,
            ).contains(e) by {
                lemma_contains_add(a2.rect_seq(x), b2.rect_seq(y), e);
            }
            assert forall|e: (u64, Rect)| #[trigger] b2.rect_seq(y).contains(e) implies after.rect_seq(
                area,
            ).contains(e) by {
                lemma_contains_add(a2.rect_seq(x), b2.rect_seq(y), e);
            }
            if a.rect_seq(x).contains((id, q)) {
                law_split_halves_the_pane(*a, id, dir, new, x, q);
            } else {
                law_split_halves_the_pane(*b, id, dir, new, y, q);
            }
        },
    }
}

/// Splitting a pane leaves every other pane its rectangle.
pub proof fn law_split_spares_the_rest(
    l: Layout,
    id: u64,
    dir: SplitDir,
    new: u64,
    area: Rect,
    p: u64,
    q: Rect,
)
    requires
        p != id,
        p != new,
    ensures
        l.with_split(id, dir, new).rect_seq(area).contains((p, q)) <==> l.rect_seq(area).contains(
            (p, q),
        ),
    decreases l,
{
    let after = l.with_split(id, dir, new);
    match l {
        Layout::Empty => {},
        Layout::Pane(o) => {
            if o == id {
                let (x, y) = halves(dir, area);
                reveal_with_fuel(Layout::rect_seq, 2);
                assert(after.rect_seq(area) =~= seq![(o, x), (new, y)]);
            }
        },
        Layout::Split { dir: d, a, b } => {
            let (x, y) = halves(d, area);
            lemma_contains_add(a.rect_seq(x), b.rect_seq(y), (p, q));
            lemma_contains_add(
                a.with_split(id, dir, new).rect_seq(x),
                b.with_split(id, dir, new).rect_seq(y),
                (p, q),
            );
            law_split_spares_the_rest(*a, id, dir, new, x, p, q);
            law_split_spares_the_rest(*b, id, dir, new, y, p, q);
        },
    }
}

proof fn lemma_split_absent(l: Layout, id: u64, dir: SplitDir, new: u64)
    requires
        !l.has_pane(id),
    ensures
        l.with_split(id, dir, new) == l,
    decreases l,
{
    match l {
        Layout::Empty => {},
        Layout::Pane(p) => {
            assert(l.pane_seq()[0] == p);
        },
        Layout::Split { dir: d, a, b } => {
            lemma_contains_add(a.pane_seq(), b.pane_seq(), id);
            lemma_split_absent(*a, id, dir, new);
            lemma_split_absent(*b, id, dir, new);
        },
    }
}

/// In layout order the new pane comes right after the one that was split.
pub proof fn law_split_order(l: Layout, id: u64, dir: SplitDir, new: u64, k: int)
    requires
        l.pane_seq().no_duplicates(),
        0 <= k < l.pane_seq().len(),
        l.pane_seq()[k] == id,
    ensures
        l.with_split(id, dir, new).pane_seq() == l.pane_seq().insert(k + 1, new),
    decreases l,
{
    let after = l.with_split(id, dir, new);
    match l {
        Layout::Empty => {},
        Layout::Pane(p) => {
            reveal_with_fuel(Layout::pane_seq, 2);
            assert(after.pane_seq() =~= l.pane_seq().insert(k + 1, new));
        },
        Layout::Split { dir: d, a, b } => {
            let pa = a.pane_seq();
            let pb = b.pane_seq();
            lemma_no_duplicates_parts(pa, pb);
            if k < pa.len() {
                assert(pa[k] == id);
                assert(pa.contains(id));
                lemma_split_absent(*b, id, dir, new);
                law_split_order(*a, id, dir, new, k);
                assert(after.pane_seq() =~= l.pane_seq().insert(k + 1, new));
            } else {
                assert(pb[k - pa.len()] == id);
                assert(pb.contains(id));
                assert(!pa.contains(id));
                lemma_split_absent(*a, id, dir, new);
                law_split_order(*b, id, dir, new, k - pa.len());
                assert(after.pane_seq() =~= l.pane_seq().insert(k + 1, new));
            }
        },
    }
}

/// Removing a pane leaves the others in their order.
pub proof fn law_remove_order(l: Layout, id: u64)
    ensures
        l.without(id).pane_seq() == l.pane_seq().filter(|p: u64| p != id),
    decreases l,
{
    let keep = |p: u64| p != id;
    match l {
        Layout::Empty => {
            assert(Seq::<u64>::empty().filter(keep) =~= Seq::<u64>::empty()) by {
                reveal(Seq::filter);
            }
        },
        Layout::Pane(p) => {
            reveal(Seq::filter);
            assert(seq![p].drop_last() =~= Seq::<u64>::empty());
            assert(Seq::<u64>::empty().filter(keep) =~= Seq::<u64>::empty());
            assert(l.without(id).pane_seq() =~= seq![p].filter(keep));
        },
        Layout::Split { dir, a, b } => {
            law_remove_order(*a, id);
            law_remove_order(*b, id);
            Seq::filter_distributes_over_add(a.pane_seq(), b.pane_seq(), keep);
            assert(l.without(id).pane_seq() =~= a.without(id).pane_seq() + b.without(
                id,
            ).pane_seq());
        },
    }
}

/// When a pane is removed from one half of a split, the other half keeps its
/// rectangles, unless the pane was all that the half had: then the other half
/// takes the space of both.
pub proof fn law_remove_in_half(dir: SplitDir, a: Layout, b: Layout, id: u64, area: Rect)
    requires
        a.solid(),
        b.solid(),
        a.pane_seq().no_duplicates(),
        a.has_pane(id),
        !b.has_pane(id),
    ensures
        ({
            let first = Layout::Split { dir, a: Box::new(a), b: Box::new(b) };
            let second = Layout::Split { dir, a: Box::new(b), b: Box::new(a) };
            let (x, y) = halves(dir, area);
            if a is Pane {
                &&& first.without(id).rect_seq(area) == b.rect_seq(area)
                &&& second.without(id).rect_seq(area) == b.rect_seq(area)
            } else {
                &&& first.without(id).rect_seq(area) == a.without(id).rect_seq(x) + b.rect_seq(y)
                &&& second.without(id).rect_seq(area) == b.rect_seq(x) + a.without(id).rect_seq(y)
            }
        }),
{
    let first = Layout::Split { dir, a: Box::new(a), b: Box::new(b) };
    let second = Layout::Split { dir, a: Box::new(b), b: Box::new(a) };
    lemma_without_absent(b, id);
    match a {
        Layout::Pane(p) => {
            assert(a.without(id) is Empty) by {
                assert(a.pane_seq()[0] == p);
            }
        },
        Layout::Split { a: l, b: r, .. } => {
            if a.without(id) is Empty {
                lemma_gone(a, id);
            }
        },
        Layout::Empty => {},
    }
    reveal_with_fuel(Layout::without, 2);
    reveal_with_fuel(Layout::rect_seq, 2);
    reveal_with_fuel(Layout::solid, 2);
}

proof fn lemma_gone(l: Layout, id: u64)
    requires
        l.solid(),
        l.without(id) is Empty,
    ensures
        forall|p: u64| l.has_pane(p) ==> p == id,
        l is Pane || !l.pane_seq().no_duplicates(),
    decreases l,
{
    crate::layout::law_remove_removes(l, id);
    assert forall|p: u64| l.has_pane(p) implies p == id by {
        assert(l.without(id).has_pane(p) == (l.has_pane(p) && p != id));
        assert(l.without(id).pane_seq().len() == 0);
    }
    if let Layout::Split { a, b, .. } = l {
        lemma_solid_has_panes(*a);
        lemma_solid_has_panes(*b);
        assert(l.pane_seq().contains(l.pane_seq()[0]));
        assert(l.has_pane(l.pane_seq()[0]));
        let n = a.pane_seq().len() as int;
        assert(l.pane_seq()[n] == b.pane_seq()[0]);
        assert(l.pane_seq().contains(l.pane_seq()[n]));
        assert(l.has_pane(l.pane_seq()[n]));
    }
}

/// Whether a pane at `to` lies in a direction from one at `from`: wholly past
/// that side of it, and level with it.
pub open spec fn lies(dir: NavDir, from: Rect, to: Rect) -> bool {
    match dir {
        NavDir::Left => to.x < from.x && to.x + to.w <= from.x && to.y < from.y + from.h && from.y
            < to.y + to.h,
        NavDir::Right => to.x > from.x && to.x >= from.x + from.w && to.y < from.y + from.h
            && from.y < to.y + to.h,
        NavDir::Up => to.y < from.y && to.y + to.h <= from.y && to.x < from.x + from.w && from.x
            < to.x + to.w,
        NavDir::Down => to.y > from.y && to.y >= from.y + from.h && to.x < from.x + from.w
            && from.x < to.x + to.w,
    }
}

/// How many cells lie between two panes, one in a direction from the other.
pub open spec fn between(dir: NavDir, from: Rect, to: Rect) -> int {
    match dir {
        NavDir::Left => from.x - to.x - to.w,
        NavDir::Right => to.x - from.x - from.w,
        NavDir::Up => from.y - to.y - to.h,
        NavDir::Down => to.y - from.y - from.h,
    }
}

/// Entry `j` is the nearest to `from` of the panes that lie in a direction
/// from it, the first in layout order where several are.
pub open spec fn nearest_toward(rs: Seq<(u64, Rect)>, dir: NavDir, from: Rect, j: int) -> bool {
    &&& 0 <= j < rs.len()
    &&& lies(dir, from, rs[j].1)
    &&& forall|i: int|
        0 <= i < rs.len() && lies(dir, from, (#[trigger] rs[i]).1) ==> between(dir, from, rs[j].1)
            <= between(dir, from, rs[i].1) && (i < j ==> between(dir, from, rs[j].1) < between(
            dir,
            from,
            rs[i].1,
        ))
}

proof fn lemma_nearest_first(rs: Seq<(u64, Rect)>, dir: NavDir, from: Rect, n: int)
    requires
        n <= rs.len(),
    ensures
        nearest(rs, dir, from, n) matches Some(k) ==> 0 <= k < n && gap(dir, from, rs[k].1) is Some
            && (forall|j: int|
            0 <= j < n && gap(dir, from, (#[trigger] rs[j]).1) is Some ==> gap(
                dir,
                from,
                rs[k].1,
            )->0 <= gap(dir, from, rs[j].1)->0 && (j < k ==> gap(dir, from, rs[k].1)->0 < gap(
                dir,
                from,
                rs[j].1,
            )->0)),
        nearest(rs, dir, from, n) is None ==> (forall|j: int|
            0 <= j < n ==> gap(dir, from, (#[trigger] rs[j]).1) is None),
    decreases n,
{
    if n > 0 {
        lemma_nearest_first(rs, dir, from, n - 1);
    }
}

/// Moving the focus left, right, up or down reaches the nearest of the panes
/// on that side of the focused pane that are level with it, and there is
/// nowhere to go when no pane is.
pub proof fn law_focus_goes_where_pointed(t: TabView, dir: NavDir, size: (u16, u16), k: int)
    requires
        t.live(),
        0 <= k < t.layout.rect_seq(whole(size)).len(),
        t.layout.rect_seq(whole(size))[k].0 == t.focused,
    ensures
        ({
            let rs = t.layout.rect_seq(whole(size));
            match t.neighbor(dir, size) {
                Some(p) => {
                    &&& p != t.focused
                    &&& t.with_focus_dir(dir, size) == (TabView { focused: p, ..t })
                    &&& exists|j: int| #[trigger]
                        nearest_toward(rs, dir, rs[k].1, j) && rs[j].0 == p
                },
                None => {
                    &&& t.with_focus_dir(dir, size) == t
                    &&& forall|i: int|
                        0 <= i < rs.len() ==> !lies(dir, rs[k].1, (#[trigger] rs[i]).1)
                },
            }
        }),
{
    let rs = t.layout.rect_seq(whole(size));
    law_rects_are_panes(t.layout, whole(size));
    lemma_entry_of(rs, t.focused, 0);
    assert(entry_of(rs, t.focused, 0) == Some(k)) by {
        let m = entry_of(rs, t.focused, 0)->0;
        assert(t.layout.pane_seq()[m] == t.layout.pane_seq()[k]);
    }
    lemma_nearest_first(rs, dir, rs[k].1, rs.len() as int);
    assert forall|i: int| 0 <= i < rs.len() implies lies(dir, rs[k].1, (#[trigger] rs[i]).1) == (
    gap(dir, rs[k].1, rs[i].1) is Some) && (lies(dir, rs[k].1, rs[i].1) ==> gap(
        dir,
        rs[k].1,
        rs[i].1,
    ) == Some(between(dir, rs[k].1, rs[i].1))) by {}
    if let Some(j) = nearest(rs, dir, rs[k].1, rs.len() as int) {
        assert(nearest_toward(rs, dir, rs[k].1, j));
        assert(rs[j].0 != t.focused) by {
            if rs[j].0 == t.focused {
                assert(t.layout.pane_seq()[j] == t.layout.pane_seq()[k]);
                assert(j == k);
            }
        }
    }
}

/// Entry `j` reaches furthest toward a side: for left it has the smallest left
/// column, for right the largest right end, and so on; the first in layout
/// order where several do.
pub open spec fn outermost(rs: Seq<(u64, Rect)>, dir: NavDir, j: int) -> bool {
    &&& 0 <= j < rs.len()
    &&& forall|i: int|
        0 <= i < rs.len() ==> match dir {
            NavDir::Left => rs[j].1.x <= (#[trigger] rs[i]).1.x && (i < j ==> rs[j].1.x < rs[i].1.x),
            NavDir::Right => rs[i].1.x + rs[i].1.w <= rs[j].1.x + rs[j].1.w && (i < j ==> rs[i].1.x
                + rs[i].1.w < rs[j].1.x + rs[j].1.w),
            NavDir::Up => rs[j].1.y <= rs[i].1.y && (i < j ==> rs[j].1.y < rs[i].1.y),
            NavDir::Down => rs[i].1.y + rs[i].1.h <= rs[j].1.y + rs[j].1.h && (i < j ==> rs[i].1.y
                + rs[i].1.h < rs[j].1.y + rs[j].1.h),
        }
}

proof fn lemma_edgemost_first(rs: Seq<(u64, Rect)>, dir: NavDir, n: int)
    requires
        n <= rs.len(),
    ensures
        edgemost(rs, dir, n) matches Some(k) ==> 0 <= k < n && (forall|j: int|
            0 <= j < n ==> crate::model::edge_gap(dir, rs[k].1) <= crate::model::edge_gap(
                dir,
                (#[trigger] rs[j]).1,
            ) && (j < k ==> crate::model::edge_gap(dir, rs[k].1) < crate::model::edge_gap(
                dir,
                rs[j].1,
            ))),
        edgemost(rs, dir, n) is None ==> n <= 0,
    decreases n,
{
    if n > 0 {
        lemma_edgemost_first(rs, dir, n - 1);
    }
}

/// Entering a tab over an edge lands on the pane that reaches furthest toward
/// that edge.
pub proof fn law_edge_focus_is_outermost(t: TabView, dir: NavDir, size: (u16, u16))
    requires
        t.live(),
    ensures
        ({
            let after = t.with_focus_edge(dir, size);
            &&& after == (TabView { focused: after.focused, ..t })
            &&& exists|j: int| #[trigger]
                outermost(t.layout.rect_seq(whole(size)), dir, j) && t.layout.rect_seq(
                    whole(size),
                )[j].0 == after.focused
        }),
{
    let rs = t.layout.rect_seq(whole(size));
    law_rects_are_panes(t.layout, whole(size));
    lemma_solid_has_panes(t.layout);
    lemma_edgemost_first(rs, dir, rs.len() as int);
    let j = edgemost(rs, dir, rs.len() as int)->0;
    assert(outermost(rs, dir, j));
}

/// Cycling the focus goes to the next pane in layout order, and from the last
/// to the first.
pub proof fn law_focus_next_is_next(t: TabView, i: int)
    requires
        t.live(),
        0 <= i < t.layout.pane_seq().len(),
        t.layout.pane_seq()[i] == t.focused,
    ensures
        t.with_focus_next() == (TabView {
            focused: if i + 1 < t.layout.pane_seq().len() {
                t.layout.pane_seq()[i + 1]
            } else {
                t.layout.pane_seq()[0]
            },
            ..t
        }),
{
    let ps = t.layout.pane_seq();
    lemma_position(ps, t.focused, 0);
    assert(position(ps, t.focused, 0) == Some(i));
    let n = ps.len() as int;
    if i + 1 < n {
        assert((i + 1) % n == i + 1) by (nonlinear_arith)
            requires
                0 <= i + 1 < n,
        ;
    } else {
        assert((i + 1) % n == 0) by (nonlinear_arith)
            requires
                i + 1 == n,
                n > 0,
        ;
    }
}

/// A zoomed tab shows its focused pane alone, on the whole area; any other tab
/// shows all its panes, each on its part.
pub proof fn law_zoom_shows_one(t: TabView, size: (u16, u16))
    ensures
        t.with_zoom(true).visible(size) == seq![
            (t.focused, Rect { x: 0, y: 0, w: size.0, h: size.1 }),
        ],
        t.with_zoom(false).visible(size) == t.layout.rect_seq(
            Rect { x: 0, y: 0, w: size.0, h: size.1 },
        ),
        t.with_zoom(true).layout == t.layout && t.with_zoom(true).focused == t.focused && t.with_zoom(
            true,
        ).name == t.name,
{
}

/// When the shell of the focused pane exits, the first pane that is left gets
/// the focus and nothing is zoomed any more; when another pane's shell exits,
/// focus and zoom stay as they are.
pub proof fn law_exit_moves_focus(t: TabView, id: u64)
    ensures
        ({
            let after = t.without_pane(id);
            let left = t.layout.pane_seq().filter(|p: u64| p != id);
            &&& after.name == t.name
            &&& after.layout.pane_seq() == left
            &&& t.focused != id ==> after.focused == t.focused && after.zoomed == t.zoomed
            &&& t.focused == id ==> !after.zoomed && (left.len() > 0 ==> after.focused == left[0])
        }),
{
    law_remove_order(t.layout, id);
}

/// Splitting the focused pane of a tab asks for a shell of the size of the new
/// half, then for every shown pane to be sized to its rectangle; the new pane
/// has the focus.
pub proof fn law_split_starts_half_size(
    t: TabView,
    dir: SplitDir,
    size: (u16, u16),
    new: u64,
    q: Rect,
)
    requires
        t.live(),
        !t.zoomed,
        !t.layout.has_pane(new),
        t.layout.rect_seq(whole(size)).contains((t.focused, q)),
    ensures
        ({
            let after = t.with_split(dir, new);
            let asked = t.split_requests(dir, size, new);
            &&& after.focused == new
            &&& after.name == t.name && !after.zoomed
            &&& after.layout == t.layout.with_split(t.focused, dir, new)
            &&& asked[0] == match dir {
                SplitDir::Vertical => EffectView::Spawn {
                    pane: new,
                    w: (if q.w == 0 {
                        0
                    } else {
                        q.w - 1 - (q.w - 1) / 2
                    }) as u16,
                    h: q.h,
                },
                SplitDir::Horizontal => EffectView::Spawn {
                    pane: new,
                    w: q.w,
                    h: (if q.h == 0 {
                        0
                    } else {
                        q.h - 1 - (q.h - 1) / 2
                    }) as u16,
                },
            }
            &&& asked.len() == 1 + after.layout.rect_seq(whole(size)).len()
            &&& forall|i: int|
                0 <= i < after.layout.rect_seq(whole(size)).len() ==> #[trigger] asked[i + 1] == (
                EffectView::Resize {
                    pane: after.layout.rect_seq(whole(size))[i].0,
                    w: after.layout.rect_seq(whole(size))[i].1.w,
                    h: after.layout.rect_seq(whole(size))[i].1.h,
                    required: true,
                })
        }),
{
    let l = t.layout.with_split(t.focused, dir, new);
    law_split_halves_the_pane(t.layout, t.focused, dir, new, whole(size), q);
    law_split_adds(t.layout, t.focused, dir, new);
    let rs = l.rect_seq(whole(size));
    law_rects_are_panes(l, whole(size));
    lemma_entry_of(rs, new, 0);
    let half = choose|b: Rect| #[trigger] rs.contains((new, b));
    assert forall|b: Rect| #[trigger] rs.contains((new, b)) implies entry_of(rs, new, 0) is Some
        && rs[entry_of(rs, new, 0)->0].1 == b by {
        let j = choose|j: int| 0 <= j < rs.len() && rs[j] == (new, b);
        let k = entry_of(rs, new, 0)->0;
        assert(rs[j].0 == new);
        assert(l.pane_seq()[j] == l.pane_seq()[k]);
        assert(j == k);
    }
}

/// Sizing a session asks every pane that its tabs show to take the size of
/// its rectangle, and nothing else.
pub proof fn law_resize_sizes_all(s: SessionView, size: (u16, u16), ti: int, k: int)
    requires
        0 <= ti < s.tabs.len(),
        0 <= k < s.tabs[ti].visible(size).len(),
    ensures
        s.resize_requests(size).contains(
            EffectView::Resize {
                pane: s.tabs[ti].visible(size)[k].0,
                w: s.tabs[ti].visible(size)[k].1.w,
                h: s.tabs[ti].visible(size)[k].1.h,
                required: true,
            },
        ),
{
    lemma_resize_has(s.tabs, size, s.tabs.len() as int, ti, k);
}

proof fn lemma_resize_has(tabs: Seq<TabView>, size: (u16, u16), n: int, ti: int, k: int)
    requires
        0 <= ti < n <= tabs.len(),
        0 <= k < tabs[ti].visible(size).len(),
    ensures
        crate::model::tab_resizes(tabs, size, n).contains(
            EffectView::Resize {
                pane: tabs[ti].visible(size)[k].0,
                w: tabs[ti].visible(size)[k].1.w,
                h: tabs[ti].visible(size)[k].1.h,
                required: true,
            },
        ),
    decreases n,
{
    let e = EffectView::Resize {
        pane: tabs[ti].visible(size)[k].0,
        w: tabs[ti].visible(size)[k].1.w,
        h: tabs[ti].visible(size)[k].1.h,
        required: true,
    };
    let before = crate::model::tab_resizes(tabs, size, n - 1);
    let now = resizes(tabs[n - 1].visible(size), true);
    lemma_contains_add(before, now, e);
    if ti < n - 1 {
        lemma_resize_has(tabs, size, n - 1, ti, k);
    } else {
        assert(now[k] == e);
    }
}

/// What sizing a session asks for is the size of a pane that one of its tabs
/// shows.
pub proof fn law_resize_sizes_only(s: SessionView, size: (u16, u16), i: int)
    requires
        0 <= i < s.resize_requests(size).len(),
    ensures
        exists|ti: int, k: int|
            0 <= ti < s.tabs.len() && 0 <= k < (#[trigger] s.tabs[ti]).visible(size).len()
                && s.resize_requests(size)[i] == (EffectView::Resize {
                pane: (#[trigger] s.tabs[ti].visible(size)[k]).0,
                w: s.tabs[ti].visible(size)[k].1.w,
                h: s.tabs[ti].visible(size)[k].1.h,
                required: true,
            }),
{
    lemma_resize_only(s.tabs, size, s.tabs.len() as int, i);
}

proof fn lemma_resize_only(tabs: Seq<TabView>, size: (u16, u16), n: int, i: int)
    requires
        0 <= n <= tabs.len(),
        0 <= i < crate::model::tab_resizes(tabs, size, n).len(),
    ensures
        exists|ti: int, k: int|
            0 <= ti < n && 0 <= k < (#[trigger] tabs[ti]).visible(size).len()
                && crate::model::tab_resizes(tabs, size, n)[i] == (EffectView::Resize {
                pane: (#[trigger] tabs[ti].visible(size)[k]).0,
                w: tabs[ti].visible(size)[k].1.w,
                h: tabs[ti].visible(size)[k].1.h,
                required: true,
            }),
    decreases n,
{
    let before = crate::model::tab_resizes(tabs, size, n - 1);
    if i < before.len() {
        lemma_resize_only(tabs, size, n - 1, i);
        let (ti, k) = choose|ti: int, k: int|
            0 <= ti < n - 1 && 0 <= k < (#[trigger] tabs[ti]).visible(size).len() && before[i] == (
            EffectView::Resize {
                pane: (#[trigger] tabs[ti].visible(size)[k]).0,
                w: tabs[ti].visible(size)[k].1.w,
                h: tabs[ti].visible(size)[k].1.h,
                required: true,
            });
        assert(0 <= ti < n && tabs[ti].visible(size)[k] == tabs[ti].visible(size)[k]);
    } else {
        let k = i - before.len();
        assert(tabs[n - 1].visible(size)[k] == tabs[n - 1].visible(size)[k]);
    }
}

/// A new session has one tab, "tab 1", of one pane that has the focus; it is
/// nobody's agent and active as of now.
pub proof fn law_new_session(name: Seq<char>, fresh: Fresh)
    ensures
        ({
            let s = SessionView::fresh(name, fresh);
            &&& s.id == fresh.session && s.name == name && !s.agent
            &&& s.last_active == fresh.now
            &&& s.active_tab == 0 && s.tabs.len() == 1
            &&& s.tabs[0].name == "tab 1"@
            &&& s.tabs[0].layout == Layout::Pane(fresh.pane)
            &&& s.tabs[0].focused == fresh.pane && !s.tabs[0].zoomed
        }),
{
    reveal_strlit("tab 1");
    assert(crate::text::decimal(1) =~= seq!['1']);
    assert(SessionView::fresh(name, fresh).tabs[0].name =~= "tab 1"@);
}

} // verus!
