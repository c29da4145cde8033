//! Sessions, tabs and panes.

use crate::effect::{effects, request, Effect, EffectView};
use crate::layout::{whole, Layout, NavDir, Rect, SplitDir};
use crate::text::{decimal, push_decimal};
use vstd::prelude::*;

verus! {

/// The width of a cell in pixels, as selections are measured.
pub const CELL_W: u32 = 8;

/// The height of a cell in pixels, as selections are measured.
pub const CELL_H: u32 = 16;

/// What a new session or pane starts from: the next free ids and the time
/// in seconds.
pub struct Fresh {
    pub session: u64,
    pub pane: u64,
    pub now: u64,
}

impl Fresh {
    /// At least `n` more sessions and panes can be numbered.
    pub open spec fn room(self, n: nat) -> bool {
        self.session + n <= u64::MAX && self.pane + n <= u64::MAX
    }
}

/// One tab: a tree of panes, one of them focused.
pub struct Tab {
    pub name: String,
    pub layout: Layout,
    pub focused: u64,
    /// The focused pane takes the whole area.
    pub zoomed: bool,
}

/// A tab with its name as a sequence of characters.
pub struct TabView {
    pub name: Seq<char>,
    pub layout: Layout,
    pub focused: u64,
    pub zoomed: bool,
}

impl View for Tab {
    type V = TabView;

    open spec fn view(&self) -> TabView {
        TabView {
            name: self.name@,
            layout: self.layout,
            focused: self.focused,
            zoomed: self.zoomed,
        }
    }
}

/// The first index from `i` on that holds `x`.
pub open spec fn position(s: Seq<u64>, x: u64, i: int) -> Option<int>
    decreases s.len() - i,
{
    if i >= s.len() {
        None
    } else if s[i] == x {
        Some(i)
    } else {
        position(s, x, i + 1)
    }
}

pub(crate) proof fn lemma_position(s: Seq<u64>, x: u64, i: int)
    requires
        0 <= i,
    ensures
        position(s, x, i) matches Some(k) ==> i <= k < s.len() && s[k] == x && (forall|j: int|
            i <= j < k ==> #[trigger] s[j] != x),
        position(s, x, i) is None ==> (forall|j: int| i <= j < s.len() ==> #[trigger] s[j] != x),
    decreases s.len() - i,
{
    if i < s.len() && s[i] != x {
        lemma_position(s, x, i + 1);
    }
}

/// The first entry from `i` on that belongs to pane `id`.
pub open spec fn entry_of(rs: Seq<(u64, Rect)>, id: u64, i: int) -> Option<int>
    decreases rs.len() - i,
{
    if i >= rs.len() {
        None
    } else if rs[i].0 == id {
        Some(i)
    } else {
        entry_of(rs, id, i + 1)
    }
}

pub proof fn lemma_entry_of(rs: Seq<(u64, Rect)>, id: u64, i: int)
    requires
        0 <= i,
    ensures
        entry_of(rs, id, i) matches Some(k) ==> i <= k < rs.len() && rs[k].0 == id,
        entry_of(rs, id, i) is None ==> (forall|j: int| i <= j < rs.len() ==> (#[trigger] rs[j]).0 != id),
    decreases rs.len() - i,
{
    if i < rs.len() && rs[i].0 != id {
        lemma_entry_of(rs, id, i + 1);
    }
}

/// Find the entry of a pane.
pub fn find_entry(rs: &Vec<(u64, Rect)>, id: u64) -> (r: Option<usize>)
    ensures
        r matches Some(k) ==> entry_of(rs@, id, 0) == Some(k as int) && k < rs@.len(),
        r is None ==> entry_of(rs@, id, 0) is None,
{
    let mut i: usize = 0;
    while i < rs.len()
        invariant
            i <= rs@.len(),
            entry_of(rs@, id, 0) == entry_of(rs@, id, i as int),
        decreases rs@.len() - i,
    {
        if rs[i].0 == id {
            return Some(i);
        }
        i = i + 1;
    }
    None
}

/// Whether the spans `a..a+m` and `b..b+n` have a cell in common.
pub open spec fn overlap(a: u16, m: u16, b: u16, n: u16) -> bool {
    a < b + n && b < a + m
}

/// The gap between a pane and another that lies in a direction from it,
/// level with it. A pane does not lie in any direction from itself, not even
/// one without columns or rows.
pub open spec fn gap(dir: NavDir, from: Rect, to: Rect) -> Option<int> {
    match dir {
        NavDir::Left => if to.x < from.x && to.x + to.w <= from.x && overlap(
            from.y,
            from.h,
            to.y,
            to.h,
        ) {
            Some(from.x - (to.x + to.w))
        } else {
            None
        },
        NavDir::Right => if from.x < to.x && from.x + from.w <= to.x && overlap(
            from.y,
            from.h,
            to.y,
            to.h,
        ) {
            Some(to.x - (from.x + from.w))
        } else {
            None
        },
        NavDir::Up => if to.y < from.y && to.y + to.h <= from.y && overlap(
            from.x,
            from.w,
            to.x,
            to.w,
        ) {
            Some(from.y - (to.y + to.h))
        } else {
            None
        },
        NavDir::Down => if from.y < to.y && from.y + from.h <= to.y && overlap(
            from.x,
            from.w,
            to.x,
            to.w,
        ) {
            Some(to.y - (from.y + from.h))
        } else {
            None
        },
    }
}

/// Of the first `n` panes, the nearest one in a direction.
pub open spec fn nearest(rs: Seq<(u64, Rect)>, dir: NavDir, from: Rect, n: int) -> Option<int>
    decreases n,
{
    if n <= 0 {
        None
    } else {
        let best = nearest(rs, dir, from, n - 1);
        match gap(dir, from, rs[n - 1].1) {
            None => best,
            Some(g) => match best {
                None => Some(n - 1),
                Some(k) => if g < gap(dir, from, rs[k].1)->0 {
                    Some(n - 1)
                } else {
                    Some(k)
                },
            },
        }
    }
}

/// How far a rectangle is from an edge of the screen.
pub open spec fn edge_gap(dir: NavDir, r: Rect) -> int {
    match dir {
        NavDir::Left => r.x as int,
        NavDir::Right => u16::MAX - (r.x + r.w),
        NavDir::Up => r.y as int,
        NavDir::Down => u16::MAX - (r.y + r.h),
    }
}

/// Of the first `n` panes, the nearest to an edge of the screen.
pub open spec fn edgemost(rs: Seq<(u64, Rect)>, dir: NavDir, n: int) -> Option<int>
    decreases n,
{
    if n <= 0 {
        None
    } else {
        match edgemost(rs, dir, n - 1) {
            None => Some(n - 1),
            Some(k) => if edge_gap(dir, rs[n - 1].1) < edge_gap(dir, rs[k].1) {
                Some(n - 1)
            } else {
                Some(k)
            },
        }
    }
}

/// The gap to a pane in a direction; `-1` when it does not lie there.
fn gap_to(dir: NavDir, from: Rect, to: Rect) -> (r: i32)
    requires
        from.fits(),
        to.fits(),
    ensures
        gap(dir, from, to) matches Some(g) ==> r == g && 0 <= g,
        gap(dir, from, to) is None ==> r == -1,
{
    let (fx, fy, fw, fh): (i32, i32, i32, i32) = (
        from.x as i32,
        from.y as i32,
        from.w as i32,
        from.h as i32,
    );
    let (tx, ty, tw, th): (i32, i32, i32, i32) = (
        to.x as i32,
        to.y as i32,
        to.w as i32,
        to.h as i32,
    );
    let level_y: bool = fy < ty + th && ty < fy + fh;
    let level_x: bool = fx < tx + tw && tx < fx + fw;
    match dir {
        NavDir::Left => if tx < fx && tx + tw <= fx && level_y {
            fx - (tx + tw)
        } else {
            -1
        },
        NavDir::Right => if fx < tx && fx + fw <= tx && level_y {
            tx - (fx + fw)
        } else {
            -1
        },
        NavDir::Up => if ty < fy && ty + th <= fy && level_x {
            fy - (ty + th)
        } else {
            -1
        },
        NavDir::Down => if fy < ty && fy + fh <= ty && level_x {
            ty - (fy + fh)
        } else {
            -1
        },
    }
}

/// Every rectangle can be addressed with 16 bits.
pub open spec fn all_fit(rs: Seq<(u64, Rect)>) -> bool {
    forall|i: int| 0 <= i < rs.len() ==> (#[trigger] rs[i]).1.fits()
}

fn find_nearest(rs: &Vec<(u64, Rect)>, dir: NavDir, from: Rect) -> (r: Option<usize>)
    requires
        from.fits(),
        all_fit(rs@),
    ensures
        r matches Some(k) ==> nearest(rs@, dir, from, rs@.len() as int) == Some(k as int) && k
            < rs@.len(),
        r is None ==> nearest(rs@, dir, from, rs@.len() as int) is None,
{
    let mut best: Option<usize> = None;
    let mut best_gap: i32 = -1;
    let mut i: usize = 0;
    while i < rs.len()
        invariant
            i <= rs@.len(),
            from.fits(),
            all_fit(rs@),
            best matches Some(k) ==> nearest(rs@, dir, from, i as int) == Some(k as int) && k < i
                && gap(dir, from, rs@[k as int].1) == Some(best_gap as int),
            best is None ==> nearest(rs@, dir, from, i as int) is None,
        decreases rs@.len() - i,
    {
        let g: i32 = gap_to(dir, from, rs[i].1);
        if g >= 0 && (best.is_none() || g < best_gap) {
            best = Some(i);
            best_gap = g;
        }
        i = i + 1;
    }
    best
}

fn find_edgemost(rs: &Vec<(u64, Rect)>, dir: NavDir) -> (r: Option<usize>)
    requires
        all_fit(rs@),
    ensures
        r matches Some(k) ==> edgemost(rs@, dir, rs@.len() as int) == Some(k as int) && k
            < rs@.len(),
        r is None ==> edgemost(rs@, dir, rs@.len() as int) is None,
{
    let mut best: Option<usize> = None;
    let mut best_gap: u16 = 0;
    let mut i: usize = 0;
    while i < rs.len()
        invariant
            i <= rs@.len(),
            all_fit(rs@),
            best matches Some(k) ==> edgemost(rs@, dir, i as int) == Some(k as int) && k < i
                && edge_gap(dir, rs@[k as int].1) == best_gap,
            best is None ==> edgemost(rs@, dir, i as int) is None,
        decreases rs@.len() - i,
    {
        let r: Rect = rs[i].1;
        assert(rs@[i as int].1.fits());
        let g: u16 = match dir {
            NavDir::Left => r.x,
            NavDir::Right => 65535 - (r.x + r.w),
            NavDir::Up => r.y,
            NavDir::Down => 65535 - (r.y + r.h),
        };
        if best.is_none() || g < best_gap {
            best = Some(i);
            best_gap = g;
        }
        i = i + 1;
    }
    best
}

/// One resize request per pane.
pub open spec fn resizes(rs: Seq<(u64, Rect)>, required: bool) -> Seq<EffectView> {
    rs.map_values(
        |p: (u64, Rect)| EffectView::Resize { pane: p.0, w: p.1.w, h: p.1.h, required },
    )
}

impl TabView {
    /// The tab has panes, all different, and the focused pane is one of them.
    pub open spec fn live(self) -> bool {
        &&& self.layout.solid()
        &&& self.layout.pane_seq().no_duplicates()
        &&& self.layout.has_pane(self.focused)
    }

    /// A new tab with one pane.
    pub open spec fn fresh(name: Seq<char>, pane: u64) -> TabView {
        TabView { name, layout: Layout::Pane(pane), focused: pane, zoomed: false }
    }

    /// The visible panes with their rectangles.
    pub open spec fn visible(self, size: (u16, u16)) -> Seq<(u64, Rect)> {
        if self.zoomed {
            seq![(self.focused, whole(size))]
        } else {
            self.layout.rect_seq(whole(size))
        }
    }

    /// The tab zoomed or not.
    pub open spec fn with_zoom(self, zoomed: bool) -> TabView {
        TabView { zoomed, ..self }
    }

    /// The tab with its focused pane split and the new pane focused.
    pub open spec fn with_split(self, dir: SplitDir, new: u64) -> TabView {
        TabView { layout: self.layout.with_split(self.focused, dir, new), focused: new, ..self }
    }

    /// The rectangle of a pane, the whole area where it has none.
    pub open spec fn rect_of(self, size: (u16, u16), id: u64) -> Rect {
        let rs = self.layout.rect_seq(whole(size));
        match entry_of(rs, id, 0) {
            Some(k) => rs[k].1,
            None => whole(size),
        }
    }

    /// What splitting asks for: a shell for the new pane, then new sizes.
    pub open spec fn split_requests(self, dir: SplitDir, size: (u16, u16), new: u64) -> Seq<
        EffectView,
    > {
        let t = self.with_split(dir, new);
        let r = t.rect_of(size, new);
        seq![EffectView::Spawn { pane: new, w: r.w, h: r.h }] + resizes(t.visible(size), true)
    }

    /// The tab with the next pane in layout order focused, wrapping.
    pub open spec fn with_focus_next(self) -> TabView {
        let ps = self.layout.pane_seq();
        match position(ps, self.focused, 0) {
            Some(i) => TabView { focused: ps[(i + 1) % ps.len() as int], ..self },
            None => if ps.len() > 0 {
                TabView { focused: ps[0], ..self }
            } else {
                self
            },
        }
    }

    /// The pane that moving the focus in a direction reaches.
    pub open spec fn neighbor(self, dir: NavDir, size: (u16, u16)) -> Option<u64> {
        let rs = self.layout.rect_seq(whole(size));
        match entry_of(rs, self.focused, 0) {
            Some(k) => match nearest(rs, dir, rs[k].1, rs.len() as int) {
                Some(j) => Some(rs[j].0),
                None => None,
            },
            None => None,
        }
    }

    /// The tab with the focus moved in a direction, where there is a pane.
    pub open spec fn with_focus_dir(self, dir: NavDir, size: (u16, u16)) -> TabView {
        match self.neighbor(dir, size) {
            Some(p) => TabView { focused: p, ..self },
            None => self,
        }
    }

    /// The tab with the pane nearest to an edge focused.
    pub open spec fn with_focus_edge(self, dir: NavDir, size: (u16, u16)) -> TabView {
        let rs = self.layout.rect_seq(whole(size));
        match edgemost(rs, dir, rs.len() as int) {
            Some(j) => TabView { focused: rs[j].0, ..self },
            None => self,
        }
    }

    /// The tab after the shell of pane `id` has exited.
    pub open spec fn without_pane(self, id: u64) -> TabView {
        let layout = self.layout.without(id);
        if self.focused == id {
            let ps = layout.pane_seq();
            TabView {
                layout,
                focused: if ps.len() > 0 {
                    ps[0]
                } else {
                    id
                },
                zoomed: false,
                ..self
            }
        } else {
            TabView { layout, ..self }
        }
    }
}

fn whole_rect(size: (u16, u16)) -> (r: Rect)
    ensures
        r == whole(size),
        r.fits(),
{
    Rect { x: 0, y: 0, w: size.0, h: size.1 }
}

impl Tab {
    /// A tab with one pane, whose shell is asked for.
    pub fn new(size: (u16, u16), name: String, fresh: &mut Fresh, fx: &mut Vec<Effect>) -> (r: Tab)
        requires
            old(fresh).room(1),
        ensures
            r@ == TabView::fresh(name@, old(fresh).pane),
            *final(fresh) == (Fresh { pane: (old(fresh).pane + 1) as u64, ..*old(fresh) }),
            effects(final(fx)@) == effects(old(fx)@).push(
                EffectView::Spawn { pane: old(fresh).pane, w: size.0, h: size.1 },
            ),
    {
        let pane: u64 = fresh.pane;
        fresh.pane = pane + 1;
        request(fx, Effect::Spawn { pane, w: size.0, h: size.1 });
        Tab { name, layout: Layout::Pane(pane), focused: pane, zoomed: false }
    }

    /// Whether no pane is left.
    pub fn is_empty(&self) -> (r: bool)
        ensures
            r == (self@.layout is Empty),
    {
        matches!(self.layout, Layout::Empty)
    }

    /// The visible panes with their rectangles.
    pub fn visible_rects(&self, size: (u16, u16)) -> (r: Vec<(u64, Rect)>)
        ensures
            r@ == self@.visible(size),
    {
        if self.zoomed {
            let mut r: Vec<(u64, Rect)> = Vec::new();
            r.push((self.focused, whole_rect(size)));
            assert(r@ =~= self@.visible(size));
            r
        } else {
            self.layout.rects(whole_rect(size))
        }
    }

    /// Size the visible panes' terminals to their rectangles.
    pub fn apply_layout(&self, size: (u16, u16), required: bool, fx: &mut Vec<Effect>)
        ensures
            effects(final(fx)@) == effects(old(fx)@) + resizes(self@.visible(size), required),
    {
        let rs: Vec<(u64, Rect)> = self.visible_rects(size);
        let mut i: usize = 0;
        assert(effects(fx@) =~= effects(old(fx)@) + resizes(rs@, required).take(0));
        while i < rs.len()
            invariant
                i <= rs@.len(),
                effects(fx@) == effects(old(fx)@) + resizes(rs@, required).take(i as int),
            decreases rs@.len() - i,
        {
            request(fx, Effect::Resize { pane: rs[i].0, w: rs[i].1.w, h: rs[i].1.h, required });
            assert(effects(fx@) =~= effects(old(fx)@) + resizes(rs@, required).take(i + 1));
            i = i + 1;
        }
        assert(resizes(rs@, required).take(i as int) =~= resizes(rs@, required));
    }

    /// Let the focused pane take the whole area, or no longer.
    pub fn set_zoom(
        &mut self,
        zoomed: bool,
        size: (u16, u16),
        required: bool,
        fx: &mut Vec<Effect>,
    )
        ensures
            final(self)@ == old(self)@.with_zoom(zoomed),
            effects(final(fx)@) == effects(old(fx)@) + resizes(
                final(self)@.visible(size),
                required,
            ),
    {
        self.zoomed = zoomed;
        self.apply_layout(size, required, fx);
    }

    /// Split the focused pane and focus the new one.
    pub fn split(
        &mut self,
        dir: SplitDir,
        size: (u16, u16),
        fresh: &mut Fresh,
        fx: &mut Vec<Effect>,
    )
        requires
            old(fresh).room(1),
        ensures
            final(self)@ == old(self)@.with_split(dir, old(fresh).pane),
            *final(fresh) == (Fresh { pane: (old(fresh).pane + 1) as u64, ..*old(fresh) }),
            effects(final(fx)@) == effects(old(fx)@) + old(self)@.split_requests(
                dir,
                size,
                old(fresh).pane,
            ),
    {
        let new: u64 = fresh.pane;
        fresh.pane = new + 1;
        let mut layout: Layout = Layout::Empty;
        std::mem::swap(&mut layout, &mut self.layout);
        self.layout = layout.split_pane(self.focused, dir, new);
        self.focused = new;
        let rs: Vec<(u64, Rect)> = self.layout.rects(whole_rect(size));
        let rect: Rect = match find_entry(&rs, new) {
            Some(k) => rs[k].1,
            None => whole_rect(size),
        };
        request(fx, Effect::Spawn { pane: new, w: rect.w, h: rect.h });
        self.apply_layout(size, true, fx);
        assert(effects(fx@) =~= effects(old(fx)@) + old(self)@.split_requests(dir, size, new));
    }

    /// Move the focus to the next pane in layout order, wrapping.
    pub fn focus_next(&mut self)
        ensures
            final(self)@ == old(self)@.with_focus_next(),
    {
        let ps: Vec<u64> = self.layout.panes();
        let mut i: usize = 0;
        while i < ps.len()
            invariant
                i <= ps@.len(),
                position(ps@, self.focused, 0) == position(ps@, self.focused, i as int),
                *self == *old(self),
                ps@ == self.layout.pane_seq(),
            decreases ps@.len() - i,
        {
            if ps[i] == self.focused {
                let next: usize = if i + 1 < ps.len() {
                    i + 1
                } else {
                    0
                };
                assert(next == (i + 1) % ps@.len() as int) by {
                    if i + 1 == ps@.len() {
                        assert((i + 1) % ps@.len() as int == 0) by (nonlinear_arith)
                            requires
                                i + 1 == ps@.len(),
                                ps@.len() > 0,
                        ;
                    } else {
                        assert((i + 1) % ps@.len() as int == i + 1) by (nonlinear_arith)
                            requires
                                0 <= i + 1 < ps@.len(),
                        ;
                    }
                }
                self.focused = ps[next];
                return;
            }
            i = i + 1;
        }
        if ps.len() > 0 {
            self.focused = ps[0];
        }
    }

    /// Move the focus in a direction; false when no pane lies there.
    pub fn focus_dir(&mut self, dir: NavDir, size: (u16, u16)) -> (moved: bool)
        ensures
            final(self)@ == old(self)@.with_focus_dir(dir, size),
            moved == (old(self)@.neighbor(dir, size) is Some),
    {
        let rs: Vec<(u64, Rect)> = self.layout.rects(whole_rect(size));
        proof {
            crate::layout::law_panes_tile(self.layout, whole(size));
        }
        match find_entry(&rs, self.focused) {
            Some(k) => {
                assert(rs@[k as int].1.fits());
                match find_nearest(&rs, dir, rs[k].1) {
                    Some(j) => {
                        self.focused = rs[j].0;
                        true
                    },
                    None => false,
                }
            },
            None => false,
        }
    }

    /// Focus the pane nearest to an edge.
    pub fn focus_edge(&mut self, dir: NavDir, size: (u16, u16))
        ensures
            final(self)@ == old(self)@.with_focus_edge(dir, size),
    {
        let rs: Vec<(u64, Rect)> = self.layout.rects(whole_rect(size));
        proof {
            crate::layout::law_panes_tile(self.layout, whole(size));
        }
        if let Some(j) = find_edgemost(&rs, dir) {
            self.focused = rs[j].0;
        }
    }

    /// Drop the pane whose shell has exited.
    pub fn remove_pane(&mut self, id: u64)
        ensures
            final(self)@ == old(self)@.without_pane(id),
    {
        let mut layout: Layout = Layout::Empty;
        std::mem::swap(&mut layout, &mut self.layout);
        self.layout = layout.remove_pane(id);
        if self.focused == id {
            let ps: Vec<u64> = self.layout.panes();
            if ps.len() > 0 {
                self.focused = ps[0];
            }
            self.zoomed = false;
        }
    }
}

/// Tabs with their names as sequences of characters.
pub open spec fn tab_views(s: Seq<Tab>) -> Seq<TabView> {
    s.map_values(|t: Tab| t@)
}

/// A named group of tabs.
pub struct Session {
    /// Stays the same while the session lives.
    pub id: u64,
    pub name: String,
    /// Belongs to an agent.
    pub agent: bool,
    /// When it was last active, in seconds.
    pub last_active: u64,
    pub tabs: Vec<Tab>,
    pub active_tab: usize,
}

/// A session with its names as sequences of characters.
#[verifier::ext_equal]
pub struct SessionView {
    pub id: u64,
    pub name: Seq<char>,
    pub agent: bool,
    pub last_active: u64,
    pub tabs: Seq<TabView>,
    pub active_tab: usize,
}

impl View for Session {
    type V = SessionView;

    open spec fn view(&self) -> SessionView {
        SessionView {
            id: self.id,
            name: self.name@,
            agent: self.agent,
            last_active: self.last_active,
            tabs: tab_views(self.tabs@),
            active_tab: self.active_tab,
        }
    }
}

/// Sessions with their names as sequences of characters.
pub open spec fn session_views(s: Seq<Session>) -> Seq<SessionView> {
    s.map_values(|x: Session| x@)
}

/// The name that a tab gets when none is given.
pub open spec fn tab_name(n: nat) -> Seq<char> {
    seq!['t', 'a', 'b', ' '] + decimal(n)
}

/// The name that a session gets when none is given.
pub open spec fn session_name(n: nat) -> Seq<char> {
    seq!['s', 'e', 's', 's', 'i', 'o', 'n', ' '] + decimal(n)
}

/// The name that a tab gets when none is given.
pub fn default_tab_name(n: u128) -> (r: String)
    ensures
        r@ == tab_name(n as nat),
{
    let mut r: String = String::new();
    r.append("tab ");
    proof {
        reveal_strlit("tab ");
    }
    assert(r@ =~= seq!['t', 'a', 'b', ' ']);
    push_decimal(&mut r, n);
    r
}

/// The name that a session gets when none is given.
pub fn default_session_name(n: u128) -> (r: String)
    ensures
        r@ == session_name(n as nat),
{
    let mut r: String = String::new();
    r.append("session ");
    proof {
        reveal_strlit("session ");
    }
    assert(r@ =~= seq!['s', 'e', 's', 's', 'i', 'o', 'n', ' ']);
    push_decimal(&mut r, n);
    r
}

/// The resize requests of the first `n` tabs.
pub open spec fn tab_resizes(tabs: Seq<TabView>, size: (u16, u16), n: int) -> Seq<EffectView>
    decreases n,
{
    if n <= 0 {
        Seq::empty()
    } else {
        tab_resizes(tabs, size, n - 1) + resizes(tabs[n - 1].visible(size), true)
    }
}

impl SessionView {
    /// A new session with one tab of one pane.
    pub open spec fn fresh(name: Seq<char>, fresh: Fresh) -> SessionView {
        SessionView {
            id: fresh.session,
            name,
            agent: false,
            last_active: fresh.now,
            tabs: seq![TabView::fresh(tab_name(1), fresh.pane)],
            active_tab: 0,
        }
    }

    /// The session has tabs, all live, and one of them is open.
    pub open spec fn live(self) -> bool {
        &&& self.active_tab < self.tabs.len() <= usize::MAX
        &&& forall|i: int| 0 <= i < self.tabs.len() ==> (#[trigger] self.tabs[i]).live()
    }

    /// The open tab.
    pub open spec fn tab(self) -> TabView {
        self.tabs[self.active_tab as int]
    }

    /// The session with its open tab replaced.
    pub open spec fn with_tab(self, t: TabView) -> SessionView {
        SessionView { tabs: self.tabs.update(self.active_tab as int, t), ..self }
    }

    /// What sizing the session asks for.
    pub open spec fn resize_requests(self, size: (u16, u16)) -> Seq<EffectView> {
        tab_resizes(self.tabs, size, self.tabs.len() as int)
    }
}

impl Fresh {
    /// After one session with its pane has been numbered.
    pub open spec fn after_session(self) -> Fresh {
        Fresh { session: (self.session + 1) as u64, pane: (self.pane + 1) as u64, now: self.now }
    }

    /// After one pane has been numbered.
    pub open spec fn after_pane(self) -> Fresh {
        Fresh { pane: (self.pane + 1) as u64, ..self }
    }
}

impl Session {
    /// A session with one tab of one pane, whose shell is asked for.
    pub fn new(
        size: (u16, u16),
        name: String,
        fresh: &mut Fresh,
        fx: &mut Vec<Effect>,
    ) -> (r: Session)
        requires
            old(fresh).room(1),
        ensures
            r@ == SessionView::fresh(name@, *old(fresh)),
            *final(fresh) == old(fresh).after_session(),
            effects(final(fx)@) == effects(old(fx)@).push(
                EffectView::Spawn { pane: old(fresh).pane, w: size.0, h: size.1 },
            ),
    {
        let id: u64 = fresh.session;
        let last_active: u64 = fresh.now;
        let tab: Tab = Tab::new(size, default_tab_name(1), fresh, fx);
        fresh.session = id + 1;
        let mut tabs: Vec<Tab> = Vec::new();
        tabs.push(tab);
        let r = Session { id, name, agent: false, last_active, tabs, active_tab: 0 };
        assert(r@ =~= SessionView::fresh(name@, *old(fresh)));
        r
    }

    /// Size every tab's panes to an area.
    pub fn resize(&self, size: (u16, u16), fx: &mut Vec<Effect>)
        ensures
            effects(final(fx)@) == effects(old(fx)@) + self@.resize_requests(size),
    {
        let mut i: usize = 0;
        assert(effects(fx@) =~= effects(old(fx)@) + tab_resizes(self@.tabs, size, 0));
        while i < self.tabs.len()
            invariant
                i <= self.tabs@.len(),
                effects(fx@) == effects(old(fx)@) + tab_resizes(self@.tabs, size, i as int),
            decreases self.tabs@.len() - i,
        {
            self.tabs[i].apply_layout(size, true, fx);
            i = i + 1;
            assert(effects(fx@) =~= effects(old(fx)@) + tab_resizes(self@.tabs, size, i as int));
        }
    }
}

/// Zooming keeps a tab live.
pub proof fn law_zoom_live(t: TabView, zoomed: bool)
    requires
        t.live(),
    ensures
        t.with_zoom(zoomed).live(),
{
}

/// Splitting keeps a tab live, and the new pane has the focus.
pub proof fn law_split_live(t: TabView, dir: SplitDir, new: u64)
    requires
        t.live(),
        !t.layout.has_pane(new),
    ensures
        t.with_split(dir, new).live(),
{
    crate::layout::law_split_adds(t.layout, t.focused, dir, new);
    assert(t.layout.with_split(t.focused, dir, new).has_pane(new));
}

/// Moving the focus keeps a tab live.
pub proof fn law_focus_live(t: TabView, dir: NavDir, size: (u16, u16))
    requires
        t.live(),
    ensures
        t.with_focus_next().live(),
        t.with_focus_dir(dir, size).live(),
        t.with_focus_edge(dir, size).live(),
{
    let ps = t.layout.pane_seq();
    let rs = t.layout.rect_seq(whole(size));
    crate::layout::law_rects_are_panes(t.layout, whole(size));
    lemma_position(ps, t.focused, 0);
    if let Some(i) = position(ps, t.focused, 0) {
        let k = (i + 1) % ps.len() as int;
        assert(0 <= k < ps.len());
        assert(ps.contains(ps[k]));
    }
    lemma_entry_of(rs, t.focused, 0);
    if let Some(k) = entry_of(rs, t.focused, 0) {
        lemma_nearest(rs, dir, rs[k].1, rs.len() as int);
        if let Some(j) = nearest(rs, dir, rs[k].1, rs.len() as int) {
            assert(rs[j].0 == ps[j]);
            assert(ps.contains(ps[j]));
        }
    }
    lemma_edgemost(rs, dir, rs.len() as int);
    if let Some(j) = edgemost(rs, dir, rs.len() as int) {
        assert(rs[j].0 == ps[j]);
        assert(ps.contains(ps[j]));
    }
}

/// Dropping a pane leaves a live tab, or one without panes.
pub proof fn law_remove_live(t: TabView, id: u64)
    requires
        t.live(),
    ensures
        t.without_pane(id).layout is Empty || t.without_pane(id).live(),
{
    crate::layout::law_remove_removes(t.layout, id);
    let l = t.layout.without(id);
    if l !is Empty {
        lemma_solid_has_panes(l);
        assert(l.pane_seq().contains(l.pane_seq()[0]));
        assert(l.has_pane(t.focused) == (t.layout.has_pane(t.focused) && t.focused != id));
    }
}

pub(crate) proof fn lemma_solid_has_panes(l: Layout)
    requires
        l.solid(),
    ensures
        l.pane_seq().len() > 0,
    decreases l,
{
    if let Layout::Split { dir, a, b } = l {
        lemma_solid_has_panes(*a);
    }
}

proof fn lemma_nearest(rs: Seq<(u64, Rect)>, dir: NavDir, from: Rect, n: int)
    requires
        n <= rs.len(),
    ensures
        nearest(rs, dir, from, n) matches Some(k) ==> 0 <= k < n && gap(dir, from, rs[k].1) is Some
            && (forall|j: int|
            0 <= j < n && gap(dir, from, (#[trigger] rs[j]).1) is Some ==> gap(
                dir,
                from,
                rs[k].1,
            )->0 <= gap(dir, from, rs[j].1)->0),
        nearest(rs, dir, from, n) is None ==> (forall|j: int|
            0 <= j < n ==> gap(dir, from, (#[trigger] rs[j]).1) is None),
    decreases n,
{
    if n > 0 {
        lemma_nearest(rs, dir, from, n - 1);
    }
}

proof fn lemma_edgemost(rs: Seq<(u64, Rect)>, dir: NavDir, n: int)
    requires
        n <= rs.len(),
    ensures
        edgemost(rs, dir, n) matches Some(k) ==> 0 <= k < n && (forall|j: int|
            0 <= j < n ==> edge_gap(dir, rs[k].1) <= edge_gap(dir, (#[trigger] rs[j]).1)),
        edgemost(rs, dir, n) is None ==> n <= 0,
    decreases n,
{
    if n > 0 {
        lemma_edgemost(rs, dir, n - 1);
    }
}

/// Moving the focus in a direction reaches another pane that lies there, and
/// no pane that lies there is nearer; where no pane lies there it stays.
pub proof fn law_focus_dir_nearest(t: TabView, dir: NavDir, size: (u16, u16), k: int)
    requires
        t.live(),
        0 <= k < t.layout.rect_seq(whole(size)).len(),
        entry_of(t.layout.rect_seq(whole(size)), t.focused, 0) == Some(k),
    ensures
        ({
            let rs = t.layout.rect_seq(whole(size));
            match t.neighbor(dir, size) {
                Some(p) => exists|j: int|
                    0 <= j < rs.len() && j != k && (#[trigger] rs[j]).0 == p && gap(
                        dir,
                        rs[k].1,
                        rs[j].1,
                    ) is Some && (forall|i: int|
                        0 <= i < rs.len() && gap(dir, rs[k].1, (#[trigger] rs[i]).1) is Some
                            ==> gap(dir, rs[k].1, rs[j].1)->0 <= gap(dir, rs[k].1, rs[i].1)->0),
                None => forall|i: int|
                    0 <= i < rs.len() ==> gap(dir, rs[k].1, (#[trigger] rs[i]).1) is None,
            }
        }),
{
    let rs = t.layout.rect_seq(whole(size));
    lemma_nearest(rs, dir, rs[k].1, rs.len() as int);
}

/// The focus after `n` moves to the next pane.
pub open spec fn focus_cycled(t: TabView, n: nat) -> TabView
    decreases n,
{
    if n == 0 {
        t
    } else {
        focus_cycled(t, (n - 1) as nat).with_focus_next()
    }
}

proof fn lemma_focus_cycled(t: TabView, i: int, n: nat)
    requires
        t.live(),
        0 <= i < t.layout.pane_seq().len(),
        t.layout.pane_seq()[i] == t.focused,
    ensures
        focus_cycled(t, n) == (TabView {
            focused: t.layout.pane_seq()[(i + n) % t.layout.pane_seq().len() as int],
            ..t
        }),
    decreases n,
{
    let ps = t.layout.pane_seq();
    let m = ps.len() as int;
    if n == 0 {
        assert(i % m == i) by (nonlinear_arith)
            requires
                0 <= i < m,
        ;
    } else {
        lemma_focus_cycled(t, i, (n - 1) as nat);
        let before = focus_cycled(t, (n - 1) as nat);
        let k = (i + n - 1) % m;
        assert(0 <= k < m) by (nonlinear_arith)
            requires
                m > 0,
                k == (i + n - 1) % m,
        ;
        lemma_position(ps, before.focused, 0);
        assert(ps[k] == before.focused);
        assert(position(ps, before.focused, 0) == Some(k));
        assert((k + 1) % m == (i + n) % m) by {
            vstd::arithmetic::div_mod::lemma_add_mod_noop_right(1, i + n - 1, m);
        }
    }
}

/// Cycling the focus visits every pane and comes back around.
pub proof fn law_focus_next_cycles(t: TabView, p: u64)
    requires
        t.live(),
        t.layout.has_pane(p),
    ensures
        focus_cycled(t, t.layout.pane_seq().len()) == t,
        exists|n: nat| #[trigger] focus_cycled(t, n).focused == p,
{
    let ps = t.layout.pane_seq();
    let m = ps.len() as int;
    let i = choose|i: int| 0 <= i < ps.len() && ps[i] == t.focused;
    let j = choose|j: int| 0 <= j < ps.len() && ps[j] == p;
    lemma_focus_cycled(t, i, ps.len());
    assert((i + m) % m == i) by (nonlinear_arith)
        requires
            0 <= i < m,
    ;
    let n = (if j >= i {
        j - i
    } else {
        j - i + m
    }) as nat;
    lemma_focus_cycled(t, i, n);
    assert((i + n) % m == j) by (nonlinear_arith)
        requires
            0 <= j < m,
            i + n == j || i + n == j + m,
    ;
    assert(focus_cycled(t, n).focused == p);
}

} // verus!
