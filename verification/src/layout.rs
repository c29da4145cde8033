//! Pane geometry: rectangles and the tree of splits that divides a tab.

use vstd::prelude::*;

verus! {

/// A rectangle of cells.
#[derive(Clone, Copy, PartialEq, Eq, Structural)]
pub struct Rect {
    pub x: u16,
    pub y: u16,
    pub w: u16,
    pub h: u16,
}

impl Rect {
    /// The far corner can be addressed with 16 bits.
    pub open spec fn fits(self) -> bool {
        self.x + self.w <= u16::MAX && self.y + self.h <= u16::MAX
    }

    /// Whether a cell lies in the rectangle.
    pub open spec fn has(self, x: int, y: int) -> bool {
        self.x <= x < self.x + self.w && self.y <= y < self.y + self.h
    }

    /// Whether the rectangle lies within another.
    pub open spec fn within(self, r: Rect) -> bool {
        &&& r.x <= self.x
        &&& self.x + self.w <= r.x + r.w
        &&& r.y <= self.y
        &&& self.y + self.h <= r.y + r.h
    }

    /// No cell lies in both rectangles.
    pub open spec fn apart(self, r: Rect) -> bool {
        forall|x: int, y: int| !(#[trigger] self.has(x, y) && r.has(x, y))
    }
}

/// The whole of an area of `size` (columns, rows).
pub open spec fn whole(size: (u16, u16)) -> Rect {
    Rect { x: 0, y: 0, w: size.0, h: size.1 }
}

/// How a pane is split.
#[derive(Clone, Copy, PartialEq, Eq, Structural)]
pub enum SplitDir {
    /// Stacked, with a horizontal divider.
    Horizontal,
    /// Side by side, with a vertical divider.
    Vertical,
}

/// A direction to move the focus in.
#[derive(Clone, Copy, PartialEq, Eq, Structural)]
pub enum NavDir {
    Left,
    Right,
    Up,
    Down,
}

/// The length of the first half of `n` cells with one cell of divider.
pub open spec fn first_half(n: u16) -> int {
    if n == 0 {
        0
    } else {
        (n - 1) / 2
    }
}

/// The length of the second half of `n` cells with one cell of divider.
pub open spec fn second_half(n: u16) -> int {
    if n == 0 {
        0
    } else {
        n - 1 - first_half(n)
    }
}

/// The two halves of a rectangle, with one cell of divider between them.
pub open spec fn halves(dir: SplitDir, r: Rect) -> (Rect, Rect) {
    match dir {
        SplitDir::Horizontal => (
            Rect { h: first_half(r.h) as u16, ..r },
            Rect {
                y: (r.y + r.h - second_half(r.h)) as u16,
                h: second_half(r.h) as u16,
                ..r
            },
        ),
        SplitDir::Vertical => (
            Rect { w: first_half(r.w) as u16, ..r },
            Rect {
                x: (r.x + r.w - second_half(r.w)) as u16,
                w: second_half(r.w) as u16,
                ..r
            },
        ),
    }
}

/// Divide a rectangle in two, always 50/50, one cell going to the divider.
pub fn split_rect(dir: SplitDir, rect: Rect) -> (r: (Rect, Rect))
    requires
        rect.fits(),
    ensures
        r == halves(dir, rect),
{
    match dir {
        SplitDir::Horizontal => {
            let room: u16 = if rect.h == 0 {
                0
            } else {
                rect.h - 1
            };
            let a: u16 = room / 2;
            let b: u16 = room - a;
            (
                Rect { x: rect.x, y: rect.y, w: rect.w, h: a },
                Rect { x: rect.x, y: rect.y + (rect.h - b), w: rect.w, h: b },
            )
        },
        SplitDir::Vertical => {
            let room: u16 = if rect.w == 0 {
                0
            } else {
                rect.w - 1
            };
            let a: u16 = room / 2;
            let b: u16 = room - a;
            (
                Rect { x: rect.x, y: rect.y, w: a, h: rect.h },
                Rect { x: rect.x + (rect.w - b), y: rect.y, w: b, h: rect.h },
            )
        },
    }
}

/// The panes of a tab: a tree of splits with pane ids at its leaves.
pub enum Layout {
    /// No pane is left.
    Empty,
    Pane(u64),
    Split { dir: SplitDir, a: Box<Layout>, b: Box<Layout> },
}

impl Layout {
    /// The pane ids in layout order.
    pub open spec fn pane_seq(self) -> Seq<u64>
        decreases self,
    {
        match self {
            Layout::Empty => Seq::empty(),
            Layout::Pane(p) => seq![p],
            Layout::Split { a, b, .. } => a.pane_seq() + b.pane_seq(),
        }
    }

    /// The panes in layout order, each with its part of `r`.
    pub open spec fn rect_seq(self, r: Rect) -> Seq<(u64, Rect)>
        decreases self,
    {
        match self {
            Layout::Empty => Seq::empty(),
            Layout::Pane(p) => seq![(p, r)],
            Layout::Split { dir, a, b } => a.rect_seq(halves(dir, r).0) + b.rect_seq(
                halves(dir, r).1,
            ),
        }
    }

    /// Whether a pane is in the tree.
    pub open spec fn has_pane(self, id: u64) -> bool {
        self.pane_seq().contains(id)
    }

    /// Every split has two halves with panes in them.
    pub open spec fn solid(self) -> bool
        decreases self,
    {
        match self {
            Layout::Empty => false,
            Layout::Pane(_) => true,
            Layout::Split { a, b, .. } => a.solid() && b.solid(),
        }
    }

    /// The tree with pane `id` split in two, the new pane second.
    pub open spec fn with_split(self, id: u64, dir: SplitDir, new: u64) -> Layout
        decreases self,
    {
        match self {
            Layout::Empty => Layout::Empty,
            Layout::Pane(p) => if p == id {
                Layout::Split {
                    dir,
                    a: Box::new(Layout::Pane(p)),
                    b: Box::new(Layout::Pane(new)),
                }
            } else {
                Layout::Pane(p)
            },
            Layout::Split { dir: d, a, b } => Layout::Split {
                dir: d,
                a: Box::new(a.with_split(id, dir, new)),
                b: Box::new(b.with_split(id, dir, new)),
            },
        }
    }

    /// The tree without pane `id`; its sibling takes its space.
    pub open spec fn without(self, id: u64) -> Layout
        decreases self,
    {
        match self {
            Layout::Empty => Layout::Empty,
            Layout::Pane(p) => if p == id {
                Layout::Empty
            } else {
                Layout::Pane(p)
            },
            Layout::Split { dir, a, b } => {
                let ra = a.without(id);
                let rb = b.without(id);
                if ra is Empty {
                    rb
                } else if rb is Empty {
                    ra
                } else {
                    Layout::Split { dir, a: Box::new(ra), b: Box::new(rb) }
                }
            },
        }
    }

    fn push_panes(&self, out: &mut Vec<u64>)
        ensures
            final(out)@ == old(out)@ + self.pane_seq(),
        decreases self,
    {
        match self {
            Layout::Empty => {
                assert(out@ =~= old(out)@ + self.pane_seq());
            },
            Layout::Pane(p) => {
                out.push(*p);
                assert(out@ =~= old(out)@ + self.pane_seq());
            },
            Layout::Split { dir, a, b } => {
                a.push_panes(out);
                b.push_panes(out);
                assert(out@ =~= old(out)@ + self.pane_seq());
            },
        }
    }

    /// The pane ids in layout order.
    pub fn panes(&self) -> (r: Vec<u64>)
        ensures
            r@ == self.pane_seq(),
    {
        let mut r: Vec<u64> = Vec::new();
        self.push_panes(&mut r);
        assert(r@ =~= self.pane_seq());
        r
    }

    fn push_rects(&self, rect: Rect, out: &mut Vec<(u64, Rect)>)
        requires
            rect.fits(),
        ensures
            final(out)@ == old(out)@ + self.rect_seq(rect),
        decreases self,
    {
        match self {
            Layout::Empty => {
                assert(out@ =~= old(out)@ + self.rect_seq(rect));
            },
            Layout::Pane(p) => {
                out.push((*p, rect));
                assert(out@ =~= old(out)@ + self.rect_seq(rect));
            },
            Layout::Split { dir, a, b } => {
                let (ra, rb) = split_rect(*dir, rect);
                a.push_rects(ra, out);
                b.push_rects(rb, out);
                assert(out@ =~= old(out)@ + self.rect_seq(rect));
            },
        }
    }

    /// The panes in layout order, each with its part of `rect`.
    pub fn rects(&self, rect: Rect) -> (r: Vec<(u64, Rect)>)
        requires
            rect.fits(),
        ensures
            r@ == self.rect_seq(rect),
    {
        let mut r: Vec<(u64, Rect)> = Vec::new();
        self.push_rects(rect, &mut r);
        assert(r@ =~= self.rect_seq(rect));
        r
    }

    /// Whether a pane is in the tree.
    pub fn contains(&self, id: u64) -> (r: bool)
        ensures
            r == self.has_pane(id),
        decreases self,
    {
        match self {
            Layout::Empty => false,
            Layout::Pane(p) => {
                assert(self.pane_seq()[0] == *p);
                *p == id
            },
            Layout::Split { dir, a, b } => {
                proof {
                    lemma_contains_add(a.pane_seq(), b.pane_seq(), id);
                }
                a.contains(id) || b.contains(id)
            },
        }
    }

    /// Split pane `id` in two, the new pane second.
    pub fn split_pane(self, id: u64, dir: SplitDir, new: u64) -> (r: Layout)
        ensures
            r == self.with_split(id, dir, new),
        decreases self,
    {
        match self {
            Layout::Empty => Layout::Empty,
            Layout::Pane(p) => if p == id {
                Layout::Split {
                    dir,
                    a: Box::new(Layout::Pane(p)),
                    b: Box::new(Layout::Pane(new)),
                }
            } else {
                Layout::Pane(p)
            },
            Layout::Split { dir: d, a, b } => {
                let left: Layout = *a;
                let right: Layout = *b;
                Layout::Split {
                    dir: d,
                    a: Box::new(left.split_pane(id, dir, new)),
                    b: Box::new(right.split_pane(id, dir, new)),
                }
            },
        }
    }

    /// Remove pane `id`; its sibling takes its space.
    pub fn remove_pane(self, id: u64) -> (r: Layout)
        ensures
            r == self.without(id),
        decreases self,
    {
        match self {
            Layout::Empty => Layout::Empty,
            Layout::Pane(p) => if p == id {
                Layout::Empty
            } else {
                Layout::Pane(p)
            },
            Layout::Split { dir, a, b } => {
                let left: Layout = *a;
                let right: Layout = *b;
                let ra: Layout = left.remove_pane(id);
                let rb: Layout = right.remove_pane(id);
                if matches!(ra, Layout::Empty) {
                    rb
                } else if matches!(rb, Layout::Empty) {
                    ra
                } else {
                    Layout::Split { dir, a: Box::new(ra), b: Box::new(rb) }
                }
            },
        }
    }
}

pub(crate) proof fn lemma_contains_add<T>(a: Seq<T>, b: Seq<T>, x: T)
    ensures
        (a + b).contains(x) == (a.contains(x) || b.contains(x)),
{
    if a.contains(x) {
        let i = choose|i: int| 0 <= i < a.len() && a[i] == x;
        assert((a + b)[i] == x);
    }
    if b.contains(x) {
        let i = choose|i: int| 0 <= i < b.len() && b[i] == x;
        assert((a + b)[a.len() + i] == x);
    }
    if (a + b).contains(x) {
        let i = choose|i: int| 0 <= i < (a + b).len() && (a + b)[i] == x;
        if i < a.len() {
            assert(a[i] == x);
        } else {
            assert(b[i - a.len()] == x);
        }
    }
}

/// The halves of a rectangle lie in it without overlapping, differ in
/// length by at most one cell, and leave one cell for the divider.
pub proof fn law_halves(dir: SplitDir, r: Rect)
    requires
        r.fits(),
    ensures
        ({
            let (a, b) = halves(dir, r);
            &&& a.fits() && b.fits()
            &&& a.within(r) && b.within(r)
            &&& a.apart(b)
            &&& match dir {
                SplitDir::Horizontal => {
                    &&& a.w == r.w && b.w == r.w
                    &&& a.h <= b.h <= a.h + 1
                    &&& r.h > 0 ==> a.h + 1 + b.h == r.h && b.y == r.y + a.h + 1
                },
                SplitDir::Vertical => {
                    &&& a.h == r.h && b.h == r.h
                    &&& a.w <= b.w <= a.w + 1
                    &&& r.w > 0 ==> a.w + 1 + b.w == r.w && b.x == r.x + a.w + 1
                },
            }
        }),
{
}

/// Every pane lies within the area of its tab, and no two panes share a
/// cell.
pub proof fn law_panes_tile(l: Layout, r: Rect)
    requires
        r.fits(),
    ensures
        forall|i: int|
            0 <= i < l.rect_seq(r).len() ==> (#[trigger] l.rect_seq(r)[i]).1.within(r)
                && l.rect_seq(r)[i].1.fits(),
        forall|i: int, j: int|
            0 <= i < j < l.rect_seq(r).len() ==> (#[trigger] l.rect_seq(r)[i]).1.apart(
                (#[trigger] l.rect_seq(r)[j]).1,
            ),
    decreases l,
{
    if let Layout::Split { dir, a, b } = l {
        law_halves(dir, r);
        let (ra, rb) = halves(dir, r);
        law_panes_tile(*a, ra);
        law_panes_tile(*b, rb);
        let sa = a.rect_seq(ra);
        let sb = b.rect_seq(rb);
        assert forall|i: int| 0 <= i < l.rect_seq(r).len() implies (
        #[trigger] l.rect_seq(r)[i]).1.within(r) && l.rect_seq(r)[i].1.fits() by {
            if i < sa.len() {
                assert(l.rect_seq(r)[i] == sa[i]);
            } else {
                assert(l.rect_seq(r)[i] == sb[i - sa.len()]);
            }
        }
        assert forall|i: int, j: int| 0 <= i < j < l.rect_seq(r).len() implies (
        #[trigger] l.rect_seq(r)[i]).1.apart((#[trigger] l.rect_seq(r)[j]).1) by {
            if j < sa.len() {
                assert(l.rect_seq(r)[i] == sa[i]);
                assert(l.rect_seq(r)[j] == sa[j]);
            } else if i >= sa.len() {
                assert(l.rect_seq(r)[i] == sb[i - sa.len()]);
                assert(l.rect_seq(r)[j] == sb[j - sa.len()]);
            } else {
                let p = sa[i].1;
                let q = sb[j - sa.len()].1;
                assert(l.rect_seq(r)[i] == sa[i]);
                assert(l.rect_seq(r)[j] == sb[j - sa.len()]);
                assert forall|x: int, y: int| !(#[trigger] p.has(x, y) && q.has(x, y)) by {
                    assert(p.has(x, y) ==> ra.has(x, y));
                    assert(q.has(x, y) ==> rb.has(x, y));
                }
            }
        }
    }
}

/// The panes with their rectangles are the panes in layout order.
pub proof fn law_rects_are_panes(l: Layout, r: Rect)
    ensures
        l.rect_seq(r).len() == l.pane_seq().len(),
        forall|i: int|
            0 <= i < l.pane_seq().len() ==> (#[trigger] l.rect_seq(r)[i]).0 == l.pane_seq()[i],
    decreases l,
{
    if let Layout::Split { dir, a, b } = l {
        law_rects_are_panes(*a, halves(dir, r).0);
        law_rects_are_panes(*b, halves(dir, r).1);
    }
}

/// Splitting a pane adds the new pane and nothing else.
pub proof fn law_split_adds(l: Layout, id: u64, dir: SplitDir, new: u64)
    requires
        !l.has_pane(new),
        l.pane_seq().no_duplicates(),
    ensures
        l.solid() ==> l.with_split(id, dir, new).solid(),
        l.with_split(id, dir, new).pane_seq().no_duplicates(),
        forall|p: u64| #[trigger]
            l.with_split(id, dir, new).has_pane(p) == (l.has_pane(p) || (p == new && l.has_pane(id))),
    decreases l,
{
    match l {
        Layout::Empty => {},
        Layout::Pane(q) => {
            assert(l.pane_seq()[0] == q);
            if q == id {
                let s = l.with_split(id, dir, new);
                reveal_with_fuel(Layout::pane_seq, 2);
                reveal_with_fuel(Layout::solid, 2);
                assert(s.pane_seq() =~= seq![q, new]);
                assert(s.pane_seq()[0] == q);
                assert(s.pane_seq()[1] == new);
            }
        },
        Layout::Split { dir: d, a, b } => {
            assert forall|p: u64| l.has_pane(p) == (a.has_pane(p) || b.has_pane(p)) by {
                lemma_contains_add(a.pane_seq(), b.pane_seq(), p);
            }
            lemma_no_duplicates_parts(a.pane_seq(), b.pane_seq());
            assert(!a.has_pane(new) && !b.has_pane(new)) by {
                assert(l.has_pane(new) == (a.has_pane(new) || b.has_pane(new)));
            }
            law_split_adds(*a, id, dir, new);
            law_split_adds(*b, id, dir, new);
            let a2 = a.with_split(id, dir, new);
            let b2 = b.with_split(id, dir, new);
            assert forall|p: u64| a2.pane_seq().contains(p) implies !b2.pane_seq().contains(p) by {
                assert(a2.has_pane(p) == (a.has_pane(p) || (p == new && a.has_pane(id))));
                assert(b2.has_pane(p) == (b.has_pane(p) || (p == new && b.has_pane(id))));
            }
            lemma_no_duplicates_join(a2.pane_seq(), b2.pane_seq());
            assert forall|p: u64| #[trigger]
                l.with_split(id, dir, new).has_pane(p) == (l.has_pane(p) || (p == new
                    && l.has_pane(id))) by {
                lemma_contains_add(a2.pane_seq(), b2.pane_seq(), p);
                assert(a2.has_pane(p) == (a.has_pane(p) || (p == new && a.has_pane(id))));
                assert(b2.has_pane(p) == (b.has_pane(p) || (p == new && b.has_pane(id))));
                assert(l.has_pane(p) == (a.has_pane(p) || b.has_pane(p)));
                assert(l.has_pane(id) == (a.has_pane(id) || b.has_pane(id)));
            }
        },
    }
}

/// Removing a pane removes that pane and nothing else.
pub proof fn law_remove_removes(l: Layout, id: u64)
    ensures
        l.solid() ==> l.without(id).solid() || l.without(id) is Empty,
        l.pane_seq().no_duplicates() ==> l.without(id).pane_seq().no_duplicates(),
        forall|p: u64| #[trigger] l.without(id).has_pane(p) == (l.has_pane(p) && p != id),
    decreases l,
{
    match l {
        Layout::Empty => {},
        Layout::Pane(q) => {
            assert(l.pane_seq()[0] == q);
        },
        Layout::Split { dir, a, b } => {
            law_remove_removes(*a, id);
            law_remove_removes(*b, id);
            let a2 = a.without(id);
            let b2 = b.without(id);
            assert forall|p: u64| #[trigger] l.without(id).has_pane(p) == (l.has_pane(p) && p
                != id) by {
                lemma_contains_add(a.pane_seq(), b.pane_seq(), p);
                lemma_contains_add(a2.pane_seq(), b2.pane_seq(), p);
                assert(a2.has_pane(p) == (a.has_pane(p) && p != id));
                assert(b2.has_pane(p) == (b.has_pane(p) && p != id));
            }
            if l.pane_seq().no_duplicates() {
                lemma_no_duplicates_parts(a.pane_seq(), b.pane_seq());
                assert forall|p: u64| a2.pane_seq().contains(p) implies !b2.pane_seq().contains(
                    p,
                ) by {
                    assert(a2.has_pane(p) == (a.has_pane(p) && p != id));
                    assert(b2.has_pane(p) == (b.has_pane(p) && p != id));
                }
                lemma_no_duplicates_join(a2.pane_seq(), b2.pane_seq());
            }
        },
    }
}

pub(crate) proof fn lemma_without_absent(l: Layout, id: u64)
    requires
        !l.has_pane(id),
        l.solid(),
    ensures
        l.without(id) == l,
    decreases l,
{
    match l {
        Layout::Empty => {},
        Layout::Pane(q) => {
            assert(l.pane_seq()[0] == q);
        },
        Layout::Split { dir, a, b } => {
            reveal_with_fuel(Layout::solid, 2);
            lemma_contains_add(a.pane_seq(), b.pane_seq(), id);
            lemma_without_absent(*a, id);
            lemma_without_absent(*b, id);
        },
    }
}

/// When the shell of a pane that has just been split off exits, the
/// layout is as it was before the split.
pub proof fn law_split_then_remove(l: Layout, id: u64, dir: SplitDir, new: u64)
    requires
        l.solid(),
        l.pane_seq().no_duplicates(),
        !l.has_pane(new),
    ensures
        l.with_split(id, dir, new).without(new) == l,
    decreases l,
{
    match l {
        Layout::Empty => {},
        Layout::Pane(q) => {
            assert(l.pane_seq()[0] == q);
            reveal_with_fuel(Layout::without, 3);
        },
        Layout::Split { dir: d, a, b } => {
            reveal_with_fuel(Layout::solid, 2);
            lemma_contains_add(a.pane_seq(), b.pane_seq(), new);
            lemma_no_duplicates_parts(a.pane_seq(), b.pane_seq());
            law_split_then_remove(*a, id, dir, new);
            law_split_then_remove(*b, id, dir, new);
        },
    }
}

/// When a pane's shell exits, its sibling takes the space of both.
pub proof fn law_sibling_takes_space(dir: SplitDir, id: u64, sibling: Layout, r: Rect)
    requires
        sibling.solid(),
        !sibling.has_pane(id),
    ensures
        ({
            let first = Layout::Split {
                dir,
                a: Box::new(Layout::Pane(id)),
                b: Box::new(sibling),
            };
            let second = Layout::Split {
                dir,
                a: Box::new(sibling),
                b: Box::new(Layout::Pane(id)),
            };
            &&& first.without(id).rect_seq(r) == sibling.rect_seq(r)
            &&& second.without(id).rect_seq(r) == sibling.rect_seq(r)
        }),
{
    lemma_without_absent(sibling, id);
    reveal_with_fuel(Layout::without, 2);
}

pub(crate) proof fn lemma_no_duplicates_parts(a: Seq<u64>, b: Seq<u64>)
    requires
        (a + b).no_duplicates(),
    ensures
        a.no_duplicates(),
        b.no_duplicates(),
        forall|p: u64| a.contains(p) ==> !b.contains(p),
{
    let s = a + b;
    assert forall|i: int, j: int| 0 <= i < a.len() && 0 <= j < a.len() && i != j implies a[i]
        != a[j] by {
        assert(s[i] != s[j]);
    }
    assert forall|i: int, j: int| 0 <= i < b.len() && 0 <= j < b.len() && i != j implies b[i]
        != b[j] by {
        assert(s[a.len() + i] != s[a.len() + j]);
    }
    assert forall|p: u64| a.contains(p) implies !b.contains(p) by {
        if b.contains(p) {
            let i = choose|i: int| 0 <= i < a.len() && a[i] == p;
            let j = choose|j: int| 0 <= j < b.len() && b[j] == p;
            assert(s[i] != s[a.len() + j]);
        }
    }
}

proof fn lemma_no_duplicates_join(a: Seq<u64>, b: Seq<u64>)
    requires
        a.no_duplicates(),
        b.no_duplicates(),
        forall|p: u64| a.contains(p) ==> !b.contains(p),
    ensures
        (a + b).no_duplicates(),
{
    let s = a + b;
    assert forall|i: int, j: int| 0 <= i < s.len() && 0 <= j < s.len() && i != j implies s[i]
        != s[j] by {
        if i < a.len() && j >= a.len() {
            assert(a.contains(a[i]));
            assert(b.contains(b[j - a.len()]));
        } else if j < a.len() && i >= a.len() {
            assert(a.contains(a[j]));
            assert(b.contains(b[i - a.len()]));
        }
    }
}

} // verus!
