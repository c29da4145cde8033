use rmux::layout::{split_rect, Layout, Rect, SplitDir};

fn rect(x: u16, y: u16, w: u16, h: u16) -> Rect {
    Rect { x, y, w, h }
}

fn pair(dir: SplitDir, a: Layout, b: Layout) -> Layout {
    Layout::Split { dir, a: Box::new(a), b: Box::new(b) }
}

#[test]
fn halves_leave_one_cell_for_the_divider() {
    let (a, b) = split_rect(SplitDir::Vertical, rect(0, 0, 81, 24));
    assert!(a == rect(0, 0, 40, 24) && b == rect(41, 0, 40, 24));
    let (a, b) = split_rect(SplitDir::Vertical, rect(10, 2, 80, 24));
    assert!(a == rect(10, 2, 39, 24) && b == rect(50, 2, 40, 24));
    let (a, b) = split_rect(SplitDir::Horizontal, rect(0, 0, 80, 23));
    assert!(a == rect(0, 0, 80, 11) && b == rect(0, 12, 80, 11));
    let (a, b) = split_rect(SplitDir::Horizontal, rect(0, 5, 80, 0));
    assert!(a == rect(0, 5, 80, 0) && b == rect(0, 5, 80, 0));
    let (a, b) = split_rect(SplitDir::Vertical, rect(3, 0, 1, 9));
    assert!(a == rect(3, 0, 0, 9) && b == rect(4, 0, 0, 9));
}

#[test]
fn splitting_puts_the_new_pane_behind_the_old() {
    let l = Layout::Pane(1).split_pane(1, SplitDir::Vertical, 2);
    assert_eq!(l.panes(), vec![1, 2]);
    let l = l.split_pane(1, SplitDir::Horizontal, 3);
    assert_eq!(l.panes(), vec![1, 3, 2]);
    let l = l.split_pane(99, SplitDir::Horizontal, 4);
    assert_eq!(l.panes(), vec![1, 3, 2]);
    assert!(l.contains(3) && !l.contains(4));
}

#[test]
fn removing_gives_the_space_to_the_sibling() {
    let l = pair(
        SplitDir::Vertical,
        Layout::Pane(1),
        pair(SplitDir::Horizontal, Layout::Pane(2), Layout::Pane(3)),
    );
    let l = l.remove_pane(2);
    assert_eq!(l.panes(), vec![1, 3]);
    let rs = l.rects(rect(0, 0, 81, 23));
    assert!(rs[1] == (3, rect(41, 0, 40, 23)));
    let l = l.remove_pane(1);
    assert!(l.rects(rect(0, 0, 81, 23))[0] == (3, rect(0, 0, 81, 23)));
    let l = l.remove_pane(3);
    assert!(matches!(l, Layout::Empty));
    assert!(matches!(l.remove_pane(3), Layout::Empty));
}

#[test]
fn split_then_remove_restores_the_panes() {
    let l = pair(SplitDir::Horizontal, Layout::Pane(5), Layout::Pane(6));
    let l = l.split_pane(6, SplitDir::Vertical, 7).remove_pane(7);
    assert_eq!(l.panes(), vec![5, 6]);
    let rs = l.rects(rect(0, 0, 10, 11));
    assert!(rs == vec![(5, rect(0, 0, 10, 5)), (6, rect(0, 6, 10, 5))]);
}

#[test]
fn panes_do_not_overlap() {
    let mut l = Layout::Pane(0);
    for i in 1..12u64 {
        let dir = if i % 2 == 0 { SplitDir::Horizontal } else { SplitDir::Vertical };
        l = l.split_pane(i / 2, dir, i);
    }
    let rs = l.rects(rect(0, 0, 120, 40));
    assert_eq!(rs.len(), 12);
    let mut taken = vec![false; 120 * 40];
    for (_, r) in rs {
        for y in r.y..r.y + r.h {
            for x in r.x..r.x + r.w {
                let at = y as usize * 120 + x as usize;
                assert!(!taken[at]);
                taken[at] = true;
            }
        }
    }
}
