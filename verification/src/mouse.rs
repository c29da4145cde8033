//! Mouse and page-key events in the raw input of a client.

use crate::protocol::copy_bytes;
use crate::text::{begins_at, starts_at};
use vstd::prelude::*;

verus! {

/// A mouse/scroll intent extracted from raw client input. `raw` keeps
/// the original SGR bytes so panes that track the mouse themselves get
/// the event untouched.
pub enum MouseEvent {
    Wheel { up: bool, raw: Vec<u8> },
    /// PageUp / PageDown.
    Page { up: bool },
    /// Button press; 1-based screen coordinates.
    Press { left: bool, x: u16, y: u16, raw: Vec<u8> },
    /// Motion with the left button held.
    Drag { x: u16, y: u16, raw: Vec<u8> },
    /// Button release.
    Release { x: u16, y: u16, raw: Vec<u8> },
}

/// An event with its bytes as a sequence.
pub enum MouseView {
    Wheel { up: bool, raw: Seq<u8> },
    Page { up: bool },
    Press { left: bool, x: u16, y: u16, raw: Seq<u8> },
    Drag { x: u16, y: u16, raw: Seq<u8> },
    Release { x: u16, y: u16, raw: Seq<u8> },
}

impl View for MouseEvent {
    type V = MouseView;

    open spec fn view(&self) -> MouseView {
        match *self {
            MouseEvent::Wheel { up, raw } => MouseView::Wheel { up, raw: raw@ },
            MouseEvent::Page { up } => MouseView::Page { up },
            MouseEvent::Press { left, x, y, raw } => MouseView::Press { left, x, y, raw: raw@ },
            MouseEvent::Drag { x, y, raw } => MouseView::Drag { x, y, raw: raw@ },
            MouseEvent::Release { x, y, raw } => MouseView::Release { x, y, raw: raw@ },
        }
    }
}

/// Events with their bytes as sequences.
pub open spec fn mouse_views(s: Seq<MouseEvent>) -> Seq<MouseView> {
    s.map_values(|e: MouseEvent| e@)
}

fn push_event(events: &mut Vec<MouseEvent>, e: MouseEvent)
    ensures
        mouse_views(final(events)@) == mouse_views(old(events)@).push(e@),
{
    events.push(e);
    assert(mouse_views(events@) =~= mouse_views(old(events)@).push(e@));
}

/// A byte of the parameters of an SGR mouse sequence.
pub open spec fn parameter_byte(b: u8) -> bool {
    0x30 <= b <= 0x39 || b == 0x3b
}

/// The first index from `i` on that holds no parameter byte.
pub open spec fn parameters_end(s: Seq<u8>, i: int) -> int
    decreases s.len() - i,
{
    if i < s.len() && parameter_byte(s[i]) {
        parameters_end(s, i + 1)
    } else {
        i
    }
}

/// The first index from `i` on that holds a semicolon, or the end.
pub open spec fn field_end(s: Seq<u8>, i: int) -> int
    decreases s.len() - i,
{
    if i < s.len() && s[i] != 0x3b {
        field_end(s, i + 1)
    } else {
        i
    }
}

/// Of the fields between semicolons from `i` on, number `k`.
pub open spec fn nth_field(s: Seq<u8>, i: int, k: nat) -> Option<Seq<u8>>
    decreases k,
{
    let e = field_end(s, i);
    if k == 0 {
        Some(s.subrange(i, e))
    } else if e < s.len() {
        nth_field(s, e + 1, (k - 1) as nat)
    } else {
        None
    }
}

/// The number that decimal digits make.
pub open spec fn digits_value(s: Seq<u8>) -> nat
    decreases s.len(),
{
    if s.len() == 0 {
        0
    } else {
        (10 * digits_value(s.drop_last()) + (s.last() - 0x30)) as nat
    }
}

/// A field as a number; what is empty or does not fit 32 bits counts as 0.
pub open spec fn field_number(s: Seq<u8>) -> u32 {
    if digits_value(s) <= u32::MAX {
        digits_value(s) as u32
    } else {
        0
    }
}

/// Parameter `k` of a sequence, `missing` when there are not that many.
pub open spec fn parameter(s: Seq<u8>, k: nat, missing: u32) -> u32 {
    match nth_field(s, 0, k) {
        Some(f) => field_number(f),
        None => missing,
    }
}

/// A coordinate kept within `1..=65535`.
pub open spec fn coordinate(n: u32) -> u16 {
    if n < 1 {
        1
    } else if n > 65535 {
        65535
    } else {
        n as u16
    }
}

/// The event of an SGR mouse sequence with parameters `p`, final byte
/// `last` and bytes `raw`. The wheel to the left or right, and motion
/// without the left button, make no event.
pub open spec fn sgr_event(p: Seq<u8>, last: u8, raw: Seq<u8>) -> Option<MouseView> {
    let cb = parameter(p, 0, 0);
    let x = coordinate(parameter(p, 1, 1));
    let y = coordinate(parameter(p, 2, 1));
    if cb & 64 != 0 {
        if last == 0x4d && cb & 2 == 0 {
            Some(MouseView::Wheel { up: cb & 1 == 0, raw })
        } else {
            None
        }
    } else if last == 0x6d {
        Some(MouseView::Release { x, y, raw })
    } else if cb & 32 != 0 {
        if cb & 3 == 0 {
            Some(MouseView::Drag { x, y, raw })
        } else {
            None
        }
    } else {
        Some(MouseView::Press { left: cb & 3 == 0, x, y, raw })
    }
}

/// A list with at most one element.
pub open spec fn optional<T>(o: Option<T>) -> Seq<T> {
    match o {
        Some(x) => seq![x],
        None => Seq::empty(),
    }
}

/// The introducer of an SGR mouse sequence.
pub open spec fn sgr_intro() -> Seq<u8> {
    seq![0x1bu8, 0x5bu8, 0x3cu8]
}

/// The bytes of the page key.
pub open spec fn page_key(up: bool) -> Seq<u8> {
    seq![
        0x1bu8,
        0x5bu8,
        if up {
            0x35u8
        } else {
            0x36u8
        },
        0x7eu8,
    ]
}

/// What is left of `buf` from `i` on without mouse and page sequences, and
/// the events. A mouse sequence that is cut off is dropped.
pub open spec fn extracted(buf: Seq<u8>, i: int) -> (Seq<u8>, Seq<MouseView>)
    decreases buf.len() - i,
    when 0 <= i
{
    if i >= buf.len() {
        (Seq::empty(), Seq::empty())
    } else {
        let j = parameters_end(buf, i + 3);
        if begins_at(buf, i, sgr_intro()) && j >= buf.len() {
            (Seq::empty(), Seq::empty())
        } else if begins_at(buf, i, sgr_intro()) && i + 3 <= j && (buf[j] == 0x4d || buf[j]
            == 0x6d) {
            let rest = extracted(buf, j + 1);
            let e = sgr_event(buf.subrange(i + 3, j), buf[j], buf.subrange(i, j + 1));
            (rest.0, optional(e) + rest.1)
        } else if begins_at(buf, i, page_key(true)) || begins_at(buf, i, page_key(false)) {
            let rest = extracted(buf, i + 4);
            (rest.0, seq![MouseView::Page { up: buf[i + 2] == 0x35 }] + rest.1)
        } else {
            let rest = extracted(buf, i + 1);
            (seq![buf[i]] + rest.0, rest.1)
        }
    }
}

proof fn lemma_parameters_end(s: Seq<u8>, i: int)
    requires
        0 <= i,
    ensures
        i <= parameters_end(s, i),
        i <= s.len() ==> parameters_end(s, i) <= s.len(),
        forall|k: int| i <= k < parameters_end(s, i) ==> parameter_byte(#[trigger] s[k]),
        parameters_end(s, i) < s.len() ==> !parameter_byte(s[parameters_end(s, i)]),
    decreases s.len() - i,
{
    if i < s.len() && parameter_byte(s[i]) {
        lemma_parameters_end(s, i + 1);
    }
}

/// Field `k` as a number, if there are that many fields.
fn nth_number(s: &Vec<u8>, k: usize) -> (r: Option<u32>)
    requires
        forall|i: int| 0 <= i < s@.len() ==> parameter_byte(#[trigger] s@[i]),
    ensures
        r == match nth_field(s@, 0, k as nat) {
            Some(f) => Some(field_number(f)),
            None => None,
        },
{
    let mut start: usize = 0;
    let mut left: usize = k;
    loop
        invariant
            start <= s@.len(),
            forall|i: int| 0 <= i < s@.len() ==> parameter_byte(#[trigger] s@[i]),
            nth_field(s@, 0, k as nat) == nth_field(s@, start as int, left as nat),
        decreases left,
    {
        let mut e: usize = start;
        let mut value: u64 = 0;
        let mut over: bool = false;
        assert(s@.subrange(start as int, start as int) =~= Seq::<u8>::empty());
        while e < s.len() && s[e] != 0x3b
            invariant
                start <= e <= s@.len(),
                forall|i: int| 0 <= i < s@.len() ==> parameter_byte(#[trigger] s@[i]),
                field_end(s@, start as int) == field_end(s@, e as int),
                over == (digits_value(s@.subrange(start as int, e as int)) > u32::MAX),
                !over ==> value == digits_value(s@.subrange(start as int, e as int)),
            decreases s@.len() - e,
        {
            let ghost sub = s@.subrange(start as int, e + 1);
            assert(sub.drop_last() =~= s@.subrange(start as int, e as int));
            assert(sub.last() == s@[e as int]);
            assert(parameter_byte(s@[e as int]));
            if !over {
                value = 10 * value + (s[e] - 0x30) as u64;
                if value > 4294967295 {
                    over = true;
                }
            }
            e = e + 1;
        }
        if left == 0 {
            let n: u32 = if over {
                0
            } else {
                value as u32
            };
            return Some(n);
        }
        if e >= s.len() {
            return None;
        }
        start = e + 1;
        left = left - 1;
    }
}

fn clamp_coordinate(n: u32) -> (r: u16)
    ensures
        r == coordinate(n),
{
    if n < 1 {
        1
    } else if n > 65535 {
        65535
    } else {
        n as u16
    }
}

/// The event of an SGR mouse sequence.
fn decode_sgr(p: &Vec<u8>, last: u8, raw: Vec<u8>) -> (r: Option<MouseEvent>)
    requires
        forall|i: int| 0 <= i < p@.len() ==> parameter_byte(#[trigger] p@[i]),
    ensures
        match r {
            Some(e) => sgr_event(p@, last, raw@) == Some(e@),
            None => sgr_event(p@, last, raw@) is None,
        },
{
    let cb: u32 = nth_number(p, 0).unwrap_or(0);
    let x: u16 = clamp_coordinate(nth_number(p, 1).unwrap_or(1));
    let y: u16 = clamp_coordinate(nth_number(p, 2).unwrap_or(1));
    if cb & 64 != 0 {
        // Wheel: low two bits 0 (up) or 1 (down); modifier bits may also
        // be set.
        if last == 0x4d && cb & 2 == 0 {
            Some(MouseEvent::Wheel { up: cb & 1 == 0, raw })
        } else {
            None
        }
    } else if last == 0x6d {
        Some(MouseEvent::Release { x, y, raw })
    } else if cb & 32 != 0 {
        if cb & 3 == 0 {
            Some(MouseEvent::Drag { x, y, raw })
        } else {
            None
        }
    } else {
        Some(MouseEvent::Press { left: cb & 3 == 0, x, y, raw })
    }
}

/// Split raw input into (bytes to process normally, mouse events).
/// SGR mouse sequences are always consumed here so they never leak
/// into a shell as garbage bytes. PageUp/PageDown become events too.
pub fn extract_mouse(buf: &[u8]) -> (r: (Vec<u8>, Vec<MouseEvent>))
    ensures
        r.0@ == extracted(buf@, 0).0,
        mouse_views(r.1@) == extracted(buf@, 0).1,
{
    let intro: [u8; 3] = [0x1b, 0x5b, 0x3c];
    let page_up: [u8; 4] = [0x1b, 0x5b, 0x35, 0x7e];
    let page_down: [u8; 4] = [0x1b, 0x5b, 0x36, 0x7e];
    assert(intro@ =~= sgr_intro());
    assert(page_up@ =~= page_key(true));
    assert(page_down@ =~= page_key(false));
    let mut clean: Vec<u8> = Vec::new();
    let mut events: Vec<MouseEvent> = Vec::new();
    let mut i: usize = 0;
    assert(clean@ + extracted(buf@, 0).0 =~= extracted(buf@, 0).0);
    assert(mouse_views(events@) + extracted(buf@, 0).1 =~= extracted(buf@, 0).1);
    while i < buf.len()
        invariant_except_break
            i <= buf@.len(),
            intro@ == sgr_intro(),
            page_up@ == page_key(true),
            page_down@ == page_key(false),
            clean@ + extracted(buf@, i as int).0 == extracted(buf@, 0).0,
            mouse_views(events@) + extracted(buf@, i as int).1 == extracted(buf@, 0).1,
        ensures
            clean@ == extracted(buf@, 0).0,
            mouse_views(events@) == extracted(buf@, 0).1,
        decreases buf@.len() - i,
    {
        if starts_at(buf, i, &intro) {
            let mut j: usize = i + 3;
            while j < buf.len() && ((0x30 <= buf[j] && buf[j] <= 0x39) || buf[j] == 0x3b)
                invariant
                    i + 3 <= j <= buf@.len(),
                    parameters_end(buf@, i + 3) == parameters_end(buf@, j as int),
                decreases buf@.len() - j,
            {
                j = j + 1;
            }
            if j >= buf.len() {
                // Sequence split across reads: drop the fragment rather
                // than leaking it into the shell.
                assert(clean@ =~= clean@ + Seq::<u8>::empty());
                assert(mouse_views(events@) =~= mouse_views(events@) + Seq::<MouseView>::empty());
                break;
            }
            if buf[j] == 0x4d || buf[j] == 0x6d {
                let p: Vec<u8> = copy_bytes(buf, i + 3, j);
                let raw: Vec<u8> = copy_bytes(buf, i, j + 1);
                proof {
                    lemma_parameters_end(buf@, i + 3);
                    assert forall|k: int| 0 <= k < p@.len() implies parameter_byte(
                        #[trigger] p@[k],
                    ) by {
                        assert(p@[k] == buf@[i + 3 + k]);
                    }
                }
                let ghost seen = mouse_views(events@);
                let ghost rest = extracted(buf@, j + 1);
                let ghost ev = sgr_event(p@, buf@[j as int], raw@);
                assert(extracted(buf@, i as int) == (rest.0, optional(ev) + rest.1));
                if let Some(e) = decode_sgr(&p, buf[j], raw) {
                    push_event(&mut events, e);
                }
                assert(mouse_views(events@) =~= seen + optional(ev));
                assert(seen + (optional(ev) + rest.1) =~= seen + optional(ev) + rest.1);
                i = j + 1;
                continue;
            }
        }
        if starts_at(buf, i, &page_up) || starts_at(buf, i, &page_down) {
            let ghost seen = mouse_views(events@);
            let ghost rest = extracted(buf@, i + 4);
            proof {
                assert(begins_at(buf@, i as int, sgr_intro()) ==> buf@.subrange(
                    i as int,
                    i + 3,
                )[2] == buf@[i + 2]);
                assert(begins_at(buf@, i as int, page_key(true)) ==> buf@.subrange(
                    i as int,
                    i + 4,
                )[2] == buf@[i + 2]);
                assert(begins_at(buf@, i as int, page_key(false)) ==> buf@.subrange(
                    i as int,
                    i + 4,
                )[2] == buf@[i + 2]);
            }
            let up: bool = buf[i + 2] == 0x35;
            push_event(&mut events, MouseEvent::Page { up });
            assert(mouse_views(events@) + rest.1 =~= seen + (seq![MouseView::Page { up }]
                + rest.1));
            i = i + 4;
            continue;
        }
        let ghost kept = clean@;
        clean.push(buf[i]);
        assert(clean@ + extracted(buf@, i + 1).0 =~= kept + (seq![buf@[i as int]] + extracted(
            buf@,
            i + 1,
        ).0));
        i = i + 1;
    }
    (clean, events)
}

proof fn lemma_plain(buf: Seq<u8>, i: int)
    requires
        0 <= i <= buf.len(),
        forall|k: int| 0 <= k < buf.len() ==> #[trigger] buf[k] != 0x1b,
    ensures
        extracted(buf, i) == (buf.skip(i), Seq::<MouseView>::empty()),
    decreases buf.len() - i,
{
    if i < buf.len() {
        lemma_plain(buf, i + 1);
        assert(seq![buf[i]] + buf.skip(i + 1) =~= buf.skip(i));
        if begins_at(buf, i, sgr_intro()) {
            assert(buf.subrange(i, i + 3)[0] == buf[i]);
        }
        if begins_at(buf, i, page_key(true)) {
            assert(buf.subrange(i, i + 4)[0] == buf[i]);
        }
        if begins_at(buf, i, page_key(false)) {
            assert(buf.subrange(i, i + 4)[0] == buf[i]);
        }
    } else {
        assert(buf.skip(i) =~= Seq::<u8>::empty());
    }
}

/// Input without escape bytes passes unchanged and holds no events.
pub proof fn law_plain_input_passes(buf: Seq<u8>)
    requires
        forall|k: int| 0 <= k < buf.len() ==> #[trigger] buf[k] != 0x1b,
    ensures
        extracted(buf, 0) == (buf, Seq::<MouseView>::empty()),
{
    lemma_plain(buf, 0);
    assert(buf.skip(0) =~= buf);
}

proof fn lemma_parameters_end_right(a: Seq<u8>, b: Seq<u8>, i: int)
    requires
        0 <= i,
    ensures
        parameters_end(a + b, a.len() + i) == a.len() + parameters_end(b, i),
    decreases b.len() - i,
{
    if i < b.len() {
        assert((a + b)[a.len() + i] == b[i]);
        if parameter_byte(b[i]) {
            lemma_parameters_end_right(a, b, i + 1);
        }
    }
}

proof fn lemma_begins_right(a: Seq<u8>, b: Seq<u8>, i: int, pat: Seq<u8>)
    requires
        0 <= i,
    ensures
        begins_at(a + b, a.len() + i, pat) == begins_at(b, i, pat),
{
    if i + pat.len() <= b.len() {
        assert((a + b).subrange(a.len() + i, a.len() + i + pat.len()) =~= b.subrange(
            i,
            i + pat.len(),
        ));
    }
}

pub(crate) proof fn lemma_extracted_right(a: Seq<u8>, b: Seq<u8>, i: int)
    requires
        0 <= i,
    ensures
        extracted(a + b, a.len() + i) == extracted(b, i),
    decreases b.len() - i,
{
    if i < b.len() {
        let n = a.len() as int;
        let j = parameters_end(b, i + 3);
        lemma_parameters_end(b, i + 3);
        lemma_parameters_end_right(a, b, i + 3);
        lemma_begins_right(a, b, i, sgr_intro());
        lemma_begins_right(a, b, i, page_key(true));
        lemma_begins_right(a, b, i, page_key(false));
        assert((a + b)[n + i] == b[i]);
        if begins_at(b, i, sgr_intro()) && j >= b.len() {
        } else if begins_at(b, i, sgr_intro()) && (b[j] == 0x4d || b[j] == 0x6d) {
            assert((a + b)[n + j] == b[j]);
            assert((a + b).subrange(n + i + 3, n + j) =~= b.subrange(i + 3, j));
            assert((a + b).subrange(n + i, n + j + 1) =~= b.subrange(i, j + 1));
            lemma_extracted_right(a, b, j + 1);
        } else {
            if begins_at(b, i, sgr_intro()) {
                assert((a + b)[n + j] == b[j]);
            }
            if begins_at(b, i, page_key(true)) || begins_at(b, i, page_key(false)) {
                assert((a + b)[n + i + 2] == b[i + 2]);
                lemma_extracted_right(a, b, i + 4);
            } else {
                lemma_extracted_right(a, b, i + 1);
            }
        }
    }
}

/// An SGR mouse sequence never leaks: it is consumed whole, gives its event
/// (if it makes one), and what follows it is read as if it stood alone.
pub proof fn law_mouse_sequence_consumed(p: Seq<u8>, last: u8, rest: Seq<u8>)
    requires
        forall|k: int| 0 <= k < p.len() ==> parameter_byte(#[trigger] p[k]),
        last == 0x4d || last == 0x6d,
    ensures
        ({
            let raw = sgr_intro() + p + seq![last];
            extracted(raw + rest, 0) == (
                extracted(rest, 0).0,
                optional(sgr_event(p, last, raw)) + extracted(rest, 0).1,
            )
        }),
{
    let raw = sgr_intro() + p + seq![last];
    let buf = raw + rest;
    let j = 3 + p.len() as int;
    assert(buf.subrange(0, 3) =~= sgr_intro());
    assert(buf[j] == last);
    lemma_parameters_end(buf, 3);
    assert(parameters_end(buf, 3) == j) by {
        let e = parameters_end(buf, 3);
        if e < j {
            assert(buf[e] == p[e - 3]);
        }
    }
    assert(buf.subrange(3, j) =~= p);
    assert(buf.subrange(0, j + 1) =~= raw);
    lemma_extracted_right(raw, rest, 0);
}

/// A mouse sequence cut off at the end of a read is dropped.
pub proof fn law_mouse_fragment_dropped(p: Seq<u8>)
    requires
        forall|k: int| 0 <= k < p.len() ==> parameter_byte(#[trigger] p[k]),
    ensures
        extracted(sgr_intro() + p, 0) == (Seq::<u8>::empty(), Seq::<MouseView>::empty()),
{
    let buf = sgr_intro() + p;
    assert(buf.subrange(0, 3) =~= sgr_intro());
    lemma_parameters_end(buf, 3);
    let e = parameters_end(buf, 3);
    if e < buf.len() {
        assert(buf[e] == p[e - 3]);
    }
}

} // verus!
