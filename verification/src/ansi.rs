//! Drawing commands, their encoding as terminal escape sequences, and the
//! removal of such sequences from text.

use crate::text::{decimal, to_chars};
use crossterm::Command;
use vstd::prelude::*;

verus! {

/// A colour as the drawing code uses it.
#[derive(Clone, Copy, PartialEq, Eq, Structural)]
pub enum Color {
    /// The terminal's own default.
    Reset,
    /// A 24-bit colour.
    Rgb { r: u8, g: u8, b: u8 },
}

/// A text attribute.
#[derive(Clone, Copy, PartialEq, Eq, Structural)]
pub enum Attr {
    Reset,
    Bold,
    Dim,
    Italic,
    Underlined,
    Reverse,
}

/// One queued drawing command.
pub enum Cmd {
    BeginSync,
    EndSync,
    Hide,
    Show,
    /// Move the cursor to a 0-based column and row.
    MoveTo(u16, u16),
    Attr(Attr),
    Fg(Color),
    Bg(Color),
    ClearAll,
    ClearLine,
    Print(String),
}

/// A drawing command with its text as a sequence of characters.
pub enum CmdView {
    BeginSync,
    EndSync,
    Hide,
    Show,
    MoveTo(u16, u16),
    Attr(Attr),
    Fg(Color),
    Bg(Color),
    ClearAll,
    ClearLine,
    Print(Seq<char>),
}

impl View for Cmd {
    type V = CmdView;

    open spec fn view(&self) -> CmdView {
        match *self {
            Cmd::BeginSync => CmdView::BeginSync,
            Cmd::EndSync => CmdView::EndSync,
            Cmd::Hide => CmdView::Hide,
            Cmd::Show => CmdView::Show,
            Cmd::MoveTo(x, y) => CmdView::MoveTo(x, y),
            Cmd::Attr(a) => CmdView::Attr(a),
            Cmd::Fg(c) => CmdView::Fg(c),
            Cmd::Bg(c) => CmdView::Bg(c),
            Cmd::ClearAll => CmdView::ClearAll,
            Cmd::ClearLine => CmdView::ClearLine,
            Cmd::Print(s) => CmdView::Print(s@),
        }
    }
}

/// A queue of commands with the texts as sequences of characters.
pub open spec fn cmds(s: Seq<Cmd>) -> Seq<CmdView> {
    s.map_values(|c: Cmd| c@)
}

/// Queue a command.
pub fn push_cmd(out: &mut Vec<Cmd>, c: Cmd)
    ensures
        cmds(final(out)@) == cmds(old(out)@).push(c@),
        all_placeable(cmds(old(out)@)) && placeable(c@) ==> all_placeable(cmds(final(out)@)),
{
    out.push(c);
    assert(cmds(out@) =~= cmds(old(out)@).push(c@));
}

/// The control sequence introducer followed by `body`.
pub open spec fn csi(body: Seq<char>) -> Seq<char> {
    seq!['\u{1b}', '['] + body
}

/// The SGR parameter of an attribute.
pub open spec fn sgr(a: Attr) -> char {
    match a {
        Attr::Reset => '0',
        Attr::Bold => '1',
        Attr::Dim => '2',
        Attr::Italic => '3',
        Attr::Underlined => '4',
        Attr::Reverse => '7',
    }
}

/// The SGR sequence that sets a colour: `lead` is `3` for the foreground
/// and `4` for the background. With colours switched off in the
/// environment the parameters are left out.
pub open spec fn color_code(lead: char, c: Color, painted: bool) -> Seq<char> {
    if !painted {
        csi(seq!['m'])
    } else {
        match c {
            Color::Reset => csi(seq![lead, '9', 'm']),
            Color::Rgb { r, g, b } => csi(
                seq![lead, '8', ';', '2', ';'] + decimal(r as nat) + seq![';'] + decimal(g as nat)
                    + seq![';'] + decimal(b as nat) + seq!['m'],
            ),
        }
    }
}

/// The characters that a command puts on the wire.
pub open spec fn code(c: CmdView, painted: bool) -> Seq<char> {
    match c {
        CmdView::BeginSync => csi(seq!['?', '2', '0', '2', '6', 'h']),
        CmdView::EndSync => csi(seq!['?', '2', '0', '2', '6', 'l']),
        CmdView::Hide => csi(seq!['?', '2', '5', 'l']),
        CmdView::Show => csi(seq!['?', '2', '5', 'h']),
        CmdView::MoveTo(x, y) => csi(
            decimal((y + 1) as nat) + seq![';'] + decimal((x + 1) as nat) + seq!['H'],
        ),
        CmdView::Attr(a) => csi(seq![sgr(a), 'm']),
        CmdView::Fg(c) => color_code('3', c, painted),
        CmdView::Bg(c) => color_code('4', c, painted),
        CmdView::ClearAll => csi(seq!['2', 'J']),
        CmdView::ClearLine => csi(seq!['K']),
        CmdView::Print(s) => s,
    }
}

/// The characters of a queue of commands; `painted[i]` says whether the
/// colours of command `i` are written out.
pub open spec fn encoded(c: Seq<CmdView>, painted: Seq<bool>) -> Seq<char>
    decreases c.len(),
{
    if c.len() == 0 {
        Seq::empty()
    } else {
        encoded(c.drop_last(), painted.drop_last()) + code(c.last(), painted.last())
    }
}

/// A cursor position that can be written as a 1-based 16-bit number.
pub open spec fn placeable(c: CmdView) -> bool {
    c matches CmdView::MoveTo(x, y) ==> x < u16::MAX && y < u16::MAX
}

/// Every cursor position of a queue of commands is placeable.
pub open spec fn all_placeable(c: Seq<CmdView>) -> bool {
    forall|i: int| 0 <= i < c.len() ==> placeable(#[trigger] c[i])
}

/// `crossterm::cursor::MoveTo`: row then column, both counted from 1.
#[verifier::external_body]
fn write_move_to(out: &mut String, x: u16, y: u16)
    requires
        x < u16::MAX,
        y < u16::MAX,
    ensures
        final(out)@ == old(out)@ + code(CmdView::MoveTo(x, y), true),
{
    let _ = crossterm::cursor::MoveTo(x, y).write_ansi(out);
}

/// `crossterm::cursor::Hide` writes `ESC [ ? 25 l`.
#[verifier::external_body]
fn write_hide(out: &mut String)
    ensures
        final(out)@ == old(out)@ + code(CmdView::Hide, true),
{
    let _ = crossterm::cursor::Hide.write_ansi(out);
}

/// `crossterm::cursor::Show` writes `ESC [ ? 25 h`.
#[verifier::external_body]
fn write_show(out: &mut String)
    ensures
        final(out)@ == old(out)@ + code(CmdView::Show, true),
{
    let _ = crossterm::cursor::Show.write_ansi(out);
}

/// `crossterm::terminal::BeginSynchronizedUpdate` writes `ESC [ ? 2026 h`.
#[verifier::external_body]
fn write_begin_sync(out: &mut String)
    ensures
        final(out)@ == old(out)@ + code(CmdView::BeginSync, true),
{
    let _ = crossterm::terminal::BeginSynchronizedUpdate.write_ansi(out);
}

/// `crossterm::terminal::EndSynchronizedUpdate` writes `ESC [ ? 2026 l`.
#[verifier::external_body]
fn write_end_sync(out: &mut String)
    ensures
        final(out)@ == old(out)@ + code(CmdView::EndSync, true),
{
    let _ = crossterm::terminal::EndSynchronizedUpdate.write_ansi(out);
}

/// `crossterm::terminal::Clear` with `ClearType::All` writes `ESC [ 2 J`.
#[verifier::external_body]
fn write_clear_all(out: &mut String)
    ensures
        final(out)@ == old(out)@ + code(CmdView::ClearAll, true),
{
    let _ = crossterm::terminal::Clear(crossterm::terminal::ClearType::All).write_ansi(out);
}

/// `crossterm::terminal::Clear` with `ClearType::UntilNewLine` writes
/// `ESC [ K`.
#[verifier::external_body]
fn write_clear_line(out: &mut String)
    ensures
        final(out)@ == old(out)@ + code(CmdView::ClearLine, true),
{
    let _ = crossterm::terminal::Clear(crossterm::terminal::ClearType::UntilNewLine).write_ansi(
        out,
    );
}

/// `crossterm::style::SetAttribute` writes `ESC [`, the SGR parameter of
/// the attribute and `m`.
#[verifier::external_body]
fn write_attr(out: &mut String, a: Attr)
    ensures
        final(out)@ == old(out)@ + code(CmdView::Attr(a), true),
{
    let attr = match a {
        Attr::Reset => crossterm::style::Attribute::Reset,
        Attr::Bold => crossterm::style::Attribute::Bold,
        Attr::Dim => crossterm::style::Attribute::Dim,
        Attr::Italic => crossterm::style::Attribute::Italic,
        Attr::Underlined => crossterm::style::Attribute::Underlined,
        Attr::Reverse => crossterm::style::Attribute::Reverse,
    };
    let _ = crossterm::style::SetAttribute(attr).write_ansi(out);
}

/// `crossterm::style::SetForegroundColor` writes the SGR sequence of the
/// colour, without its parameters when colours are switched off (by the
/// `NO_COLOR` variable of the environment).
#[verifier::external_body]
fn write_fg(out: &mut String, c: Color)
    ensures
        final(out)@ == old(out)@ + code(CmdView::Fg(c), true) || final(out)@ == old(out)@ + code(
            CmdView::Fg(c),
            false,
        ),
{
    let color = match c {
        Color::Reset => crossterm::style::Color::Reset,
        Color::Rgb { r, g, b } => crossterm::style::Color::Rgb { r, g, b },
    };
    let _ = crossterm::style::SetForegroundColor(color).write_ansi(out);
}

/// `crossterm::style::SetBackgroundColor` writes the SGR sequence of the
/// colour, without its parameters when colours are switched off (by the
/// `NO_COLOR` variable of the environment).
#[verifier::external_body]
fn write_bg(out: &mut String, c: Color)
    ensures
        final(out)@ == old(out)@ + code(CmdView::Bg(c), true) || final(out)@ == old(out)@ + code(
            CmdView::Bg(c),
            false,
        ),
{
    let color = match c {
        Color::Reset => crossterm::style::Color::Reset,
        Color::Rgb { r, g, b } => crossterm::style::Color::Rgb { r, g, b },
    };
    let _ = crossterm::style::SetBackgroundColor(color).write_ansi(out);
}

/// `crossterm::style::Print` writes the text as it stands.
#[verifier::external_body]
fn write_print(out: &mut String, s: &str)
    ensures
        final(out)@ == old(out)@ + s@,
{
    let _ = crossterm::style::Print(s).write_ansi(out);
}

/// Append the characters of one command; the result says whether its
/// colours, if it has any, were written out.
fn write_cmd(out: &mut String, c: &Cmd) -> (painted: Ghost<bool>)
    requires
        placeable(c@),
    ensures
        final(out)@ == old(out)@ + code(c@, painted@),
{
    match c {
        Cmd::BeginSync => write_begin_sync(out),
        Cmd::EndSync => write_end_sync(out),
        Cmd::Hide => write_hide(out),
        Cmd::Show => write_show(out),
        Cmd::MoveTo(x, y) => write_move_to(out, *x, *y),
        Cmd::Attr(a) => write_attr(out, *a),
        Cmd::Fg(c) => write_fg(out, *c),
        Cmd::Bg(c) => write_bg(out, *c),
        Cmd::ClearAll => write_clear_all(out),
        Cmd::ClearLine => write_clear_line(out),
        Cmd::Print(s) => write_print(out, s.as_str()),
    }
    Ghost(out@ == old(out)@ + code(c@, true))
}

/// The terminal escape sequences of a queue of commands.
pub fn encode(queue: &Vec<Cmd>) -> (out: String)
    requires
        all_placeable(cmds(queue@)),
    ensures
        exists|painted: Seq<bool>|
            painted.len() == queue@.len() && out@ == #[trigger] encoded(cmds(queue@), painted),
{
    let mut out: String = String::new();
    let ghost mut painted: Seq<bool> = Seq::empty();
    let mut i: usize = 0;
    while i < queue.len()
        invariant
            i <= queue@.len(),
            all_placeable(cmds(queue@)),
            painted.len() == i,
            out@ == encoded(cmds(queue@).take(i as int), painted),
        decreases queue@.len() - i,
    {
        assert(placeable(cmds(queue@)[i as int]));
        let Ghost(p) = write_cmd(&mut out, &queue[i]);
        proof {
            let next = painted.push(p);
            assert(next.drop_last() =~= painted);
            assert(cmds(queue@).take(i + 1).drop_last() =~= cmds(queue@).take(i as int));
            painted = next;
        }
        i = i + 1;
    }
    assert(cmds(queue@).take(queue@.len() as int) =~= cmds(queue@));
    assert(out@ == encoded(cmds(queue@), painted));
    out
}

/// An ASCII letter.
pub open spec fn letter(c: char) -> bool {
    'a' <= c <= 'z' || 'A' <= c <= 'Z'
}

/// The first index from `i` on that holds an ASCII letter.
pub open spec fn letter_from(s: Seq<char>, i: int) -> Option<int>
    decreases s.len() - i,
{
    if i >= s.len() {
        None
    } else if letter(s[i]) {
        Some(i)
    } else {
        letter_from(s, i + 1)
    }
}

/// `s` from `i` on without its escape sequences: an escape character and,
/// where `[` follows it, everything up to the next letter.
pub open spec fn stripped_from(s: Seq<char>, i: int) -> Seq<char>
    decreases s.len() - i,
    when 0 <= i
{
    if i >= s.len() {
        Seq::empty()
    } else if s[i] != '\u{1b}' {
        seq![s[i]] + stripped_from(s, i + 1)
    } else if i + 1 < s.len() && s[i + 1] == '[' {
        match letter_from(s, i + 2) {
            Some(j) => if i + 2 <= j < s.len() {
                stripped_from(s, j + 1)
            } else {
                Seq::empty()
            },
            None => Seq::empty(),
        }
    } else {
        stripped_from(s, i + 1)
    }
}

/// `s` without its escape sequences.
pub open spec fn stripped(s: Seq<char>) -> Seq<char> {
    stripped_from(s, 0)
}

proof fn lemma_letter_from(s: Seq<char>, i: int)
    requires
        0 <= i,
    ensures
        letter_from(s, i) matches Some(j) ==> i <= j < s.len() && letter(s[j]) && (forall|k: int|
            i <= k < j ==> !letter(#[trigger] s[k])),
        letter_from(s, i) is None ==> (forall|k: int| i <= k < s.len() ==> !letter(#[trigger] s[k])),
    decreases s.len() - i,
{
    if i < s.len() && !letter(s[i]) {
        lemma_letter_from(s, i + 1);
    }
}

/// Drop CSI escape sequences (colors, attributes) from server output.
pub fn strip_ansi(s: &str) -> (out: String)
    ensures
        out@ == stripped(s@),
{
    let chars: Vec<char> = to_chars(s);
    let mut out: String = String::new();
    let mut i: usize = 0;
    assert(out@ + stripped_from(s@, 0) =~= stripped(s@));
    while i < chars.len()
        invariant
            chars@ == s@,
            i <= chars@.len(),
            out@ + stripped_from(s@, i as int) == stripped(s@),
        decreases chars@.len() - i,
    {
        let c: char = chars[i];
        if c != '\u{1b}' {
            let ghost before = out@;
            out.push(c);
            assert(out@ + stripped_from(s@, i + 1) =~= before + (seq![c] + stripped_from(
                s@,
                i + 1,
            )));
            i = i + 1;
        } else if i + 1 < chars.len() && chars[i + 1] == '[' {
            let ghost at = i as int;
            let mut j: usize = i + 2;
            while j < chars.len() && !(('a' <= chars[j] && chars[j] <= 'z') || ('A' <= chars[j]
                && chars[j] <= 'Z'))
                invariant
                    chars@ == s@,
                    i + 2 <= j <= chars@.len(),
                    letter_from(s@, i + 2) == letter_from(s@, j as int),
                decreases chars@.len() - j,
            {
                j = j + 1;
            }
            if j < chars.len() {
                i = j + 1;
            } else {
                i = j;
            }
            assert(stripped_from(s@, at) == stripped_from(s@, i as int));
        } else {
            i = i + 1;
        }
    }
    assert(out@ =~= stripped(s@));
    out
}

/// Whether no escape sequence is cut off at the end of `s`, read from `i`.
pub open spec fn whole_from(s: Seq<char>, i: int) -> bool
    decreases s.len() - i,
    when 0 <= i
{
    if i >= s.len() {
        true
    } else if s[i] != '\u{1b}' {
        whole_from(s, i + 1)
    } else if i + 1 >= s.len() {
        false
    } else if s[i + 1] == '[' {
        match letter_from(s, i + 2) {
            Some(j) => if i + 2 <= j < s.len() {
                whole_from(s, j + 1)
            } else {
                false
            },
            None => false,
        }
    } else {
        whole_from(s, i + 1)
    }
}

/// No escape character stands in `s`.
pub open spec fn no_escape(s: Seq<char>) -> bool {
    forall|i: int| 0 <= i < s.len() ==> #[trigger] s[i] != '\u{1b}'
}

/// The texts that a queue of commands prints.
pub open spec fn printed(c: Seq<CmdView>) -> Seq<char>
    decreases c.len(),
{
    if c.len() == 0 {
        Seq::empty()
    } else {
        printed(c.drop_last()) + (match c.last() {
            CmdView::Print(s) => s,
            _ => Seq::empty(),
        })
    }
}

proof fn lemma_letter_left(a: Seq<char>, b: Seq<char>, i: int)
    requires
        0 <= i,
        letter_from(a, i) is Some,
    ensures
        letter_from(a + b, i) == letter_from(a, i),
    decreases a.len() - i,
{
    if !letter(a[i]) {
        lemma_letter_left(a, b, i + 1);
    }
}

proof fn lemma_letter_right(a: Seq<char>, b: Seq<char>, i: int)
    requires
        0 <= i,
    ensures
        letter_from(b, i) matches Some(j) ==> letter_from(a + b, a.len() + i) == Some(a.len() + j),
        letter_from(b, i) is None ==> letter_from(a + b, a.len() + i) is None,
    decreases b.len() - i,
{
    if i < b.len() {
        assert((a + b)[a.len() + i] == b[i]);
        if !letter(b[i]) {
            lemma_letter_right(a, b, i + 1);
        }
    }
}

proof fn lemma_strip_right(a: Seq<char>, b: Seq<char>, i: int)
    requires
        0 <= i,
    ensures
        stripped_from(a + b, a.len() + i) == stripped_from(b, i),
        whole_from(a + b, a.len() + i) == whole_from(b, i),
    decreases b.len() - i,
{
    if i < b.len() {
        assert((a + b)[a.len() + i] == b[i]);
        if b[i] == '\u{1b}' && i + 1 < b.len() && b[i + 1] == '[' {
            assert((a + b)[a.len() + i + 1] == b[i + 1]);
            lemma_letter_from(b, i + 2);
            lemma_letter_right(a, b, i + 2);
            if let Some(j) = letter_from(b, i + 2) {
                lemma_strip_right(a, b, j + 1);
            }
        } else {
            if i + 1 < b.len() {
                assert((a + b)[a.len() + i + 1] == b[i + 1]);
            }
            lemma_strip_right(a, b, i + 1);
        }
    }
}

proof fn lemma_strip_left(a: Seq<char>, b: Seq<char>, i: int)
    requires
        0 <= i <= a.len(),
        whole_from(a, i),
    ensures
        stripped_from(a + b, i) == stripped_from(a, i) + stripped(b),
        whole_from(a + b, i) == whole_from(b, 0),
    decreases a.len() - i,
{
    if i == a.len() {
        lemma_strip_right(a, b, 0);
        assert(stripped_from(a, i) + stripped(b) =~= stripped(b));
    } else if a[i] != '\u{1b}' {
        lemma_strip_left(a, b, i + 1);
        assert(seq![a[i]] + (stripped_from(a, i + 1) + stripped(b)) =~= (seq![a[i]]
            + stripped_from(a, i + 1)) + stripped(b));
    } else if a[i + 1] == '[' {
        lemma_letter_from(a, i + 2);
        lemma_letter_left(a, b, i + 2);
        lemma_strip_left(a, b, letter_from(a, i + 2)->0 + 1);
    } else {
        lemma_strip_left(a, b, i + 1);
    }
}

proof fn lemma_strip_plain(s: Seq<char>, i: int)
    requires
        no_escape(s),
        0 <= i <= s.len(),
    ensures
        stripped_from(s, i) == s.skip(i),
        whole_from(s, i),
    decreases s.len() - i,
{
    if i < s.len() {
        lemma_strip_plain(s, i + 1);
        assert(seq![s[i]] + s.skip(i + 1) =~= s.skip(i));
    } else {
        assert(s.skip(i) =~= Seq::<char>::empty());
    }
}

proof fn lemma_decimal_digits(n: nat)
    ensures
        decimal(n).len() > 0,
        forall|i: int| 0 <= i < decimal(n).len() ==> '0' <= #[trigger] decimal(n)[i] <= '9',
    decreases n,
{
    if n >= 10 {
        lemma_decimal_digits(n / 10);
    }
}

/// A control sequence whose only letter ends it.
spec fn one_sequence(s: Seq<char>) -> bool {
    &&& s.len() >= 3
    &&& s[0] == '\u{1b}'
    &&& s[1] == '['
    &&& letter(s.last())
    &&& forall|i: int| 2 <= i < s.len() - 1 ==> !letter(#[trigger] s[i])
}

proof fn lemma_one_sequence(s: Seq<char>)
    requires
        one_sequence(s),
    ensures
        stripped(s) == Seq::<char>::empty(),
        whole_from(s, 0),
{
    lemma_letter_from(s, 2);
    assert(letter_from(s, 2) == Some(s.len() - 1));
    assert(stripped_from(s, s.len() as int) == Seq::<char>::empty());
    assert(whole_from(s, s.len() as int));
}

proof fn lemma_code_one_sequence(c: CmdView, painted: bool)
    ensures
        c !is Print ==> one_sequence(code(c, painted)),
{
    match c {
        CmdView::MoveTo(x, y) => {
            lemma_decimal_digits((y + 1) as nat);
            lemma_decimal_digits((x + 1) as nat);
        },
        CmdView::Fg(Color::Rgb { r, g, b }) => {
            lemma_decimal_digits(r as nat);
            lemma_decimal_digits(g as nat);
            lemma_decimal_digits(b as nat);
        },
        CmdView::Bg(Color::Rgb { r, g, b }) => {
            lemma_decimal_digits(r as nat);
            lemma_decimal_digits(g as nat);
            lemma_decimal_digits(b as nat);
        },
        _ => {},
    }
}

/// Stripping the escape sequences of an encoded queue of commands leaves
/// what the commands print, whether or not colours were written out.
pub proof fn law_strip_encoded(c: Seq<CmdView>, painted: Seq<bool>)
    requires
        painted.len() == c.len(),
        forall|i: int| 0 <= i < c.len() ==> (#[trigger] c[i] matches CmdView::Print(s) ==> no_escape(s)),
    ensures
        stripped(encoded(c, painted)) == printed(c),
        whole_from(encoded(c, painted), 0),
    decreases c.len(),
{
    if c.len() > 0 {
        let head = encoded(c.drop_last(), painted.drop_last());
        let tail = code(c.last(), painted.last());
        assert forall|i: int| 0 <= i < c.drop_last().len() implies (
            #[trigger] c.drop_last()[i] matches CmdView::Print(s) ==> no_escape(s)) by {
            assert(c.drop_last()[i] == c[i]);
        }
        law_strip_encoded(c.drop_last(), painted.drop_last());
        assert(c.last() == c[c.len() - 1]);
        lemma_code_one_sequence(c.last(), painted.last());
        if let CmdView::Print(s) = c.last() {
            lemma_strip_plain(s, 0);
            assert(s.skip(0) =~= s);
        } else {
            lemma_one_sequence(tail);
        }
        lemma_strip_left(head, tail, 0);
    }
}

/// Text without escape characters comes through unchanged.
pub proof fn law_strip_keeps_plain(s: Seq<char>)
    requires
        no_escape(s),
    ensures
        stripped(s) == s,
{
    lemma_strip_plain(s, 0);
    assert(s.skip(0) =~= s);
}

proof fn lemma_stripped_no_escape(s: Seq<char>, i: int)
    requires
        0 <= i,
    ensures
        no_escape(stripped_from(s, i)),
    decreases s.len() - i,
{
    if i < s.len() {
        if s[i] == '\u{1b}' && i + 1 < s.len() && s[i + 1] == '[' {
            lemma_letter_from(s, i + 2);
            if let Some(j) = letter_from(s, i + 2) {
                lemma_stripped_no_escape(s, j + 1);
            }
        } else {
            lemma_stripped_no_escape(s, i + 1);
        }
    }
}

/// No escape character survives stripping, and stripping again changes
/// nothing.
pub proof fn law_strip_removes_escapes(s: Seq<char>)
    ensures
        no_escape(stripped(s)),
        stripped(stripped(s)) == stripped(s),
{
    lemma_stripped_no_escape(s, 0);
    law_strip_keeps_plain(stripped(s));
}

} // verus!
