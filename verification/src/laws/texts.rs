//! What is written where: names, numbers and ages, the listing, the labels of
//! the overlays, and the bytes on the wire and to the terminal.

use crate::ansi::{code, encoded, letter, no_escape, stripped, stripped_from, Attr, CmdView, Color};
use crate::clipboard::{base64, base64_digit};
use crate::listing::{age, age_of};
use crate::model::SessionView;
use crate::protocol::{framed, from_le16, le16, le32, parsed};
use crate::search::found_in;
use crate::text::{decimal, trimmed, trimmed_end, trimmed_start, white_space};
use vstd::prelude::*;

verus! {

/// Blanks, tabs and line ends are white space, and no other printable ASCII
/// character is.
pub proof fn law_white_space(c: char)
    ensures
        (c as u32) < 0x80 ==> (white_space(c) <==> c == ' ' || c == '\t' || c == '\n' || c == '\r'
            || c == '\u{b}' || c == '\u{c}'),
        white_space('\u{a0}') && white_space('\u{3000}'),
{
}

proof fn lemma_trim_start(a: Seq<char>, s: Seq<char>)
    requires
        forall|i: int| 0 <= i < a.len() ==> white_space(#[trigger] a[i]),
        s.len() > 0 ==> !white_space(s[0]),
    ensures
        trimmed_start(a + s) == s,
    decreases a.len(),
{
    if a.len() > 0 {
        assert((a + s)[0] == a[0]);
        assert((a + s).drop_first() =~= a.drop_first() + s);
        assert forall|i: int| 0 <= i < a.drop_first().len() implies white_space(
            #[trigger] a.drop_first()[i],
        ) by {
            assert(a.drop_first()[i] == a[i + 1]);
        }
        lemma_trim_start(a.drop_first(), s);
    } else {
        assert(a + s =~= s);
    }
}

proof fn lemma_trim_end(s: Seq<char>, b: Seq<char>)
    requires
        forall|i: int| 0 <= i < b.len() ==> white_space(#[trigger] b[i]),
        s.len() > 0 ==> !white_space(s.last()),
    ensures
        trimmed_end(s + b) == s,
    decreases b.len(),
{
    if b.len() > 0 {
        assert((s + b).last() == b.last());
        assert((s + b).drop_last() =~= s + b.drop_last());
        lemma_trim_end(s, b.drop_last());
    } else {
        assert(s + b =~= s);
    }
}

/// Trimming takes the white space before and after a text away and leaves what
/// stands between, white space within it and all; of white space alone nothing
/// is left.
pub proof fn law_trim(a: Seq<char>, s: Seq<char>, b: Seq<char>)
    requires
        forall|i: int| 0 <= i < a.len() ==> white_space(#[trigger] a[i]),
        forall|i: int| 0 <= i < b.len() ==> white_space(#[trigger] b[i]),
        s.len() > 0 ==> !white_space(s[0]) && !white_space(s.last()),
    ensures
        trimmed(a + s + b) == s,
{
    if s.len() > 0 {
        assert(a + s + b =~= a + (s + b));
        assert((s + b)[0] == s[0]);
        lemma_trim_start(a, s + b);
        lemma_trim_end(s, b);
    } else {
        assert(a + s + b =~= (a + b) + Seq::<char>::empty());
        lemma_trim_start(a + b, Seq::empty());
        assert(trimmed_end(Seq::<char>::empty()) =~= s);
    }
}

/// The number that decimal digits stand for.
pub open spec fn read_decimal(s: Seq<char>) -> int
    decreases s.len(),
{
    if s.len() == 0 {
        0
    } else {
        10 * read_decimal(s.drop_last()) + (s.last() as int - 0x30)
    }
}

/// A number is written in decimal digits, without zeros in front.
pub proof fn law_decimal(n: nat)
    ensures
        read_decimal(decimal(n)) == n,
        decimal(n).len() > 0,
        n > 0 ==> decimal(n)[0] != '0',
        forall|i: int| 0 <= i < decimal(n).len() ==> '0' <= #[trigger] decimal(n)[i] <= '9',
    decreases n,
{
    let d = decimal(n);
    if n < 10 {
        assert(d.drop_last() =~= Seq::<char>::empty());
        assert(read_decimal(d.drop_last()) == 0);
    } else {
        law_decimal(n / 10);
        assert(d.drop_last() =~= decimal(n / 10));
        assert(d[0] == decimal(n / 10)[0]);
        assert(10 * (n / 10) + n % 10 == n) by (nonlinear_arith);
    }
}

/// A search finds the names that have its text somewhere in them.
pub proof fn law_found_anywhere(before: Seq<char>, text: Seq<char>, after: Seq<char>)
    ensures
        found_in(before + text + after, text),
{
    let name = before + text + after;
    let i = before.len() as int;
    assert(name.subrange(i, i + text.len()) =~= text);
    assert(crate::search::stands_at(name, text, i));
}

/// A search finds no other names.
pub proof fn law_found_only(name: Seq<char>, text: Seq<char>)
    requires
        found_in(name, text),
    ensures
        exists|before: Seq<char>, after: Seq<char>| name == #[trigger] (before + text + after),
{
    let i = choose|i: int| #[trigger] crate::search::stands_at(name, text, i);
    let before = name.take(i);
    let after = name.skip((i + text.len()) as int);
    assert(name =~= before + text + after);
}

/// An age is told in whole seconds up to a minute, then in whole minutes up to
/// an hour, in whole hours up to a day, and in whole days.
pub proof fn law_age(n: nat, rest: nat)
    ensures
        n < 60 ==> age(n) == decimal(n) + "s"@,
        1 <= n < 60 && rest < 60 ==> age(n * 60 + rest) == decimal(n) + "m"@,
        1 <= n < 24 && rest < 3600 ==> age(n * 3600 + rest) == decimal(n) + "h"@,
        1 <= n && rest < 86400 ==> age(n * 86400 + rest) == decimal(n) + "d"@,
{
    if rest < 60 {
        assert((n * 60 + rest) / 60 == n) by (nonlinear_arith)
            requires
                rest < 60,
        ;
    }
    if rest < 3600 {
        assert((n * 3600 + rest) / 3600 == n) by (nonlinear_arith)
            requires
                rest < 3600,
        ;
    }
    if rest < 86400 {
        assert((n * 86400 + rest) / 86400 == n) by (nonlinear_arith)
            requires
                rest < 86400,
        ;
    }
}

/// How long ago a session was active, never less than no time.
pub proof fn law_age_of(s: SessionView, now: u64)
    ensures
        now >= s.last_active ==> age_of(s, now) + s.last_active == now,
        now < s.last_active ==> age_of(s, now) == 0,
{
}

/// What the terminal is sent for each drawing command.
pub proof fn law_codes(x: u16, y: u16, r: u8, g: u8, b: u8, text: Seq<char>)
    ensures
        code(CmdView::BeginSync, true) == "\u{1b}[?2026h"@,
        code(CmdView::EndSync, true) == "\u{1b}[?2026l"@,
        code(CmdView::Hide, true) == "\u{1b}[?25l"@,
        code(CmdView::Show, true) == "\u{1b}[?25h"@,
        code(CmdView::ClearAll, true) == "\u{1b}[2J"@,
        code(CmdView::ClearLine, true) == "\u{1b}[K"@,
        code(CmdView::Attr(Attr::Reset), true) == "\u{1b}[0m"@,
        code(CmdView::Attr(Attr::Bold), true) == "\u{1b}[1m"@,
        code(CmdView::Attr(Attr::Dim), true) == "\u{1b}[2m"@,
        code(CmdView::Attr(Attr::Italic), true) == "\u{1b}[3m"@,
        code(CmdView::Attr(Attr::Underlined), true) == "\u{1b}[4m"@,
        code(CmdView::Attr(Attr::Reverse), true) == "\u{1b}[7m"@,
        code(CmdView::MoveTo(x, y), true) == "\u{1b}["@ + decimal((y + 1) as nat) + ";"@ + decimal(
            (x + 1) as nat,
        ) + "H"@,
        code(CmdView::Fg(Color::Rgb { r, g, b }), true) == "\u{1b}[38;2;"@ + decimal(r as nat)
            + ";"@ + decimal(g as nat) + ";"@ + decimal(b as nat) + "m"@,
        code(CmdView::Bg(Color::Rgb { r, g, b }), true) == "\u{1b}[48;2;"@ + decimal(r as nat)
            + ";"@ + decimal(g as nat) + ";"@ + decimal(b as nat) + "m"@,
        code(CmdView::Fg(Color::Reset), true) == "\u{1b}[39m"@,
        code(CmdView::Bg(Color::Reset), true) == "\u{1b}[49m"@,
        code(CmdView::Print(text), true) == text,
{
    reveal_strlit("\u{1b}[?2026h");
    reveal_strlit("\u{1b}[?2026l");
    reveal_strlit("\u{1b}[?25l");
    reveal_strlit("\u{1b}[?25h");
    reveal_strlit("\u{1b}[2J");
    reveal_strlit("\u{1b}[K");
    reveal_strlit("\u{1b}[0m");
    reveal_strlit("\u{1b}[1m");
    reveal_strlit("\u{1b}[2m");
    reveal_strlit("\u{1b}[3m");
    reveal_strlit("\u{1b}[4m");
    reveal_strlit("\u{1b}[7m");
    reveal_strlit("\u{1b}[");
    reveal_strlit(";");
    reveal_strlit("H");
    reveal_strlit("m");
    reveal_strlit("\u{1b}[38;2;");
    reveal_strlit("\u{1b}[48;2;");
    reveal_strlit("\u{1b}[39m");
    reveal_strlit("\u{1b}[49m");
}

/// Commands are written one after the other, each for itself.
pub proof fn law_encode_in_order(
    a: Seq<CmdView>,
    b: Seq<CmdView>,
    pa: Seq<bool>,
    pb: Seq<bool>,
    c: CmdView,
    painted: bool,
)
    requires
        pa.len() == a.len(),
        pb.len() == b.len(),
    ensures
        encoded(a + b, pa + pb) == encoded(a, pa) + encoded(b, pb),
        encoded(seq![c], seq![painted]) == code(c, painted),
    decreases b.len(),
{
    if b.len() == 0 {
        assert(a + b =~= a);
        assert(pa + pb =~= pa);
        assert(encoded(a, pa) + encoded(b, pb) =~= encoded(a, pa));
    } else {
        law_encode_in_order(a, b.drop_last(), pa, pb.drop_last(), c, painted);
        assert((a + b).drop_last() =~= a + b.drop_last());
        assert((pa + pb).drop_last() =~= pa + pb.drop_last());
        assert((a + b).last() == b.last() && (pa + pb).last() == pb.last());
        assert(encoded(a + b, pa + pb) =~= encoded(a, pa) + encoded(b, pb));
    }
    let one = seq![c];
    assert(one.drop_last() =~= Seq::<CmdView>::empty());
    assert(encoded(one.drop_last(), seq![painted].drop_last()) =~= Seq::<char>::empty());
    assert(encoded(one, seq![painted]) =~= code(c, painted));
}

/// Stripping takes an escape sequence out, from its escape to its letter, and
/// leaves the text before it and what stripping leaves of the text after it.
pub proof fn law_strip_takes_sequence_out(
    a: Seq<char>,
    p: Seq<char>,
    last: char,
    b: Seq<char>,
)
    requires
        no_escape(a),
        forall|i: int| 0 <= i < p.len() ==> !letter(#[trigger] p[i]),
        letter(last),
    ensures
        stripped(a + seq!['\u{1b}', '['] + p + seq![last] + b) == a + stripped(b),
    decreases a.len(),
{
    let s = a + seq!['\u{1b}', '['] + p + seq![last] + b;
    let n = a.len() as int;
    let j = n + 2 + p.len();
    lemma_strip_plain(s, 0, n);
    assert(s.subrange(0, n) =~= a);
    assert(s[n] == '\u{1b}' && s[n + 1] == '[');
    assert forall|i: int| n + 2 <= i < j implies !letter(#[trigger] s[i]) by {
        assert(s[i] == p[i - n - 2]);
    }
    assert(s[j] == last);
    lemma_letter(s, n + 2, j);
    let head = a + seq!['\u{1b}', '['] + p + seq![last];
    assert(s =~= head + b);
    lemma_strip_shift(head, b, 0);
}

proof fn lemma_letter(s: Seq<char>, i: int, j: int)
    requires
        0 <= i <= j < s.len(),
        forall|k: int| i <= k < j ==> !letter(#[trigger] s[k]),
        letter(s[j]),
    ensures
        crate::ansi::letter_from(s, i) == Some(j),
    decreases j - i,
{
    if i < j {
        lemma_letter(s, i + 1, j);
    }
}

proof fn lemma_letter_shift(a: Seq<char>, b: Seq<char>, i: int)
    requires
        0 <= i,
    ensures
        crate::ansi::letter_from(a + b, a.len() + i) == (match crate::ansi::letter_from(b, i) {
            Some(j) => Some(a.len() + j),
            None => None,
        }),
    decreases b.len() - i,
{
    if i < b.len() {
        assert((a + b)[a.len() + i] == b[i]);
        lemma_letter_shift(a, b, i + 1);
    }
}

proof fn lemma_strip_shift(a: Seq<char>, b: Seq<char>, i: int)
    requires
        0 <= i,
    ensures
        stripped_from(a + b, a.len() + i) == stripped_from(b, i),
    decreases b.len() - i,
{
    if i < b.len() {
        assert((a + b)[a.len() + i] == b[i]);
        if i + 1 < b.len() {
            assert((a + b)[a.len() + i + 1] == b[i + 1]);
        }
        if b[i] != '\u{1b}' {
            lemma_strip_shift(a, b, i + 1);
        } else if i + 1 < b.len() && b[i + 1] == '[' {
            lemma_letter_shift(a, b, i + 2);
            if let Some(j) = crate::ansi::letter_from(b, i + 2) {
                if i + 2 <= j < b.len() {
                    lemma_strip_shift(a, b, j + 1);
                }
            }
        } else {
            lemma_strip_shift(a, b, i + 1);
        }
    }
}

proof fn lemma_strip_plain(s: Seq<char>, i: int, n: int)
    requires
        0 <= i <= n <= s.len(),
        forall|k: int| i <= k < n ==> #[trigger] s[k] != '\u{1b}',
    ensures
        stripped_from(s, i) == s.subrange(i, n) + stripped_from(s, n),
    decreases n - i,
{
    if i < n {
        lemma_strip_plain(s, i + 1, n);
        assert(seq![s[i]] + (s.subrange(i + 1, n) + stripped_from(s, n)) =~= s.subrange(i, n)
            + stripped_from(s, n));
    } else {
        assert(s.subrange(i, n) + stripped_from(s, n) =~= stripped_from(s, n));
    }
}

/// A listing is printed with its escape sequences on a terminal and without
/// them elsewhere.
pub proof fn law_printed_listing(text: Seq<char>)
    ensures
        crate::attach::printed_listing(text, true) == text,
        crate::attach::printed_listing(text, false) == stripped(text),
{
}

/// A client tells of a new size when there is one, with columns and rows, and
/// only when it differs from the last.
pub proof fn law_size_changed(size: (u16, u16), w: u16, h: u16)
    ensures
        crate::attach::size_changed(size, Some((w, h))) <==> w > 0 && h > 0 && (w != size.0 || h
            != size.1),
        !crate::attach::size_changed(size, None),
{
}

/// Numbers are sent lowest byte first.
pub proof fn law_little_endian(n: u16, m: nat)
    requires
        m <= u32::MAX,
    ensures
        le16(n).len() == 2 && le16(n)[0] + 256 * le16(n)[1] == n,
        le32(m).len() == 4 && le32(m)[0] + 256 * le32(m)[1] + 65536 * le32(m)[2] + 16777216
            * le32(m)[3] == m,
        forall|lo: u8, hi: u8| #[trigger] from_le16(lo, hi) == lo + 256 * hi,
{
    assert forall|lo: u8, hi: u8| #[trigger] from_le16(lo, hi) == lo + 256 * hi by {}
    crate::protocol::law_le32(m);
}

/// A frame is its kind, how many bytes follow, and those bytes.
pub proof fn law_frame_bytes(kind: u8, payload: Seq<u8>)
    requires
        payload.len() <= u32::MAX,
    ensures
        ({
            let f = framed(kind, payload);
            &&& f.len() == 5 + payload.len()
            &&& f[0] == kind
            &&& f[1] + 256 * f[2] + 65536 * f[3] + 16777216 * f[4] == payload.len()
            &&& f.skip(5) == payload
        }),
{
    let f = framed(kind, payload);
    law_little_endian(0, payload.len());
    assert(f[1] == le32(payload.len())[0] && f[2] == le32(payload.len())[1] && f[3] == le32(
        payload.len(),
    )[2] && f[4] == le32(payload.len())[3]);
    assert(f.skip(5) =~= payload);
}

/// A frame that says it is longer than 16 MiB is refused, whatever has arrived
/// of it.
pub proof fn law_long_frame_refused(s: Seq<u8>)
    requires
        s.len() >= 5,
        s[1] + 256 * s[2] + 65536 * s[3] + 16777216 * s[4] > 16777216,
    ensures
        parsed(s) is TooLong,
{
    let h = s.subrange(1, 5);
    assert(h[0] == s[1] && h[1] == s[2] && h[2] == s[3] && h[3] == s[4]);
}

/// The kinds of frames are all different in each direction.
pub proof fn law_kinds_differ()
    ensures
        crate::protocol::C2S_ATTACH != crate::protocol::C2S_INPUT,
        crate::protocol::C2S_ATTACH != crate::protocol::C2S_RESIZE,
        crate::protocol::C2S_ATTACH != crate::protocol::C2S_LIST,
        crate::protocol::C2S_INPUT != crate::protocol::C2S_RESIZE,
        crate::protocol::C2S_INPUT != crate::protocol::C2S_LIST,
        crate::protocol::C2S_RESIZE != crate::protocol::C2S_LIST,
        crate::protocol::S2C_OUTPUT != crate::protocol::S2C_BYE,
        crate::protocol::S2C_OUTPUT != crate::protocol::S2C_LIST,
        crate::protocol::S2C_BYE != crate::protocol::S2C_LIST,
{
}

/// The digits of base 64, in their order.
pub proof fn law_base64_alphabet(n: int)
    requires
        0 <= n < 64,
    ensures
        base64_digit(n) as char
            == "ABCDEFGHIJKLMNOPQRSTUVWXYZabcdefghijklmnopqrstuvwxyz0123456789+/"@[n],
{
    reveal_strlit("ABCDEFGHIJKLMNOPQRSTUVWXYZabcdefghijklmnopqrstuvwxyz0123456789+/");
}

/// Base 64 writes three bytes as four digits of the number that they make, the
/// first byte first; what is left over at the end is filled up with zeros and
/// `=`.
pub proof fn law_base64_groups(x: u8, y: u8, z: u8, rest: Seq<u8>)
    ensures
        ({
            let s = base64(seq![x, y, z] + rest);
            let n = 65536 * x + 256 * y + z;
            &&& s.len() == 4 + base64(rest).len()
            &&& s[0] == base64_digit(n / 262144)
            &&& s[1] == base64_digit((n / 4096) % 64)
            &&& s[2] == base64_digit((n / 64) % 64)
            &&& s[3] == base64_digit(n % 64)
            &&& s.skip(4) == base64(rest)
        }),
        base64(Seq::empty()) == Seq::<u8>::empty(),
        base64(seq![x]) == seq![
            base64_digit(x as int / 4),
            base64_digit((x as int % 4) * 16),
            0x3du8,
            0x3du8,
        ],
        base64(seq![x, y]) == seq![
            base64_digit(x as int / 4),
            base64_digit((x as int % 4) * 16 + y as int / 16),
            base64_digit((y as int % 16) * 4),
            0x3du8,
        ],
{
    let all = seq![x, y, z] + rest;
    assert(all[0] == x && all[1] == y && all[2] == z);
    assert(all.skip(3) =~= rest);
    let s = base64(all);
    assert(s.skip(4) =~= base64(rest));
    lemma_group(x as u32, y as u32, z as u32);
}

proof fn lemma_group(x: u32, y: u32, z: u32)
    requires
        x < 256,
        y < 256,
        z < 256,
    ensures
        ({
            let n = 65536 * x + 256 * y + z;
            &&& n / 262144 == x as int / 4
            &&& (n / 4096) % 64 == (x as int % 4) * 16 + y as int / 16
            &&& (n / 64) % 64 == (y as int % 16) * 4 + z as int / 64
            &&& n % 64 == z as int % 64
        }),
{
    let m: u32 = (65536 * x + 256 * y + z) as u32;
    assert(m / 262144 == x / 4 && (m / 4096) % 64 == (x % 4) * 16 + y / 16 && (m / 64) % 64 == (y
        % 16) * 4 + z / 64 && m % 64 == z % 64) by (bit_vector)
        requires
            m == 65536 * x + 256 * y + z,
            x < 256,
            y < 256,
            z < 256,
    ;
}

/// Where colours are not wanted, setting one sends an empty attribute change.
pub proof fn law_codes_unpainted(c: Color, other: CmdView)
    ensures
        code(CmdView::Fg(c), false) == "\u{1b}[m"@,
        code(CmdView::Bg(c), false) == "\u{1b}[m"@,
        !(other is Fg) && !(other is Bg) ==> code(other, false) == code(other, true),
{
    reveal_strlit("\u{1b}[m");
}

} // verus!
