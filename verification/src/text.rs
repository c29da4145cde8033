//! Text helpers: characters of a string, white space, decimal numbers,
//! byte-pattern matching and UTF-8 decoding.

use vstd::prelude::*;
use vstd::utf8::{decode_utf8, valid_utf8};

verus! {

/// `String::push` appends the given character to the end of the string.
pub assume_specification[ String::push ](s: &mut String, c: char)
    ensures
        final(s)@ == old(s)@.push(c),
;

/// `String::pop` removes the last character and returns it, or returns
/// `None` when the string is empty.
pub assume_specification[ String::pop ](s: &mut String) -> (r: Option<char>)
    ensures
        old(s)@.len() == 0 ==> r is None && final(s)@ == old(s)@,
        old(s)@.len() > 0 ==> r == Some(old(s)@.last()) && final(s)@ == old(s)@.drop_last(),
;

/// What `String::from_utf8_lossy` makes of a byte sequence.
pub uninterp spec fn lossy_chars(bytes: Seq<u8>) -> Seq<char>;

/// `String::from_utf8_lossy` decodes UTF-8, replacing what is invalid. The
/// result depends on the bytes alone; valid UTF-8 is decoded unchanged.
/// How many replacement characters stand for an invalid run is not said.
#[verifier::external_body]
pub(crate) fn decode_lossy(bytes: &[u8]) -> (s: String)
    ensures
        s@ == lossy_chars(bytes@),
        valid_utf8(bytes@) ==> s@ == decode_utf8(bytes@),
{
    String::from_utf8_lossy(bytes).into_owned()
}

/// The characters of a string.
pub fn to_chars(s: &str) -> (v: Vec<char>)
    ensures
        v@ == s@,
{
    let mut v: Vec<char> = Vec::new();
    for c in it: s.chars()
        invariant
            v@ == it.seq().take(it.index()),
            it.seq() == s@,
    {
        v.push(c);
        assert(it.seq().take(it.index() + 1) =~= it.seq().take(it.index()).push(c));
    }
    assert(s@.take(s@.len() as int) =~= s@);
    v
}

/// Append `chars[from..to]` to a string.
pub fn push_chars(out: &mut String, chars: &Vec<char>, from: usize, to: usize)
    requires
        from <= to <= chars@.len(),
    ensures
        final(out)@ == old(out)@ + chars@.subrange(from as int, to as int),
{
    let mut i: usize = from;
    assert(out@ =~= old(out)@ + chars@.subrange(from as int, from as int));
    while i < to
        invariant
            from <= i <= to <= chars@.len(),
            out@ == old(out)@ + chars@.subrange(from as int, i as int),
        decreases to - i,
    {
        out.push(chars[i]);
        assert(chars@.subrange(from as int, i + 1) =~= chars@.subrange(from as int, i as int).push(
            chars@[i as int],
        ));
        assert(out@ =~= old(out)@ + chars@.subrange(from as int, i + 1));
        i = i + 1;
    }
}

/// Append `n` copies of a character to a string.
pub fn push_repeated(out: &mut String, c: char, n: usize)
    ensures
        final(out)@ == old(out)@ + repeated(c, n as nat),
{
    let mut i: usize = 0;
    assert(out@ =~= old(out)@ + repeated(c, 0));
    while i < n
        invariant
            i <= n,
            out@ == old(out)@ + repeated(c, i as nat),
        decreases n - i,
    {
        out.push(c);
        i = i + 1;
        assert(out@ =~= old(out)@ + repeated(c, i as nat));
    }
}

/// `n` copies of a character.
pub open spec fn repeated(c: char, n: nat) -> Seq<char> {
    Seq::new(n, |i: int| c)
}

/// The Unicode `White_Space` property.
pub open spec fn white_space(c: char) -> bool {
    let n = c as u32;
    ||| 0x09 <= n <= 0x0d
    ||| n == 0x20
    ||| n == 0x85
    ||| n == 0xa0
    ||| n == 0x1680
    ||| 0x2000 <= n <= 0x200a
    ||| n == 0x2028
    ||| n == 0x2029
    ||| n == 0x202f
    ||| n == 0x205f
    ||| n == 0x3000
}

/// Whether a character has the Unicode `White_Space` property.
pub fn is_white_space(c: char) -> (r: bool)
    ensures
        r == white_space(c),
{
    let n: u32 = c as u32;
    (0x09 <= n && n <= 0x0d) || n == 0x20 || n == 0x85 || n == 0xa0 || n == 0x1680 || (0x2000 <= n
        && n <= 0x200a) || n == 0x2028 || n == 0x2029 || n == 0x202f || n == 0x205f || n == 0x3000
}

/// The Unicode general category `Cc` (control codes).
pub open spec fn control(c: char) -> bool {
    let n = c as u32;
    n < 0x20 || 0x7f <= n < 0xa0
}

/// Whether a character is a control code.
pub fn is_control(c: char) -> (r: bool)
    ensures
        r == control(c),
{
    let n: u32 = c as u32;
    n < 0x20 || (0x7f <= n && n < 0xa0)
}

/// `s` without its leading white space.
pub open spec fn trimmed_start(s: Seq<char>) -> Seq<char>
    decreases s.len(),
{
    if s.len() > 0 && white_space(s[0]) {
        trimmed_start(s.drop_first())
    } else {
        s
    }
}

/// `s` without its trailing white space.
pub open spec fn trimmed_end(s: Seq<char>) -> Seq<char>
    decreases s.len(),
{
    if s.len() > 0 && white_space(s.last()) {
        trimmed_end(s.drop_last())
    } else {
        s
    }
}

/// `s` without leading and trailing white space.
pub open spec fn trimmed(s: Seq<char>) -> Seq<char> {
    trimmed_end(trimmed_start(s))
}

/// A copy of `s` without leading and trailing white space.
pub fn trim(s: &str) -> (r: String)
    ensures
        r@ == trimmed(s@),
{
    let chars: Vec<char> = to_chars(s);
    let mut a: usize = 0;
    assert(chars@.skip(0) =~= chars@);
    while a < chars.len() && is_white_space(chars[a])
        invariant
            a <= chars@.len(),
            trimmed_start(chars@) == trimmed_start(chars@.skip(a as int)),
        decreases chars@.len() - a,
    {
        assert(chars@.skip(a as int).drop_first() =~= chars@.skip(a + 1));
        a = a + 1;
    }
    assert(trimmed_start(chars@) == chars@.skip(a as int));
    let mut b: usize = chars.len();
    assert(chars@.subrange(a as int, b as int) =~= chars@.skip(a as int));
    while a < b && is_white_space(chars[b - 1])
        invariant
            a <= b <= chars@.len(),
            trimmed(chars@) == trimmed_end(chars@.subrange(a as int, b as int)),
        decreases b - a,
    {
        assert(chars@.subrange(a as int, b as int).drop_last() =~= chars@.subrange(
            a as int,
            b - 1,
        ));
        b = b - 1;
    }
    let mut r: String = String::new();
    push_chars(&mut r, &chars, a, b);
    assert(r@ =~= chars@.subrange(a as int, b as int));
    r
}

/// The decimal digit for `0 <= d < 10`.
pub open spec fn digit(d: nat) -> char {
    (0x30 + d) as char
}

/// A natural number in decimal, without leading zeros.
pub open spec fn decimal(n: nat) -> Seq<char>
    decreases n,
{
    if n < 10 {
        seq![digit(n)]
    } else {
        decimal(n / 10).push(digit(n % 10))
    }
}

/// Append a number in decimal.
pub fn push_decimal(out: &mut String, n: u128)
    ensures
        final(out)@ == old(out)@ + decimal(n as nat),
    decreases n,
{
    if n >= 10 {
        push_decimal(out, n / 10);
    }
    let d: u8 = (n % 10) as u8;
    let ghost before = out@;
    out.push((0x30u8 + d) as char);
    proof {
        assert(digit((n % 10) as nat) == (0x30u8 + d) as char);
        if n >= 10 {
            assert(out@ =~= old(out)@ + decimal((n / 10) as nat).push(digit((n % 10) as nat)));
        } else {
            assert(out@ =~= old(out)@ + seq![digit(n as nat)]);
        }
    }
}

/// Whether the bytes of `buf` from `i` on begin with `pat`.
pub open spec fn begins_at(buf: Seq<u8>, i: int, pat: Seq<u8>) -> bool {
    0 <= i && i + pat.len() <= buf.len() && buf.subrange(i, i + pat.len()) == pat
}

/// Whether the bytes of `buf` from `i` on begin with `pat`.
pub fn starts_at(buf: &[u8], i: usize, pat: &[u8]) -> (r: bool)
    requires
        i <= buf@.len(),
    ensures
        r == begins_at(buf@, i as int, pat@),
{
    if pat.len() > buf.len() - i {
        return false;
    }
    let mut k: usize = 0;
    while k < pat.len()
        invariant
            k <= pat@.len(),
            i + pat@.len() <= buf.len(),
            forall|j: int| 0 <= j < k ==> buf@[i + j] == pat@[j],
        decreases pat@.len() - k,
    {
        if buf[i + k] != pat[k] {
            assert(buf@.subrange(i as int, i + pat@.len())[k as int] != pat@[k as int]);
            return false;
        }
        k = k + 1;
    }
    assert(buf@.subrange(i as int, i + pat@.len()) =~= pat@);
    true
}

/// `s` cut to at most `max` characters, the last one an ellipsis when
/// something was cut.
pub open spec fn fitted(s: Seq<char>, max: nat) -> Seq<char> {
    if s.len() <= max {
        s
    } else if max == 0 {
        Seq::empty()
    } else {
        s.take(max - 1).push('…')
    }
}

/// Truncate to `max` display characters, ellipsized where there is room.
pub fn fit(s: &str, max: usize) -> (r: String)
    ensures
        r@ == fitted(s@, max as nat),
{
    let chars: Vec<char> = to_chars(s);
    let mut r: String = String::new();
    if chars.len() <= max {
        push_chars(&mut r, &chars, 0, chars.len());
        assert(r@ =~= s@);
        return r;
    }
    if max > 0 {
        push_chars(&mut r, &chars, 0, max - 1);
        r.push('…');
    }
    assert(r@ =~= fitted(s@, max as nat));
    r
}

/// A cut text has at most as many characters as there is room for, and one
/// that fits is left as it is.
pub proof fn law_fitted(s: Seq<char>, max: nat)
    ensures
        fitted(s, max).len() <= max,
        s.len() <= max ==> fitted(s, max) == s,
        s.len() > max > 0 ==> fitted(s, max).len() == max && fitted(s, max).last() == '…'
            && fitted(s, max).drop_last() == s.take(max - 1),
{
    if s.len() > max > 0 {
        assert(fitted(s, max).drop_last() =~= s.take(max - 1));
    }
}

} // verus!
