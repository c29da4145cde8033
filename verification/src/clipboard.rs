//! Copying text to a client's clipboard in-band, with the OSC 52 control
//! sequence.

use vstd::prelude::*;
use vstd::utf8::encode_utf8;

verus! {

/// The base64 digit of a number below 64.
pub open spec fn base64_digit(n: int) -> u8 {
    (if n < 26 {
        0x41 + n
    } else if n < 52 {
        0x61 + (n - 26)
    } else if n < 62 {
        0x30 + (n - 52)
    } else if n == 62 {
        0x2b
    } else {
        0x2f
    }) as u8
}

/// Bytes in base64, padded.
pub open spec fn base64(s: Seq<u8>) -> Seq<u8>
    decreases s.len(),
{
    if s.len() == 0 {
        Seq::empty()
    } else if s.len() == 1 {
        seq![base64_digit(s[0] as int / 4), base64_digit((s[0] as int % 4) * 16), 0x3du8, 0x3du8]
    } else if s.len() == 2 {
        seq![
            base64_digit(s[0] as int / 4),
            base64_digit((s[0] as int % 4) * 16 + s[1] as int / 16),
            base64_digit((s[1] as int % 16) * 4),
            0x3du8,
        ]
    } else {
        seq![
            base64_digit(s[0] as int / 4),
            base64_digit((s[0] as int % 4) * 16 + s[1] as int / 16),
            base64_digit((s[1] as int % 16) * 4 + s[2] as int / 64),
            base64_digit(s[2] as int % 64),
        ] + base64(s.skip(3))
    }
}

/// The number of a base64 digit.
pub open spec fn base64_value(b: u8) -> int {
    if 0x41 <= b <= 0x5a {
        b - 0x41
    } else if 0x61 <= b <= 0x7a {
        b - 0x61 + 26
    } else if 0x30 <= b <= 0x39 {
        b - 0x30 + 52
    } else if b == 0x2b {
        62
    } else {
        63
    }
}

/// The bytes that padded base64 stands for.
pub open spec fn unbase64(s: Seq<u8>) -> Seq<u8>
    decreases s.len(),
{
    if s.len() < 4 {
        Seq::empty()
    } else {
        let a = base64_value(s[0]);
        let b = base64_value(s[1]);
        let c = base64_value(s[2]);
        let d = base64_value(s[3]);
        let x = (a * 4 + b / 16) as u8;
        let y = ((b % 16) * 16 + c / 4) as u8;
        let z = ((c % 4) * 64 + d) as u8;
        if s[2] == 0x3d {
            seq![x]
        } else if s[3] == 0x3d {
            seq![x, y]
        } else {
            seq![x, y, z] + unbase64(s.skip(4))
        }
    }
}

/// The control sequence that puts a text on the terminal's clipboard.
pub open spec fn osc52(text: Seq<char>) -> Seq<u8> {
    seq![0x1bu8, 0x5du8, 0x35u8, 0x32u8, 0x3bu8, 0x63u8, 0x3bu8] + base64(encode_utf8(text))
        + seq![0x07u8]
}

fn push_digit(out: &mut Vec<u8>, n: u8)
    requires
        n < 64,
    ensures
        final(out)@ == old(out)@.push(base64_digit(n as int)),
{
    let d: u8 = if n < 26 {
        0x41 + n
    } else if n < 52 {
        0x61 + (n - 26)
    } else if n < 62 {
        0x30 + (n - 52)
    } else if n == 62 {
        0x2b
    } else {
        0x2f
    };
    out.push(d);
}

/// Append bytes in base64, padded.
pub fn push_base64(out: &mut Vec<u8>, bytes: &[u8])
    ensures
        final(out)@ == old(out)@ + base64(bytes@),
{
    let ghost s = bytes@;
    let ghost first = out@;
    let mut i: usize = 0;
    assert(s.skip(0) =~= s);
    while bytes.len() - i >= 3
        invariant
            i <= bytes.len(),
            bytes.len() == bytes@.len(),
            s == bytes@,
            out@ + base64(s.skip(i as int)) == first + base64(s),
        decreases bytes.len() - i,
    {
        let ghost before = out@;
        let (a, b, c): (u8, u8, u8) = (bytes[i], bytes[i + 1], bytes[i + 2]);
        push_digit(out, a / 4);
        push_digit(out, (a % 4) * 16 + b / 16);
        push_digit(out, (b % 16) * 4 + c / 64);
        push_digit(out, c % 64);
        proof {
            let t = s.skip(i as int);
            assert(t.skip(3) =~= s.skip(i + 3));
            assert(out@ + base64(s.skip(i + 3)) =~= before + base64(t));
        }
        i = i + 3;
    }
    let ghost t = s.skip(i as int);
    let ghost before = out@;
    if bytes.len() - i == 2 {
        let (a, b): (u8, u8) = (bytes[i], bytes[i + 1]);
        push_digit(out, a / 4);
        push_digit(out, (a % 4) * 16 + b / 16);
        push_digit(out, (b % 16) * 4);
        out.push(0x3d);
    } else if bytes.len() - i == 1 {
        let a: u8 = bytes[i];
        push_digit(out, a / 4);
        push_digit(out, (a % 4) * 16);
        out.push(0x3d);
        out.push(0x3d);
    }
    assert(out@ =~= before + base64(t));
}

/// The bytes that make a client's terminal copy a text to its clipboard.
pub fn copy_sequence(text: &str) -> (r: Vec<u8>)
    ensures
        r@ == osc52(text@),
{
    let mut r: Vec<u8> = Vec::new();
    r.push(0x1b);
    r.push(0x5d);
    r.push(0x35);
    r.push(0x32);
    r.push(0x3b);
    r.push(0x63);
    r.push(0x3b);
    assert(r@ =~= seq![0x1bu8, 0x5du8, 0x35u8, 0x32u8, 0x3bu8, 0x63u8, 0x3bu8]);
    push_base64(&mut r, text.as_bytes());
    r.push(0x07);
    assert(r@ =~= osc52(text@));
    r
}

/// The clipboard gets the text that was copied: base64 is read back as it
/// was written, and no byte of it ends the control sequence early.
#[verifier::rlimit(30)]
pub proof fn law_base64(s: Seq<u8>)
    ensures
        unbase64(base64(s)) == s,
        forall|i: int| 0 <= i < base64(s).len() ==> 0x2b <= #[trigger] base64(s)[i] < 0x7f,
    decreases s.len(),
{
    if s.len() >= 3 {
        law_base64(s.skip(3));
        let rest = base64(s.skip(3));
        assert(base64(s).skip(4) =~= rest);
        assert(unbase64(base64(s)) =~= s);
        assert forall|i: int| 0 <= i < base64(s).len() implies 0x2b <= #[trigger] base64(s)[i]
            < 0x7f by {
            if i >= 4 {
                assert(base64(s)[i] == rest[i - 4]);
            }
        }
    } else {
        assert(unbase64(base64(s)) =~= s);
    }
}

} // verus!
