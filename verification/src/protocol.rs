//! The wire protocol between client and server: frames of a kind byte, a
//! 32-bit little-endian length and that many bytes of payload.

use vstd::prelude::*;

verus! {

/// Client to server: attach to a session (columns, rows, name).
pub const C2S_ATTACH: u8 = 1;

/// Client to server: raw input bytes.
pub const C2S_INPUT: u8 = 2;

/// Client to server: the terminal changed size (columns, rows).
pub const C2S_RESIZE: u8 = 3;

/// Client to server: ask for the session listing.
pub const C2S_LIST: u8 = 4;

/// Server to client: bytes for the terminal.
pub const S2C_OUTPUT: u8 = 5;

/// Server to client: goodbye, with the reason.
pub const S2C_BYE: u8 = 6;

/// Server to client: the session listing.
pub const S2C_LIST: u8 = 7;

/// The longest payload that a reader accepts.
pub const MAX_FRAME: usize = 16777216;

/// A frame announced more than the longest payload.
pub struct FrameTooLong;

/// A 32-bit number as four bytes, the lowest first.
pub open spec fn le32(n: nat) -> Seq<u8> {
    seq![
        (n % 256) as u8,
        (n / 256 % 256) as u8,
        (n / 65536 % 256) as u8,
        (n / 16777216 % 256) as u8,
    ]
}

/// The number that four bytes make, the lowest first.
pub open spec fn from_le32(s: Seq<u8>) -> nat {
    (s[0] + 256 * s[1] + 65536 * s[2] + 16777216 * s[3]) as nat
}

/// A 16-bit number as two bytes, the lowest first.
pub open spec fn le16(n: u16) -> Seq<u8> {
    seq![(n % 256) as u8, (n / 256) as u8]
}

/// The number that two bytes make, the lowest first.
pub open spec fn from_le16(lo: u8, hi: u8) -> u16 {
    (lo + 256 * hi) as u16
}

/// The bytes of a frame.
pub open spec fn framed(kind: u8, payload: Seq<u8>) -> Seq<u8> {
    seq![kind] + le32(payload.len()) + payload
}

/// What the first frame in a byte stream is.
pub enum Parsed {
    /// More bytes are needed.
    Partial,
    /// The announced length is too long.
    TooLong,
    /// A whole frame, and the bytes behind it.
    Whole(u8, Seq<u8>, Seq<u8>),
}

/// The first frame in a byte stream.
pub open spec fn parsed(s: Seq<u8>) -> Parsed {
    if s.len() < 5 {
        Parsed::Partial
    } else {
        let n = from_le32(s.subrange(1, 5));
        if n > MAX_FRAME {
            Parsed::TooLong
        } else if s.len() < 5 + n {
            Parsed::Partial
        } else {
            Parsed::Whole(s[0], s.subrange(5, (5 + n) as int), s.skip((5 + n) as int))
        }
    }
}

/// Append a copy of some bytes.
pub fn push_bytes(out: &mut Vec<u8>, bytes: &[u8])
    ensures
        final(out)@ == old(out)@ + bytes@,
{
    out.extend_from_slice(bytes);
    assert(out@ =~= old(out)@ + bytes@);
}

/// The bytes `from..to` of a buffer.
pub fn copy_bytes(buf: &[u8], from: usize, to: usize) -> (r: Vec<u8>)
    requires
        from <= to <= buf@.len(),
    ensures
        r@ == buf@.subrange(from as int, to as int),
{
    let mut r: Vec<u8> = Vec::new();
    push_bytes(&mut r, vstd::slice::slice_subrange(buf, from, to));
    assert(r@ =~= buf@.subrange(from as int, to as int));
    r
}

/// Append a 16-bit number, its low byte first.
pub fn push_le16(out: &mut Vec<u8>, n: u16)
    ensures
        final(out)@ == old(out)@ + le16(n),
{
    out.push((n % 256) as u8);
    out.push((n / 256) as u8);
    assert(out@ =~= old(out)@ + le16(n));
}

/// The 16-bit number of a low and a high byte.
pub fn read_le16(lo: u8, hi: u8) -> (n: u16)
    ensures
        n == from_le16(lo, hi),
{
    lo as u16 + 256 * (hi as u16)
}

/// A frame ready to be sent.
pub fn frame(kind: u8, payload: &[u8]) -> (r: Vec<u8>)
    requires
        payload@.len() <= u32::MAX,
    ensures
        r@ == framed(kind, payload@),
{
    let n: u64 = payload.len() as u64;
    let mut r: Vec<u8> = Vec::new();
    r.push(kind);
    r.push((n % 256) as u8);
    r.push((n / 256 % 256) as u8);
    r.push((n / 65536 % 256) as u8);
    r.push((n / 16777216 % 256) as u8);
    assert(r@ =~= seq![kind] + le32(payload@.len()));
    push_bytes(&mut r, payload);
    r
}

/// Cuts a byte stream into frames, whatever pieces it arrives in.
pub struct FrameReader {
    buf: Vec<u8>,
}

impl View for FrameReader {
    type V = Seq<u8>;

    /// The bytes that have arrived and were not handed out yet.
    closed spec fn view(&self) -> Seq<u8> {
        self.buf@
    }
}

impl FrameReader {
    pub fn new() -> (r: FrameReader)
        ensures
            r@ == Seq::<u8>::empty(),
    {
        FrameReader { buf: Vec::new() }
    }

    /// Take in bytes that have arrived.
    pub fn extend(&mut self, bytes: &[u8])
        ensures
            final(self)@ == old(self)@ + bytes@,
    {
        push_bytes(&mut self.buf, bytes);
    }

    /// The next whole frame, if one has arrived.
    pub fn next_frame(&mut self) -> (r: Result<Option<(u8, Vec<u8>)>, FrameTooLong>)
        ensures
            match parsed(old(self)@) {
                Parsed::Partial => r matches Ok(None) && final(self)@ == old(self)@,
                Parsed::TooLong => r is Err && final(self)@ == old(self)@,
                Parsed::Whole(kind, payload, rest) => {
                    &&& r matches Ok(Some(f))
                    &&& f.0 == kind
                    &&& f.1@ == payload
                    &&& final(self)@ == rest
                },
            },
    {
        if self.buf.len() < 5 {
            return Ok(None);
        }
        let n: u64 = self.buf[1] as u64 + 256 * (self.buf[2] as u64) + 65536 * (self.buf[3] as u64)
            + 16777216 * (self.buf[4] as u64);
        assert(n == from_le32(self.buf@.subrange(1, 5)));
        if n > MAX_FRAME as u64 {
            return Err(FrameTooLong);
        }
        let end: usize = 5 + n as usize;
        if self.buf.len() < end {
            return Ok(None);
        }
        let kind: u8 = self.buf[0];
        let payload: Vec<u8> = copy_bytes(self.buf.as_slice(), 5, end);
        let mut rest: Vec<u8> = copy_bytes(self.buf.as_slice(), end, self.buf.len());
        assert(rest@ =~= self.buf@.skip(end as int));
        std::mem::swap(&mut self.buf, &mut rest);
        Ok(Some((kind, payload)))
    }
}

/// A 32-bit number survives being written and read.
pub proof fn law_le32(n: nat)
    requires
        n <= u32::MAX,
    ensures
        from_le32(le32(n)) == n,
{
}

/// A 16-bit number survives being written and read.
pub proof fn law_le16(n: u16)
    ensures
        from_le16(le16(n)[0], le16(n)[1]) == n,
{
}

/// A frame is read back as it was written, with what follows it left over.
pub proof fn law_frame_roundtrip(kind: u8, payload: Seq<u8>, rest: Seq<u8>)
    requires
        payload.len() <= MAX_FRAME,
    ensures
        parsed(framed(kind, payload) + rest) == Parsed::Whole(kind, payload, rest),
{
    let s = framed(kind, payload) + rest;
    law_le32(payload.len());
    assert(s.subrange(1, 5) =~= le32(payload.len()));
    assert(s.subrange(5, (5 + payload.len()) as int) =~= payload);
    assert(s.skip((5 + payload.len()) as int) =~= rest);
}

/// While a frame has not arrived whole, nothing is handed out.
pub proof fn law_frame_needs_all(kind: u8, payload: Seq<u8>, n: int)
    requires
        payload.len() <= MAX_FRAME,
        0 <= n < framed(kind, payload).len(),
    ensures
        parsed(framed(kind, payload).take(n)) == Parsed::Partial,
{
    let s = framed(kind, payload).take(n);
    law_le32(payload.len());
    if n >= 5 {
        assert(s.subrange(1, 5) =~= le32(payload.len()));
    }
}

/// The whole frames at the start of a byte stream, as kinds and payloads.
pub open spec fn frames_in(s: Seq<u8>) -> Seq<(u8, Seq<u8>)>
    decreases s.len(),
{
    match parsed(s) {
        Parsed::Whole(kind, payload, rest) => seq![(kind, payload)] + frames_in(rest),
        _ => Seq::empty(),
    }
}

/// What follows the whole frames at the start of a byte stream.
pub open spec fn left_over(s: Seq<u8>) -> Seq<u8>
    decreases s.len(),
{
    match parsed(s) {
        Parsed::Whole(_, _, rest) => left_over(rest),
        _ => s,
    }
}

/// The frames of a byte stream do not depend on the pieces it arrives in:
/// reading a first piece, and then the rest behind what was left over,
/// gives the frames of the whole.
pub proof fn law_frames_in_pieces(a: Seq<u8>, b: Seq<u8>)
    ensures
        frames_in(a + b) == frames_in(a) + frames_in(left_over(a) + b),
        left_over(a + b) == left_over(left_over(a) + b),
    decreases a.len(),
{
    match parsed(a) {
        Parsed::Whole(kind, payload, rest) => {
            let n = from_le32(a.subrange(1, 5));
            assert((a + b).subrange(1, 5) =~= a.subrange(1, 5));
            assert((a + b).subrange(5, (5 + n) as int) =~= payload);
            assert((a + b).skip((5 + n) as int) =~= rest + b);
            law_frames_in_pieces(rest, b);
            assert(seq![(kind, payload)] + (frames_in(rest) + frames_in(left_over(rest) + b))
                =~= seq![(kind, payload)] + frames_in(rest) + frames_in(left_over(rest) + b));
        },
        _ => {
            assert(Seq::<(u8, Seq<u8>)>::empty() + frames_in(a + b) =~= frames_in(a + b));
        },
    }
}

/// A frame written behind whole frames is read behind them, and nothing is
/// left over.
pub proof fn law_frames_append(s: Seq<u8>, kind: u8, payload: Seq<u8>)
    requires
        left_over(s).len() == 0,
        payload.len() <= MAX_FRAME,
    ensures
        frames_in(s + framed(kind, payload)) == frames_in(s).push((kind, payload)),
        left_over(s + framed(kind, payload)).len() == 0,
{
    let f = framed(kind, payload);
    let none = Seq::<u8>::empty();
    law_frames_in_pieces(s, f);
    assert(left_over(s) =~= none);
    assert(none + f =~= f);
    law_frame_roundtrip(kind, payload, none);
    assert(f + none =~= f);
    assert(frames_in(none) =~= Seq::<(u8, Seq<u8>)>::empty());
    assert(frames_in(f) =~= seq![(kind, payload)]);
    assert(frames_in(s) + seq![(kind, payload)] =~= frames_in(s).push((kind, payload)));
    assert(left_over(none) == none);
}

} // verus!
