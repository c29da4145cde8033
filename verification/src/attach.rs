//! The attach client: what it sends to the server, and what it does with
//! the frames that come back.

use crate::ansi::{strip_ansi, stripped};
use crate::protocol::{
    frame, framed, from_le16, law_le16, le16, push_bytes, push_le16, C2S_ATTACH, C2S_INPUT, C2S_LIST, C2S_RESIZE,
    S2C_BYE, S2C_LIST, S2C_OUTPUT,
};
use crate::text::{decode_lossy, lossy_chars};
use vstd::prelude::*;
use vstd::utf8::{
    decode_utf8, encode_utf8, encode_utf8_decode_utf8, encode_utf8_valid_utf8, valid_utf8,
};

verus! {

/// The size to start with: what the terminal says, or 80 columns and 24
/// rows when it says nothing useful.
pub fn initial_size(said: Option<(u16, u16)>) -> (r: (u16, u16))
    ensures
        r == (match said {
            Some((w, h)) => if w == 0 || h == 0 {
                (80u16, 24u16)
            } else {
                (w, h)
            },
            None => (80u16, 24u16),
        }),
{
    match said {
        Some((w, h)) => if w == 0 || h == 0 {
            (80, 24)
        } else {
            (w, h)
        },
        None => (80, 24),
    }
}

/// What an attach request carries: the size and the session's name.
pub open spec fn attach_payload(size: (u16, u16), name: Seq<char>) -> Seq<u8> {
    le16(size.0) + le16(size.1) + encode_utf8(name)
}

/// The request to attach to a session.
pub fn attach_request(size: (u16, u16), name: &str) -> (r: Vec<u8>)
    requires
        attach_payload(size, name@).len() <= u32::MAX,
    ensures
        r@ == framed(C2S_ATTACH, attach_payload(size, name@)),
{
    let mut payload: Vec<u8> = Vec::new();
    push_le16(&mut payload, size.0);
    push_le16(&mut payload, size.1);
    push_bytes(&mut payload, name.as_bytes());
    assert(payload@ =~= attach_payload(size, name@));
    frame(C2S_ATTACH, payload.as_slice())
}

/// The frame that carries input.
pub fn input_request(bytes: &[u8]) -> (r: Vec<u8>)
    requires
        bytes@.len() <= u32::MAX,
    ensures
        r@ == framed(C2S_INPUT, bytes@),
{
    frame(C2S_INPUT, bytes)
}

/// The request for the session listing.
pub fn list_request() -> (r: Vec<u8>)
    ensures
        r@ == framed(C2S_LIST, Seq::empty()),
{
    let none: Vec<u8> = Vec::new();
    assert(none@ =~= Seq::<u8>::empty());
    frame(C2S_LIST, none.as_slice())
}

/// Whether the terminal has a new size to take over.
pub open spec fn size_changed(size: (u16, u16), said: Option<(u16, u16)>) -> bool {
    said matches Some((w, h)) && (w, h) != size && w > 0 && h > 0
}

/// Take over the terminal's size. Returns the frame to send when it has
/// changed.
pub fn resize_request(size: &mut (u16, u16), said: Option<(u16, u16)>) -> (r: Option<Vec<u8>>)
    ensures
        match r {
            Some(f) => size_changed(*old(size), said) && Some(*final(size)) == said && f@ == framed(
                C2S_RESIZE,
                le16(final(size).0) + le16(final(size).1),
            ),
            None => !size_changed(*old(size), said) && *final(size) == *old(size),
        },
{
    match said {
        Some((w, h)) => if (w != size.0 || h != size.1) && w > 0 && h > 0 {
            *size = (w, h);
            let mut payload: Vec<u8> = Vec::new();
            push_le16(&mut payload, w);
            push_le16(&mut payload, h);
            assert(payload@ =~= le16(w) + le16(h));
            Some(frame(C2S_RESIZE, payload.as_slice()))
        } else {
            None
        },
        None => None,
    }
}

/// What to do with a frame from the server.
pub enum Incoming {
    /// Write these bytes to the terminal.
    Output(Vec<u8>),
    /// Stop, and show the reason.
    Bye(String),
    /// Nothing.
    Ignore,
}

/// Decide what to do with a frame while attached.
pub fn incoming(kind: u8, payload: Vec<u8>) -> (r: Incoming)
    ensures
        match r {
            Incoming::Output(bytes) => kind == S2C_OUTPUT && bytes@ == payload@,
            Incoming::Bye(reason) => kind == S2C_BYE && reason@ == lossy_chars(payload@),
            Incoming::Ignore => kind != S2C_OUTPUT && kind != S2C_BYE,
        },
        kind == S2C_BYE && valid_utf8(payload@) ==> lossy_chars(payload@) == decode_utf8(payload@),
{
    if kind == S2C_OUTPUT {
        Incoming::Output(payload)
    } else if kind == S2C_BYE {
        Incoming::Bye(decode_lossy(payload.as_slice()))
    } else {
        Incoming::Ignore
    }
}

/// A listing as it is printed: with colors on a terminal, plain when piped.
pub open spec fn printed_listing(text: Seq<char>, terminal: bool) -> Seq<char> {
    if terminal {
        text
    } else {
        stripped(text)
    }
}

/// A listing as it is printed: colors for humans; plain text when piped.
pub fn listing_text(text: String, terminal: bool) -> (r: String)
    ensures
        r@ == printed_listing(text@, terminal),
{
    if terminal {
        text
    } else {
        strip_ansi(text.as_str())
    }
}

/// What to print for a frame while waiting for the listing, if it is one.
pub fn listing_output(kind: u8, payload: &Vec<u8>, terminal: bool) -> (r: Option<String>)
    ensures
        match r {
            Some(text) => kind == S2C_LIST && text@ == printed_listing(
                lossy_chars(payload@),
                terminal,
            ),
            None => kind != S2C_LIST,
        },
        kind == S2C_LIST && valid_utf8(payload@) ==> lossy_chars(payload@) == decode_utf8(
            payload@,
        ),
{
    if kind == S2C_LIST {
        Some(listing_text(decode_lossy(payload.as_slice()), terminal))
    } else {
        None
    }
}

/// An attach request is understood: the server reads the size that the client
/// sent, and the bytes it reads the name from are its name in UTF-8.
pub proof fn law_attach_understood(size: (u16, u16), name: Seq<char>)
    ensures
        ({
            let p = attach_payload(size, name);
            &&& p.len() >= 4
            &&& from_le16(p[0], p[1]) == size.0
            &&& from_le16(p[2], p[3]) == size.1
            &&& p.skip(4) == encode_utf8(name)
            &&& valid_utf8(p.skip(4))
            &&& decode_utf8(p.skip(4)) == name
        }),
{
    encode_utf8_valid_utf8(name);
    encode_utf8_decode_utf8(name);
    law_le16(size.0);
    law_le16(size.1);
    assert(attach_payload(size, name).skip(4) =~= encode_utf8(name));
}

} // verus!
