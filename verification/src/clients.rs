//! The connected clients: what is queued for each, and what becomes of a
//! client when its socket is read or written.

use crate::input::{Mode, ModeView};
use crate::protocol::{
    copy_bytes, frame, framed, frames_in, law_frames_append, left_over, parsed, push_bytes,
    FrameReader, Parsed, S2C_BYE,
};
use crate::select::{no_selection, SelectState};
use vstd::prelude::*;
use vstd::utf8::encode_utf8;

verus! {

/// A slow client gets this much buffered output before being dropped.
pub const MAX_OUTBUF: usize = 8388608;

/// One connected client.
pub struct Client {
    pub reader: FrameReader,
    /// Output queued while the socket is full (written when writable).
    pub outbuf: Vec<u8>,
    /// Id of the viewed session; None until the client attaches.
    pub attached: Option<u64>,
    pub size: (u16, u16),
    pub mode: Mode,
    pub select: SelectState,
    pub needs_redraw: bool,
    /// A BYE was queued; drop the client once outbuf drains.
    pub closing: bool,
    /// The socket died; drop the client this iteration.
    pub dead: bool,
}

/// A client with its buffers as sequences.
#[verifier::ext_equal]
pub struct ClientView {
    pub reader: Seq<u8>,
    pub outbuf: Seq<u8>,
    pub attached: Option<u64>,
    pub size: (u16, u16),
    pub mode: ModeView,
    pub select: SelectState,
    pub needs_redraw: bool,
    pub closing: bool,
    pub dead: bool,
}

impl View for Client {
    type V = ClientView;

    open spec fn view(&self) -> ClientView {
        ClientView {
            reader: self.reader@,
            outbuf: self.outbuf@,
            attached: self.attached,
            size: self.size,
            mode: self.mode@,
            select: self.select,
            needs_redraw: self.needs_redraw,
            closing: self.closing,
            dead: self.dead,
        }
    }
}

/// Clients with their buffers as sequences.
pub open spec fn client_views(s: Seq<Client>) -> Seq<ClientView> {
    s.map_values(|c: Client| c@)
}

/// How writing to a client's socket went.
#[derive(Clone, Copy, PartialEq, Eq, Structural)]
pub enum WriteOutcome {
    Wrote(usize),
    WouldBlock,
    Interrupted,
    Failed,
}

/// How reading from a client's socket went.
pub enum ReadOutcome {
    /// The bytes that came; none when the other side has closed.
    Read(Vec<u8>),
    WouldBlock,
    Interrupted,
    Failed,
}

impl ClientView {
    /// A client that has just connected.
    pub open spec fn fresh() -> ClientView {
        ClientView {
            reader: Seq::empty(),
            outbuf: Seq::empty(),
            attached: None,
            size: (80, 24),
            mode: ModeView::Running,
            select: no_selection(),
            needs_redraw: false,
            closing: false,
            dead: false,
        }
    }

    /// With a frame queued; a hopelessly slow client is killed instead.
    pub open spec fn sent(self, kind: u8, payload: Seq<u8>) -> ClientView {
        if self.outbuf.len() + payload.len() > MAX_OUTBUF {
            ClientView { dead: true, ..self }
        } else {
            ClientView { outbuf: self.outbuf + framed(kind, payload), ..self }
        }
    }

    /// With a goodbye queued, unless one is already.
    pub open spec fn farewelled(self, reason: Seq<char>) -> ClientView {
        if self.closing {
            self
        } else {
            ClientView { closing: true, ..self.sent(S2C_BYE, encode_utf8(reason)) }
        }
    }

    /// After an attempt to write the queued output.
    pub open spec fn written(self, o: WriteOutcome) -> ClientView {
        match o {
            WriteOutcome::Wrote(n) => if n == 0 {
                ClientView { dead: true, ..self }
            } else {
                ClientView { outbuf: self.outbuf.skip(n as int), ..self }
            },
            WriteOutcome::WouldBlock => self,
            WriteOutcome::Interrupted => self,
            WriteOutcome::Failed => ClientView { dead: true, ..self },
        }
    }

    /// After an attempt to read input.
    pub open spec fn heard(self, o: ReadOutcome) -> ClientView {
        match o {
            ReadOutcome::Read(bytes) => if bytes@.len() == 0 {
                ClientView { dead: true, ..self }
            } else {
                ClientView { reader: self.reader + bytes@, ..self }
            },
            ReadOutcome::WouldBlock => self,
            ReadOutcome::Interrupted => self,
            ReadOutcome::Failed => ClientView { dead: true, ..self },
        }
    }

    /// Still served: neither said goodbye to nor gone.
    pub open spec fn served(self) -> bool {
        !self.closing && !self.dead
    }

    /// To be dropped: gone, or said goodbye to and everything delivered.
    pub open spec fn finished(self) -> bool {
        self.dead || (self.closing && self.outbuf.len() == 0)
    }
}

impl Client {
    /// A client that has just connected.
    pub fn new() -> (r: Client)
        ensures
            r@ == ClientView::fresh(),
    {
        let r = Client {
            reader: FrameReader::new(),
            outbuf: Vec::new(),
            attached: None,
            size: (80, 24),
            mode: Mode::Running,
            select: SelectState::default(),
            needs_redraw: false,
            closing: false,
            dead: false,
        };
        assert(r@ =~= ClientView::fresh());
        r
    }

    /// Queue a frame; kills the client instead if it is hopelessly slow.
    pub fn send(&mut self, kind: u8, payload: &[u8])
        ensures
            final(self)@ == old(self)@.sent(kind, payload@),
    {
        if payload.len() > MAX_OUTBUF || self.outbuf.len() > MAX_OUTBUF - payload.len() {
            self.dead = true;
            return;
        }
        let f: Vec<u8> = frame(kind, payload);
        push_bytes(&mut self.outbuf, f.as_slice());
    }

    /// Say goodbye (reason shown by the client) and stop serving.
    pub fn bye(&mut self, reason: &str)
        ensures
            final(self)@ == old(self)@.farewelled(reason@),
    {
        if !self.closing {
            self.send(S2C_BYE, reason.as_bytes());
            self.closing = true;
        }
    }

    /// Whether there is queued output to write.
    pub fn wants_write(&self) -> (r: bool)
        ensures
            r == (self@.outbuf.len() > 0),
    {
        self.outbuf.len() > 0
    }

    /// Note how an attempt to write the queued output went. Returns whether
    /// to go on writing.
    pub fn after_write(&mut self, o: WriteOutcome) -> (again: bool)
        requires
            o matches WriteOutcome::Wrote(n) ==> n <= old(self)@.outbuf.len(),
        ensures
            final(self)@ == old(self)@.written(o),
            again == (match o {
                WriteOutcome::Wrote(n) => n > 0 && final(self)@.outbuf.len() > 0,
                WriteOutcome::Interrupted => old(self)@.outbuf.len() > 0,
                _ => false,
            }),
    {
        match o {
            WriteOutcome::Wrote(n) => {
                if n == 0 {
                    self.dead = true;
                    return false;
                }
                let mut rest: Vec<u8> = copy_bytes(self.outbuf.as_slice(), n, self.outbuf.len());
                assert(rest@ =~= self.outbuf@.skip(n as int));
                std::mem::swap(&mut self.outbuf, &mut rest);
                self.outbuf.len() > 0
            },
            WriteOutcome::WouldBlock => false,
            WriteOutcome::Interrupted => self.outbuf.len() > 0,
            WriteOutcome::Failed => {
                self.dead = true;
                false
            },
        }
    }

    /// Note how an attempt to read input went. Returns whether to go on
    /// reading.
    pub fn after_read(&mut self, o: ReadOutcome) -> (again: bool)
        ensures
            final(self)@ == old(self)@.heard(o),
            again == (match o {
                ReadOutcome::Read(bytes) => bytes@.len() > 0,
                ReadOutcome::Interrupted => true,
                _ => false,
            }),
    {
        match o {
            ReadOutcome::Read(bytes) => {
                if bytes.len() == 0 {
                    self.dead = true;
                    return false;
                }
                self.reader.extend(bytes.as_slice());
                true
            },
            ReadOutcome::WouldBlock => false,
            ReadOutcome::Interrupted => true,
            ReadOutcome::Failed => {
                self.dead = true;
                false
            },
        }
    }

    /// The next whole frame that the client has sent, if one has arrived. A
    /// client whose frame is too long is gone.
    pub fn take_frame(&mut self) -> (r: Option<(u8, Vec<u8>)>)
        ensures
            match parsed(old(self)@.reader) {
                Parsed::Partial => r is None && final(self)@ == old(self)@,
                Parsed::TooLong => r is None && final(self)@ == (ClientView {
                    dead: true,
                    ..old(self)@
                }),
                Parsed::Whole(kind, payload, rest) => {
                    &&& r matches Some(f)
                    &&& f.0 == kind
                    &&& f.1@ == payload
                    &&& final(self)@ == (ClientView { reader: rest, ..old(self)@ })
                },
            },
    {
        match self.reader.next_frame() {
            Ok(f) => f,
            Err(_) => {
                self.dead = true;
                None
            },
        }
    }

    /// Whether the client is still served.
    pub fn is_served(&self) -> (r: bool)
        ensures
            r == self@.served(),
    {
        !self.closing && !self.dead
    }

    /// Whether the client can be dropped (sessions keep running).
    pub fn is_finished(&self) -> (r: bool)
        ensures
            r == self@.finished(),
    {
        self.dead || (self.closing && self.outbuf.len() == 0)
    }
}

/// What a client is sent arrives in order: unless the client is killed for
/// being slow, a frame queued behind whole frames comes out of the other
/// side's reader behind them.
pub proof fn law_sent_arrives(c: ClientView, kind: u8, payload: Seq<u8>)
    requires
        left_over(c.outbuf).len() == 0,
    ensures
        c.outbuf.len() + payload.len() > MAX_OUTBUF ==> c.sent(kind, payload).dead,
        c.outbuf.len() + payload.len() <= MAX_OUTBUF ==> frames_in(c.sent(kind, payload).outbuf)
            == frames_in(c.outbuf).push((kind, payload)) && left_over(
            c.sent(kind, payload).outbuf,
        ).len() == 0 && c.sent(kind, payload).dead == c.dead,
{
    if c.outbuf.len() + payload.len() <= MAX_OUTBUF {
        law_frames_append(c.outbuf, kind, payload);
    }
}

/// Only one goodbye is ever queued: the first reason stands.
pub proof fn law_one_goodbye(c: ClientView, first: Seq<char>, second: Seq<char>)
    ensures
        c.farewelled(first).closing,
        c.farewelled(first).farewelled(second) == c.farewelled(first),
{
}

} // verus!
