//! The line codec of one connection: bytes in, lines out; lines in, bytes out.
//!
//! The codec never touches a socket. The driver reads and writes; the codec
//! is told what was read and how much was written, and keeps the bytes in
//! between.

use crate::error::ConnectionError;
use crate::frame::{
    after_frame, decode_frame, encode_frame, first_frame, has_frame, lemma_delimiter_at,
};
use crate::line::{Line, NEWLINE};
use vstd::prelude::*;
use vstd::slice::slice_to_vec;
use vstd::utf8::*;

verus! {

/// What a codec holds.
pub struct CodecView {
    /// Bytes that were read and not yet decoded.
    pub inbound: Seq<u8>,
    /// Whether the peer has ended its side of the stream.
    pub exhausted: bool,
    /// Bytes that were encoded and not yet written.
    pub outbound: Seq<u8>,
}

/// What the read side of a codec yields next.
pub enum Decoded {
    /// A whole line, without its delimiter.
    Line(Seq<u8>),
    /// No whole line yet; more bytes may come.
    Pending,
    /// The stream has ended and nothing is left of it.
    End,
    /// The connection cannot go on.
    Failed(ConnectionError),
}

impl CodecView {
    /// A codec that holds nothing.
    pub open spec fn empty() -> CodecView {
        CodecView { inbound: Seq::empty(), exhausted: false, outbound: Seq::empty() }
    }

    /// The codec after `bytes` were read from the socket.
    pub open spec fn feed(self, bytes: Seq<u8>) -> CodecView {
        CodecView { inbound: self.inbound + bytes, ..self }
    }

    /// The codec after the peer ended the stream.
    pub open spec fn exhaust(self) -> CodecView {
        CodecView { exhausted: true, ..self }
    }

    /// What `next_line` yields.
    pub open spec fn decoded(self) -> Decoded {
        if has_frame(self.inbound) {
            if valid_utf8(first_frame(self.inbound)) {
                Decoded::Line(first_frame(self.inbound).drop_last())
            } else {
                Decoded::Failed(ConnectionError::MalformedFrame)
            }
        } else if !self.exhausted {
            Decoded::Pending
        } else if self.inbound.len() == 0 {
            Decoded::End
        } else {
            Decoded::Failed(ConnectionError::Io)
        }
    }

    /// The codec after `next_line`: the first frame, if there is one, is gone.
    pub open spec fn after_decode(self) -> CodecView {
        if has_frame(self.inbound) {
            CodecView { inbound: after_frame(self.inbound), ..self }
        } else {
            self
        }
    }

    /// Whether a line may be handed over: nothing of an earlier one is left to write.
    pub open spec fn ready(self) -> bool {
        self.outbound.len() == 0
    }

    /// The codec after it has taken `line` for sending.
    pub open spec fn accept(self, line: Seq<u8>) -> CodecView {
        CodecView { outbound: self.outbound + line.push(NEWLINE), ..self }
    }

    /// Whether a write that took `written` bytes is one the codec can account for.
    pub open spec fn can_flush(self, written: nat) -> bool {
        1 <= written <= self.outbound.len()
    }

    /// The codec after the socket took the first `written` bytes of what was pending.
    pub open spec fn flush(self, written: nat) -> CodecView {
        CodecView { outbound: self.outbound.skip(written as int), ..self }
    }
}

/// What `Codec::next_line` found.
#[derive(Debug)]
pub enum Frame {
    /// A whole line.
    Line(Line),
    /// No whole line is buffered; ask again after the next read.
    Pending,
    /// The peer has ended the stream and no byte of it is left.
    End,
}

/// How far a flush got.
#[derive(Clone, Copy, Debug, PartialEq, Eq, Structural)]
pub enum Flush {
    /// Every pending byte has been written.
    Done,
    /// Some bytes are still pending.
    More,
}

/// The framing layer of one connection.
#[derive(Debug)]
pub struct Codec {
    inbound: Vec<u8>,
    exhausted: bool,
    outbound: Vec<u8>,
}

impl View for Codec {
    type V = CodecView;

    closed spec fn view(&self) -> CodecView {
        CodecView {
            inbound: self.inbound@,
            exhausted: self.exhausted,
            outbound: self.outbound@,
        }
    }
}

impl Codec {
    /// A codec with nothing buffered in either direction.
    pub fn new() -> (codec: Codec)
        ensures
            codec@ == CodecView::empty(),
    {
        Codec { inbound: Vec::new(), exhausted: false, outbound: Vec::new() }
    }

    /// Takes in bytes that the driver read from the socket.
    pub fn feed(&mut self, bytes: &[u8])
        ensures
            final(self)@ == old(self)@.feed(bytes@),
    {
        let mut more = slice_to_vec(bytes);
        self.inbound.append(&mut more);
    }

    /// Notes that the peer has ended the stream: no more bytes will be fed.
    pub fn exhaust(&mut self)
        ensures
            final(self)@ == old(self)@.exhaust(),
    {
        self.exhausted = true;
    }

    /// Decodes the next line from what is buffered, without waiting.
    ///
    /// Yields the first buffered line, or says that none is whole yet, or
    /// that the stream has ended cleanly. Fails on a frame that is not UTF-8
    /// and on a stream that ends inside a line.
    pub fn next_line(&mut self) -> (r: Result<Frame, ConnectionError>)
        ensures
            final(self)@ == old(self)@.after_decode(),
            match old(self)@.decoded() {
                Decoded::Line(l) => r matches Ok(Frame::Line(line)) && line@ == l && line.wf(),
                Decoded::Pending => r matches Ok(Frame::Pending),
                Decoded::End => r matches Ok(Frame::End),
                Decoded::Failed(e) => r matches Err(f) && f == e,
            },
    {
        proof {
            lemma_delimiter_at(self.inbound@);
        }
        match decode_frame(&mut self.inbound) {
            Ok(Some(frame)) => Ok(Frame::Line(Line::from_frame(frame))),
            Ok(None) => {
                if !self.exhausted {
                    Ok(Frame::Pending)
                } else if self.inbound.len() == 0 {
                    Ok(Frame::End)
                } else {
                    Err(ConnectionError::Io)
                }
            },
            Err(_) => Err(ConnectionError::MalformedFrame),
        }
    }

    /// Whether the codec may be handed a line to send.
    pub fn ready(&self) -> (yes: bool)
        ensures
            yes == self@.ready(),
    {
        self.outbound.len() == 0
    }

    /// Takes `line` for sending where the codec is ready, and says whether it did.
    ///
    /// The line and its delimiter are queued behind nothing; a codec that is
    /// not ready takes nothing and stays as it is.
    pub fn accept(&mut self, line: &Line) -> (taken: bool)
        requires
            line.wf(),
        ensures
            taken == old(self)@.ready(),
            taken ==> final(self)@ == old(self)@.accept(line@),
            !taken ==> final(self)@ == old(self)@,
    {
        if self.outbound.len() != 0 {
            return false;
        }
        let frame = line.to_frame();
        let _ = encode_frame(&frame, &mut self.outbound);
        true
    }

    /// The bytes that wait to be written, in order.
    pub fn pending(&self) -> (bytes: &[u8])
        ensures
            bytes@ == self@.outbound,
    {
        self.outbound.as_slice()
    }

    /// Accounts for a write that took the first `written` bytes of `pending()`.
    ///
    /// A write may take any part of what is pending; the rest stays queued in
    /// order. A write of no byte, or of more than was pending, is a failure
    /// and changes nothing.
    pub fn flush(&mut self, written: usize) -> (r: Result<Flush, ConnectionError>)
        ensures
            match r {
                Ok(flush) => {
                    &&& old(self)@.can_flush(written as nat)
                    &&& final(self)@ == old(self)@.flush(written as nat)
                    &&& flush == Flush::Done <==> final(self)@.outbound.len() == 0
                },
                Err(e) => {
                    &&& !old(self)@.can_flush(written as nat)
                    &&& e == ConnectionError::Io
                    &&& final(self)@ == old(self)@
                },
            },
    {
        if written == 0 || written > self.outbound.len() {
            return Err(ConnectionError::Io);
        }
        let rest = self.outbound.split_off(written);
        self.outbound = rest;
        if self.outbound.len() == 0 {
            Ok(Flush::Done)
        } else {
            Ok(Flush::More)
        }
    }
}

} // verus!
