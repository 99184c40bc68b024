//! The framed exchange of a connected session: length-prefixed frames,
//! ticks, and control messages with their terms.

use crate::decode::{dec_versioned, read_term, short, DecodingError};
use crate::encode::{check, enc_versioned, encodable, encoding_error, write_term, VERSION_MAGIC};
use crate::session::{failed, Action, ActionView, ProtocolError, Session, SessionError, SessionView, State};
use crate::term::{EncodingError, Term, TermView};
use crate::wire::{be16, be32, get_be16, get_be32, push_all, push_be16, push_be32, read_be16, read_be32};
use vstd::prelude::*;
use vstd::slice::slice_subrange;

verus! {

/// What a frame that is no tick asks for.
#[derive(Debug, Copy, Clone, PartialEq, Eq, Structural)]
pub enum Control {
    Link,
    Send,
    Exit,
    Unlink,
    NodeLink,
    RegSend,
    GroupLeader,
    Exit2,
}

/// The byte that stands for a control message.
pub open spec fn tag_of(c: Control) -> u8 {
    match c {
        Control::Link => 1,
        Control::Send => 2,
        Control::Exit => 3,
        Control::Unlink => 4,
        Control::NodeLink => 5,
        Control::RegSend => 6,
        Control::GroupLeader => 7,
        Control::Exit2 => 8,
    }
}

/// The control message that a byte stands for, if it stands for one.
pub open spec fn control_of(tag: u8) -> Option<Control> {
    if tag == 1 {
        Some(Control::Link)
    } else if tag == 2 {
        Some(Control::Send)
    } else if tag == 3 {
        Some(Control::Exit)
    } else if tag == 4 {
        Some(Control::Unlink)
    } else if tag == 5 {
        Some(Control::NodeLink)
    } else if tag == 6 {
        Some(Control::RegSend)
    } else if tag == 7 {
        Some(Control::GroupLeader)
    } else if tag == 8 {
        Some(Control::Exit2)
    } else {
        None
    }
}

/// Whether a term follows the control tag: only where a message is sent.
pub open spec fn carries_term(c: Control) -> bool {
    c == Control::Send || c == Control::RegSend
}

/// What stands at the head of the bytes received.
#[derive(Debug, PartialEq, Eq)]
pub enum Inbound {
    /// No whole frame yet: more bytes are needed.
    Wait,
    /// A tick; the next frame begins at `next`.
    Tick { next: usize },
    /// A control message without a term.
    Control { control: Control, next: usize },
    /// A control message with its term.
    Message { control: Control, term: Term, next: usize },
    /// The frame breaks the protocol.
    Fail(SessionError),
}

/// What an [`Inbound`] is.
pub ghost enum InboundView {
    Wait,
    Tick { next: int },
    Control { control: Control, next: int },
    Message { control: Control, term: TermView, next: int },
    Fail(SessionError),
}

impl View for Inbound {
    type V = InboundView;

    open spec fn view(&self) -> InboundView {
        match self {
            Inbound::Wait => InboundView::Wait,
            Inbound::Tick { next } => InboundView::Tick { next: *next as int },
            Inbound::Control { control, next } => InboundView::Control {
                control: *control,
                next: *next as int,
            },
            Inbound::Message { control, term, next } => InboundView::Message {
                control: *control,
                term: term@,
                next: *next as int,
            },
            Inbound::Fail(e) => InboundView::Fail(*e),
        }
    }
}

/// A payload behind its four-byte length: a frame of a connected session.
pub open spec fn frame_bytes(payload: Seq<u8>) -> Seq<u8> {
    be32(payload.len() as u32) + payload
}

/// A payload behind its two-byte length: a frame of the handshake.
pub open spec fn handshake_frame_bytes(payload: Seq<u8>) -> Seq<u8> {
    be16(payload.len() as u16) + payload
}

/// The payload of a frame that sends `term`.
pub open spec fn message_bytes(c: Control, term: TermView) -> Seq<u8> {
    seq![tag_of(c)] + enc_versioned(term)
}

/// What the payload of a frame holds, the payload not being empty.
pub open spec fn payload_view(payload: Seq<u8>, next: int) -> InboundView {
    match control_of(payload[0]) {
        None => InboundView::Fail(SessionError::Protocol(ProtocolError::UnknownControlTag)),
        Some(c) => if !carries_term(c) {
            InboundView::Control { control: c, next }
        } else {
            match dec_versioned(payload, 1) {
                Ok((term, end)) => if end == payload.len() {
                    InboundView::Message { control: c, term, next }
                } else {
                    InboundView::Fail(SessionError::Decoding(DecodingError::BadLength))
                },
                Err((e, _)) => InboundView::Fail(SessionError::Decoding(e)),
            }
        },
    }
}

/// What stands at `pos` for a session that accepts frames of up to `max`
/// bytes. A frame is judged by its length field before any of its payload
/// is looked at, and a frame that is not all there is never delivered.
pub open spec fn frame_at(b: Seq<u8>, pos: int, max: u32) -> InboundView {
    if pos < 0 || short(b, pos, 4) {
        InboundView::Wait
    } else if read_be32(b, pos) > max {
        InboundView::Fail(SessionError::Protocol(ProtocolError::FrameTooLarge))
    } else if short(b, pos, 4 + read_be32(b, pos)) {
        InboundView::Wait
    } else if read_be32(b, pos) == 0 {
        InboundView::Tick { next: pos + 4 }
    } else {
        payload_view(
            b.subrange(pos + 4, pos + 4 + read_be32(b, pos)),
            pos + 4 + read_be32(b, pos),
        )
    }
}

/// What the frame at `pos` does to a session, what it delivers and what is
/// to be done on the stream. Only a connected session takes frames. A tick
/// is answered by one frame without payload and is not delivered; a frame
/// that breaks the protocol fails the session and closes the connection.
pub open spec fn react(s: SessionView, b: Seq<u8>, pos: int) -> (
    SessionView,
    InboundView,
    ActionView,
) {
    if s.state != State::Connected {
        (s, InboundView::Wait, ActionView::Nothing)
    } else {
        match frame_at(b, pos, s.max_frame) {
            InboundView::Tick { next } => (
                s,
                InboundView::Tick { next },
                ActionView::Send(Seq::empty()),
            ),
            InboundView::Fail(e) => (failed(s, e).0, InboundView::Fail(e), ActionView::Close),
            other => (s, other, ActionView::Nothing),
        }
    }
}

/// The byte that stands for a control message.
pub fn control_tag(c: Control) -> (tag: u8)
    ensures
        tag == tag_of(c),
        control_of(tag) == Some(c),
{
    match c {
        Control::Link => 1,
        Control::Send => 2,
        Control::Exit => 3,
        Control::Unlink => 4,
        Control::NodeLink => 5,
        Control::RegSend => 6,
        Control::GroupLeader => 7,
        Control::Exit2 => 8,
    }
}

/// The control message that a byte stands for, if it stands for one.
pub fn control_from_tag(tag: u8) -> (r: Option<Control>)
    ensures
        r == control_of(tag),
{
    if tag == 1 {
        Some(Control::Link)
    } else if tag == 2 {
        Some(Control::Send)
    } else if tag == 3 {
        Some(Control::Exit)
    } else if tag == 4 {
        Some(Control::Unlink)
    } else if tag == 5 {
        Some(Control::NodeLink)
    } else if tag == 6 {
        Some(Control::RegSend)
    } else if tag == 7 {
        Some(Control::GroupLeader)
    } else if tag == 8 {
        Some(Control::Exit2)
    } else {
        None
    }
}

/// Puts a payload behind its four-byte length. A payload whose length does
/// not fit the field is refused.
pub fn frame(payload: &Vec<u8>) -> (r: Result<Vec<u8>, EncodingError>)
    ensures
        r.is_ok() == (payload@.len() <= u32::MAX),
        r.is_ok() ==> r.unwrap()@ == frame_bytes(payload@),
        r.is_err() ==> r.unwrap_err() == EncodingError::Unrepresentable,
{
    if payload.len() > 0xffff_ffff {
        return Err(EncodingError::Unrepresentable);
    }
    let mut out: Vec<u8> = Vec::new();
    push_be32(&mut out, payload.len() as u32);
    push_all(&mut out, payload);
    assert(out@ =~= frame_bytes(payload@));
    Ok(out)
}

/// Puts a handshake message behind its two-byte length. A message whose
/// length does not fit the field is refused.
pub fn handshake_frame(payload: &Vec<u8>) -> (r: Result<Vec<u8>, EncodingError>)
    ensures
        r.is_ok() == (payload@.len() <= u16::MAX),
        r.is_ok() ==> r.unwrap()@ == handshake_frame_bytes(payload@),
        r.is_err() ==> r.unwrap_err() == EncodingError::Unrepresentable,
{
    if payload.len() > 0xffff {
        return Err(EncodingError::Unrepresentable);
    }
    let mut out: Vec<u8> = Vec::new();
    push_be16(&mut out, payload.len() as u16);
    push_all(&mut out, payload);
    assert(out@ =~= handshake_frame_bytes(payload@));
    Ok(out)
}

/// Where the handshake message at `pos` begins and ends, once all of it is
/// there.
pub fn handshake_frame_at(buf: &[u8], pos: usize) -> (r: Option<(usize, usize)>)
    requires
        pos <= buf.len(),
    ensures
        r.is_some() == (!short(buf@, pos as int, 2) && !short(
            buf@,
            pos as int,
            2 + read_be16(buf@, pos as int),
        )),
        r.is_some() ==> r.unwrap().0 == pos + 2 && r.unwrap().1 == pos + 2 + read_be16(
            buf@,
            pos as int,
        ),
{
    if buf.len() - pos < 2 {
        return None;
    }
    let n: usize = get_be16(buf, pos) as usize;
    if buf.len() - pos - 2 < n {
        return None;
    }
    Some((pos + 2, pos + 2 + n))
}

/// The payload of a frame that sends `term` under the control message `c`.
pub fn message_payload(c: Control, term: &Term) -> (r: Result<Vec<u8>, EncodingError>)
    ensures
        r.is_ok() == encodable(term@),
        r.is_ok() ==> r.unwrap()@ == message_bytes(c, term@),
        r.is_err() ==> encoding_error(term@) == Some(r.unwrap_err()),
{
    match check(term) {
        Ok(()) => {
            let mut out: Vec<u8> = Vec::new();
            out.push(control_tag(c));
            out.push(VERSION_MAGIC);
            write_term(term, &mut out);
            assert(out@ =~= message_bytes(c, term@));
            Ok(out)
        },
        Err(e) => Err(e),
    }
}

fn read_payload(payload: &[u8], next: usize) -> (r: Inbound)
    requires
        payload.len() >= 1,
    ensures
        r@ == payload_view(payload@, next as int),
{
    match control_from_tag(payload[0]) {
        None => Inbound::Fail(SessionError::Protocol(ProtocolError::UnknownControlTag)),
        Some(c) => {
            if !(c == Control::Send || c == Control::RegSend) {
                return Inbound::Control { control: c, next };
            }
            if payload.len() < 2 {
                return Inbound::Fail(SessionError::Decoding(DecodingError::Truncated));
            }
            if payload[1] != VERSION_MAGIC {
                return Inbound::Fail(SessionError::Decoding(DecodingError::UnexpectedTag));
            }
            match read_term(payload, 2) {
                Ok((term, end)) => {
                    if end == payload.len() {
                        Inbound::Message { control: c, term, next }
                    } else {
                        Inbound::Fail(SessionError::Decoding(DecodingError::BadLength))
                    }
                },
                Err((e, _)) => Inbound::Fail(SessionError::Decoding(e)),
            }
        },
    }
}

/// Reads what stands at `pos`, for a session that accepts frames of up to
/// `max` bytes.
pub fn read_frame(buf: &[u8], pos: usize, max: u32) -> (r: Inbound)
    ensures
        r@ == frame_at(buf@, pos as int, max),
{
    if pos > buf.len() || buf.len() - pos < 4 {
        return Inbound::Wait;
    }
    let n: u32 = get_be32(buf, pos);
    if n > max {
        return Inbound::Fail(SessionError::Protocol(ProtocolError::FrameTooLarge));
    }
    if buf.len() - pos - 4 < n as usize {
        return Inbound::Wait;
    }
    if n == 0 {
        return Inbound::Tick { next: pos + 4 };
    }
    let end: usize = pos + 4 + n as usize;
    read_payload(slice_subrange(buf, pos + 4, end), end)
}

impl Session {
    /// Takes the frame that stands at `pos` in the bytes received. Gives
    /// what the frame delivers and what is to be done on the stream.
    pub fn receive(&mut self, buf: &[u8], pos: usize) -> (r: (Inbound, Action))
        ensures
            final(self)@ == react(old(self)@, buf@, pos as int).0,
            r.0@ == react(old(self)@, buf@, pos as int).1,
            r.1@ == react(old(self)@, buf@, pos as int).2,
    {
        if self.state != State::Connected {
            return (Inbound::Wait, Action::Nothing);
        }
        let inbound = read_frame(buf, pos, self.max_frame);
        match inbound {
            Inbound::Tick { next } => (Inbound::Tick { next }, Action::Send(Vec::new())),
            Inbound::Fail(e) => {
                let action = self.fail(e);
                (Inbound::Fail(e), action)
            },
            other => (other, Action::Nothing),
        }
    }
}

/// Tick liveness: a connected session answers a frame without payload by
/// exactly one frame without payload, delivers nothing and stays connected.
pub proof fn lemma_tick(s: SessionView, b: Seq<u8>, pos: int)
    requires
        s.state == State::Connected,
        0 <= pos,
        pos + 4 <= b.len(),
        b.subrange(pos, pos + 4) == frame_bytes(Seq::empty()),
    ensures
        react(s, b, pos) == (
            s,
            InboundView::Tick { next: pos + 4 },
            ActionView::Send(Seq::<u8>::empty()),
        ),
        frame_bytes(Seq::empty()) == seq![0u8, 0u8, 0u8, 0u8],
{
    assert(frame_bytes(Seq::empty()) =~= seq![0u8, 0u8, 0u8, 0u8]);
    crate::wire::lemma_be32_read(b, pos, 0);
    assert(frame_bytes(Seq::empty()) =~= be32(0));
}

/// Frame size limit: a length field beyond the maximum fails a connected
/// session with `FrameTooLarge` and closes the connection, whatever
/// follows the length field and however much of it is there.
pub proof fn lemma_frame_too_large(s: SessionView, b: Seq<u8>, pos: int)
    requires
        s.state == State::Connected,
        0 <= pos,
        pos + 4 <= b.len(),
        read_be32(b, pos) > s.max_frame,
    ensures
        react(s, b, pos).0.state == State::Failed,
        react(s, b, pos).0.failure == Some(
            SessionError::Protocol(ProtocolError::FrameTooLarge),
        ),
        react(s, b, pos).1 == InboundView::Fail(
            SessionError::Protocol(ProtocolError::FrameTooLarge),
        ),
        react(s, b, pos).2 == ActionView::Close,
{
}

/// A frame of which only a part has arrived is never delivered.
pub proof fn lemma_partial_frame(s: SessionView, b: Seq<u8>, pos: int)
    requires
        s.state == State::Connected,
        0 <= pos,
        pos + 4 <= b.len(),
        read_be32(b, pos) <= s.max_frame,
        b.len() < pos + 4 + read_be32(b, pos),
    ensures
        react(s, b, pos) == (s, InboundView::Wait, ActionView::Nothing),
{
}

/// A message that was framed is delivered as it was sent.
pub proof fn lemma_frame_roundtrip(s: SessionView, c: Control, term: TermView)
    requires
        s.state == State::Connected,
        carries_term(c),
        encodable(term),
        message_bytes(c, term).len() <= s.max_frame,
    ensures
        react(s, frame_bytes(message_bytes(c, term)), 0) == (
            s,
            InboundView::Message {
                control: c,
                term,
                next: frame_bytes(message_bytes(c, term)).len() as int,
            },
            ActionView::Nothing,
        ),
{
    let payload = message_bytes(c, term);
    let b = frame_bytes(payload);
    let n = payload.len() as u32;
    assert(b.subrange(0, 4) =~= be32(n));
    crate::wire::lemma_be32_read(b, 0, n);
    assert(b.subrange(4, 4 + n) =~= payload);
    assert(payload[0] == tag_of(c));
    assert(payload.subrange(2, payload.len() as int) =~= crate::encode::enc(term));
    assert(payload[1] == VERSION_MAGIC);
    crate::laws::lemma_roundtrip_at(term, payload, 2);
}

} // verus!
