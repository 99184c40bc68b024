//! The handshake of a distribution session, as a function from state and
//! event to state and action. The caller owns the stream: it performs the
//! action and hands back what happened as the next event.
//!
//! The handshake is that of distribution protocol version 5. A handshake
//! message is handed over and handed out without its length header.

use crate::decode::DecodingError;
use crate::digest::{challenge_digest, challenge_digest_spec};
use crate::term::{erlang_ref, Atom, AtomView, EncodingError, RefView};
use crate::wire::{be16, be32, get_be16, get_be32, push_all, push_be16, push_be32, read_be16, read_be32};
use vstd::prelude::*;

verus! {

/// The protocol version that the handshake messages carry.
pub const DIST_VERSION: u16 = 5;

/// The longest part of a node name before the `@`.
pub const EI_MAXALIVELEN: usize = 63;

/// The longest part of a node name after the `@`.
pub const EI_MAXHOSTNAMELEN: usize = 64;

/// The longest cookie.
pub const EI_MAX_COOKIE_SIZE: usize = 512;

/// The first byte of a message that gives a name: `n`.
pub const TAG_NAME: u8 = 110;

/// The first byte of a status message: `s`.
pub const TAG_STATUS: u8 = 115;

/// The first byte of a challenge reply: `r`.
pub const TAG_REPLY: u8 = 114;

/// The first byte of a challenge acknowledgement: `a`.
pub const TAG_ACK: u8 = 97;

/// Which side of the connection a session is.
#[derive(Debug, Copy, Clone, PartialEq, Eq, Structural)]
pub enum Role {
    /// The side that connects and sends its name first.
    Initiator,
    /// The side that is connected to and sends the first challenge.
    Acceptor,
}

/// Where a session stands.
#[derive(Debug, Copy, Clone, PartialEq, Eq, Structural)]
pub enum State {
    Disconnected,
    NameSent,
    Authenticating,
    Connected,
    Failed,
}

/// Why a handshake failed.
#[derive(Debug, Copy, Clone, PartialEq, Eq, Structural)]
pub enum HandshakeError {
    Timeout,
    DigestMismatch,
    Rejected,
    MalformedFrame,
}

/// A violation of the framed exchange.
#[derive(Debug, Copy, Clone, PartialEq, Eq, Structural)]
pub enum ProtocolError {
    FrameTooLarge,
    UnknownControlTag,
}

/// What went wrong with the connection itself.
#[derive(Debug, Copy, Clone, PartialEq, Eq, Structural)]
pub enum ConnectionError {
    Timeout,
    Closed,
    Refused,
}

/// Why a session is in the state `Failed`.
#[derive(Debug, Copy, Clone, PartialEq, Eq, Structural)]
pub enum SessionError {
    Handshake(HandshakeError),
    Protocol(ProtocolError),
    Connection(ConnectionError),
    Decoding(DecodingError),
}

/// What happened on the stream.
#[derive(Debug, Clone, PartialEq, Eq)]
pub enum Event {
    /// The connection was made and the handshake may begin.
    Start,
    /// A handshake message arrived.
    Received(Vec<u8>),
    /// The time allowed for the current step ran out.
    Timeout,
    /// The peer closed the connection.
    Closed,
}

/// What an [`Event`] is.
pub ghost enum EventView {
    Start,
    Received(Seq<u8>),
    Timeout,
    Closed,
}

impl View for Event {
    type V = EventView;

    open spec fn view(&self) -> EventView {
        match self {
            Event::Start => EventView::Start,
            Event::Received(m) => EventView::Received(m@),
            Event::Timeout => EventView::Timeout,
            Event::Closed => EventView::Closed,
        }
    }
}

/// What the caller is to do on the stream.
#[derive(Debug, Clone, PartialEq, Eq)]
pub enum Action {
    Nothing,
    /// Send one handshake message.
    Send(Vec<u8>),
    /// Send two handshake messages, the first one first.
    SendBoth(Vec<u8>, Vec<u8>),
    /// Close the connection.
    Close,
}

/// What an [`Action`] is.
pub ghost enum ActionView {
    Nothing,
    Send(Seq<u8>),
    SendBoth(Seq<u8>, Seq<u8>),
    Close,
}

impl View for Action {
    type V = ActionView;

    open spec fn view(&self) -> ActionView {
        match self {
            Action::Nothing => ActionView::Nothing,
            Action::Send(m) => ActionView::Send(m@),
            Action::SendBoth(m, n) => ActionView::SendBoth(m@, n@),
            Action::Close => ActionView::Close,
        }
    }
}

/// One end of one connection.
#[derive(Debug, Clone, PartialEq, Eq)]
pub struct Session {
    pub role: Role,
    pub state: State,
    /// Why the session failed, once it has.
    pub failure: Option<SessionError>,
    pub local_name: Vec<u8>,
    pub cookie: Vec<u8>,
    pub flags: u32,
    /// The challenge that this side puts to the peer.
    pub own_challenge: u32,
    /// Whether the peer has accepted the name of this side.
    pub status_seen: bool,
    pub peer_name: Vec<u8>,
    pub peer_flags: u32,
    pub peer_challenge: u32,
    /// The longest frame that this side accepts once connected.
    pub max_frame: u32,
    /// The number from which the next reference is minted.
    pub next_reference: u64,
}

/// What a [`Session`] is.
pub ghost struct SessionView {
    pub role: Role,
    pub state: State,
    pub failure: Option<SessionError>,
    pub local_name: Seq<u8>,
    pub cookie: Seq<u8>,
    pub flags: u32,
    pub own_challenge: u32,
    pub status_seen: bool,
    pub peer_name: Seq<u8>,
    pub peer_flags: u32,
    pub peer_challenge: u32,
    pub max_frame: u32,
    pub next_reference: u64,
}

impl View for Session {
    type V = SessionView;

    open spec fn view(&self) -> SessionView {
        SessionView {
            role: self.role,
            state: self.state,
            failure: self.failure,
            local_name: self.local_name@,
            cookie: self.cookie@,
            flags: self.flags,
            own_challenge: self.own_challenge,
            status_seen: self.status_seen,
            peer_name: self.peer_name@,
            peer_flags: self.peer_flags,
            peer_challenge: self.peer_challenge,
            max_frame: self.max_frame,
            next_reference: self.next_reference,
        }
    }
}

/// The name of a node: the alive name, `@`, the host name.
pub open spec fn node_name(alive: Seq<u8>, host: Seq<u8>) -> Seq<u8> {
    alive + seq![64u8] + host
}

/// The message with which the initiator gives its name.
pub open spec fn name_msg(flags: u32, name: Seq<u8>) -> Seq<u8> {
    seq![TAG_NAME] + be16(DIST_VERSION) + be32(flags) + name
}

/// The status message that accepts the initiator's name: `s`, then `ok`.
pub open spec fn status_ok_msg() -> Seq<u8> {
    seq![TAG_STATUS, 111u8, 107u8]
}

/// The status `ok_simultaneous`.
pub open spec fn ok_simultaneous() -> Seq<u8> {
    seq![111u8, 107u8, 95u8, 115u8, 105u8, 109u8, 117u8, 108u8, 116u8, 97u8, 110u8, 101u8, 111u8, 117u8, 115u8]
}

/// Whether a status lets the handshake go on.
pub open spec fn status_accepts(status: Seq<u8>) -> bool {
    status == seq![111u8, 107u8] || status == ok_simultaneous()
}

/// The message with which the acceptor gives its name and its challenge.
pub open spec fn challenge_msg(flags: u32, challenge: u32, name: Seq<u8>) -> Seq<u8> {
    seq![TAG_NAME] + be16(DIST_VERSION) + be32(flags) + be32(challenge) + name
}

/// The message with which the initiator answers the challenge and puts its own.
pub open spec fn reply_msg(challenge: u32, digest: Seq<u8>) -> Seq<u8> {
    seq![TAG_REPLY] + be32(challenge) + digest
}

/// The message with which the acceptor answers the initiator's challenge.
pub open spec fn ack_msg(digest: Seq<u8>) -> Seq<u8> {
    seq![TAG_ACK] + digest
}

/// The session failed for the reason `e`: the connection is to be closed.
pub open spec fn failed(s: SessionView, e: SessionError) -> (SessionView, ActionView) {
    (SessionView { state: State::Failed, failure: Some(e), ..s }, ActionView::Close)
}

/// The challenge that a message of the peer carries for a session of the
/// given role, or zero where it carries none.
pub open spec fn peer_challenge_in(role: Role, e: EventView) -> u32 {
    match e {
        EventView::Received(m) => match role {
            Role::Initiator => if m.len() >= 11 {
                read_be32(m, 7)
            } else {
                0
            },
            Role::Acceptor => if m.len() >= 5 {
                read_be32(m, 1)
            } else {
                0
            },
        },
        _ => 0,
    }
}

/// What a handshake message does to a session that is neither connected nor
/// failed. `answer` is the digest that answers the peer's challenge,
/// `expected` the digest that answers this side's own.
pub open spec fn on_message(s: SessionView, m: Seq<u8>, answer: Seq<u8>, expected: Seq<u8>) -> (
    SessionView,
    ActionView,
) {
    if s.role == Role::Initiator && s.state == State::NameSent {
        if m.len() >= 1 && m[0] == TAG_STATUS {
            if s.status_seen {
                failed(s, SessionError::Handshake(HandshakeError::MalformedFrame))
            } else if status_accepts(m.subrange(1, m.len() as int)) {
                (SessionView { status_seen: true, ..s }, ActionView::Nothing)
            } else {
                failed(s, SessionError::Handshake(HandshakeError::Rejected))
            }
        } else if m.len() >= 11 && m[0] == TAG_NAME && s.status_seen && read_be16(m, 1)
            == DIST_VERSION {
            (
                SessionView {
                    state: State::Authenticating,
                    peer_flags: read_be32(m, 3),
                    peer_challenge: read_be32(m, 7),
                    peer_name: m.subrange(11, m.len() as int),
                    ..s
                },
                ActionView::Send(reply_msg(s.own_challenge, answer)),
            )
        } else {
            failed(s, SessionError::Handshake(HandshakeError::MalformedFrame))
        }
    } else if s.role == Role::Initiator && s.state == State::Authenticating {
        if m.len() == 17 && m[0] == TAG_ACK {
            if m.subrange(1, 17) == expected {
                (SessionView { state: State::Connected, ..s }, ActionView::Nothing)
            } else {
                failed(s, SessionError::Handshake(HandshakeError::DigestMismatch))
            }
        } else {
            failed(s, SessionError::Handshake(HandshakeError::MalformedFrame))
        }
    } else if s.role == Role::Acceptor && s.state == State::Disconnected {
        if m.len() >= 7 && m[0] == TAG_NAME && read_be16(m, 1) == DIST_VERSION {
            (
                SessionView {
                    state: State::Authenticating,
                    peer_flags: read_be32(m, 3),
                    peer_name: m.subrange(7, m.len() as int),
                    ..s
                },
                ActionView::SendBoth(
                    status_ok_msg(),
                    challenge_msg(s.flags, s.own_challenge, s.local_name),
                ),
            )
        } else {
            failed(s, SessionError::Handshake(HandshakeError::MalformedFrame))
        }
    } else if s.role == Role::Acceptor && s.state == State::Authenticating {
        if m.len() == 21 && m[0] == TAG_REPLY {
            if m.subrange(5, 21) == expected {
                (
                    SessionView { state: State::Connected, peer_challenge: read_be32(m, 1), ..s },
                    ActionView::Send(ack_msg(answer)),
                )
            } else {
                failed(s, SessionError::Handshake(HandshakeError::DigestMismatch))
            }
        } else {
            failed(s, SessionError::Handshake(HandshakeError::MalformedFrame))
        }
    } else {
        failed(s, SessionError::Handshake(HandshakeError::MalformedFrame))
    }
}

/// The handshake: the state that follows `s` on the event `e`, and what is
/// to be done on the stream. A session that is connected or has failed stays
/// as it is and sends nothing.
pub open spec fn next(s: SessionView, e: EventView, answer: Seq<u8>, expected: Seq<u8>) -> (
    SessionView,
    ActionView,
) {
    if s.state == State::Connected || s.state == State::Failed {
        (s, ActionView::Nothing)
    } else {
        match e {
            EventView::Start => if s.role == Role::Initiator && s.state == State::Disconnected {
                (
                    SessionView { state: State::NameSent, ..s },
                    ActionView::Send(name_msg(s.flags, s.local_name)),
                )
            } else {
                (s, ActionView::Nothing)
            },
            EventView::Timeout => failed(s, SessionError::Handshake(HandshakeError::Timeout)),
            EventView::Closed => if s.role == Role::Initiator && s.state
                == State::Authenticating {
                failed(s, SessionError::Handshake(HandshakeError::DigestMismatch))
            } else {
                failed(s, SessionError::Connection(ConnectionError::Closed))
            },
            EventView::Received(m) => on_message(s, m, answer, expected),
        }
    }
}

/// One step of the handshake with the digests that the session's cookie
/// gives: for the challenge that the event carries, and for the session's
/// own challenge.
pub open spec fn step(s: SessionView, e: EventView) -> (SessionView, ActionView) {
    next(
        s,
        e,
        challenge_digest_spec(s.cookie, peer_challenge_in(s.role, e)),
        challenge_digest_spec(s.cookie, s.own_challenge),
    )
}

/// What `Session::new` makes of its arguments.
pub open spec fn new_session(
    role: Role,
    alive: Seq<u8>,
    host: Seq<u8>,
    cookie: Seq<u8>,
    challenge: u32,
    flags: u32,
    max_frame: u32,
) -> SessionView {
    SessionView {
        role,
        state: State::Disconnected,
        failure: None,
        local_name: node_name(alive, host),
        cookie,
        flags,
        own_challenge: challenge,
        status_seen: false,
        peer_name: Seq::empty(),
        peer_flags: 0,
        peer_challenge: 0,
        max_frame,
        next_reference: 0,
    }
}

/// The reference that a node mints from the number `counter`: the low and
/// the high half of the number are its two words.
pub open spec fn reference_of(name: Seq<u8>, creation: u32, counter: u64) -> RefView {
    RefView {
        node: AtomView { name, utf8: true },
        n: seq![(counter % 0x1_0000_0000) as u32, (counter / 0x1_0000_0000) as u32],
        creation,
    }
}

/// Whether `m`, from `from` up to `to`, holds the same bytes as `other`.
pub fn same_bytes(m: &Vec<u8>, from: usize, to: usize, other: &Vec<u8>) -> (r: bool)
    requires
        from <= to <= m.len(),
    ensures
        r == (m@.subrange(from as int, to as int) == other@),
{
    if to - from != other.len() {
        return false;
    }
    let mut i: usize = 0;
    while i < other.len()
        invariant
            i <= other.len(),
            from <= to <= m.len(),
            to - from == other.len(),
            forall|j: int| 0 <= j < i ==> m@[from + j] == other@[j],
        decreases other.len() - i,
    {
        if m[from + i] != other[i] {
            assert(m@.subrange(from as int, to as int)[i as int] != other@[i as int]);
            return false;
        }
        i += 1;
    }
    assert(m@.subrange(from as int, to as int) =~= other@);
    true
}

fn tail_of(m: &Vec<u8>, from: usize) -> (out: Vec<u8>)
    requires
        from <= m.len(),
    ensures
        out@ == m@.subrange(from as int, m@.len() as int),
{
    let mut out: Vec<u8> = Vec::new();
    let mut i: usize = from;
    while i < m.len()
        invariant
            from <= i <= m.len(),
            out@ == m@.subrange(from as int, i as int),
        decreases m.len() - i,
    {
        out.push(m[i]);
        i += 1;
        assert(out@ =~= m@.subrange(from as int, i as int));
    }
    out
}

fn peer_challenge(role: Role, event: &Event) -> (c: u32)
    ensures
        c == peer_challenge_in(role, event@),
{
    match event {
        Event::Received(m) => match role {
            Role::Initiator => if m.len() >= 11 {
                get_be32(m.as_slice(), 7)
            } else {
                0
            },
            Role::Acceptor => if m.len() >= 5 {
                get_be32(m.as_slice(), 1)
            } else {
                0
            },
        },
        _ => 0,
    }
}

impl Session {
    /// A session that has not begun its handshake. The node name is the
    /// alive name, `@`, the host name. `challenge` is the number that this
    /// side will put to the peer: the caller draws it at random.
    pub fn new(
        role: Role,
        alive: &Vec<u8>,
        host: &Vec<u8>,
        cookie: &Vec<u8>,
        challenge: u32,
        flags: u32,
        max_frame: u32,
    ) -> (r: Result<Session, EncodingError>)
        ensures
            r.is_ok() == (alive@.len() <= EI_MAXALIVELEN && host@.len() <= EI_MAXHOSTNAMELEN
                && cookie@.len() <= EI_MAX_COOKIE_SIZE),
            r.is_ok() ==> r.unwrap()@ == new_session(
                role,
                alive@,
                host@,
                cookie@,
                challenge,
                flags,
                max_frame,
            ),
            r.is_err() ==> r.unwrap_err() == EncodingError::NameTooLong,
    {
        if alive.len() > EI_MAXALIVELEN || host.len() > EI_MAXHOSTNAMELEN || cookie.len()
            > EI_MAX_COOKIE_SIZE {
            return Err(EncodingError::NameTooLong);
        }
        let mut local_name: Vec<u8> = Vec::new();
        push_all(&mut local_name, alive);
        local_name.push(64u8);
        push_all(&mut local_name, host);
        assert(local_name@ =~= node_name(alive@, host@));
        let mut secret: Vec<u8> = Vec::new();
        push_all(&mut secret, cookie);
        assert(secret@ =~= cookie@);
        Ok(
            Session {
                role,
                state: State::Disconnected,
                failure: None,
                local_name,
                cookie: secret,
                flags,
                own_challenge: challenge,
                status_seen: false,
                peer_name: Vec::new(),
                peer_flags: 0,
                peer_challenge: 0,
                max_frame,
                next_reference: 0,
            },
        )
    }

    /// Mints a reference that this session has not minted before, for a
    /// node of the given creation. The counter only ever grows; once it is
    /// used up no reference is minted and the session stays as it is.
    pub fn mint_reference(&mut self, creation: u32) -> (r: Option<erlang_ref>)
        ensures
            r.is_some() == (old(self).next_reference < u64::MAX),
            r.is_some() ==> r.unwrap()@ == reference_of(
                old(self)@.local_name,
                creation,
                old(self).next_reference,
            ) && final(self)@ == (SessionView {
                next_reference: (old(self).next_reference + 1) as u64,
                ..old(self)@
            }),
            r.is_none() ==> *final(self) == *old(self),
    {
        if self.next_reference == u64::MAX {
            return None;
        }
        let counter: u64 = self.next_reference;
        let mut node: Vec<u8> = Vec::new();
        push_all(&mut node, &self.local_name);
        assert(node@ =~= self.local_name@);
        let mut n: Vec<u32> = Vec::new();
        n.push((counter % 0x1_0000_0000) as u32);
        n.push((counter / 0x1_0000_0000) as u32);
        assert(n@ =~= reference_of(self.local_name@, creation, counter).n);
        self.next_reference = counter + 1;
        Some(erlang_ref { node: Atom { name: node, utf8: true }, n, creation })
    }

    /// Puts the session into the state `Failed` for the reason `e`.
    pub fn fail(&mut self, e: SessionError) -> (r: Action)
        ensures
            final(self)@ == failed(old(self)@, e).0,
            r@ == failed(old(self)@, e).1,
    {
        self.state = State::Failed;
        self.failure = Some(e);
        Action::Close
    }

    fn on_message(&mut self, m: &Vec<u8>, answer: &Vec<u8>, expected: &Vec<u8>) -> (r: Action)
        requires
            old(self).state != State::Connected,
            old(self).state != State::Failed,
        ensures
            final(self)@ == on_message(old(self)@, m@, answer@, expected@).0,
            r@ == on_message(old(self)@, m@, answer@, expected@).1,
    {
        let malformed = SessionError::Handshake(HandshakeError::MalformedFrame);
        let mismatch = SessionError::Handshake(HandshakeError::DigestMismatch);
        if self.role == Role::Initiator && self.state == State::NameSent {
            if m.len() >= 1 && m[0] == TAG_STATUS {
                if self.status_seen {
                    return self.fail(malformed);
                }
                let ok: Vec<u8> = vec![111u8, 107u8];
                let simultaneous: Vec<u8> = vec![
                    111u8,
                    107u8,
                    95u8,
                    115u8,
                    105u8,
                    109u8,
                    117u8,
                    108u8,
                    116u8,
                    97u8,
                    110u8,
                    101u8,
                    111u8,
                    117u8,
                    115u8,
                ];
                assert(ok@ =~= seq![111u8, 107u8]);
                assert(simultaneous@ =~= ok_simultaneous());
                if same_bytes(m, 1, m.len(), &ok) || same_bytes(m, 1, m.len(), &simultaneous) {
                    self.status_seen = true;
                    Action::Nothing
                } else {
                    self.fail(SessionError::Handshake(HandshakeError::Rejected))
                }
            } else if m.len() >= 11 && m[0] == TAG_NAME && self.status_seen && get_be16(
                m.as_slice(),
                1,
            ) == DIST_VERSION {
                self.peer_flags = get_be32(m.as_slice(), 3);
                self.peer_challenge = get_be32(m.as_slice(), 7);
                self.peer_name = tail_of(m, 11);
                self.state = State::Authenticating;
                let mut out: Vec<u8> = Vec::new();
                out.push(TAG_REPLY);
                push_be32(&mut out, self.own_challenge);
                push_all(&mut out, answer);
                assert(out@ =~= reply_msg(self.own_challenge, answer@));
                Action::Send(out)
            } else {
                self.fail(malformed)
            }
        } else if self.role == Role::Initiator && self.state == State::Authenticating {
            if m.len() == 17 && m[0] == TAG_ACK {
                if same_bytes(m, 1, 17, expected) {
                    self.state = State::Connected;
                    Action::Nothing
                } else {
                    self.fail(mismatch)
                }
            } else {
                self.fail(malformed)
            }
        } else if self.role == Role::Acceptor && self.state == State::Disconnected {
            if m.len() >= 7 && m[0] == TAG_NAME && get_be16(m.as_slice(), 1) == DIST_VERSION {
                self.peer_flags = get_be32(m.as_slice(), 3);
                self.peer_name = tail_of(m, 7);
                self.state = State::Authenticating;
                let status: Vec<u8> = vec![TAG_STATUS, 111u8, 107u8];
                assert(status@ =~= status_ok_msg());
                let mut out: Vec<u8> = Vec::new();
                out.push(TAG_NAME);
                push_be16(&mut out, DIST_VERSION);
                push_be32(&mut out, self.flags);
                push_be32(&mut out, self.own_challenge);
                push_all(&mut out, &self.local_name);
                assert(out@ =~= challenge_msg(self.flags, self.own_challenge, self.local_name@));
                Action::SendBoth(status, out)
            } else {
                self.fail(malformed)
            }
        } else if self.role == Role::Acceptor && self.state == State::Authenticating {
            if m.len() == 21 && m[0] == TAG_REPLY {
                if same_bytes(m, 5, 21, expected) {
                    self.peer_challenge = get_be32(m.as_slice(), 1);
                    self.state = State::Connected;
                    let mut out: Vec<u8> = Vec::new();
                    out.push(TAG_ACK);
                    push_all(&mut out, answer);
                    assert(out@ =~= ack_msg(answer@));
                    Action::Send(out)
                } else {
                    self.fail(mismatch)
                }
            } else {
                self.fail(malformed)
            }
        } else {
            self.fail(malformed)
        }
    }

    /// One step of the handshake, given the two digests: `answer` answers
    /// the challenge that the event carries, `expected` answers this side's
    /// own challenge.
    pub fn advance(&mut self, event: &Event, answer: &Vec<u8>, expected: &Vec<u8>) -> (r: Action)
        ensures
            final(self)@ == next(old(self)@, event@, answer@, expected@).0,
            r@ == next(old(self)@, event@, answer@, expected@).1,
    {
        if self.state == State::Connected || self.state == State::Failed {
            return Action::Nothing;
        }
        match event {
            Event::Start => {
                if self.role == Role::Initiator && self.state == State::Disconnected {
                    self.state = State::NameSent;
                    let mut out: Vec<u8> = Vec::new();
                    out.push(TAG_NAME);
                    push_be16(&mut out, DIST_VERSION);
                    push_be32(&mut out, self.flags);
                    push_all(&mut out, &self.local_name);
                    assert(out@ =~= name_msg(self.flags, self.local_name@));
                    Action::Send(out)
                } else {
                    Action::Nothing
                }
            },
            Event::Timeout => self.fail(SessionError::Handshake(HandshakeError::Timeout)),
            Event::Closed => {
                if self.role == Role::Initiator && self.state == State::Authenticating {
                    self.fail(SessionError::Handshake(HandshakeError::DigestMismatch))
                } else {
                    self.fail(SessionError::Connection(ConnectionError::Closed))
                }
            },
            Event::Received(m) => self.on_message(m, answer, expected),
        }
    }

    /// One step of the handshake: takes what happened on the stream, moves
    /// the session on and says what to do next. The digests are those of the
    /// session's cookie with the challenge that the event carries and with
    /// this side's own challenge.
    pub fn handshake(&mut self, event: &Event) -> (r: Action)
        ensures
            final(self)@ == step(old(self)@, event@).0,
            r@ == step(old(self)@, event@).1,
    {
        let answer = challenge_digest(&self.cookie, peer_challenge(self.role, event));
        let expected = challenge_digest(&self.cookie, self.own_challenge);
        self.advance(event, &answer, &expected)
    }
}

/// The message that an action sends, where it sends one.
pub open spec fn message_of(a: ActionView) -> Seq<u8> {
    match a {
        ActionView::Send(m) => m,
        _ => Seq::empty(),
    }
}

/// The second message that an action sends, where it sends two.
pub open spec fn second_of(a: ActionView) -> Seq<u8> {
    match a {
        ActionView::SendBoth(_, m) => m,
        _ => Seq::empty(),
    }
}

/// Handshake success: an initiator and an acceptor that have not begun, and
/// that agree on the sixteen-byte digest of each challenge, as two sides
/// with one cookie do, are both connected once name, status, challenge,
/// reply and acknowledgement have gone from one to the other, and each
/// knows the other's name. `for_a` answers the initiator's challenge,
/// `for_b` the acceptor's; `unused` stands for the digests that are handed
/// over at the steps that look at none.
pub proof fn lemma_handshake_succeeds(
    a: SessionView,
    b: SessionView,
    for_a: Seq<u8>,
    for_b: Seq<u8>,
    unused: spec_fn(int) -> Seq<u8>,
)
    requires
        a.role == Role::Initiator,
        b.role == Role::Acceptor,
        a.state == State::Disconnected,
        b.state == State::Disconnected,
        !a.status_seen,
        for_a.len() == 16,
        for_b.len() == 16,
    ensures
        ({
            let (a1, name) = next(a, EventView::Start, unused(0), for_a);
            let (b1, both) = next(b, EventView::Received(message_of(name)), unused(1), for_b);
            let (a2, quiet) = next(a1, EventView::Received(status_ok_msg()), unused(2), for_a);
            let (a3, reply) = next(a2, EventView::Received(second_of(both)), for_b, for_a);
            let (b2, ack) = next(b1, EventView::Received(message_of(reply)), for_a, for_b);
            let (a4, done) = next(a3, EventView::Received(message_of(ack)), unused(3), for_a);
            &&& both == ActionView::SendBoth(
                status_ok_msg(),
                challenge_msg(b.flags, b.own_challenge, b.local_name),
            )
            &&& reply == ActionView::Send(reply_msg(a.own_challenge, for_b))
            &&& quiet == ActionView::Nothing
            &&& done == ActionView::Nothing
            &&& a4.state == State::Connected
            &&& b2.state == State::Connected
            &&& a4.failure == a.failure
            &&& b2.failure == b.failure
            &&& a4.peer_name == b.local_name
            &&& b2.peer_name == a.local_name
            &&& a4.peer_challenge == b.own_challenge
            &&& b2.peer_challenge == a.own_challenge
        }),
{
    let name = name_msg(a.flags, a.local_name);
    assert(name[0] == TAG_NAME);
    assert(name.len() == 7 + a.local_name.len());
    assert(name.subrange(1, 3) =~= be16(DIST_VERSION));
    crate::wire::lemma_be16_read(name, 1, DIST_VERSION);
    assert(name.subrange(3, 7) =~= be32(a.flags));
    crate::wire::lemma_be32_read(name, 3, a.flags);
    assert(name.subrange(7, name.len() as int) =~= a.local_name);
    let status = status_ok_msg();
    assert(status[0] == TAG_STATUS);
    assert(status.subrange(1, status.len() as int) =~= seq![111u8, 107u8]);
    let challenge = challenge_msg(b.flags, b.own_challenge, b.local_name);
    assert(challenge[0] == TAG_NAME);
    assert(challenge.len() == 11 + b.local_name.len());
    assert(challenge.subrange(1, 3) =~= be16(DIST_VERSION));
    crate::wire::lemma_be16_read(challenge, 1, DIST_VERSION);
    assert(challenge.subrange(3, 7) =~= be32(b.flags));
    crate::wire::lemma_be32_read(challenge, 3, b.flags);
    assert(challenge.subrange(7, 11) =~= be32(b.own_challenge));
    crate::wire::lemma_be32_read(challenge, 7, b.own_challenge);
    assert(challenge.subrange(11, challenge.len() as int) =~= b.local_name);
    let reply = reply_msg(a.own_challenge, for_b);
    assert(reply[0] == TAG_REPLY);
    assert(reply.len() == 21);
    assert(reply.subrange(1, 5) =~= be32(a.own_challenge));
    crate::wire::lemma_be32_read(reply, 1, a.own_challenge);
    assert(reply.subrange(5, 21) =~= for_b);
    let ack = ack_msg(for_a);
    assert(ack[0] == TAG_ACK);
    assert(ack.len() == 17);
    assert(ack.subrange(1, 17) =~= for_a);
}

/// Handshake failure: where the digest that comes back is not the one
/// expected, the session fails with `DigestMismatch` and closes; and a
/// session that has failed sends nothing more, whatever happens.
pub proof fn lemma_mismatch_fails(
    s: SessionView,
    m: Seq<u8>,
    e: EventView,
    answer: Seq<u8>,
    expected: Seq<u8>,
)
    requires
        s.state == State::Authenticating,
        s.role == Role::Initiator ==> m.len() == 17 && m[0] == TAG_ACK && m.subrange(1, 17)
            != expected,
        s.role == Role::Acceptor ==> m.len() == 21 && m[0] == TAG_REPLY && m.subrange(5, 21)
            != expected,
    ensures
        ({
            let (after, action) = next(s, EventView::Received(m), answer, expected);
            &&& after.state == State::Failed
            &&& after.failure == Some(SessionError::Handshake(HandshakeError::DigestMismatch))
            &&& action == ActionView::Close
            &&& next(after, e, answer, expected) == (after, ActionView::Nothing)
        }),
{
}

/// References are fresh: two numbers of the counter never give the same
/// reference, and every reference minted can be encoded under a node name
/// of allowed length.
pub proof fn lemma_references_differ(name: Seq<u8>, creation: u32, c: u64, d: u64)
    requires
        c != d,
    ensures
        reference_of(name, creation, c) != reference_of(name, creation, d),
        reference_of(name, creation, c).n.len() == 2,
{
    let x = reference_of(name, creation, c).n;
    let y = reference_of(name, creation, d).n;
    if x == y {
        assert(x[0] == y[0]);
        assert(x[1] == y[1]);
        assert(c == (c / 0x1_0000_0000) * 0x1_0000_0000 + c % 0x1_0000_0000);
        assert(d == (d / 0x1_0000_0000) * 0x1_0000_0000 + d % 0x1_0000_0000);
    }
}

/// The challenge of a challenge message is the one that it was built with.
pub proof fn lemma_challenge_carried(flags: u32, challenge: u32, name: Seq<u8>)
    ensures
        peer_challenge_in(
            Role::Initiator,
            EventView::Received(challenge_msg(flags, challenge, name)),
        ) == challenge,
{
    let m = challenge_msg(flags, challenge, name);
    assert(m.len() == 11 + name.len());
    assert(m.subrange(7, 11) =~= be32(challenge));
    crate::wire::lemma_be32_read(m, 7, challenge);
}

/// The challenge of a challenge reply is the one that it was built with.
pub proof fn lemma_reply_carried(challenge: u32, digest: Seq<u8>)
    requires
        digest.len() == 16,
    ensures
        peer_challenge_in(Role::Acceptor, EventView::Received(reply_msg(challenge, digest)))
            == challenge,
{
    let m = reply_msg(challenge, digest);
    assert(m.len() == 21);
    assert(m.subrange(1, 5) =~= be32(challenge));
    crate::wire::lemma_be32_read(m, 1, challenge);
}

/// Handshake success with one cookie: an initiator and an acceptor that
/// have not begun and hold the same cookie are both connected once name,
/// status, challenge, reply and acknowledgement have gone from one to the
/// other, each step taken as `Session::handshake` takes it. That a digest
/// has sixteen bytes is all that is asked of the digest function.
pub proof fn lemma_same_cookie_connects(a: SessionView, b: SessionView)
    requires
        a.role == Role::Initiator,
        b.role == Role::Acceptor,
        a.state == State::Disconnected,
        b.state == State::Disconnected,
        !a.status_seen,
        a.cookie == b.cookie,
        challenge_digest_spec(a.cookie, a.own_challenge).len() == 16,
        challenge_digest_spec(a.cookie, b.own_challenge).len() == 16,
    ensures
        ({
            let (a1, name) = step(a, EventView::Start);
            let (b1, both) = step(b, EventView::Received(message_of(name)));
            let (a2, quiet) = step(a1, EventView::Received(status_ok_msg()));
            let (a3, reply) = step(a2, EventView::Received(second_of(both)));
            let (b2, ack) = step(b1, EventView::Received(message_of(reply)));
            let (a4, done) = step(a3, EventView::Received(message_of(ack)));
            &&& a4.state == State::Connected
            &&& b2.state == State::Connected
            &&& a4.peer_name == b.local_name
            &&& b2.peer_name == a.local_name
        }),
{
    let for_a = challenge_digest_spec(a.cookie, a.own_challenge);
    let for_b = challenge_digest_spec(a.cookie, b.own_challenge);
    let (a1, name) = step(a, EventView::Start);
    let (b1, both) = step(b, EventView::Received(message_of(name)));
    let status = EventView::Received(status_ok_msg());
    let (a2, quiet) = step(a1, status);
    let (a3, reply) = step(a2, EventView::Received(second_of(both)));
    let (b2, ack) = step(b1, EventView::Received(message_of(reply)));
    let last = EventView::Received(message_of(ack));
    let unused = |i: int|
        if i == 0 {
            challenge_digest_spec(a.cookie, peer_challenge_in(Role::Initiator, EventView::Start))
        } else if i == 1 {
            challenge_digest_spec(
                a.cookie,
                peer_challenge_in(Role::Acceptor, EventView::Received(message_of(name))),
            )
        } else if i == 2 {
            challenge_digest_spec(a.cookie, peer_challenge_in(Role::Initiator, status))
        } else {
            challenge_digest_spec(a.cookie, peer_challenge_in(Role::Initiator, last))
        };
    lemma_challenge_carried(b.flags, b.own_challenge, b.local_name);
    lemma_reply_carried(a.own_challenge, for_b);
    lemma_handshake_succeeds(a, b, for_a, for_b, unused);
}

} // verus!
