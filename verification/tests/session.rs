use ei_codec::decode::DecodingError;
use ei_codec::digest::{build_digest_input, challenge_digest};
use ei_codec::frame::{
    control_from_tag, control_tag, frame, handshake_frame, handshake_frame_at, message_payload,
    read_frame, Control, Inbound,
};
use ei_codec::node::{ei_cnode, ErlConnect};
use ei_codec::session::{
    same_bytes, Action, ConnectionError, Event, HandshakeError, ProtocolError, Role, Session,
    SessionError, State,
};
use ei_codec::term::{Atom, EncodingError, Term};

fn session(role: Role, alive: &str, cookie: &str, challenge: u32) -> Session {
    Session::new(
        role,
        &alive.as_bytes().to_vec(),
        &b"host".to_vec(),
        &cookie.as_bytes().to_vec(),
        challenge,
        0x7499c,
        1024,
    )
    .unwrap()
}

fn sent(action: Action) -> Vec<u8> {
    match action {
        Action::Send(m) => m,
        other => panic!("nothing sent: {:?}", other),
    }
}

fn connected() -> Session {
    let mut s = session(Role::Initiator, "a", "secret", 1);
    s.state = State::Connected;
    s
}

#[test]
fn digest_input_is_cookie_then_decimal() {
    assert_eq!(build_digest_input(&b"secret".to_vec(), 12345), b"secret12345".to_vec());
    assert_eq!(build_digest_input(&b"secret".to_vec(), 0), b"secret0".to_vec());
    assert_eq!(build_digest_input(&b"".to_vec(), 4294967295), b"4294967295".to_vec());
    assert_eq!(build_digest_input(&b"c".to_vec(), 10), b"c10".to_vec());
}

#[test]
fn digest_is_md5() {
    assert_eq!(
        challenge_digest(&b"secret".to_vec(), 12345),
        vec![212, 4, 125, 62, 86, 230, 214, 214, 63, 125, 22, 184, 92, 210, 250, 136]
    );
    assert_eq!(
        challenge_digest(&b"secret".to_vec(), 0),
        vec![23, 94, 199, 122, 127, 99, 8, 37, 144, 152, 125, 13, 139, 5, 26, 255]
    );
    assert_eq!(
        challenge_digest(&b"secret".to_vec(), 4294967295),
        vec![93, 253, 24, 30, 105, 170, 88, 124, 200, 18, 235, 51, 62, 101, 54, 182]
    );
}

#[test]
fn new_session_checks_lengths() {
    let s = session(Role::Initiator, "a", "secret", 7);
    assert_eq!(s.local_name, b"a@host".to_vec());
    assert_eq!(s.state, State::Disconnected);
    assert_eq!(s.failure, None);
    assert_eq!(s.own_challenge, 7);
    let long_alive = vec![b'a'; 64];
    let host = b"host".to_vec();
    let cookie = b"c".to_vec();
    assert_eq!(
        Session::new(Role::Initiator, &long_alive, &host, &cookie, 0, 0, 0),
        Err(EncodingError::NameTooLong)
    );
    assert!(Session::new(Role::Initiator, &vec![b'a'; 63], &vec![b'h'; 64], &vec![b'c'; 512], 0, 0, 0).is_ok());
    assert!(Session::new(Role::Initiator, &cookie, &vec![b'h'; 65], &cookie, 0, 0, 0).is_err());
    assert!(Session::new(Role::Initiator, &cookie, &host, &vec![b'c'; 513], 0, 0, 0).is_err());
}

#[test]
fn handshake_success() {
    let mut a = session(Role::Initiator, "a", "secret", 1111);
    let mut b = session(Role::Acceptor, "b", "secret", 2222);

    let name = sent(a.handshake(&Event::Start));
    assert_eq!(a.state, State::NameSent);
    let mut expected_name = vec![110u8, 0, 5, 0, 7, 0x49, 0x9c];
    expected_name.extend_from_slice(b"a@host");
    assert_eq!(name, expected_name);

    let (status, challenge) = match b.handshake(&Event::Received(name)) {
        Action::SendBoth(status, challenge) => (status, challenge),
        other => panic!("no challenge: {:?}", other),
    };
    assert_eq!(b.state, State::Authenticating);
    assert_eq!(b.peer_name, b"a@host".to_vec());
    assert_eq!(status, b"sok".to_vec());
    let mut expected_challenge = vec![110u8, 0, 5, 0, 7, 0x49, 0x9c, 0, 0, 8, 174];
    expected_challenge.extend_from_slice(b"b@host");
    assert_eq!(challenge, expected_challenge);

    assert_eq!(a.handshake(&Event::Received(status)), Action::Nothing);
    assert_eq!(a.state, State::NameSent);
    let reply = sent(a.handshake(&Event::Received(challenge)));
    assert_eq!(a.state, State::Authenticating);
    assert_eq!(a.peer_name, b"b@host".to_vec());
    assert_eq!(a.peer_challenge, 2222);
    let mut expected_reply = vec![114u8, 0, 0, 4, 87];
    expected_reply.extend(challenge_digest(&b"secret".to_vec(), 2222));
    assert_eq!(reply, expected_reply);

    let ack = sent(b.handshake(&Event::Received(reply)));
    assert_eq!(b.state, State::Connected);
    assert_eq!(b.peer_challenge, 1111);
    let mut expected_ack = vec![97u8];
    expected_ack.extend(challenge_digest(&b"secret".to_vec(), 1111));
    assert_eq!(ack, expected_ack);

    assert_eq!(a.handshake(&Event::Received(ack)), Action::Nothing);
    assert_eq!(a.state, State::Connected);
    assert_eq!(a.failure, None);
    assert_eq!(b.failure, None);
}

#[test]
fn handshake_failure() {
    let mut a = session(Role::Initiator, "a", "secret", 1111);
    let mut b = session(Role::Acceptor, "b", "wrong", 2222);
    let name = sent(a.handshake(&Event::Start));
    let (status, challenge) = match b.handshake(&Event::Received(name)) {
        Action::SendBoth(status, challenge) => (status, challenge),
        other => panic!("no challenge: {:?}", other),
    };
    assert_eq!(a.handshake(&Event::Received(status)), Action::Nothing);
    let reply = sent(a.handshake(&Event::Received(challenge)));
    assert_eq!(b.handshake(&Event::Received(reply.clone())), Action::Close);
    assert_eq!(b.state, State::Failed);
    assert_eq!(b.failure, Some(SessionError::Handshake(HandshakeError::DigestMismatch)));
    assert_eq!(a.handshake(&Event::Closed), Action::Close);
    assert_eq!(a.state, State::Failed);
    assert_eq!(a.failure, Some(SessionError::Handshake(HandshakeError::DigestMismatch)));
    assert_eq!(a.handshake(&Event::Received(reply.clone())), Action::Nothing);
    assert_eq!(b.handshake(&Event::Received(reply)), Action::Nothing);
    assert_eq!(a.handshake(&Event::Start), Action::Nothing);
    assert_eq!(a.receive(&[0, 0, 0, 0], 0), (Inbound::Wait, Action::Nothing));
    assert_eq!(a.state, State::Failed);
    assert_eq!(b.state, State::Failed);
}

#[test]
fn wrong_ack_is_a_mismatch() {
    let mut a = session(Role::Initiator, "a", "secret", 1111);
    a.handshake(&Event::Start);
    a.handshake(&Event::Received(b"sok".to_vec()));
    let mut challenge = vec![110u8, 0, 5, 0, 0, 0, 0, 0, 0, 0, 9];
    challenge.extend_from_slice(b"b@host");
    a.handshake(&Event::Received(challenge));
    let mut ack = vec![97u8];
    ack.extend(challenge_digest(&b"wrong".to_vec(), 1111));
    assert_eq!(a.handshake(&Event::Received(ack)), Action::Close);
    assert_eq!(a.failure, Some(SessionError::Handshake(HandshakeError::DigestMismatch)));
}

#[test]
fn given_digests_decide() {
    let mut a = session(Role::Initiator, "a", "secret", 1);
    a.state = State::Authenticating;
    let expected = vec![7u8; 16];
    let mut ack = vec![97u8];
    ack.extend(vec![7u8; 16]);
    let mut same = a.clone();
    assert_eq!(same.advance(&Event::Received(ack.clone()), &vec![], &expected), Action::Nothing);
    assert_eq!(same.state, State::Connected);
    assert_eq!(a.advance(&Event::Received(ack), &vec![], &vec![8u8; 16]), Action::Close);
    assert_eq!(a.state, State::Failed);
}

#[test]
fn status_rejection() {
    let mut a = session(Role::Initiator, "a", "secret", 1);
    a.handshake(&Event::Start);
    assert_eq!(a.handshake(&Event::Received(b"snok".to_vec())), Action::Close);
    assert_eq!(a.state, State::Failed);
    assert_eq!(a.failure, Some(SessionError::Handshake(HandshakeError::Rejected)));
    let mut c = session(Role::Initiator, "a", "secret", 1);
    c.handshake(&Event::Start);
    assert_eq!(c.handshake(&Event::Received(b"sok_simultaneous".to_vec())), Action::Nothing);
    assert!(c.status_seen);
    assert_eq!(c.state, State::NameSent);
}

#[test]
fn timeout_is_its_own_failure() {
    let mut a = session(Role::Initiator, "a", "secret", 1);
    a.handshake(&Event::Start);
    assert_eq!(a.handshake(&Event::Timeout), Action::Close);
    assert_eq!(a.state, State::Failed);
    assert_eq!(a.failure, Some(SessionError::Handshake(HandshakeError::Timeout)));
}

#[test]
fn closed_before_authenticating() {
    let mut a = session(Role::Initiator, "a", "secret", 1);
    a.handshake(&Event::Start);
    assert_eq!(a.handshake(&Event::Closed), Action::Close);
    assert_eq!(a.failure, Some(SessionError::Connection(ConnectionError::Closed)));
}

#[test]
fn malformed_messages() {
    let mut a = session(Role::Initiator, "a", "secret", 1);
    a.handshake(&Event::Start);
    assert_eq!(a.handshake(&Event::Received(vec![])), Action::Close);
    assert_eq!(a.failure, Some(SessionError::Handshake(HandshakeError::MalformedFrame)));
    let mut b = session(Role::Acceptor, "b", "secret", 1);
    assert_eq!(b.handshake(&Event::Received(vec![110, 0, 6, 0, 0, 0, 0, 97])), Action::Close);
    assert_eq!(b.failure, Some(SessionError::Handshake(HandshakeError::MalformedFrame)));
    let mut c = session(Role::Initiator, "a", "secret", 1);
    c.handshake(&Event::Start);
    let mut challenge = vec![110u8, 0, 5, 0, 0, 0, 0, 0, 0, 0, 9];
    challenge.extend_from_slice(b"b@host");
    assert_eq!(c.handshake(&Event::Received(challenge)), Action::Close);
    assert_eq!(c.failure, Some(SessionError::Handshake(HandshakeError::MalformedFrame)));
    let mut d = session(Role::Acceptor, "b", "secret", 1);
    assert_eq!(d.handshake(&Event::Start), Action::Nothing);
    assert_eq!(d.state, State::Disconnected);
}

#[test]
fn tick_is_answered_and_not_delivered() {
    let mut s = connected();
    let before = s.clone();
    let (inbound, action) = s.receive(&[0, 0, 0, 0, 9, 9], 0);
    assert_eq!(inbound, Inbound::Tick { next: 4 });
    assert_eq!(action, Action::Send(vec![]));
    assert_eq!(frame(&sent(action)), Ok(vec![0, 0, 0, 0]));
    assert_eq!(s, before);
}

#[test]
fn frame_size_limit() {
    let mut s = connected();
    let (inbound, action) = s.receive(&[0, 0, 4, 1], 0);
    assert_eq!(inbound, Inbound::Fail(SessionError::Protocol(ProtocolError::FrameTooLarge)));
    assert_eq!(action, Action::Close);
    assert_eq!(s.state, State::Failed);
    assert_eq!(s.failure, Some(SessionError::Protocol(ProtocolError::FrameTooLarge)));
    let mut at_limit = connected();
    assert_eq!(at_limit.receive(&[0, 0, 4, 0], 0), (Inbound::Wait, Action::Nothing));
    assert_eq!(at_limit.state, State::Connected);
}

#[test]
fn partial_frame_waits() {
    let mut s = connected();
    assert_eq!(s.receive(&[0, 0], 0), (Inbound::Wait, Action::Nothing));
    assert_eq!(s.receive(&[0, 0, 0, 3, 2, 131], 0), (Inbound::Wait, Action::Nothing));
    assert_eq!(s.receive(&[0, 0, 0, 0], 9), (Inbound::Wait, Action::Nothing));
    assert_eq!(s.state, State::Connected);
}

#[test]
fn message_is_delivered() {
    let term = Term::Tuple(vec![
        Term::Atom(Atom { name: b"hello".to_vec(), utf8: false }),
        Term::Integer(42),
    ]);
    let payload = message_payload(Control::RegSend, &term).unwrap();
    assert_eq!(&payload[..2], &[6, 131]);
    let mut stream = vec![0u8, 0, 0, 0];
    stream.extend(frame(&payload).unwrap());
    let mut s = connected();
    let (first, _) = s.receive(&stream, 0);
    assert_eq!(first, Inbound::Tick { next: 4 });
    let (second, action) = s.receive(&stream, 4);
    assert_eq!(second, Inbound::Message { control: Control::RegSend, term, next: stream.len() });
    assert_eq!(action, Action::Nothing);
}

#[test]
fn control_without_term() {
    assert_eq!(
        read_frame(&[0, 0, 0, 2, 1, 77], 0, 10),
        Inbound::Control { control: Control::Link, next: 6 }
    );
    assert_eq!(
        read_frame(&[0, 0, 0, 1, 8], 0, 10),
        Inbound::Control { control: Control::Exit2, next: 5 }
    );
}

#[test]
fn unknown_control_tag() {
    let mut s = connected();
    let (inbound, action) = s.receive(&[0, 0, 0, 1, 99], 0);
    assert_eq!(inbound, Inbound::Fail(SessionError::Protocol(ProtocolError::UnknownControlTag)));
    assert_eq!(action, Action::Close);
    assert_eq!(s.state, State::Failed);
}

#[test]
fn bad_payloads() {
    assert_eq!(
        read_frame(&[0, 0, 0, 1, 2], 0, 10),
        Inbound::Fail(SessionError::Decoding(DecodingError::Truncated))
    );
    assert_eq!(
        read_frame(&[0, 0, 0, 3, 2, 97, 5], 0, 10),
        Inbound::Fail(SessionError::Decoding(DecodingError::UnexpectedTag))
    );
    assert_eq!(
        read_frame(&[0, 0, 0, 5, 2, 131, 97, 5, 0], 0, 10),
        Inbound::Fail(SessionError::Decoding(DecodingError::BadLength))
    );
    assert_eq!(
        read_frame(&[0, 0, 0, 3, 2, 131, 97, 5], 0, 10),
        Inbound::Fail(SessionError::Decoding(DecodingError::Truncated))
    );
}

#[test]
fn receive_needs_a_connected_session() {
    let mut s = session(Role::Initiator, "a", "secret", 1);
    assert_eq!(s.receive(&[0, 0, 0, 0], 0), (Inbound::Wait, Action::Nothing));
    assert_eq!(s.state, State::Disconnected);
}

#[test]
fn control_tags() {
    let all = [
        (Control::Link, 1u8),
        (Control::Send, 2),
        (Control::Exit, 3),
        (Control::Unlink, 4),
        (Control::NodeLink, 5),
        (Control::RegSend, 6),
        (Control::GroupLeader, 7),
        (Control::Exit2, 8),
    ];
    for (control, tag) in all {
        assert_eq!(control_tag(control), tag);
        assert_eq!(control_from_tag(tag), Some(control));
    }
    assert_eq!(control_from_tag(0), None);
    assert_eq!(control_from_tag(9), None);
}

#[test]
fn handshake_framing() {
    assert_eq!(handshake_frame(&b"sok".to_vec()), Ok(vec![0, 3, 115, 111, 107]));
    assert_eq!(handshake_frame(&vec![0u8; 65536]), Err(EncodingError::Unrepresentable));
    let stream = [9u8, 0, 3, 115, 111, 107, 0];
    assert_eq!(handshake_frame_at(&stream, 1), Some((3, 6)));
    assert_eq!(handshake_frame_at(&stream[..5], 1), None);
    assert_eq!(handshake_frame_at(&stream, 6), None);
}

#[test]
fn compares_ranges() {
    let m = vec![1u8, 2, 3, 4];
    assert!(same_bytes(&m, 1, 3, &vec![2, 3]));
    assert!(!same_bytes(&m, 1, 3, &vec![2, 4]));
    assert!(!same_bytes(&m, 1, 3, &vec![2]));
    assert!(same_bytes(&m, 2, 2, &vec![]));
}

#[test]
fn fail_records_the_reason() {
    let mut s = connected();
    assert_eq!(s.fail(SessionError::Connection(ConnectionError::Timeout)), Action::Close);
    assert_eq!(s.state, State::Failed);
    assert_eq!(s.failure, Some(SessionError::Connection(ConnectionError::Timeout)));
}

#[test]
fn node_identity() {
    let node = ei_cnode::init(&b"a".to_vec(), &b"host".to_vec(), &b"secret".to_vec(), 4).unwrap();
    assert_eq!(node.thisnodename, b"a@host".to_vec());
    assert_eq!(node.thisalivename, b"a".to_vec());
    assert_eq!(node.thishostname, b"host".to_vec());
    assert_eq!(node.ei_connect_cookie, b"secret".to_vec());
    assert_eq!(node.self_.node, Atom { name: b"a@host".to_vec(), utf8: true });
    assert_eq!(node.self_.creation, 4);
    assert_eq!(
        node.session(Role::Initiator, 1111, 0x7499c, 1024),
        Ok(session(Role::Initiator, "a", "secret", 1111))
    );
    assert_eq!(
        ei_cnode::init(&vec![b'a'; 64], &b"host".to_vec(), &b"secret".to_vec(), 0),
        Err(EncodingError::NameTooLong)
    );
    assert!(ei_cnode::init(&vec![b'a'; 63], &vec![b'h'; 64], &vec![b'c'; 512], 0).is_ok());
    assert!(ei_cnode::init(&b"a".to_vec(), &b"h".to_vec(), &vec![b'c'; 513], 0).is_err());
}

#[test]
fn references_are_fresh() {
    let mut s = session(Role::Initiator, "a", "secret", 1);
    let first = s.mint_reference(3).unwrap();
    let second = s.mint_reference(3).unwrap();
    assert_eq!(first.node, Atom { name: b"a@host".to_vec(), utf8: true });
    assert_eq!(first.n, vec![0, 0]);
    assert_eq!(first.creation, 3);
    assert_eq!(second.n, vec![1, 0]);
    assert_ne!(first, second);
    assert_eq!(s.next_reference, 2);
    s.next_reference = 0x1_0000_0005;
    assert_eq!(s.mint_reference(0).unwrap().n, vec![5, 1]);
    s.next_reference = u64::MAX;
    let before = s.clone();
    assert_eq!(s.mint_reference(0), None);
    assert_eq!(s, before);
    let mut buf = Vec::new();
    assert_eq!(ei_codec::encode::encode(&Term::Reference(first), &mut buf), Ok(()));
}

#[test]
fn peer_is_known_once_connected() {
    let mut s = session(Role::Initiator, "a", "secret", 1);
    assert_eq!(s.peer([127, 0, 0, 1]), None);
    s.state = State::Connected;
    s.peer_name = b"b@host".to_vec();
    assert_eq!(
        s.peer([127, 0, 0, 1]),
        Some(ErlConnect { ipadr: [127, 0, 0, 1], nodename: b"b@host".to_vec() })
    );
}
