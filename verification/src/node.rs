//! The identity of the local node.

#![allow(non_camel_case_types)]

use crate::session::{
    new_session, node_name, Role, Session, State, EI_MAXALIVELEN, EI_MAXHOSTNAMELEN,
    EI_MAX_COOKIE_SIZE,
};
use crate::term::{erlang_pid, Atom, AtomView, EncodingError, PidView};
use crate::wire::push_all;
use vstd::prelude::*;

verus! {

/// The local node: its names, its cookie, and the process identifier under
/// which it sends.
#[derive(Debug, Clone, PartialEq, Eq)]
pub struct ei_cnode {
    pub thishostname: Vec<u8>,
    pub thisnodename: Vec<u8>,
    pub thisalivename: Vec<u8>,
    pub ei_connect_cookie: Vec<u8>,
    pub creation: u32,
    pub self_: erlang_pid,
}

/// Whether the parts of a node's identity are within their limits.
pub open spec fn identity_fits(alive: Seq<u8>, host: Seq<u8>, cookie: Seq<u8>) -> bool {
    alive.len() <= EI_MAXALIVELEN && host.len() <= EI_MAXHOSTNAMELEN && cookie.len()
        <= EI_MAX_COOKIE_SIZE
}

impl ei_cnode {
    /// Whether the node is what `init` makes of the parts it holds.
    pub open spec fn wf(&self) -> bool {
        &&& identity_fits(self.thisalivename@, self.thishostname@, self.ei_connect_cookie@)
        &&& self.thisnodename@ == node_name(self.thisalivename@, self.thishostname@)
        &&& self.self_@ == (PidView {
            node: AtomView { name: self.thisnodename@, utf8: true },
            num: 0,
            serial: 0,
            creation: self.creation,
        })
    }

    /// The node with the given alive name, host name and cookie, each
    /// checked against its limit.
    pub fn init(alive: &Vec<u8>, host: &Vec<u8>, cookie: &Vec<u8>, creation: u32) -> (r: Result<
        ei_cnode,
        EncodingError,
    >)
        ensures
            r.is_ok() == identity_fits(alive@, host@, cookie@),
            r.is_ok() ==> r.unwrap().wf() && r.unwrap().thisalivename@ == alive@
                && r.unwrap().thishostname@ == host@ && r.unwrap().ei_connect_cookie@ == cookie@
                && r.unwrap().creation == creation,
            r.is_err() ==> r.unwrap_err() == EncodingError::NameTooLong,
    {
        if alive.len() > EI_MAXALIVELEN || host.len() > EI_MAXHOSTNAMELEN || cookie.len()
            > EI_MAX_COOKIE_SIZE {
            return Err(EncodingError::NameTooLong);
        }
        let mut thisalivename: Vec<u8> = Vec::new();
        push_all(&mut thisalivename, alive);
        let mut thishostname: Vec<u8> = Vec::new();
        push_all(&mut thishostname, host);
        let mut ei_connect_cookie: Vec<u8> = Vec::new();
        push_all(&mut ei_connect_cookie, cookie);
        let mut thisnodename: Vec<u8> = Vec::new();
        push_all(&mut thisnodename, alive);
        thisnodename.push(64u8);
        push_all(&mut thisnodename, host);
        let mut pid_node: Vec<u8> = Vec::new();
        push_all(&mut pid_node, &thisnodename);
        assert(thisalivename@ =~= alive@);
        assert(thishostname@ =~= host@);
        assert(ei_connect_cookie@ =~= cookie@);
        assert(thisnodename@ =~= node_name(alive@, host@));
        assert(pid_node@ =~= thisnodename@);
        Ok(
            ei_cnode {
                thishostname,
                thisnodename,
                thisalivename,
                ei_connect_cookie,
                creation,
                self_: erlang_pid {
                    node: Atom { name: pid_node, utf8: true },
                    num: 0,
                    serial: 0,
                    creation,
                },
            },
        )
    }

    /// A session of this node that has not begun its handshake.
    /// `challenge` is the number that this side will put to the peer: the
    /// caller draws it at random.
    pub fn session(&self, role: Role, challenge: u32, flags: u32, max_frame: u32) -> (r: Result<
        Session,
        EncodingError,
    >)
        ensures
            r.is_ok() == identity_fits(
                self.thisalivename@,
                self.thishostname@,
                self.ei_connect_cookie@,
            ),
            r.is_ok() ==> r.unwrap()@ == new_session(
                role,
                self.thisalivename@,
                self.thishostname@,
                self.ei_connect_cookie@,
                challenge,
                flags,
                max_frame,
            ),
            r.is_err() ==> r.unwrap_err() == EncodingError::NameTooLong,
    {
        Session::new(
            role,
            &self.thisalivename,
            &self.thishostname,
            &self.ei_connect_cookie,
            challenge,
            flags,
            max_frame,
        )
    }
}

/// The peer of a connection: its address and the node name it gave in the
/// handshake.
#[derive(Debug, Clone, PartialEq, Eq)]
pub struct ErlConnect {
    pub ipadr: [u8; 4],
    pub nodename: Vec<u8>,
}

impl Session {
    /// Who the session is connected to, once it is connected: the address
    /// as the caller knows it from the stream, and the name that the peer
    /// gave.
    pub fn peer(&self, ipadr: [u8; 4]) -> (r: Option<ErlConnect>)
        ensures
            r.is_some() == (self.state == State::Connected),
            r.is_some() ==> r.unwrap().ipadr == ipadr && r.unwrap().nodename@ == self.peer_name@,
    {
        if self.state == State::Connected {
            let mut nodename: Vec<u8> = Vec::new();
            push_all(&mut nodename, &self.peer_name);
            assert(nodename@ =~= self.peer_name@);
            Some(ErlConnect { ipadr, nodename })
        } else {
            None
        }
    }
}

} // verus!
