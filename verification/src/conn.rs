//! The per-connection lifecycle: a connection awaits its init frame, joins a
//! room on a validated token, and is closed on any error or disconnect.
//!
//! The surrounding runtime reads frames, consults the token validator, and
//! enqueues to sinks; the decisions — what the first frame means, which state
//! follows which event, and what joining does to the registry — live here.

use vstd::prelude::*;
use vstd::string::*;
use crate::ident::fresh_id;
use crate::registry::RoomRegistry;
use crate::registry::join_model;
use crate::registry::join_session;
use crate::registry::leave_model;
use crate::wire::frame_of;
use crate::wire::parse_frame;

verus! {

/// The state of one connection.  No transition leaves `Closed`.
pub enum ConnState {
    /// Nothing received yet: the next frame must be an init request.
    AwaitingInit,
    /// The init handshake succeeded: the connection is a member of the room
    /// for its token.
    Joined { token: String, client_id: String },
    /// The connection is finished; cleanup has run or is about to run.
    Closed,
}

/// What the connection does with its first frame.
pub enum InitStep {
    /// Not a well-formed init request: close the connection.
    Reject,
    /// A well-formed init request: ask the validator about this token.
    Validate { token: String },
}

/// The token of a first frame that is a well-formed init request: the frame
/// must parse, its command must be `init`, and it must carry a token.
pub open spec fn spec_init_token(
    frame: Option<(Seq<char>, Option<Seq<char>>, bool)>,
) -> Option<Seq<char>> {
    match frame {
        None => None,
        Some(fm) => if fm.0 == "init"@ {
            fm.1
        } else {
            None
        },
    }
}

/// Examines the first frame of a connection: a malformed frame, a command
/// other than `init`, or a missing token is rejected; otherwise the token is
/// handed back for validation.
pub fn examine_first_frame(raw: &String) -> (r: InitStep)
    ensures
        match r {
            InitStep::Validate { token } => spec_init_token(frame_of(raw@)) == Some(token@),
            InitStep::Reject => spec_init_token(frame_of(raw@)) is None,
        },
{
    match parse_frame(raw.as_str()) {
        None => InitStep::Reject,
        Some(f) => {
            if f.cmd == String::from_str("init") {
                match f.token {
                    Some(t) => InitStep::Validate { token: t },
                    None => InitStep::Reject,
                }
            } else {
                InitStep::Reject
            }
        },
    }
}

impl ConnState {
    /// A new connection awaits its init frame.
    pub fn start() -> (s: Self)
        ensures
            s is AwaitingInit,
    {
        ConnState::AwaitingInit
    }

    /// The validator's answer for the token of the init request: a valid
    /// token joins the connection, an invalid one closes it.
    pub fn after_validation(self, valid: bool, token: String, client_id: String) -> (next: Self)
        requires
            self is AwaitingInit,
        ensures
            next == (if valid {
                ConnState::Joined { token, client_id }
            } else {
                ConnState::Closed
            }),
    {
        if valid {
            ConnState::Joined { token, client_id }
        } else {
            ConnState::Closed
        }
    }

    /// Any terminating event — transport error, closed socket, rejected
    /// init — from any state.
    pub fn close(self) -> (next: Self)
        ensures
            next is Closed,
    {
        ConnState::Closed
    }
}

/// Completes the init handshake for a validated token: draws a fresh client
/// identifier and a fresh candidate session identifier, joins the room, and
/// returns the client identifier together with the session identifier of the
/// room joined — the room's existing one when the room already existed.
///
/// The drawn identifiers are random; in the astronomically unlikely case
/// that the client identifier is already a member of the room, that member's
/// binding is replaced (a leave followed by the join).
pub fn complete_init<S>(reg: &mut RoomRegistry<S>, token: &String, sink: S) -> (r: (
    String,
    String,
))
    requires
        old(reg).wf(),
    ensures
        final(reg).wf(),
        r.1@ == join_session(leave_model(old(reg).model(), token@, r.0@), token@, r.1@),
        final(reg).model() == join_model(
            leave_model(old(reg).model(), token@, r.0@),
            token@,
            r.0@,
            r.1@,
        ),
        final(reg).spec_sink(token@, r.0@) == Some(sink),
        forall|t: Seq<char>, c: Seq<char>|
            !(t == token@ && c == r.0@) ==> final(reg).spec_sink(t, c) == old(reg).spec_sink(t, c),
{
    let client_id = fresh_id();
    let fresh_session = fresh_id();
    let ghost m0 = reg.model();
    if reg.is_member(token, &client_id) {
        reg.leave(token, &client_id);
    } else {
        proof {
            if reg.model().contains_key(token@) {
                assert(reg.model()[token@] == reg.spec_room(token@).unwrap().model());
                assert(!reg.model()[token@].members.contains(client_id@));
            }
            assert(leave_model(m0, token@, client_id@) == m0);
        }
    }
    let ghost m1 = reg.model();
    let ghost fs = fresh_session@;
    let sid = reg.join(token, client_id.clone(), sink, fresh_session);
    proof {
        assert(sid@ == join_session(m1, token@, fs));
        if m1.contains_key(token@) {
            assert(sid@ == m1[token@].session_id);
            assert(join_session(m1, token@, fs) == join_session(m1, token@, sid@));
        } else {
            assert(sid@ == fs);
        }
        assert(join_model(m1, token@, client_id@, fs) == join_model(m1, token@, client_id@, sid@));
    }
    (client_id, sid)
}

} // verus!
