//! Message routing: the decision table that maps an inbound command to what
//! is sent, and to whom.
//!
//! `Heartbeat` and `checkDevice` build a fresh reply for the originator
//! alone; `execute_result` without a `data` field is dropped entirely; every
//! other command — `execute` included — is forwarded verbatim to every other
//! member of the room.

use vstd::prelude::*;
use vstd::string::*;
use crate::registry::RoomRegistry;
use crate::registry::spec_others;
use crate::wire::Frame;
use crate::wire::check_device_frame;
use crate::wire::check_device_text;
use crate::wire::frame_of;
use crate::wire::heartbeat_frame;
use crate::wire::heartbeat_text;
use crate::wire::opt_frame_model;
use crate::wire::parse_frame;

verus! {

/// What the router decides for one inbound frame.
pub enum Outcome {
    /// Send a built reply to the originator alone.
    Reply { payload: String },
    /// Forward the original text, unmodified, to every other member.
    ForwardOthers,
    /// Send nothing.
    Silent,
}

/// The abstract routing decision.
pub enum RouteModel {
    Reply(Seq<char>),
    ForwardOthers,
    Silent,
}

/// The abstract value of an `Outcome`.
pub open spec fn outcome_model(o: Outcome) -> RouteModel {
    match o {
        Outcome::Reply { payload } => RouteModel::Reply(payload@),
        Outcome::ForwardOthers => RouteModel::ForwardOthers,
        Outcome::Silent => RouteModel::Silent,
    }
}

/// The decision table, keyed by the command of the inbound frame.
pub open spec fn spec_route(cmd: Seq<char>, has_data: bool, member_count: nat) -> RouteModel {
    if cmd == "Heartbeat"@ {
        RouteModel::Reply(heartbeat_text())
    } else if cmd == "checkDevice"@ {
        RouteModel::Reply(check_device_text(member_count > 1))
    } else if cmd == "execute_result"@ && !has_data {
        RouteModel::Silent
    } else {
        RouteModel::ForwardOthers
    }
}

/// Decides what one parsed frame causes, given how many members currently
/// share the originator's room.
pub fn route(frame: &Frame, member_count: usize) -> (o: Outcome)
    ensures
        outcome_model(o) == spec_route(frame.cmd@, frame.has_data, member_count as nat),
{
    if frame.cmd == String::from_str("Heartbeat") {
        Outcome::Reply { payload: heartbeat_frame() }
    } else if frame.cmd == String::from_str("checkDevice") {
        Outcome::Reply { payload: check_device_frame(member_count > 1) }
    } else if frame.cmd == String::from_str("execute_result") && !frame.has_data {
        Outcome::Silent
    } else {
        Outcome::ForwardOthers
    }
}

/// The abstract value of a recipient/payload list.
pub open spec fn pairs_model(s: Seq<(String, String)>) -> Seq<(Seq<char>, Seq<char>)> {
    s.map_values(|p: (String, String)| (p.0@, p.1@))
}

/// Everything one inbound frame causes to be enqueued, as recipient and
/// payload pairs: nothing for an unparsable frame; a built reply to the
/// originator alone; or the original text to every other member, in member
/// order.
pub open spec fn spec_delivery<S>(
    reg: RoomRegistry<S>,
    frame: Option<(Seq<char>, Option<Seq<char>>, bool)>,
    raw: Seq<char>,
    token: Seq<char>,
    origin: Seq<char>,
) -> Seq<(Seq<char>, Seq<char>)> {
    match frame {
        None => Seq::empty(),
        Some(fm) => match spec_route(fm.0, fm.2, reg.spec_member_count(token)) {
            RouteModel::Reply(p) => if reg.spec_sink(token, origin) is Some {
                seq![(origin, p)]
            } else {
                Seq::empty()
            },
            RouteModel::ForwardOthers => match reg.spec_room(token) {
                None => Seq::empty(),
                Some(r) => spec_others(r.members@, origin).map_values(|c: Seq<char>| (c, raw)),
            },
            RouteModel::Silent => Seq::empty(),
        },
    }
}

/// Computes the recipient and payload pairs that one parsed frame causes.
pub fn plan_delivery<S>(
    reg: &RoomRegistry<S>,
    frame: Option<Frame>,
    raw: &String,
    token: &String,
    origin: &String,
) -> (out: Vec<(String, String)>)
    ensures
        pairs_model(out@) == spec_delivery(*reg, opt_frame_model(frame), raw@, token@, origin@),
{
    match frame {
        None => {
            let out: Vec<(String, String)> = Vec::new();
            proof {
                assert(pairs_model(out@) =~= Seq::<(Seq<char>, Seq<char>)>::empty());
            }
            out
        },
        Some(f) => {
            let count = reg.member_count(token);
            match route(&f, count) {
                Outcome::Reply { payload } => {
                    let mut out: Vec<(String, String)> = Vec::new();
                    proof {
                        assert(pairs_model(out@) =~= Seq::<(Seq<char>, Seq<char>)>::empty());
                    }
                    if reg.is_member(token, origin) {
                        let ghost p = payload@;
                        out.push((origin.clone(), payload));
                        proof {
                            assert(pairs_model(out@) =~= seq![(origin@, p)]);
                        }
                    }
                    out
                },
                Outcome::ForwardOthers => {
                    let ids = reg.other_member_ids(token, origin);
                    let mut out: Vec<(String, String)> = Vec::new();
                    let n = ids.len();
                    let mut k: usize = 0;
                    while k < n
                        invariant
                            k <= n,
                            n == ids@.len(),
                            out@.len() == k,
                            forall|x: int|
                                0 <= x < k ==> (#[trigger] out@[x]).0@ == ids@[x]@ && out@[x].1@
                                    == raw@,
                        decreases n - k,
                    {
                        out.push((ids[k].clone(), raw.clone()));
                        k = k + 1;
                    }
                    proof {
                        if reg.spec_room(token@) is Some {
                            let others = spec_others(
                                reg.spec_room(token@).unwrap().members@,
                                origin@,
                            );
                            assert(ids@.map_values(|s: String| s@) == others);
                            assert(pairs_model(out@) =~= others.map_values(
                                |c: Seq<char>| (c, raw@),
                            )) by {
                                assert(others.len() == ids@.len());
                                assert forall|x: int| 0 <= x < out@.len() implies pairs_model(
                                    out@,
                                )[x] == others.map_values(|c: Seq<char>| (c, raw@))[x] by {
                                    assert(ids@.map_values(|s: String| s@)[x] == ids@[x]@);
                                    assert(others[x] == ids@[x]@);
                                }
                            }
                        } else {
                            assert(ids@.map_values(|s: String| s@).len() == 0);
                            assert(pairs_model(out@) =~= Seq::<(Seq<char>, Seq<char>)>::empty());
                        }
                    }
                    out
                },
                Outcome::Silent => {
                    let out: Vec<(String, String)> = Vec::new();
                    proof {
                        assert(pairs_model(out@) =~= Seq::<(Seq<char>, Seq<char>)>::empty());
                    }
                    out
                },
            }
        },
    }
}

/// Handles one inbound frame from a joined connection: parses it, routes it,
/// and returns the recipient and payload pairs to enqueue.  An unparsable
/// frame is dropped without effect; the connection stays open.
pub fn handle_frame<S>(
    reg: &RoomRegistry<S>,
    raw: &String,
    token: &String,
    origin: &String,
) -> (out: Vec<(String, String)>)
    ensures
        pairs_model(out@) == spec_delivery(*reg, frame_of(raw@), raw@, token@, origin@),
{
    let frame = parse_frame(raw.as_str());
    plan_delivery(reg, frame, raw, token, origin)
}

} // verus!
