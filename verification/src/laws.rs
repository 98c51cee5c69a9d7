//! The laws of the relay, proved from the contracts of the registry and the
//! router.

use vstd::prelude::*;
use crate::registry::RoomModel;
use crate::registry::RoomRegistry;
use crate::registry::join_model;
use crate::registry::join_session;
use crate::registry::leave_model;
use crate::registry::spec_find;
use crate::registry::spec_others;
use crate::router::RouteModel;
use crate::router::spec_delivery;
use crate::router::spec_route;
use crate::wire::check_device_text;
use crate::wire::heartbeat_text;

verus! {

/// Two connections that successfully join the same token — in any order,
/// whatever fresh identifiers they drew — are told the same session
/// identifier: the second join answers with exactly the session identifier
/// the first one established.
pub proof fn lemma_shared_session(
    m: Map<Seq<char>, RoomModel>,
    token: Seq<char>,
    a: Seq<char>,
    f1: Seq<char>,
    f2: Seq<char>,
)
    ensures
        join_session(join_model(m, token, a, f1), token, f2) == join_session(m, token, f1),
{
}

/// When the last member of a room leaves, the room is gone from the
/// registry, and the next join with the same token starts a new session: it
/// is told the fresh identifier it drew, not the old session identifier.
pub proof fn lemma_room_reclaimed(
    m: Map<Seq<char>, RoomModel>,
    token: Seq<char>,
    c: Seq<char>,
    f2: Seq<char>,
)
    requires
        m.contains_key(token),
        m[token].members == Set::<Seq<char>>::empty().insert(c),
    ensures
        !leave_model(m, token, c).contains_key(token),
        join_session(leave_model(m, token, c), token, f2) == f2,
{
    assert(m[token].members.contains(c));
}

/// Cleanup for a connection that never joined — its token has no room, or
/// its identifier is not a member — changes the registry in no way.
pub proof fn lemma_cleanup_of_stranger(
    m: Map<Seq<char>, RoomModel>,
    token: Seq<char>,
    c: Seq<char>,
)
    requires
        !m.contains_key(token) || !m[token].members.contains(c),
    ensures
        leave_model(m, token, c) == m,
{
}

/// Cleanup is idempotent: running the cleanup path twice for the same token
/// and client identifier has no effect beyond the first run.
pub proof fn lemma_cleanup_idempotent(
    m: Map<Seq<char>, RoomModel>,
    token: Seq<char>,
    c: Seq<char>,
)
    ensures
        leave_model(leave_model(m, token, c), token, c) == leave_model(m, token, c),
{
    let m1 = leave_model(m, token, c);
    if m.contains_key(token) && m[token].members.contains(c) {
        if m[token].members == Set::<Seq<char>>::empty().insert(c) {
            assert(!m1.contains_key(token));
        } else {
            assert(!m1[token].members.contains(c));
        }
    }
}

/// `checkDevice` is answered with code `"1"` exactly when more than one
/// member shares the room, with code `"0"` otherwise, and the two replies
/// are distinct frames.
pub proof fn lemma_check_device_code(member_count: nat, has_data: bool)
    ensures
        spec_route("checkDevice"@, has_data, member_count) == RouteModel::Reply(
            check_device_text(member_count > 1),
        ),
        check_device_text(true) != check_device_text(false),
{
    reveal_strlit("checkDevice");
    reveal_strlit("Heartbeat");
    reveal_strlit("{\"cmd\":\"checkDevice\",\"code\":\"1\"}");
    reveal_strlit("{\"cmd\":\"checkDevice\",\"code\":\"0\"}");
    assert("checkDevice"@.len() == 11);
    assert("Heartbeat"@.len() == 9);
    assert("checkDevice"@ != "Heartbeat"@);
    assert(check_device_text(true)[29] == '1');
    assert(check_device_text(false)[29] == '0');
}

/// A `Heartbeat` sent by a member is answered to that member alone — one
/// heartbeat frame back to the originator, and to nobody else; from a sender
/// that is in no room it is answered to nobody.
pub proof fn lemma_heartbeat_private<S>(
    reg: RoomRegistry<S>,
    fm: (Seq<char>, Option<Seq<char>>, bool),
    raw: Seq<char>,
    token: Seq<char>,
    origin: Seq<char>,
)
    requires
        fm.0 == "Heartbeat"@,
    ensures
        spec_delivery(reg, Some(fm), raw, token, origin) == (if reg.spec_sink(token, origin)
            is Some {
            seq![(origin, heartbeat_text())]
        } else {
            Seq::<(Seq<char>, Seq<char>)>::empty()
        }),
{
}

/// `execute_result` without a `data` field is forwarded to nobody; with a
/// `data` field it is routed exactly as a forwarded command.
pub proof fn lemma_execute_result_gate<S>(
    reg: RoomRegistry<S>,
    fm: (Seq<char>, Option<Seq<char>>, bool),
    raw: Seq<char>,
    token: Seq<char>,
    origin: Seq<char>,
)
    requires
        fm.0 == "execute_result"@,
    ensures
        !fm.2 ==> spec_delivery(reg, Some(fm), raw, token, origin) == Seq::<(
            Seq<char>,
            Seq<char>,
        )>::empty(),
        fm.2 ==> spec_route(fm.0, fm.2, reg.spec_member_count(token)) is ForwardOthers,
{
    reveal_strlit("execute_result");
    reveal_strlit("Heartbeat");
    reveal_strlit("checkDevice");
    assert(fm.0.len() == 14);
    assert(fm.0 != "Heartbeat"@);
    assert(fm.0 != "checkDevice"@);
}

/// Elements of the forwarded-recipient list: each is a member other than the
/// origin, and every member other than the origin is on it.
proof fn lemma_others_elements<S>(ms: Seq<(String, S)>, origin: Seq<char>)
    ensures
        forall|k: int|
            0 <= k < spec_others(ms, origin).len() ==> #[trigger] spec_others(ms, origin)[k]
                != origin && spec_find(ms, spec_others(ms, origin)[k]) is Some,
        forall|c: Seq<char>|
            c != origin && #[trigger] spec_find(ms, c) is Some ==> spec_others(
                ms,
                origin,
            ).contains(c),
    decreases ms.len(),
{
    if ms.len() > 0 {
        lemma_others_elements(ms.drop_last(), origin);
        let rest = spec_others(ms.drop_last(), origin);
        let whole = spec_others(ms, origin);
        assert forall|k: int|
            0 <= k < whole.len() implies #[trigger] whole[k] != origin && spec_find(
            ms,
            whole[k],
        ) is Some by {
            if ms.last().0@ == origin || k < rest.len() {
                assert(whole[k] == rest[k]);
                assert(spec_find(ms.drop_last(), whole[k]) is Some);
                if ms.last().0@ != whole[k] {
                    assert(spec_find(ms, whole[k]) == spec_find(ms.drop_last(), whole[k]));
                }
            } else {
                assert(whole[k] == ms.last().0@);
            }
        }
        assert forall|c: Seq<char>|
            c != origin && #[trigger] spec_find(ms, c) is Some implies whole.contains(c) by {
            if ms.last().0@ == c {
                if ms.last().0@ != origin {
                    assert(whole[whole.len() - 1] == c);
                }
            } else {
                assert(spec_find(ms.drop_last(), c) is Some);
                assert(rest.contains(c));
                let k = choose|k: int| 0 <= k < rest.len() && rest[k] == c;
                assert(whole[k] == c);
            }
        }
    }
}

/// A forwarded frame — `execute`, `execute_result` with `data`, or any
/// unrecognized command — is delivered verbatim: every recipient gets the
/// sender's original text, no recipient is the sender, every recipient is a
/// member of the sender's room, and every other member is a recipient.
pub proof fn lemma_forward_verbatim<S>(
    reg: RoomRegistry<S>,
    fm: (Seq<char>, Option<Seq<char>>, bool),
    raw: Seq<char>,
    token: Seq<char>,
    origin: Seq<char>,
)
    requires
        spec_route(fm.0, fm.2, reg.spec_member_count(token)) is ForwardOthers,
    ensures
        forall|k: int|
            0 <= k < spec_delivery(reg, Some(fm), raw, token, origin).len() ==> (
            #[trigger] spec_delivery(reg, Some(fm), raw, token, origin)[k]).1 == raw
                && spec_delivery(reg, Some(fm), raw, token, origin)[k].0 != origin
                && reg.spec_sink(token, spec_delivery(reg, Some(fm), raw, token, origin)[k].0)
                is Some,
        forall|c: Seq<char>|
            c != origin && #[trigger] reg.spec_sink(token, c) is Some ==> exists|k: int|
                0 <= k < spec_delivery(reg, Some(fm), raw, token, origin).len()
                    && spec_delivery(reg, Some(fm), raw, token, origin)[k] == (c, raw),
{
    let out = spec_delivery(reg, Some(fm), raw, token, origin);
    match reg.spec_room(token) {
        None => {
            assert(out.len() == 0);
        },
        Some(r) => {
            lemma_others_elements(r.members@, origin);
            let others = spec_others(r.members@, origin);
            assert(out == others.map_values(|c: Seq<char>| (c, raw)));
            assert forall|k: int|
                0 <= k < out.len() implies (#[trigger] out[k]).1 == raw && out[k].0 != origin
                && reg.spec_sink(token, out[k].0) is Some by {
                assert(out[k] == (others[k], raw));
            }
            assert forall|c: Seq<char>|
                c != origin && #[trigger] reg.spec_sink(token, c) is Some implies exists|k: int|
                0 <= k < out.len() && out[k] == (c, raw) by {
                assert(others.contains(c));
                let k = choose|k: int| 0 <= k < others.len() && others[k] == c;
                assert(out[k] == (c, raw));
            }
        },
    }
}

} // verus!
