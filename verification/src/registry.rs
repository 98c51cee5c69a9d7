//! The room registry: a mapping from token to room.
//!
//! A room is the set of connected clients that share one token, each paired
//! with a handle to its outbound sink, together with the session identifier
//! fixed when the room is created.  The registry owns creation on first join
//! and deletion when the last member leaves.
//!
//! The registry is generic over the sink handle type `S`: it only stores and
//! hands back such handles, it never enqueues through them.

use vstd::prelude::*;
use vstd::map::*;
use vstd::assert_sets_equal;

verus! {

/// One room: the members currently sharing a token, each with its sink
/// handle, plus the session identifier assigned when the room was created.
pub struct Room<S> {
    pub session_id: String,
    pub members: Vec<(String, S)>,
}

/// The registry of rooms, keyed by token.
pub struct RoomRegistry<S> {
    pub rooms: Vec<(String, Room<S>)>,
}

/// The abstract state of one room: its session identifier and the set of
/// member client identifiers.
pub struct RoomModel {
    pub session_id: Seq<char>,
    pub members: Set<Seq<char>>,
}

/// Looks a key up in an association sequence; the last binding wins.
pub open spec fn spec_find<T>(s: Seq<(String, T)>, key: Seq<char>) -> Option<T>
    decreases s.len(),
{
    if s.len() == 0 {
        None
    } else if s.last().0@ == key {
        Some(s.last().1)
    } else {
        spec_find(s.drop_last(), key)
    }
}

/// All keys of the association sequence are distinct.
pub open spec fn distinct_keys<T>(s: Seq<(String, T)>) -> bool {
    forall|i: int, j: int| 0 <= i < j < s.len() ==> (#[trigger] s[i]).0@ != (#[trigger] s[j]).0@
}

/// Every association entry maps a well-formed room.
pub open spec fn rooms_wf<S>(s: Seq<(String, Room<S>)>) -> bool {
    forall|i: int| 0 <= i < s.len() ==> (#[trigger] s[i]).1.wf()
}

/// The abstract registry state held in an association sequence of rooms.
pub open spec fn rooms_model<S>(rooms: Seq<(String, Room<S>)>) -> Map<Seq<char>, RoomModel> {
    Map::new(
        |t: Seq<char>| spec_find(rooms, t) is Some,
        |t: Seq<char>| spec_find(rooms, t).unwrap().model(),
    )
}

/// The sink bound to a client of a room in an association sequence of rooms.
pub open spec fn spec_find_sink<S>(
    rooms: Seq<(String, Room<S>)>,
    token: Seq<char>,
    client_id: Seq<char>,
) -> Option<S> {
    match spec_find(rooms, token) {
        None => None,
        Some(r) => spec_find(r.members@, client_id),
    }
}

impl<S> Room<S> {
    /// Internal invariant: member identifiers are distinct and a room is
    /// never empty.
    pub open spec fn wf(self) -> bool {
        &&& distinct_keys(self.members@)
        &&& self.members@.len() > 0
    }

    /// The abstract state of this room.
    pub open spec fn model(self) -> RoomModel {
        RoomModel {
            session_id: self.session_id@,
            members: Set::new(|c: Seq<char>| spec_find(self.members@, c) is Some),
        }
    }
}

impl<S> RoomRegistry<S> {
    /// The room currently registered for a token, if any.
    pub open spec fn spec_room(self, token: Seq<char>) -> Option<Room<S>> {
        spec_find(self.rooms@, token)
    }

    /// The sink handle registered for a client of a room, if any.
    pub open spec fn spec_sink(self, token: Seq<char>, client_id: Seq<char>) -> Option<S> {
        spec_find_sink(self.rooms@, token, client_id)
    }

    /// How many members the room for a token currently has; zero when the
    /// room does not exist.
    pub open spec fn spec_member_count(self, token: Seq<char>) -> nat {
        match self.spec_room(token) {
            None => 0,
            Some(r) => r.members@.len(),
        }
    }

    /// The abstract state of the registry: token to room state.
    pub open spec fn model(self) -> Map<Seq<char>, RoomModel> {
        rooms_model(self.rooms@)
    }

    /// Internal invariant: tokens are distinct and every registered room is
    /// well formed (in particular, non-empty).
    pub open spec fn wf(self) -> bool {
        &&& distinct_keys(self.rooms@)
        &&& rooms_wf(self.rooms@)
    }
}

/// The session identifier that a join with the given fresh identifier yields:
/// the existing room's identifier when the room already exists, the fresh one
/// otherwise.
pub open spec fn join_session(
    m: Map<Seq<char>, RoomModel>,
    token: Seq<char>,
    fresh_session: Seq<char>,
) -> Seq<char> {
    if m.contains_key(token) {
        m[token].session_id
    } else {
        fresh_session
    }
}

/// The registry state after a client joins the room for a token, creating
/// the room with the fresh session identifier when it did not exist.
pub open spec fn join_model(
    m: Map<Seq<char>, RoomModel>,
    token: Seq<char>,
    client_id: Seq<char>,
    fresh_session: Seq<char>,
) -> Map<Seq<char>, RoomModel> {
    let members = if m.contains_key(token) {
        m[token].members.insert(client_id)
    } else {
        Set::empty().insert(client_id)
    };
    m.insert(token, RoomModel { session_id: join_session(m, token, fresh_session), members })
}

/// The registry state after a client leaves the room for a token: removing
/// an absent client or a client of an absent room changes nothing, and a
/// room whose last member leaves is removed from the registry.
pub open spec fn leave_model(
    m: Map<Seq<char>, RoomModel>,
    token: Seq<char>,
    client_id: Seq<char>,
) -> Map<Seq<char>, RoomModel> {
    if m.contains_key(token) && m[token].members.contains(client_id) {
        if m[token].members == Set::empty().insert(client_id) {
            m.remove(token)
        } else {
            m.insert(
                token,
                RoomModel {
                    session_id: m[token].session_id,
                    members: m[token].members.remove(client_id),
                },
            )
        }
    } else {
        m
    }
}

/// A key that matches no entry is not found.
proof fn lemma_find_absent<T>(s: Seq<(String, T)>, key: Seq<char>)
    requires
        forall|i: int| 0 <= i < s.len() ==> (#[trigger] s[i]).0@ != key,
    ensures
        spec_find(s, key) is None,
    decreases s.len(),
{
    if s.len() > 0 {
        assert(s.last() == s[s.len() - 1]);
        assert(forall|i: int|
            0 <= i < s.drop_last().len() ==> (#[trigger] s.drop_last()[i]) == s[i]);
        lemma_find_absent(s.drop_last(), key);
    }
}

/// Under distinct keys, the binding found for the key of entry `i` is
/// entry `i` itself.
proof fn lemma_find_at_index<T>(s: Seq<(String, T)>, i: int)
    requires
        distinct_keys(s),
        0 <= i < s.len(),
    ensures
        spec_find(s, s[i].0@) == Some(s[i].1),
    decreases s.len(),
{
    assert(s.last() == s[s.len() - 1]);
    if i < s.len() - 1 {
        assert(s.last().0@ != s[i].0@);
        assert(forall|k: int|
            0 <= k < s.drop_last().len() ==> (#[trigger] s.drop_last()[k]) == s[k]);
        lemma_find_at_index(s.drop_last(), i);
    }
}

/// Under distinct keys, a key that is not found matches no entry.
proof fn lemma_find_none_all<T>(s: Seq<(String, T)>, key: Seq<char>)
    requires
        distinct_keys(s),
        spec_find(s, key) is None,
    ensures
        forall|k: int| 0 <= k < s.len() ==> (#[trigger] s[k]).0@ != key,
{
    assert forall|k: int| 0 <= k < s.len() implies (#[trigger] s[k]).0@ != key by {
        if s[k].0@ == key {
            lemma_find_at_index(s, k);
        }
    }
}

/// Appending an entry changes only the binding of its own key.
proof fn lemma_find_push<T>(s: Seq<(String, T)>, p: (String, T), key: Seq<char>)
    ensures
        spec_find(s.push(p), key) == (if p.0@ == key {
            Some(p.1)
        } else {
            spec_find(s, key)
        }),
{
    assert(s.push(p).last() == p);
    assert(s.push(p).drop_last() =~= s);
}

/// Removing an entry leaves the bindings of all other keys unchanged.
proof fn lemma_find_remove<T>(s: Seq<(String, T)>, i: int, key: Seq<char>)
    requires
        0 <= i < s.len(),
        s[i].0@ != key,
    ensures
        spec_find(s.remove(i), key) == spec_find(s, key),
    decreases s.len(),
{
    s.remove_ensures(i);
    assert(s.last() == s[s.len() - 1]);
    if i == s.len() - 1 {
        assert(s.remove(i) =~= s.drop_last());
    } else {
        let r = s.remove(i);
        assert(r[r.len() - 1] == s[s.len() - 1]);
        assert(r.last() == s.last());
        if s.last().0@ != key {
            assert(r.drop_last() =~= s.drop_last().remove(i)) by {
                s.drop_last().remove_ensures(i);
                assert(forall|k: int|
                    0 <= k < r.drop_last().len() ==> (#[trigger] r.drop_last()[k]) == r[k]);
                assert(forall|k: int|
                    0 <= k < s.drop_last().len() ==> (#[trigger] s.drop_last()[k]) == s[k]);
            }
            assert(s.drop_last()[i] == s[i]);
            lemma_find_remove(s.drop_last(), i, key);
        }
    }
}

/// Removing an entry keeps the keys distinct.
proof fn lemma_distinct_remove<T>(s: Seq<(String, T)>, i: int)
    requires
        distinct_keys(s),
        0 <= i < s.len(),
    ensures
        distinct_keys(s.remove(i)),
{
    s.remove_ensures(i);
    let r = s.remove(i);
    assert forall|a: int, b: int| 0 <= a < b < r.len() implies (#[trigger] r[a]).0@ != (#[trigger] r[b]).0@ by {
        let a0: int = if a < i { a } else { a + 1 };
        let b0: int = if b < i { b } else { b + 1 };
        assert(r[a] == s[a0]);
        assert(r[b] == s[b0]);
    }
}

/// Facts established by a join into an existing room: the room gains the new
/// member and keeps its session identifier; nothing else changes.
proof fn lemma_join_existing<S>(
    rooms0: Seq<(String, Room<S>)>,
    rooms1: Seq<(String, Room<S>)>,
    i: int,
    room1: Room<S>,
    mpair: (String, S),
    token: Seq<char>,
    fresh: Seq<char>,
)
    requires
        distinct_keys(rooms0),
        rooms_wf(rooms0),
        0 <= i < rooms0.len(),
        rooms0[i].0@ == token,
        spec_find(rooms0, token) == Some(rooms0[i].1),
        spec_find(rooms0[i].1.members@, mpair.0@) is None,
        room1.session_id == rooms0[i].1.session_id,
        room1.members@ == rooms0[i].1.members@.push(mpair),
        rooms1 == rooms0.remove(i).push((rooms0[i].0, room1)),
    ensures
        distinct_keys(rooms1),
        rooms_wf(rooms1),
        rooms_model(rooms0).contains_key(token),
        rooms0[i].1.session_id@ == join_session(rooms_model(rooms0), token, fresh),
        rooms_model(rooms1) == join_model(rooms_model(rooms0), token, mpair.0@, fresh),
        spec_find_sink(rooms1, token, mpair.0@) == Some(mpair.1),
        forall|t: Seq<char>, c: Seq<char>|
            !(t == token && c == mpair.0@) ==> #[trigger] spec_find_sink(rooms1, t, c)
                == spec_find_sink(rooms0, t, c),
{
    let cid = mpair.0@;
    let room0 = rooms0[i].1;
    rooms0.remove_ensures(i);

    assert forall|t: Seq<char>| #[trigger] spec_find(rooms1, t) == (if t == token {
        Some(room1)
    } else {
        spec_find(rooms0, t)
    }) by {
        lemma_find_push(rooms0.remove(i), (rooms0[i].0, room1), t);
        if t != token {
            lemma_find_remove(rooms0, i, t);
        }
    }

    assert forall|c: Seq<char>| #[trigger] spec_find(room1.members@, c) == (if c == cid {
        Some(mpair.1)
    } else {
        spec_find(room0.members@, c)
    }) by {
        lemma_find_push(room0.members@, mpair, c);
    }

    lemma_distinct_remove(rooms0, i);
    assert forall|a: int, b: int| 0 <= a < b < rooms1.len() implies (#[trigger] rooms1[a]).0@
        != (#[trigger] rooms1[b]).0@ by {
        if b == rooms1.len() - 1 {
            let a0: int = if a < i { a } else { a + 1 };
            assert(rooms1[a] == rooms0[a0]);
            assert(rooms1[b].0@ == token);
        } else {
            assert(rooms1[a] == rooms0.remove(i)[a]);
            assert(rooms1[b] == rooms0.remove(i)[b]);
        }
    }

    assert(room0.wf());
    lemma_find_none_all(room0.members@, cid);
    assert(distinct_keys(room1.members@)) by {
        assert forall|a: int, b: int| 0 <= a < b < room1.members@.len() implies (
        #[trigger] room1.members@[a]).0@ != (#[trigger] room1.members@[b]).0@ by {
            if b == room1.members@.len() - 1 {
                assert(room1.members@[a] == room0.members@[a]);
                assert(room1.members@[b] == mpair);
            } else {
                assert(room1.members@[a] == room0.members@[a]);
                assert(room1.members@[b] == room0.members@[b]);
            }
        }
    }
    assert(room1.wf());
    assert forall|k: int| 0 <= k < rooms1.len() implies (#[trigger] rooms1[k]).1.wf() by {
        if k == rooms1.len() - 1 {
            assert(rooms1[k].1 == room1);
        } else {
            let k0: int = if k < i { k } else { k + 1 };
            assert(rooms1[k] == rooms0[k0]);
        }
    }

    assert(rooms_model(rooms0).contains_key(token));
    assert(rooms_model(rooms0)[token] == room0.model());

    assert(room1.model().members =~= room0.model().members.insert(cid)) by {
        assert_sets_equal!(room1.model().members == room0.model().members.insert(cid), c => {
            assert(spec_find(room1.members@, c) == (if c == cid {
                Some(mpair.1)
            } else {
                spec_find(room0.members@, c)
            }));
        });
    }

    assert(rooms_model(rooms1) =~= join_model(rooms_model(rooms0), token, cid, fresh)) by {
        assert_maps_equal!(rooms_model(rooms1), join_model(rooms_model(rooms0), token, cid, fresh), t => {
            if t == token {
                assert(spec_find(rooms1, t) == Some(room1));
                assert(room1.model() == (RoomModel {
                    session_id: room0.session_id@,
                    members: room0.model().members.insert(cid),
                }));
            } else {
                assert(spec_find(rooms1, t) == spec_find(rooms0, t));
            }
        });
    }

    assert forall|t: Seq<char>, c: Seq<char>| !(t == token && c == cid) implies #[trigger] spec_find_sink(rooms1, t, c) == spec_find_sink(rooms0, t, c) by {
        if t == token {
            assert(spec_find(room1.members@, c) == spec_find(room0.members@, c));
        }
    }
}

/// Facts established by a join that creates a room: the new room holds the
/// single new member and the fresh session identifier; nothing else changes.
proof fn lemma_join_fresh<S>(
    rooms0: Seq<(String, Room<S>)>,
    rooms1: Seq<(String, Room<S>)>,
    room1: Room<S>,
    p: (String, Room<S>),
    mpair: (String, S),
    token: Seq<char>,
)
    requires
        distinct_keys(rooms0),
        rooms_wf(rooms0),
        spec_find(rooms0, token) is None,
        p.0@ == token,
        p.1 == room1,
        room1.members@ == Seq::<(String, S)>::empty().push(mpair),
        rooms1 == rooms0.push(p),
    ensures
        distinct_keys(rooms1),
        rooms_wf(rooms1),
        !rooms_model(rooms0).contains_key(token),
        rooms_model(rooms1) == join_model(rooms_model(rooms0), token, mpair.0@, room1.session_id@),
        room1.session_id@ == join_session(rooms_model(rooms0), token, room1.session_id@),
        spec_find_sink(rooms1, token, mpair.0@) == Some(mpair.1),
        forall|t: Seq<char>, c: Seq<char>|
            !(t == token && c == mpair.0@) ==> #[trigger] spec_find_sink(rooms1, t, c)
                == spec_find_sink(rooms0, t, c),
{
    let cid = mpair.0@;

    assert forall|t: Seq<char>| #[trigger] spec_find(rooms1, t) == (if t == token {
        Some(room1)
    } else {
        spec_find(rooms0, t)
    }) by {
        lemma_find_push(rooms0, p, t);
    }

    assert forall|c: Seq<char>| #[trigger] spec_find(room1.members@, c) == (if c == cid {
        Some(mpair.1)
    } else {
        None::<S>
    }) by {
        assert(room1.members@.last() == mpair);
        assert(room1.members@.drop_last() =~= Seq::<(String, S)>::empty());
        assert(spec_find(Seq::<(String, S)>::empty(), c) == None::<S>);
    }

    lemma_find_none_all(rooms0, token);
    assert forall|a: int, b: int| 0 <= a < b < rooms1.len() implies (#[trigger] rooms1[a]).0@
        != (#[trigger] rooms1[b]).0@ by {
        assert(rooms1[a] == rooms0[a]);
        if b == rooms1.len() - 1 {
            assert(rooms1[b] == p);
        } else {
            assert(rooms1[b] == rooms0[b]);
        }
    }

    assert(room1.wf());
    assert forall|k: int| 0 <= k < rooms1.len() implies (#[trigger] rooms1[k]).1.wf() by {
        if k < rooms1.len() - 1 {
            assert(rooms1[k] == rooms0[k]);
        } else {
            assert(rooms1[k].1 == room1);
        }
    }

    assert(room1.model().members =~= Set::empty().insert(cid)) by {
        assert_sets_equal!(room1.model().members == Set::empty().insert(cid), c => {
            assert(spec_find(room1.members@, c) == (if c == cid {
                Some(mpair.1)
            } else {
                None::<S>
            }));
        });
    }

    assert(rooms_model(rooms1) =~= join_model(rooms_model(rooms0), token, cid, room1.session_id@))
        by {
        assert_maps_equal!(rooms_model(rooms1), join_model(rooms_model(rooms0), token, cid, room1.session_id@), t => {
            if t == token {
                assert(spec_find(rooms1, t) == Some(room1));
                assert(room1.model() == (RoomModel {
                    session_id: room1.session_id@,
                    members: Set::empty().insert(cid),
                }));
            } else {
                assert(spec_find(rooms1, t) == spec_find(rooms0, t));
            }
        });
    }

    assert forall|t: Seq<char>, c: Seq<char>| !(t == token && c == cid) implies #[trigger] spec_find_sink(rooms1, t, c) == spec_find_sink(rooms0, t, c) by {
        if t == token {
            assert(spec_find(rooms0, token) is None);
            assert(spec_find(room1.members@, c) == None::<S>);
        }
    }
}

/// Facts established by a leave that shrinks a room: the member is gone, the
/// room and its session identifier stay; nothing else changes.
proof fn lemma_leave_shrink<S>(
    rooms0: Seq<(String, Room<S>)>,
    rooms1: Seq<(String, Room<S>)>,
    i: int,
    j: int,
    room1: Room<S>,
    token: Seq<char>,
    cid: Seq<char>,
)
    requires
        distinct_keys(rooms0),
        rooms_wf(rooms0),
        0 <= i < rooms0.len(),
        rooms0[i].0@ == token,
        spec_find(rooms0, token) == Some(rooms0[i].1),
        0 <= j < rooms0[i].1.members@.len(),
        rooms0[i].1.members@[j].0@ == cid,
        spec_find(rooms0[i].1.members@, cid) is Some,
        room1.session_id == rooms0[i].1.session_id,
        room1.members@ == rooms0[i].1.members@.remove(j),
        room1.members@.len() > 0,
        rooms1 == rooms0.remove(i).push((rooms0[i].0, room1)),
    ensures
        distinct_keys(rooms1),
        rooms_wf(rooms1),
        rooms_model(rooms1) == leave_model(rooms_model(rooms0), token, cid),
        spec_find_sink(rooms1, token, cid) is None,
        forall|t: Seq<char>, c: Seq<char>|
            !(t == token && c == cid) ==> #[trigger] spec_find_sink(rooms1, t, c)
                == spec_find_sink(rooms0, t, c),
{
    let room0 = rooms0[i].1;
    let members0 = room0.members@;
    rooms0.remove_ensures(i);
    members0.remove_ensures(j);
    assert(room0.wf());

    assert forall|t: Seq<char>| #[trigger] spec_find(rooms1, t) == (if t == token {
        Some(room1)
    } else {
        spec_find(rooms0, t)
    }) by {
        lemma_find_push(rooms0.remove(i), (rooms0[i].0, room1), t);
        if t != token {
            lemma_find_remove(rooms0, i, t);
        }
    }

    lemma_distinct_remove(members0, j);
    assert(distinct_keys(room1.members@));
    assert forall|k: int| 0 <= k < room1.members@.len() implies (#[trigger] room1.members@[k]).0@
        != cid by {
        let k0: int = if k < j { k } else { k + 1 };
        assert(room1.members@[k] == members0[k0]);
    }
    lemma_find_absent(room1.members@, cid);

    assert forall|c: Seq<char>| c != cid implies #[trigger] spec_find(room1.members@, c)
        == spec_find(members0, c) by {
        lemma_find_remove(members0, j, c);
    }

    lemma_distinct_remove(rooms0, i);
    assert forall|a: int, b: int| 0 <= a < b < rooms1.len() implies (#[trigger] rooms1[a]).0@
        != (#[trigger] rooms1[b]).0@ by {
        if b == rooms1.len() - 1 {
            let a0: int = if a < i { a } else { a + 1 };
            assert(rooms1[a] == rooms0[a0]);
            assert(rooms1[b].0@ == token);
        } else {
            assert(rooms1[a] == rooms0.remove(i)[a]);
            assert(rooms1[b] == rooms0.remove(i)[b]);
        }
    }

    assert(room1.wf());
    assert forall|k: int| 0 <= k < rooms1.len() implies (#[trigger] rooms1[k]).1.wf() by {
        if k == rooms1.len() - 1 {
            assert(rooms1[k].1 == room1);
        } else {
            let k0: int = if k < i { k } else { k + 1 };
            assert(rooms1[k] == rooms0[k0]);
        }
    }

    let m0 = rooms_model(rooms0);
    assert(m0.contains_key(token));
    assert(m0[token] == room0.model());
    assert(m0[token].members.contains(cid));

    // The room was not a singleton: some other member remains.
    let w = room1.members@[0].0@;
    let w0: int = if 0 < j { 0 } else { 1 };
    assert(room1.members@[0] == members0[w0]);
    lemma_find_at_index(members0, w0);
    assert(m0[token].members.contains(w));
    assert(w != cid);
    assert(!Set::<Seq<char>>::empty().insert(cid).contains(w));
    assert(m0[token].members != Set::<Seq<char>>::empty().insert(cid));

    assert(room1.model().members =~= m0[token].members.remove(cid)) by {
        assert_sets_equal!(room1.model().members == m0[token].members.remove(cid), c => {
            if c != cid {
                assert(spec_find(room1.members@, c) == spec_find(members0, c));
            } else {
                assert(spec_find(room1.members@, c) is None);
            }
        });
    }

    assert(rooms_model(rooms1) =~= leave_model(m0, token, cid)) by {
        assert_maps_equal!(rooms_model(rooms1), leave_model(m0, token, cid), t => {
            if t == token {
                assert(spec_find(rooms1, t) == Some(room1));
                assert(room1.model() == (RoomModel {
                    session_id: m0[token].session_id,
                    members: m0[token].members.remove(cid),
                }));
            } else {
                assert(spec_find(rooms1, t) == spec_find(rooms0, t));
            }
        });
    }

    assert forall|t: Seq<char>, c: Seq<char>| !(t == token && c == cid) implies #[trigger] spec_find_sink(rooms1, t, c) == spec_find_sink(rooms0, t, c) by {
        if t == token {
            assert(spec_find(room1.members@, c) == spec_find(members0, c));
        }
    }
}

/// Facts established by a leave that empties a room: the room is gone from
/// the registry; nothing else changes.
proof fn lemma_leave_empty<S>(
    rooms0: Seq<(String, Room<S>)>,
    rooms1: Seq<(String, Room<S>)>,
    i: int,
    token: Seq<char>,
    cid: Seq<char>,
)
    requires
        distinct_keys(rooms0),
        rooms_wf(rooms0),
        0 <= i < rooms0.len(),
        rooms0[i].0@ == token,
        spec_find(rooms0, token) == Some(rooms0[i].1),
        rooms0[i].1.members@.len() == 1,
        rooms0[i].1.members@[0].0@ == cid,
        rooms1 == rooms0.remove(i),
    ensures
        distinct_keys(rooms1),
        rooms_wf(rooms1),
        rooms_model(rooms1) == leave_model(rooms_model(rooms0), token, cid),
        spec_find_sink(rooms1, token, cid) is None,
        forall|t: Seq<char>, c: Seq<char>|
            !(t == token && c == cid) ==> #[trigger] spec_find_sink(rooms1, t, c)
                == spec_find_sink(rooms0, t, c),
{
    let room0 = rooms0[i].1;
    let members0 = room0.members@;
    rooms0.remove_ensures(i);

    lemma_distinct_remove(rooms0, i);
    assert forall|k: int| 0 <= k < rooms1.len() implies (#[trigger] rooms1[k]).0@ != token by {
        let k0: int = if k < i { k } else { k + 1 };
        assert(rooms1[k] == rooms0[k0]);
    }
    lemma_find_absent(rooms1, token);

    assert forall|t: Seq<char>| t != token implies #[trigger] spec_find(rooms1, t) == spec_find(
        rooms0,
        t,
    ) by {
        lemma_find_remove(rooms0, i, t);
    }

    assert forall|k: int| 0 <= k < rooms1.len() implies (#[trigger] rooms1[k]).1.wf() by {
        let k0: int = if k < i { k } else { k + 1 };
        assert(rooms1[k] == rooms0[k0]);
    }

    assert forall|c: Seq<char>| #[trigger] spec_find(members0, c) == (if c == cid {
        Some(members0[0].1)
    } else {
        None::<S>
    }) by {
        assert(members0.last() == members0[0]);
        assert(members0.drop_last() =~= Seq::<(String, S)>::empty());
        assert(spec_find(Seq::<(String, S)>::empty(), c) == None::<S>);
    }

    let m0 = rooms_model(rooms0);
    assert(m0.contains_key(token));
    assert(m0[token] == room0.model());
    assert(m0[token].members.contains(cid));
    assert(m0[token].members =~= Set::<Seq<char>>::empty().insert(cid)) by {
        assert_sets_equal!(m0[token].members == Set::<Seq<char>>::empty().insert(cid), c => {
            assert(spec_find(members0, c) == (if c == cid {
                Some(members0[0].1)
            } else {
                None::<S>
            }));
        });
    }

    assert(rooms_model(rooms1) =~= leave_model(m0, token, cid)) by {
        assert_maps_equal!(rooms_model(rooms1), leave_model(m0, token, cid), t => {
            if t == token {
                assert(spec_find(rooms1, t) is None);
            } else {
                assert(spec_find(rooms1, t) == spec_find(rooms0, t));
            }
        });
    }

    assert forall|t: Seq<char>, c: Seq<char>| !(t == token && c == cid) implies #[trigger] spec_find_sink(rooms1, t, c) == spec_find_sink(rooms0, t, c) by {
        if t == token {
            assert(spec_find(rooms1, t) is None);
            assert(spec_find(members0, c) == None::<S>);
        }
    }
}

/// The identifiers of the members of a member sequence other than the
/// origin, in member order.
pub open spec fn spec_others<S>(ms: Seq<(String, S)>, origin: Seq<char>) -> Seq<Seq<char>>
    decreases ms.len(),
{
    if ms.len() == 0 {
        Seq::empty()
    } else {
        let rest = spec_others(ms.drop_last(), origin);
        if ms.last().0@ == origin {
            rest
        } else {
            rest.push(ms.last().0@)
        }
    }
}

/// Finds the last entry for a key in an association vector.
fn find_index<T>(v: &Vec<(String, T)>, key: &String) -> (r: Option<usize>)
    ensures
        match r {
            Some(i) => {
                &&& i < v@.len()
                &&& v@[i as int].0@ == key@
                &&& spec_find(v@, key@) == Some(v@[i as int].1)
            },
            None => spec_find(v@, key@) is None,
        },
{
    let mut i: usize = v.len();
    proof {
        assert(v@.take(v@.len() as int) =~= v@);
    }
    while i > 0
        invariant
            i <= v@.len(),
            spec_find(v@, key@) == spec_find(v@.take(i as int), key@),
        decreases i,
    {
        let j = i - 1;
        proof {
            assert(v@.take(j as int + 1).last() == v@[j as int]);
            assert(v@.take(j as int + 1).drop_last() =~= v@.take(j as int));
        }
        if v[j].0 == *key {
            return Some(j);
        }
        i = j;
    }
    proof {
        assert(v@.take(0) =~= Seq::<(String, T)>::empty());
    }
    None
}

impl<S> RoomRegistry<S> {
    /// An empty registry: no rooms at all.
    pub fn new() -> (r: Self)
        ensures
            r.wf(),
            r.rooms@.len() == 0,
            r.model() == Map::<Seq<char>, RoomModel>::empty(),
    {
        let r = RoomRegistry { rooms: Vec::new() };
        proof {
            assert(r.model() =~= Map::<Seq<char>, RoomModel>::empty());
        }
        r
    }

    /// Whether a client is currently a member of the room for a token.
    pub fn is_member(&self, token: &String, client_id: &String) -> (r: bool)
        ensures
            r == (self.spec_sink(token@, client_id@) is Some),
    {
        match find_index(&self.rooms, token) {
            None => false,
            Some(i) => {
                let room = &self.rooms[i].1;
                match find_index(&room.members, client_id) {
                    None => false,
                    Some(_) => true,
                }
            },
        }
    }

    /// How many members the room for a token currently has; zero when the
    /// room does not exist.
    pub fn member_count(&self, token: &String) -> (n: usize)
        ensures
            n == self.spec_member_count(token@),
    {
        match find_index(&self.rooms, token) {
            None => 0,
            Some(i) => self.rooms[i].1.members.len(),
        }
    }

    /// The session identifier of the room for a token, if the room exists.
    pub fn session_of(&self, token: &String) -> (r: Option<String>)
        ensures
            match r {
                Some(sid) => self.spec_room(token@) is Some && sid@ == self.spec_room(
                    token@,
                ).unwrap().session_id@,
                None => self.spec_room(token@) is None,
            },
    {
        match find_index(&self.rooms, token) {
            None => None,
            Some(i) => Some(self.rooms[i].1.session_id.clone()),
        }
    }

    /// The sink handle of a member, for enqueueing a delivery to it.
    pub fn sink_of(&self, token: &String, client_id: &String) -> (r: Option<&S>)
        ensures
            match r {
                Some(sk) => self.spec_sink(token@, client_id@) == Some(*sk),
                None => self.spec_sink(token@, client_id@) is None,
            },
    {
        match find_index(&self.rooms, token) {
            None => None,
            Some(i) => {
                let room = &self.rooms[i].1;
                match find_index(&room.members, client_id) {
                    None => None,
                    Some(j) => Some(&room.members[j].1),
                }
            },
        }
    }

    /// The identifiers of the members of the room for a token other than the
    /// origin — the recipients of a forwarded frame — in member order.
    /// Empty when the room does not exist.
    pub fn other_member_ids(&self, token: &String, origin: &String) -> (out: Vec<String>)
        ensures
            out@.map_values(|s: String| s@) == (match self.spec_room(token@) {
                None => Seq::<Seq<char>>::empty(),
                Some(r) => spec_others(r.members@, origin@),
            }),
    {
        let mut out: Vec<String> = Vec::new();
        match find_index(&self.rooms, token) {
            None => {
                proof {
                    assert(out@.map_values(|s: String| s@) =~= Seq::<Seq<char>>::empty());
                }
                out
            },
            Some(i) => {
                let room = &self.rooms[i].1;
                let n = room.members.len();
                let mut k: usize = 0;
                proof {
                    assert(room.members@.take(0) =~= Seq::<(String, S)>::empty());
                    assert(out@.map_values(|s: String| s@) =~= Seq::<Seq<char>>::empty());
                }
                while k < n
                    invariant
                        k <= n,
                        n == room.members@.len(),
                        out@.map_values(|s: String| s@) == spec_others(
                            room.members@.take(k as int),
                            origin@,
                        ),
                    decreases n - k,
                {
                    let ghost prev = out@.map_values(|s: String| s@);
                    proof {
                        assert(room.members@.take(k as int + 1).last() == room.members@[k as int]);
                        assert(room.members@.take(k as int + 1).drop_last() =~= room.members@.take(
                            k as int,
                        ));
                    }
                    let member = &room.members[k];
                    if !(member.0 == *origin) {
                        out.push(member.0.clone());
                        proof {
                            assert(out@.map_values(|s: String| s@) =~= prev.push(
                                room.members@[k as int].0@,
                            ));
                        }
                    }
                    k = k + 1;
                }
                proof {
                    assert(room.members@.take(n as int) =~= room.members@);
                }
                out
            },
        }
    }

    /// Adds a client with its sink handle to the room for a token, creating
    /// the room — with the supplied fresh session identifier — when no such
    /// room exists.  Returns the session identifier of the room joined.
    ///
    /// Every connection generates a client identifier of its own; joining an
    /// identifier that is already a member of the room is not a supported
    /// input.
    pub fn join(
        &mut self,
        token: &String,
        client_id: String,
        sink: S,
        fresh_session: String,
    ) -> (sid: String)
        requires
            old(self).wf(),
            old(self).spec_sink(token@, client_id@) is None,
        ensures
            final(self).wf(),
            sid@ == join_session(old(self).model(), token@, fresh_session@),
            final(self).model() == join_model(
                old(self).model(),
                token@,
                client_id@,
                fresh_session@,
            ),
            final(self).spec_sink(token@, client_id@) == Some(sink),
            forall|t: Seq<char>, c: Seq<char>|
                !(t == token@ && c == client_id@) ==> final(self).spec_sink(t, c) == old(
                    self,
                ).spec_sink(t, c),
    {
        let ghost rooms0 = self.rooms@;
        match find_index(&self.rooms, token) {
            Some(i) => {
                let ghost mpair = (client_id, sink);
                let (tok, mut room) = self.rooms.remove(i);
                let sid = room.session_id.clone();
                room.members.push((client_id, sink));
                let ghost room1 = room;
                self.rooms.push((tok, room));
                proof {
                    lemma_join_existing(
                        rooms0,
                        self.rooms@,
                        i as int,
                        room1,
                        mpair,
                        token@,
                        fresh_session@,
                    );
                }
                sid
            },
            None => {
                let ghost mpair = (client_id, sink);
                let sid = fresh_session.clone();
                let mut members: Vec<(String, S)> = Vec::new();
                members.push((client_id, sink));
                let room = Room { session_id: fresh_session, members };
                let ghost room1 = room;
                let tok = token.clone();
                let ghost p = (tok, room);
                self.rooms.push((tok, room));
                proof {
                    assert(room1.members@ =~= Seq::<(String, S)>::empty().push(mpair));
                    lemma_join_fresh(rooms0, self.rooms@, room1, p, mpair, token@);
                }
                sid
            },
        }
    }

    /// Removes a client from the room for a token, and removes the room
    /// itself when that client was its last member.  Removing an absent
    /// client, or a client of an absent room, changes nothing: cleanup may
    /// run more than once for the same pair.
    pub fn leave(&mut self, token: &String, client_id: &String)
        requires
            old(self).wf(),
        ensures
            final(self).wf(),
            final(self).model() == leave_model(old(self).model(), token@, client_id@),
            final(self).spec_sink(token@, client_id@) is None,
            old(self).spec_sink(token@, client_id@) is None ==> *final(self) == *old(self),
            forall|t: Seq<char>, c: Seq<char>|
                !(t == token@ && c == client_id@) ==> final(self).spec_sink(t, c) == old(
                    self,
                ).spec_sink(t, c),
    {
        let ghost rooms0 = self.rooms@;
        match find_index(&self.rooms, token) {
            None => {
                proof {
                    assert(!old(self).model().contains_key(token@));
                }
            },
            Some(i) => {
                let midx = find_index(&self.rooms[i].1.members, client_id);
                match midx {
                    None => {
                        proof {
                            assert(old(self).model().contains_key(token@));
                            assert(old(self).model()[token@] == rooms0[i as int].1.model());
                            assert(!old(self).model()[token@].members.contains(client_id@));
                        }
                    },
                    Some(j) => {
                        let (tok, mut room) = self.rooms.remove(i);
                        let _ = room.members.remove(j);
                        let ghost room1 = room;
                        if room.members.len() > 0 {
                            self.rooms.push((tok, room));
                            proof {
                                lemma_leave_shrink(
                                    rooms0,
                                    self.rooms@,
                                    i as int,
                                    j as int,
                                    room1,
                                    token@,
                                    client_id@,
                                );
                            }
                        } else {
                            proof {
                                assert(rooms0[i as int].1.members@.len() == 1);
                                lemma_leave_empty(
                                    rooms0,
                                    self.rooms@,
                                    i as int,
                                    token@,
                                    client_id@,
                                );
                            }
                        }
                    },
                }
            },
        }
    }
}

} // verus!
