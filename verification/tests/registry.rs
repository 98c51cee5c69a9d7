use token_relay::registry::RoomRegistry;

fn s(x: &str) -> String {
    x.to_string()
}

#[test]
fn join_creates_room_with_fresh_session() {
    let mut reg: RoomRegistry<u32> = RoomRegistry::new();
    let sid = reg.join(&s("abc"), s("A"), 1, s("S1"));
    assert_eq!(sid, "S1");
    assert_eq!(reg.member_count(&s("abc")), 1);
    assert!(reg.is_member(&s("abc"), &s("A")));
}

#[test]
fn second_join_shares_session() {
    let mut reg: RoomRegistry<u32> = RoomRegistry::new();
    let s1 = reg.join(&s("abc"), s("A"), 1, s("S1"));
    let s2 = reg.join(&s("abc"), s("B"), 2, s("S2"));
    assert_eq!(s1, "S1");
    assert_eq!(s2, "S1");
    assert_eq!(reg.member_count(&s("abc")), 2);
}

#[test]
fn distinct_tokens_distinct_sessions() {
    let mut reg: RoomRegistry<u32> = RoomRegistry::new();
    let s1 = reg.join(&s("abc"), s("A"), 1, s("S1"));
    let s2 = reg.join(&s("xyz"), s("B"), 2, s("S2"));
    assert_eq!(s1, "S1");
    assert_eq!(s2, "S2");
    assert_eq!(reg.member_count(&s("abc")), 1);
    assert_eq!(reg.member_count(&s("xyz")), 1);
}

#[test]
fn empty_room_is_reclaimed() {
    let mut reg: RoomRegistry<u32> = RoomRegistry::new();
    let s1 = reg.join(&s("abc"), s("A"), 1, s("S1"));
    assert_eq!(s1, "S1");
    reg.leave(&s("abc"), &s("A"));
    assert_eq!(reg.member_count(&s("abc")), 0);
    assert_eq!(reg.session_of(&s("abc")), None);
    let s2 = reg.join(&s("abc"), s("B"), 2, s("S2"));
    assert_eq!(s2, "S2");
}

#[test]
fn leave_keeps_remaining_members() {
    let mut reg: RoomRegistry<u32> = RoomRegistry::new();
    reg.join(&s("abc"), s("A"), 1, s("S1"));
    reg.join(&s("abc"), s("B"), 2, s("S2"));
    reg.leave(&s("abc"), &s("A"));
    assert_eq!(reg.member_count(&s("abc")), 1);
    assert!(!reg.is_member(&s("abc"), &s("A")));
    assert!(reg.is_member(&s("abc"), &s("B")));
    assert_eq!(reg.session_of(&s("abc")), Some(s("S1")));
}

#[test]
fn leave_twice_is_idempotent() {
    let mut reg: RoomRegistry<u32> = RoomRegistry::new();
    reg.join(&s("abc"), s("A"), 1, s("S1"));
    reg.join(&s("abc"), s("B"), 2, s("S2"));
    reg.leave(&s("abc"), &s("A"));
    reg.leave(&s("abc"), &s("A"));
    assert_eq!(reg.member_count(&s("abc")), 1);
    assert!(reg.is_member(&s("abc"), &s("B")));
    assert_eq!(reg.session_of(&s("abc")), Some(s("S1")));
}

#[test]
fn leave_of_absent_room_is_a_noop() {
    let mut reg: RoomRegistry<u32> = RoomRegistry::new();
    reg.join(&s("abc"), s("A"), 1, s("S1"));
    reg.leave(&s(""), &s(""));
    reg.leave(&s("other"), &s("A"));
    assert_eq!(reg.member_count(&s("abc")), 1);
    assert!(reg.is_member(&s("abc"), &s("A")));
}

#[test]
fn other_member_ids_excludes_origin() {
    let mut reg: RoomRegistry<u32> = RoomRegistry::new();
    reg.join(&s("abc"), s("A"), 1, s("S1"));
    reg.join(&s("abc"), s("B"), 2, s("S2"));
    reg.join(&s("abc"), s("C"), 3, s("S3"));
    let others = reg.other_member_ids(&s("abc"), &s("B"));
    assert_eq!(others, vec![s("A"), s("C")]);
    let nobody = reg.other_member_ids(&s("missing"), &s("B"));
    assert!(nobody.is_empty());
}
