use token_relay::registry::RoomRegistry;
use token_relay::router::handle_frame;

fn s(x: &str) -> String {
    x.to_string()
}

fn two_member_room() -> RoomRegistry<u32> {
    let mut reg: RoomRegistry<u32> = RoomRegistry::new();
    reg.join(&s("abc"), s("A"), 1, s("S1"));
    reg.join(&s("abc"), s("B"), 2, s("S2"));
    reg
}

#[test]
fn execute_is_forwarded_verbatim_to_others() {
    let reg = two_member_room();
    let raw = s("{\"cmd\":\"execute\",\"foo\":1}");
    let out = handle_frame(&reg, &raw, &s("abc"), &s("A"));
    assert_eq!(out, vec![(s("B"), raw.clone())]);
}

#[test]
fn unknown_command_is_forwarded_to_others() {
    let reg = two_member_room();
    let raw = s("{\"cmd\":\"whatever\",\"x\":[1,2]}");
    let out = handle_frame(&reg, &raw, &s("abc"), &s("B"));
    assert_eq!(out, vec![(s("A"), raw.clone())]);
}

#[test]
fn forwarding_reaches_every_other_member() {
    let mut reg = two_member_room();
    reg.join(&s("abc"), s("C"), 3, s("S3"));
    let raw = s("{\"cmd\":\"execute\"}");
    let out = handle_frame(&reg, &raw, &s("abc"), &s("B"));
    assert_eq!(out, vec![(s("A"), raw.clone()), (s("C"), raw.clone())]);
}

#[test]
fn execute_result_without_data_is_dropped() {
    let reg = two_member_room();
    let raw = s("{\"cmd\":\"execute_result\",\"status\":\"ok\"}");
    let out = handle_frame(&reg, &raw, &s("abc"), &s("A"));
    assert!(out.is_empty());
}

#[test]
fn execute_result_with_data_is_forwarded() {
    let reg = two_member_room();
    let raw = s("{\"cmd\":\"execute_result\",\"data\":{\"v\":7}}");
    let out = handle_frame(&reg, &raw, &s("abc"), &s("A"));
    assert_eq!(out, vec![(s("B"), raw.clone())]);
}

#[test]
fn heartbeat_is_answered_to_sender_only() {
    let reg = two_member_room();
    let out = handle_frame(&reg, &s("{\"cmd\":\"Heartbeat\"}"), &s("abc"), &s("A"));
    assert_eq!(out, vec![(s("A"), s("{\"cmd\":\"Heartbeat\",\"code\":\"1\"}"))]);
}

#[test]
fn check_device_reports_companions() {
    let mut reg = two_member_room();
    let out = handle_frame(&reg, &s("{\"cmd\":\"checkDevice\"}"), &s("abc"), &s("B"));
    assert_eq!(out, vec![(s("B"), s("{\"cmd\":\"checkDevice\",\"code\":\"1\"}"))]);
    reg.leave(&s("abc"), &s("A"));
    let out = handle_frame(&reg, &s("{\"cmd\":\"checkDevice\"}"), &s("abc"), &s("B"));
    assert_eq!(out, vec![(s("B"), s("{\"cmd\":\"checkDevice\",\"code\":\"0\"}"))]);
}

#[test]
fn malformed_frame_is_dropped() {
    let reg = two_member_room();
    let out = handle_frame(&reg, &s("this is not json"), &s("abc"), &s("A"));
    assert!(out.is_empty());
    let out = handle_frame(&reg, &s("{\"no_cmd\":true}"), &s("abc"), &s("A"));
    assert!(out.is_empty());
    let out = handle_frame(&reg, &s("{\"cmd\":7}"), &s("abc"), &s("A"));
    assert!(out.is_empty());
}

#[test]
fn sender_outside_any_room_reaches_nobody() {
    let reg = two_member_room();
    let out = handle_frame(&reg, &s("{\"cmd\":\"execute\"}"), &s("missing"), &s("A"));
    assert!(out.is_empty());
    let out = handle_frame(&reg, &s("{\"cmd\":\"Heartbeat\"}"), &s("abc"), &s("Z"));
    assert!(out.is_empty());
}

#[test]
fn paired_session_scenario() {
    let mut reg: RoomRegistry<u32> = RoomRegistry::new();
    let tok = s("abc");
    let s1 = reg.join(&tok, s("A"), 1, s("S1"));
    assert_eq!(s1, "S1");
    let s2 = reg.join(&tok, s("B"), 2, s("S2"));
    assert_eq!(s2, "S1");
    let raw = s("{\"cmd\":\"execute\",\"foo\":1}");
    let out = handle_frame(&reg, &raw, &tok, &s("A"));
    assert_eq!(out, vec![(s("B"), raw.clone())]);
    let out = handle_frame(&reg, &s("{\"cmd\":\"checkDevice\"}"), &tok, &s("B"));
    assert_eq!(out, vec![(s("B"), s("{\"cmd\":\"checkDevice\",\"code\":\"1\"}"))]);
    reg.leave(&tok, &s("A"));
    let out = handle_frame(&reg, &s("{\"cmd\":\"checkDevice\"}"), &tok, &s("B"));
    assert_eq!(out, vec![(s("B"), s("{\"cmd\":\"checkDevice\",\"code\":\"0\"}"))]);
}
