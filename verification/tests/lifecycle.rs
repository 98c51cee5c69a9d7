use token_relay::conn::ConnState;
use token_relay::conn::InitStep;
use token_relay::conn::complete_init;
use token_relay::conn::examine_first_frame;
use token_relay::registry::RoomRegistry;
use token_relay::wire::check_device_frame;
use token_relay::wire::heartbeat_frame;
use token_relay::wire::init_response_frame;

fn s(x: &str) -> String {
    x.to_string()
}

#[test]
fn first_frame_with_valid_init_yields_token() {
    match examine_first_frame(&s("{\"cmd\":\"init\",\"token\":\"abc\"}")) {
        InitStep::Validate { token } => assert_eq!(token, "abc"),
        InitStep::Reject => panic!("valid init was rejected"),
    }
}

#[test]
fn first_frame_rejections() {
    assert!(matches!(examine_first_frame(&s("not json")), InitStep::Reject));
    assert!(matches!(
        examine_first_frame(&s("{\"cmd\":\"execute\",\"token\":\"abc\"}")),
        InitStep::Reject
    ));
    assert!(matches!(examine_first_frame(&s("{\"cmd\":\"init\"}")), InitStep::Reject));
    assert!(matches!(examine_first_frame(&s("{\"token\":\"abc\"}")), InitStep::Reject));
    assert!(matches!(examine_first_frame(&s("{\"cmd\":\"init\",\"token\":3}")), InitStep::Reject));
}

#[test]
fn state_machine_transitions() {
    let st = ConnState::start();
    assert!(matches!(st, ConnState::AwaitingInit));
    let joined = st.after_validation(true, s("abc"), s("A"));
    match &joined {
        ConnState::Joined { token, client_id } => {
            assert_eq!(token, "abc");
            assert_eq!(client_id, "A");
        },
        _ => panic!("validated init should join"),
    }
    let closed = ConnState::start().after_validation(false, s("abc"), s("A"));
    assert!(matches!(closed, ConnState::Closed));
    assert!(matches!(joined.close(), ConnState::Closed));
    assert!(matches!(ConnState::Closed.close(), ConnState::Closed));
}

#[test]
fn complete_init_shares_the_session() {
    let mut reg: RoomRegistry<u32> = RoomRegistry::new();
    let (cid_a, sid_a) = complete_init(&mut reg, &s("abc"), 1);
    let (cid_b, sid_b) = complete_init(&mut reg, &s("abc"), 2);
    assert_ne!(cid_a, cid_b);
    assert_eq!(sid_a, sid_b);
    assert_eq!(reg.member_count(&s("abc")), 2);
    assert!(reg.is_member(&s("abc"), &cid_a));
    assert!(reg.is_member(&s("abc"), &cid_b));
}

#[test]
fn generated_identifiers_are_rendered_uuids() {
    let mut reg: RoomRegistry<u32> = RoomRegistry::new();
    let (cid, sid) = complete_init(&mut reg, &s("abc"), 1);
    assert_eq!(cid.len(), 36);
    assert_eq!(sid.len(), 36);
    assert_ne!(cid, sid);
    assert_eq!(cid.chars().filter(|c| *c == '-').count(), 4);
    assert_eq!(sid.chars().filter(|c| *c == '-').count(), 4);
}

#[test]
fn response_frames_are_exact() {
    assert_eq!(heartbeat_frame(), "{\"cmd\":\"Heartbeat\",\"code\":\"1\"}");
    assert_eq!(check_device_frame(true), "{\"cmd\":\"checkDevice\",\"code\":\"1\"}");
    assert_eq!(check_device_frame(false), "{\"cmd\":\"checkDevice\",\"code\":\"0\"}");
    assert_eq!(
        init_response_frame(&s("S1")),
        "{\"cmd\":\"init\",\"code\":\"1\",\"session_id\":\"S1\"}"
    );
}
