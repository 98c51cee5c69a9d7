//! Wire frames: parsing inbound JSON frames into the fields the relay reads,
//! and the exact texts of the server-built responses.

use vstd::prelude::*;
use vstd::string::*;

verus! {

/// The fields of an inbound frame that the relay reads: the command, the
/// token (consulted during the init handshake), and whether a `data` field
/// is present (the forwarding gate for `execute_result`).
pub struct Frame {
    pub cmd: String,
    pub token: Option<String>,
    pub has_data: bool,
}

/// The abstract value of a frame: command, token, and data-presence.
pub open spec fn frame_model(f: Frame) -> (Seq<char>, Option<Seq<char>>, bool) {
    (
        f.cmd@,
        match f.token {
            Some(t) => Some(t@),
            None => None,
        },
        f.has_data,
    )
}

/// The abstract value of an optional frame.
pub open spec fn opt_frame_model(f: Option<Frame>) -> Option<(Seq<char>, Option<Seq<char>>, bool)> {
    match f {
        Some(fr) => Some(frame_model(fr)),
        None => None,
    }
}

/// What parsing a frame text yields: nothing when the text is not a JSON
/// object with a string `cmd` field; otherwise the command, the string
/// `token` field when one is present, and whether a `data` field is present.
pub uninterp spec fn frame_of(text: Seq<char>) -> Option<(Seq<char>, Option<Seq<char>>, bool)>;

/// Relies on serde_json::from_str and serde_json::Value's get and as_str:
/// whether the text parses as JSON, and what its `cmd`, `token` and `data`
/// fields hold, depend on the text alone.
#[verifier::external_body]
pub(crate) fn parse_frame(text: &str) -> (r: Option<Frame>)
    ensures
        opt_frame_model(r) == frame_of(text@),
{
    let v: serde_json::Value = match serde_json::from_str(text) {
        Ok(v) => v,
        Err(_) => return None,
    };
    let cmd = match v.get("cmd").and_then(serde_json::Value::as_str) {
        Some(c) => c.to_string(),
        None => return None,
    };
    let token = v.get("token").and_then(serde_json::Value::as_str).map(|t: &str| t.to_string());
    let has_data = v.get("data").is_some();
    Some(Frame { cmd, token, has_data })
}

/// The exact text of the keepalive frame, sent periodically on an idle
/// connection and echoed to a client that sends `Heartbeat`.
pub open spec fn heartbeat_text() -> Seq<char> {
    "{\"cmd\":\"Heartbeat\",\"code\":\"1\"}"@
}

/// Builds the heartbeat frame.
pub fn heartbeat_frame() -> (r: String)
    ensures
        r@ == heartbeat_text(),
{
    String::from_str("{\"cmd\":\"Heartbeat\",\"code\":\"1\"}")
}

/// The exact text of the `checkDevice` reply: code `"1"` when more than one
/// member shares the room, code `"0"` otherwise.
pub open spec fn check_device_text(more_than_one: bool) -> Seq<char> {
    if more_than_one {
        "{\"cmd\":\"checkDevice\",\"code\":\"1\"}"@
    } else {
        "{\"cmd\":\"checkDevice\",\"code\":\"0\"}"@
    }
}

/// Builds the `checkDevice` reply.
pub fn check_device_frame(more_than_one: bool) -> (r: String)
    ensures
        r@ == check_device_text(more_than_one),
{
    if more_than_one {
        String::from_str("{\"cmd\":\"checkDevice\",\"code\":\"1\"}")
    } else {
        String::from_str("{\"cmd\":\"checkDevice\",\"code\":\"0\"}")
    }
}

/// The exact text of the init acknowledgment carrying a session identifier.
pub open spec fn init_response_text(session_id: Seq<char>) -> Seq<char> {
    "{\"cmd\":\"init\",\"code\":\"1\",\"session_id\":\""@ + session_id + "\"}"@
}

/// Builds the init acknowledgment for a session identifier.
pub fn init_response_frame(session_id: &String) -> (r: String)
    ensures
        r@ == init_response_text(session_id@),
{
    let mut r = String::from_str("{\"cmd\":\"init\",\"code\":\"1\",\"session_id\":\"");
    r.append(session_id.as_str());
    r.append("\"}");
    r
}

} // verus!
