use picoclaw::codec::{decode_session, encode_session};
use picoclaw::session::{Message, Session, ToolCall};

#[test]
fn test_empty_session_record_text() {
    let session = Session::new("k");
    assert_eq!(encode_session(&session), r#"{"key":"k","messages":[]}"#);
}

#[test]
fn test_round_trip_plain_messages() {
    let mut session = Session::new("chat:1");
    session.add_message(Message::system("You are helpful"));
    session.add_message(Message::user("hello"));
    session.add_message(Message::assistant("hi"));
    let text = encode_session(&session);
    let back = decode_session(&text).unwrap();
    assert_eq!(back, session);
}

#[test]
fn test_round_trip_special_characters() {
    let mut session = Session::new("we\"ird\\key\n");
    session.add_message(Message::user("quote \" backslash \\ newline \n tab \t cr \r end"));
    session.add_message(Message::assistant("unicode: héllo wörld ≈ 42"));
    let text = encode_session(&session);
    let back = decode_session(&text).unwrap();
    assert_eq!(back, session);
}

#[test]
fn test_round_trip_tool_calls() {
    let mut session = Session::new("tools");
    session.add_message(Message::assistant_with_tools(
        "running",
        vec![
            ToolCall::new("call_1", "shell", r#"{"command":"echo \"x\""}"#),
            ToolCall::new("call_2", "search", r#"{"q":"rust"}"#),
        ],
    ));
    session.add_message(Message::tool_result("call_1", "x\n"));
    session.add_message(Message::tool_result("call_2", "Found 100 results"));
    let text = encode_session(&session);
    let back = decode_session(&text).unwrap();
    assert_eq!(back, session);
}

#[test]
fn test_decode_rejects_garbage() {
    assert!(decode_session("").is_err());
    assert!(decode_session("{}").is_err());
    assert!(decode_session(r#"{"key":"k","messages":[]}trailing"#).is_err());
    assert!(decode_session(r#"{"key":"k","messages":[{"role":"emperor","content":"","tool_calls":[],"tool_call_id":null}]}"#).is_err());
}

#[test]
fn test_record_text_shape() {
    let mut session = Session::new("s");
    session.add_message(Message::user("hi"));
    let text = encode_session(&session);
    assert_eq!(
        text,
        r#"{"key":"s","messages":[{"role":"user","content":"hi","tool_calls":[],"tool_call_id":null}]}"#
    );
}
