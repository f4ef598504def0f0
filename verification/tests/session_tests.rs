use picoclaw::session::{Message, Role, Session, ToolCall};
use picoclaw::store::SessionManager;

#[test]
fn test_message_creation() {
    let user_msg = Message::user("Hello");
    assert_eq!(user_msg.role, Role::User);
    assert_eq!(user_msg.content, "Hello");

    let assistant_msg = Message::assistant("Hi there");
    assert_eq!(assistant_msg.role, Role::Assistant);
    assert_eq!(assistant_msg.content, "Hi there");

    let system_msg = Message::system("You are helpful");
    assert_eq!(system_msg.role, Role::System);

    let tool_msg = Message::tool_result("call_1", "Success");
    assert_eq!(tool_msg.role, Role::Tool);
    assert_eq!(tool_msg.tool_call_id, Some("call_1".to_string()));
}

#[test]
fn test_session_with_all_message_types() {
    let mut manager = SessionManager::new_memory();
    let mut session = manager.get_or_create("all-types").unwrap();

    session.add_message(Message::system("You are a helpful assistant"));
    session.add_message(Message::user("Search for rust programming"));
    session.add_message(Message::assistant_with_tools(
        "Let me search for that.",
        vec![ToolCall::new("call_1", "search", r#"{"q": "rust"}"#)],
    ));
    session.add_message(Message::tool_result("call_1", "Found 100 results"));
    session.add_message(Message::assistant("I found 100 results about Rust."));

    manager.save(&session).unwrap();

    let loaded = manager.get_or_create("all-types").unwrap();
    assert_eq!(loaded.messages.len(), 5);
    assert_eq!(loaded.messages[0].role, Role::System);
    assert_eq!(loaded.messages[1].role, Role::User);
    assert_eq!(loaded.messages[2].role, Role::Assistant);
    assert!(loaded.messages[2].has_tool_calls());
    assert_eq!(loaded.messages[3].role, Role::Tool);
    assert!(loaded.messages[3].is_tool_result());
    assert_eq!(loaded.messages[4].role, Role::Assistant);
}

#[test]
fn test_session_new_is_empty() {
    let session = Session::new("fresh");
    assert_eq!(session.key, "fresh");
    assert!(session.is_empty());
    assert_eq!(session.len(), 0);
}

#[test]
fn test_session_clone_reads_equal() {
    let mut session = Session::new("orig");
    session.add_message(Message::user("one"));
    session.add_message(Message::assistant("two"));
    let copy = session.clone();
    assert_eq!(copy, session);
}
