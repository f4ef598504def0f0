use picoclaw::agent::{AgentRound, ProviderResponse, RoundPhase};
use picoclaw::context::ContextBuilder;
use picoclaw::errors::ToolError;
use picoclaw::session::{Message, Role, Session, ToolCall};
use picoclaw::tools::{unresolved_tool_error, ToolRegistry, ToolSpec};

#[test]
fn test_single_tool_round_transcript() {
    let session = Session::new("chat:1");
    let mut round = AgentRound::start(session, "search for X", 10);
    assert_eq!(round.phase(), RoundPhase::AwaitingProvider);

    round.on_provider_response(ProviderResponse::ToolCalls {
        narration: String::new(),
        calls: vec![ToolCall::new("call_1", "search", r#"{"q":"X"}"#)],
    });
    assert_eq!(round.phase(), RoundPhase::ExecutingTools);
    assert_eq!(round.pending_calls().len(), 1);
    assert_eq!(round.pending_calls()[0].name, "search");

    round.on_tool_results(vec![Ok("Found 100 results".to_string())]);
    assert_eq!(round.phase(), RoundPhase::AwaitingProvider);

    round.on_provider_response(ProviderResponse::Final {
        text: "I found 100 results.".to_string(),
    });
    assert_eq!(round.phase(), RoundPhase::Done);
    assert_eq!(round.reply(), &Some("I found 100 results.".to_string()));

    let session = round.into_session();
    assert_eq!(session.messages.len(), 4);
    assert_eq!(session.messages[0].role, Role::User);
    assert_eq!(session.messages[0].content, "search for X");
    assert_eq!(session.messages[1].role, Role::Assistant);
    assert!(session.messages[1].has_tool_calls());
    assert_eq!(session.messages[2].role, Role::Tool);
    assert_eq!(session.messages[2].tool_call_id, Some("call_1".to_string()));
    assert_eq!(session.messages[2].content, "Found 100 results");
    assert_eq!(session.messages[3].role, Role::Assistant);
    assert_eq!(session.messages[3].content, "I found 100 results.");
}

#[test]
fn test_round_limit_terminates() {
    let session = Session::new("looping");
    let limit: u64 = 2;
    let mut round = AgentRound::start(session, "go", limit);
    let mut provider_turns = 0;
    while round.phase() != RoundPhase::Done {
        round.on_provider_response(ProviderResponse::ToolCalls {
            narration: "working".to_string(),
            calls: vec![ToolCall::new("c", "shell", r#"{"command":"true"}"#)],
        });
        provider_turns += 1;
        if round.phase() == RoundPhase::ExecutingTools {
            round.on_tool_results(vec![Ok("ok".to_string())]);
        }
        assert!(provider_turns <= limit + 1);
    }
    assert_eq!(provider_turns, limit + 1);
    let reply = round.reply().clone().unwrap();
    assert!(reply.contains("limit"));
    let session = round.into_session();
    assert_eq!(session.messages.last().unwrap().content, reply);
}

#[test]
fn test_sequential_inbound_messages_keep_order() {
    let mut session = Session::new("concurrent");
    for i in 0..10 {
        let content = format!("Message {}", i);
        let mut round = AgentRound::start(session, &content, 5);
        round.on_provider_response(ProviderResponse::Final { text: "noted".to_string() });
        assert_eq!(round.phase(), RoundPhase::Done);
        session = round.into_session();
    }
    let user_contents: Vec<&str> = session
        .messages
        .iter()
        .filter(|m| m.role == Role::User)
        .map(|m| m.content.as_str())
        .collect();
    assert_eq!(user_contents.len(), 10);
    for i in 0..10 {
        assert_eq!(user_contents[i], format!("Message {}", i));
    }
}

#[test]
fn test_tool_error_becomes_tool_message() {
    let session = Session::new("errs");
    let mut round = AgentRound::start(session, "run it", 3);
    round.on_provider_response(ProviderResponse::ToolCalls {
        narration: String::new(),
        calls: vec![
            ToolCall::new("a", "missing_tool", "{}"),
            ToolCall::new("b", "shell", r#"{"command":"true"}"#),
        ],
    });
    let err: Result<String, ToolError> = Err(unresolved_tool_error("missing_tool"));
    round.on_tool_results(vec![err, Ok("fine".to_string())]);
    let session = round.session();
    let n = session.messages.len();
    assert_eq!(session.messages[n - 2].role, Role::Tool);
    assert_eq!(session.messages[n - 2].tool_call_id, Some("a".to_string()));
    assert!(session.messages[n - 2].content.contains("Tool not found: missing_tool"));
    assert!(session.messages[n - 2].content.starts_with("Error: "));
    assert_eq!(session.messages[n - 1].tool_call_id, Some("b".to_string()));
    assert_eq!(session.messages[n - 1].content, "fine");
}

#[test]
fn test_empty_tool_calls_treated_as_final() {
    let session = Session::new("empty-calls");
    let mut round = AgentRound::start(session, "hi", 3);
    round.on_provider_response(ProviderResponse::ToolCalls {
        narration: "nothing to run".to_string(),
        calls: Vec::new(),
    });
    assert_eq!(round.phase(), RoundPhase::Done);
    assert_eq!(round.reply(), &Some("nothing to run".to_string()));
}

#[test]
fn test_context_builder_prepends_system_prompt() {
    let mut session = Session::new("ctx");
    session.add_message(Message::user("question"));
    session.add_message(Message::assistant("answer"));

    let plain = ContextBuilder::new().build(&session);
    assert_eq!(plain.len(), 2);
    assert_eq!(plain[0].role, Role::User);

    let with_prompt = ContextBuilder::with_system_prompt("You are helpful").build(&session);
    assert_eq!(with_prompt.len(), 3);
    assert_eq!(with_prompt[0].role, Role::System);
    assert_eq!(with_prompt[0].content, "You are helpful");
    assert_eq!(with_prompt[1].content, "question");
    assert_eq!(with_prompt[2].content, "answer");
}

#[test]
fn test_registry_unique_names() {
    let mut registry = ToolRegistry::new();
    let shell = picoclaw::tools::ShellTool;
    assert!(registry.register(shell.spec_entry()));
    assert!(!registry.register(shell.spec_entry()));
    assert_eq!(registry.len(), 1);
    assert!(registry.contains("shell"));
    assert!(!registry.contains("search"));
    let found = registry.find("shell").unwrap();
    assert_eq!(found.name, "shell");
    assert!(registry.find("search").is_none());
    assert!(registry.register(ToolSpec {
        name: "search".to_string(),
        description: "Find things".to_string(),
        parameters: "{\"type\":\"object\"}".to_string(),
    }));
    assert_eq!(registry.schemas().len(), 2);
}
