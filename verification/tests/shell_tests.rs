use picoclaw::errors::ToolErrorKind;
use picoclaw::tools::{
    i64_to_string, parse_shell_args, render_shell_output, shell_outcome_text, u64_to_string,
    ProcessOutcome, ShellTool, ToolContext,
};

#[test]
fn test_shell_tool_name() {
    assert_eq!(ShellTool.name(), "shell");
}

#[test]
fn test_shell_tool_description() {
    assert!(!ShellTool.description().is_empty());
    assert!(ShellTool.description().contains("shell"));
}

#[test]
fn test_shell_tool_parameters() {
    let params = ShellTool.parameters();
    assert!(params.contains("\"type\":\"object\""));
    assert!(params.contains("\"properties\""));
    assert!(params.contains("\"command\""));
    assert!(params.contains("\"timeout\""));
    assert!(params.contains("\"required\":[\"command\"]"));
}

#[test]
fn test_shell_missing_command() {
    let result = parse_shell_args("{}");
    assert!(result.is_err());
    let err = result.unwrap_err();
    assert!(err.message.contains("Missing 'command'"));
    assert_eq!(err.kind, ToolErrorKind::BadArguments);
}

#[test]
fn test_shell_args_command_only() {
    let args = parse_shell_args(r#"{"command":"echo hello"}"#).unwrap();
    assert_eq!(args.command, "echo hello");
    assert_eq!(args.timeout_secs, 60);
}

#[test]
fn test_shell_args_with_timeout() {
    let args = parse_shell_args(r#"{"command": "sleep 10", "timeout": 1}"#).unwrap();
    assert_eq!(args.command, "sleep 10");
    assert_eq!(args.timeout_secs, 1);
}

#[test]
fn test_shell_args_whitespace_and_extras() {
    let args = parse_shell_args(" { \"verbose\" : true , \"command\" : \"pwd\" } ").unwrap();
    assert_eq!(args.command, "pwd");
    assert_eq!(args.timeout_secs, 60);
}

#[test]
fn test_shell_args_malformed() {
    let result = parse_shell_args("not an object");
    assert!(result.is_err());
    assert_eq!(result.unwrap_err().kind, ToolErrorKind::BadArguments);
}

#[test]
fn test_shell_args_command_not_text() {
    let result = parse_shell_args(r#"{"command": 5}"#);
    assert!(result.is_err());
    assert!(result.unwrap_err().message.contains("Missing 'command'"));
}

#[test]
fn test_render_exit_code() {
    let outcome = ProcessOutcome::Completed {
        stdout: String::new(),
        stderr: String::new(),
        success: false,
        exit_code: 42,
    };
    let result = shell_outcome_text(&outcome, 60);
    assert!(result.is_ok());
    let output = result.unwrap();
    assert!(output.ends_with("[Exit code: 42]"));
}

#[test]
fn test_render_combined_output() {
    let text = render_shell_output("stdout\n", "stderr\n", true, 0);
    assert!(text.contains("stdout"));
    assert!(text.contains("stderr"));
    assert!(text.contains("--- stderr ---"));
}

#[test]
fn test_render_stdout_only() {
    let text = render_shell_output("hello\n", "", true, 0);
    assert_eq!(text, "hello\n");
}

#[test]
fn test_render_stderr_only_no_separator() {
    let text = render_shell_output("", "oops\n", true, 0);
    assert_eq!(text, "oops\n");
}

#[test]
fn test_timeout_is_timeout_kind() {
    let result = shell_outcome_text(&ProcessOutcome::TimedOut, 1);
    assert!(result.is_err());
    let err = result.unwrap_err();
    assert_eq!(err.kind, ToolErrorKind::Timeout);
    assert!(err.message.contains("timed out"));
    assert_eq!(err.message, "Command timed out after 1s");
}

#[test]
fn test_spawn_failure_is_spawn_kind() {
    let outcome = ProcessOutcome::SpawnFailed { message: "no such interpreter".to_string() };
    let result = shell_outcome_text(&outcome, 60);
    let err = result.unwrap_err();
    assert_eq!(err.kind, ToolErrorKind::Spawn);
    assert!(err.message.contains("no such interpreter"));
}

#[test]
fn test_tool_context_workspace() {
    let ctx = ToolContext::new();
    assert!(ctx.workspace.is_none());
    let ctx = ToolContext::new().with_workspace("/tmp/work");
    assert_eq!(ctx.workspace, Some("/tmp/work".to_string()));
}

#[test]
fn test_decimal_rendering() {
    assert_eq!(u64_to_string(0), "0");
    assert_eq!(u64_to_string(60), "60");
    assert_eq!(u64_to_string(18446744073709551615), "18446744073709551615");
    assert_eq!(i64_to_string(-5), "-5");
    assert_eq!(i64_to_string(-1), "-1");
    assert_eq!(i64_to_string(42), "42");
    assert_eq!(i64_to_string(i64::MIN), "-9223372036854775808");
}
