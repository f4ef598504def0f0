//! The durable session record format: a structured text document holding the
//! session key and the ordered message list with the fields `role`,
//! `content`, `tool_calls` and `tool_call_id`. Encoding is canonical (no
//! optional whitespace); decoding accepts exactly the canonical form, and
//! decoding an encoded session gives the session back
//! ([`lemma_session_round_trip`]).

use crate::session::{Message, MessageView, Role, Session, SessionView, ToolCall, ToolCallView};
use vstd::prelude::*;
use vstd::string::*;

verus! {

// ---------------------------------------------------------------------------
// String escaping
// ---------------------------------------------------------------------------
/// How one character appears inside a quoted string: quote, backslash,
/// newline, tab and carriage return take a two-character escape, every other
/// character stands for itself.
pub open spec fn escaped_char(c: char) -> Seq<char> {
    if c == '"' {
        seq!['\\', '"']
    } else if c == '\\' {
        seq!['\\', '\\']
    } else if c == '\n' {
        seq!['\\', 'n']
    } else if c == '\t' {
        seq!['\\', 't']
    } else if c == '\r' {
        seq!['\\', 'r']
    } else {
        seq![c]
    }
}

/// The character a one-letter escape code stands for, if the code is valid.
pub open spec fn unescaped_char(c: char) -> Option<char> {
    if c == '"' {
        Some('"')
    } else if c == '\\' {
        Some('\\')
    } else if c == 'n' {
        Some('\n')
    } else if c == 't' {
        Some('\t')
    } else if c == 'r' {
        Some('\r')
    } else {
        None
    }
}

/// A text with every character escaped as [`escaped_char`] says.
pub open spec fn escape_text(s: Seq<char>) -> Seq<char>
    decreases s.len(),
{
    if s.len() == 0 {
        Seq::empty()
    } else {
        escaped_char(s[0]) + escape_text(s.skip(1))
    }
}

/// A quoted string: opening quote, escaped text, closing quote.
pub open spec fn quoted(s: Seq<char>) -> Seq<char> {
    seq!['"'] + escape_text(s) + seq!['"']
}

/// Escaping distributes over concatenation.
pub proof fn lemma_escape_append(a: Seq<char>, b: Seq<char>)
    ensures
        escape_text(a + b) == escape_text(a) + escape_text(b),
    decreases a.len(),
{
    if a.len() == 0 {
        assert(a + b =~= b);
        assert(escape_text(a) =~= Seq::<char>::empty());
        assert(escape_text(a) + escape_text(b) =~= escape_text(b));
    } else {
        assert((a + b)[0] == a[0]);
        assert((a + b).skip(1) =~= a.skip(1) + b);
        lemma_escape_append(a.skip(1), b);
        assert(escape_text(a + b) =~= escape_text(a) + escape_text(b));
    }
}

// ---------------------------------------------------------------------------
// Primitive parsers, as functions of the remaining input
// ---------------------------------------------------------------------------
/// Parse the body of a quoted string, up to and including the closing quote.
/// Returns the unescaped text and the input that follows the closing quote.
pub open spec fn parse_text(s: Seq<char>) -> Option<(Seq<char>, Seq<char>)>
    decreases s.len(),
{
    if s.len() == 0 {
        None
    } else if s[0] == '"' {
        Some((Seq::empty(), s.skip(1)))
    } else if s[0] == '\\' {
        if s.len() == 1 {
            None
        } else {
            match unescaped_char(s[1]) {
                None => None,
                Some(c) => match parse_text(s.skip(2)) {
                    None => None,
                    Some((t, r)) => Some((seq![c] + t, r)),
                },
            }
        }
    } else {
        match parse_text(s.skip(1)) {
            None => None,
            Some((t, r)) => Some((seq![s[0]] + t, r)),
        }
    }
}

/// A successful string parse consumes at least the closing quote.
pub proof fn lemma_parse_text_consumes(s: Seq<char>)
    ensures
        parse_text(s) matches Some((t, r)) ==> r.len() < s.len(),
    decreases s.len(),
{
    if s.len() == 0 {
    } else if s[0] == '"' {
    } else if s[0] == '\\' {
        if s.len() > 1 && unescaped_char(s[1]) is Some {
            lemma_parse_text_consumes(s.skip(2));
        }
    } else {
        lemma_parse_text_consumes(s.skip(1));
    }
}

/// Parsing the escape of a text, closed by a quote, gives the text back and
/// leaves exactly what followed.
pub proof fn lemma_parse_text_escape(s: Seq<char>, rest: Seq<char>)
    ensures
        parse_text(escape_text(s) + seq!['"'] + rest) == Some((s, rest)),
    decreases s.len(),
{
    let input = escape_text(s) + seq!['"'] + rest;
    if s.len() == 0 {
        assert(escape_text(s) =~= Seq::<char>::empty());
        assert(input =~= seq!['"'] + rest);
        assert(input[0] == '"');
        assert(input.skip(1) =~= rest);
        assert(s =~= Seq::<char>::empty());
    } else {
        let c = s[0];
        let e = escaped_char(c);
        let tail_input = escape_text(s.skip(1)) + seq!['"'] + rest;
        assert(escape_text(s) == e + escape_text(s.skip(1)));
        assert(input =~= e + tail_input);
        lemma_parse_text_escape(s.skip(1), rest);
        if c == '"' || c == '\\' || c == '\n' || c == '\t' || c == '\r' {
            assert(e.len() == 2 && e[0] == '\\');
            assert(input[0] == '\\');
            assert(input.len() >= 2);
            assert(input[1] == e[1]);
            assert(unescaped_char(e[1]) == Some(c));
            assert(input.skip(2) =~= tail_input);
            assert(seq![c] + s.skip(1) =~= s);
        } else {
            assert(e =~= seq![c]);
            assert(input[0] == c);
            assert(input.skip(1) =~= tail_input);
            assert(seq![c] + s.skip(1) =~= s);
        }
    }
}

/// The input after a fixed expected prefix, or nothing if the prefix is not
/// there.
pub open spec fn after_prefix(s: Seq<char>, lit: Seq<char>) -> Option<Seq<char>> {
    if lit.len() <= s.len() && s.subrange(0, lit.len() as int) == lit {
        Some(s.skip(lit.len() as int))
    } else {
        None
    }
}

/// Stripping a prefix that is literally there succeeds and leaves the rest.
pub proof fn lemma_after_prefix_concat(lit: Seq<char>, rest: Seq<char>)
    ensures
        after_prefix(lit + rest, lit) == Some(rest),
{
    let s = lit + rest;
    assert(s.subrange(0, lit.len() as int) =~= lit);
    assert(s.skip(lit.len() as int) =~= rest);
}

/// Parse a quoted string: opening quote, body, closing quote.
pub open spec fn parse_quoted(s: Seq<char>) -> Option<(Seq<char>, Seq<char>)> {
    if s.len() > 0 && s[0] == '"' {
        parse_text(s.skip(1))
    } else {
        None
    }
}

/// A successful quoted parse consumes at least the two quotes.
pub proof fn lemma_parse_quoted_consumes(s: Seq<char>)
    ensures
        parse_quoted(s) matches Some((t, r)) ==> r.len() < s.len(),
{
    if s.len() > 0 && s[0] == '"' {
        lemma_parse_text_consumes(s.skip(1));
    }
}

/// Parsing a quoted text gives the text back.
pub proof fn lemma_parse_quoted_round(s: Seq<char>, rest: Seq<char>)
    ensures
        parse_quoted(quoted(s) + rest) == Some((s, rest)),
{
    let input = quoted(s) + rest;
    assert(input[0] == '"');
    assert(input.skip(1) =~= escape_text(s) + seq!['"'] + rest);
    lemma_parse_text_escape(s, rest);
}

// ---------------------------------------------------------------------------
// Role names
// ---------------------------------------------------------------------------
/// The stable name of each role in the record format.
pub open spec fn role_name(r: Role) -> Seq<char> {
    match r {
        Role::System => "system"@,
        Role::User => "user"@,
        Role::Assistant => "assistant"@,
        Role::Tool => "tool"@,
    }
}

/// The role a name denotes, if any.
pub open spec fn role_of_name(n: Seq<char>) -> Option<Role> {
    if n == "system"@ {
        Some(Role::System)
    } else if n == "user"@ {
        Some(Role::User)
    } else if n == "assistant"@ {
        Some(Role::Assistant)
    } else if n == "tool"@ {
        Some(Role::Tool)
    } else {
        None
    }
}

/// Role names round-trip.
pub proof fn lemma_role_name_round(r: Role)
    ensures
        role_of_name(role_name(r)) == Some(r),
{
    reveal_strlit("system");
    reveal_strlit("user");
    reveal_strlit("assistant");
    reveal_strlit("tool");
    match r {
        Role::System => {
        },
        Role::User => {
            assert("user"@ != "system"@) by {
                assert("user"@.len() == 4 && "system"@.len() == 6);
            }
        },
        Role::Assistant => {
            assert("assistant"@ != "system"@ && "assistant"@ != "user"@) by {
                assert("assistant"@.len() == 9);
            }
        },
        Role::Tool => {
            assert("tool"@ != "system"@ && "tool"@ != "assistant"@) by {
                assert("tool"@.len() == 4);
            }
            assert("tool"@ != "user"@) by {
                assert("tool"@[0] == 't' && "user"@[0] == 'u');
            }
        },
    }
}


// ---------------------------------------------------------------------------
// Tool calls
// ---------------------------------------------------------------------------
/// The record text of one tool call.
pub open spec fn doc_of_tool_call(t: ToolCallView) -> Seq<char> {
    "{\"id\":"@ + quoted(t.id) + ",\"name\":"@ + quoted(t.name) + ",\"arguments\":"@ + quoted(
        t.arguments,
    ) + "}"@
}

/// Parse one tool call.
pub open spec fn parse_tool_call(s: Seq<char>) -> Option<(ToolCallView, Seq<char>)> {
    match after_prefix(s, "{\"id\":"@) {
        None => None,
        Some(s1) => match parse_quoted(s1) {
            None => None,
            Some((id, s2)) => match after_prefix(s2, ",\"name\":"@) {
                None => None,
                Some(s3) => match parse_quoted(s3) {
                    None => None,
                    Some((name, s4)) => match after_prefix(s4, ",\"arguments\":"@) {
                        None => None,
                        Some(s5) => match parse_quoted(s5) {
                            None => None,
                            Some((arguments, s6)) => match after_prefix(s6, "}"@) {
                                None => None,
                                Some(s7) => Some((ToolCallView { id, name, arguments }, s7)),
                            },
                        },
                    },
                },
            },
        },
    }
}

/// A successful tool-call parse consumes part of the input.
pub proof fn lemma_parse_tool_call_consumes(s: Seq<char>)
    ensures
        parse_tool_call(s) matches Some((t, r)) ==> r.len() < s.len(),
{
    if parse_tool_call(s) is Some {
        let s1 = after_prefix(s, "{\"id\":"@).unwrap();
        lemma_parse_quoted_consumes(s1);
        let (id, s2) = parse_quoted(s1).unwrap();
        let s3 = after_prefix(s2, ",\"name\":"@).unwrap();
        lemma_parse_quoted_consumes(s3);
        let (name, s4) = parse_quoted(s3).unwrap();
        let s5 = after_prefix(s4, ",\"arguments\":"@).unwrap();
        lemma_parse_quoted_consumes(s5);
    }
}

/// Parsing the record text of a tool call gives the call back.
pub proof fn lemma_parse_tool_call_round(t: ToolCallView, rest: Seq<char>)
    ensures
        parse_tool_call(doc_of_tool_call(t) + rest) == Some((t, rest)),
{
    let input = doc_of_tool_call(t) + rest;
    let x1 = quoted(t.id) + (",\"name\":"@ + (quoted(t.name) + (",\"arguments\":"@ + (quoted(
        t.arguments,
    ) + ("}"@ + rest)))));
    assert(input =~= "{\"id\":"@ + x1);
    lemma_after_prefix_concat("{\"id\":"@, x1);
    let x2 = ",\"name\":"@ + (quoted(t.name) + (",\"arguments\":"@ + (quoted(t.arguments) + (
    "}"@ + rest))));
    lemma_parse_quoted_round(t.id, x2);
    assert(x1 =~= quoted(t.id) + x2);
    let x3 = quoted(t.name) + (",\"arguments\":"@ + (quoted(t.arguments) + ("}"@ + rest)));
    lemma_after_prefix_concat(",\"name\":"@, x3);
    let x4 = ",\"arguments\":"@ + (quoted(t.arguments) + ("}"@ + rest));
    lemma_parse_quoted_round(t.name, x4);
    assert(x3 =~= quoted(t.name) + x4);
    let x5 = quoted(t.arguments) + ("}"@ + rest);
    lemma_after_prefix_concat(",\"arguments\":"@, x5);
    let x6 = "}"@ + rest;
    lemma_parse_quoted_round(t.arguments, x6);
    assert(x5 =~= quoted(t.arguments) + x6);
    lemma_after_prefix_concat("}"@, rest);
    assert(parse_tool_call(input) == Some((ToolCallView { id: t.id, name: t.name, arguments: t.arguments }, rest)));
    assert(ToolCallView { id: t.id, name: t.name, arguments: t.arguments } =~= t);
}


// ---------------------------------------------------------------------------
// Tool-call lists
// ---------------------------------------------------------------------------
/// The record text after the first element of a non-empty tool-call list:
/// each further element is preceded by a comma, and the list is closed.
pub open spec fn doc_of_tool_calls_rest(ts: Seq<ToolCallView>) -> Seq<char>
    decreases ts.len(),
{
    if ts.len() == 0 {
        seq![']']
    } else {
        seq![','] + doc_of_tool_call(ts[0]) + doc_of_tool_calls_rest(ts.skip(1))
    }
}

/// The record text of a tool-call list, in call order.
pub open spec fn doc_of_tool_calls(ts: Seq<ToolCallView>) -> Seq<char> {
    if ts.len() == 0 {
        seq!['[', ']']
    } else {
        seq!['['] + doc_of_tool_call(ts[0]) + doc_of_tool_calls_rest(ts.skip(1))
    }
}

/// Parse the continuation of a tool-call list.
pub open spec fn parse_tool_calls_rest(s: Seq<char>) -> Option<(Seq<ToolCallView>, Seq<char>)>
    decreases s.len(),
    via parse_tool_calls_rest_decreases
{
    if s.len() == 0 {
        None
    } else if s[0] == ']' {
        Some((Seq::empty(), s.skip(1)))
    } else if s[0] == ',' {
        match parse_tool_call(s.skip(1)) {
            None => None,
            Some((t, r)) => match parse_tool_calls_rest(r) {
                None => None,
                Some((ts, r2)) => Some((seq![t] + ts, r2)),
            },
        }
    } else {
        None
    }
}

#[via_fn]
proof fn parse_tool_calls_rest_decreases(s: Seq<char>) {
    if s.len() > 0 && s[0] == ',' {
        lemma_parse_tool_call_consumes(s.skip(1));
    }
}

/// Parse a tool-call list.
pub open spec fn parse_tool_calls(s: Seq<char>) -> Option<(Seq<ToolCallView>, Seq<char>)> {
    if s.len() >= 2 && s[0] == '[' && s[1] == ']' {
        Some((Seq::empty(), s.skip(2)))
    } else if s.len() >= 1 && s[0] == '[' {
        match parse_tool_call(s.skip(1)) {
            None => None,
            Some((t, r)) => match parse_tool_calls_rest(r) {
                None => None,
                Some((ts, r2)) => Some((seq![t] + ts, r2)),
            },
        }
    } else {
        None
    }
}

/// A successful list-continuation parse consumes part of the input.
pub proof fn lemma_parse_tool_calls_rest_consumes(s: Seq<char>)
    ensures
        parse_tool_calls_rest(s) matches Some((ts, r)) ==> r.len() < s.len(),
    decreases s.len(),
{
    if s.len() > 0 && s[0] == ',' {
        lemma_parse_tool_call_consumes(s.skip(1));
        if parse_tool_call(s.skip(1)) is Some {
            let (t, r) = parse_tool_call(s.skip(1)).unwrap();
            lemma_parse_tool_calls_rest_consumes(r);
        }
    }
}

/// A successful list parse consumes part of the input.
pub proof fn lemma_parse_tool_calls_consumes(s: Seq<char>)
    ensures
        parse_tool_calls(s) matches Some((ts, r)) ==> r.len() < s.len(),
{
    if s.len() >= 2 && s[0] == '[' && s[1] == ']' {
    } else if s.len() >= 1 && s[0] == '[' {
        lemma_parse_tool_call_consumes(s.skip(1));
        if parse_tool_call(s.skip(1)) is Some {
            let (t, r) = parse_tool_call(s.skip(1)).unwrap();
            lemma_parse_tool_calls_rest_consumes(r);
        }
    }
}

/// Parsing the continuation text of a list gives the remaining calls back.
#[verifier::rlimit(50)]
pub proof fn lemma_parse_tool_calls_rest_round(ts: Seq<ToolCallView>, rest: Seq<char>)
    ensures
        parse_tool_calls_rest(doc_of_tool_calls_rest(ts) + rest) == Some((ts, rest)),
    decreases ts.len(),
{
    let input = doc_of_tool_calls_rest(ts) + rest;
    if ts.len() == 0 {
        assert(input[0] == ']');
        assert(input.skip(1) =~= rest);
        assert(ts =~= Seq::<ToolCallView>::empty());
    } else {
        let tail = doc_of_tool_calls_rest(ts.skip(1)) + rest;
        assert(input =~= seq![','] + (doc_of_tool_call(ts[0]) + tail));
        assert(input[0] == ',');
        assert(input.skip(1) =~= doc_of_tool_call(ts[0]) + tail);
        lemma_parse_tool_call_round(ts[0], tail);
        lemma_parse_tool_calls_rest_round(ts.skip(1), rest);
        assert(seq![ts[0]] + ts.skip(1) =~= ts);
    }
}

/// Parsing the record text of a tool-call list gives the list back.
pub proof fn lemma_parse_tool_calls_round(ts: Seq<ToolCallView>, rest: Seq<char>)
    ensures
        parse_tool_calls(doc_of_tool_calls(ts) + rest) == Some((ts, rest)),
{
    let input = doc_of_tool_calls(ts) + rest;
    if ts.len() == 0 {
        assert(input[0] == '[' && input[1] == ']');
        assert(input.skip(2) =~= rest);
        assert(ts =~= Seq::<ToolCallView>::empty());
    } else {
        reveal_strlit("{\"id\":");
        let tail = doc_of_tool_calls_rest(ts.skip(1)) + rest;
        assert(input =~= seq!['['] + (doc_of_tool_call(ts[0]) + tail));
        assert(input[0] == '[');
        assert(doc_of_tool_call(ts[0])[0] == '{');
        assert(input[1] == '{');
        assert(input.skip(1) =~= doc_of_tool_call(ts[0]) + tail);
        lemma_parse_tool_call_round(ts[0], tail);
        lemma_parse_tool_calls_rest_round(ts.skip(1), rest);
        assert(seq![ts[0]] + ts.skip(1) =~= ts);
    }
}

// ---------------------------------------------------------------------------
// The optional correlation id
// ---------------------------------------------------------------------------
/// The record text of an optional string field.
pub open spec fn doc_of_opt_text(o: Option<Seq<char>>) -> Seq<char> {
    match o {
        None => "null"@,
        Some(s) => quoted(s),
    }
}

/// Parse an optional string field.
pub open spec fn parse_opt_text(s: Seq<char>) -> Option<(Option<Seq<char>>, Seq<char>)> {
    if s.len() > 0 && s[0] == '"' {
        match parse_text(s.skip(1)) {
            None => None,
            Some((t, r)) => Some((Some(t), r)),
        }
    } else {
        match after_prefix(s, "null"@) {
            None => None,
            Some(r) => Some((None, r)),
        }
    }
}

/// A successful optional-field parse consumes part of the input.
pub proof fn lemma_parse_opt_text_consumes(s: Seq<char>)
    ensures
        parse_opt_text(s) matches Some((o, r)) ==> r.len() < s.len(),
{
    reveal_strlit("null");
    if s.len() > 0 && s[0] == '"' {
        lemma_parse_text_consumes(s.skip(1));
    }
}

/// Parsing the record text of an optional field gives the field back.
pub proof fn lemma_parse_opt_text_round(o: Option<Seq<char>>, rest: Seq<char>)
    ensures
        parse_opt_text(doc_of_opt_text(o) + rest) == Some((o, rest)),
{
    let input = doc_of_opt_text(o) + rest;
    match o {
        None => {
            reveal_strlit("null");
            assert(input[0] == 'n');
            lemma_after_prefix_concat("null"@, rest);
        },
        Some(t) => {
            assert(input[0] == '"');
            assert(input.skip(1) =~= escape_text(t) + seq!['"'] + rest);
            lemma_parse_text_escape(t, rest);
        },
    }
}


// ---------------------------------------------------------------------------
// Messages
// ---------------------------------------------------------------------------
/// The record text of one message, with the four fields in fixed order.
pub open spec fn doc_of_message(m: MessageView) -> Seq<char> {
    "{\"role\":"@ + quoted(role_name(m.role)) + ",\"content\":"@ + quoted(m.content)
        + ",\"tool_calls\":"@ + doc_of_tool_calls(m.tool_calls) + ",\"tool_call_id\":"@
        + doc_of_opt_text(m.tool_call_id) + "}"@
}

/// Parse one message.
pub open spec fn parse_message(s: Seq<char>) -> Option<(MessageView, Seq<char>)> {
    match after_prefix(s, "{\"role\":"@) {
        None => None,
        Some(s1) => match parse_quoted(s1) {
            None => None,
            Some((rname, s2)) => match role_of_name(rname) {
                None => None,
                Some(role) => match after_prefix(s2, ",\"content\":"@) {
                    None => None,
                    Some(s3) => match parse_quoted(s3) {
                        None => None,
                        Some((content, s4)) => match after_prefix(s4, ",\"tool_calls\":"@) {
                            None => None,
                            Some(s5) => match parse_tool_calls(s5) {
                                None => None,
                                Some((tool_calls, s6)) => match after_prefix(
                                    s6,
                                    ",\"tool_call_id\":"@,
                                ) {
                                    None => None,
                                    Some(s7) => match parse_opt_text(s7) {
                                        None => None,
                                        Some((tool_call_id, s8)) => match after_prefix(s8, "}"@) {
                                            None => None,
                                            Some(s9) => Some(
                                                (
                                                    MessageView {
                                                        role,
                                                        content,
                                                        tool_calls,
                                                        tool_call_id,
                                                    },
                                                    s9,
                                                ),
                                            ),
                                        },
                                    },
                                },
                            },
                        },
                    },
                },
            },
        },
    }
}

/// A successful message parse consumes part of the input.
pub proof fn lemma_parse_message_consumes(s: Seq<char>)
    ensures
        parse_message(s) matches Some((m, r)) ==> r.len() < s.len(),
{
    if parse_message(s) is Some {
        let s1 = after_prefix(s, "{\"role\":"@).unwrap();
        lemma_parse_quoted_consumes(s1);
        let (rname, s2) = parse_quoted(s1).unwrap();
        let s3 = after_prefix(s2, ",\"content\":"@).unwrap();
        lemma_parse_quoted_consumes(s3);
        let (content, s4) = parse_quoted(s3).unwrap();
        let s5 = after_prefix(s4, ",\"tool_calls\":"@).unwrap();
        lemma_parse_tool_calls_consumes(s5);
        let (tool_calls, s6) = parse_tool_calls(s5).unwrap();
        let s7 = after_prefix(s6, ",\"tool_call_id\":"@).unwrap();
        lemma_parse_opt_text_consumes(s7);
    }
}

/// Parsing the record text of a message gives the message back.
#[verifier::rlimit(50)]
pub proof fn lemma_parse_message_round(m: MessageView, rest: Seq<char>)
    ensures
        parse_message(doc_of_message(m) + rest) == Some((m, rest)),
{
    let input = doc_of_message(m) + rest;
    let x1 = quoted(role_name(m.role)) + (",\"content\":"@ + (quoted(m.content) + (
    ",\"tool_calls\":"@ + (doc_of_tool_calls(m.tool_calls) + (",\"tool_call_id\":"@ + (
    doc_of_opt_text(m.tool_call_id) + ("}"@ + rest)))))));
    assert(input =~= "{\"role\":"@ + x1);
    lemma_after_prefix_concat("{\"role\":"@, x1);
    let x2 = ",\"content\":"@ + (quoted(m.content) + (",\"tool_calls\":"@ + (doc_of_tool_calls(
        m.tool_calls,
    ) + (",\"tool_call_id\":"@ + (doc_of_opt_text(m.tool_call_id) + ("}"@ + rest))))));
    lemma_parse_quoted_round(role_name(m.role), x2);
    assert(x1 =~= quoted(role_name(m.role)) + x2);
    lemma_role_name_round(m.role);
    let x3 = quoted(m.content) + (",\"tool_calls\":"@ + (doc_of_tool_calls(m.tool_calls) + (
    ",\"tool_call_id\":"@ + (doc_of_opt_text(m.tool_call_id) + ("}"@ + rest)))));
    lemma_after_prefix_concat(",\"content\":"@, x3);
    let x4 = ",\"tool_calls\":"@ + (doc_of_tool_calls(m.tool_calls) + (",\"tool_call_id\":"@ + (
    doc_of_opt_text(m.tool_call_id) + ("}"@ + rest))));
    lemma_parse_quoted_round(m.content, x4);
    assert(x3 =~= quoted(m.content) + x4);
    let x5 = doc_of_tool_calls(m.tool_calls) + (",\"tool_call_id\":"@ + (doc_of_opt_text(
        m.tool_call_id,
    ) + ("}"@ + rest)));
    lemma_after_prefix_concat(",\"tool_calls\":"@, x5);
    let x6 = ",\"tool_call_id\":"@ + (doc_of_opt_text(m.tool_call_id) + ("}"@ + rest));
    lemma_parse_tool_calls_round(m.tool_calls, x6);
    assert(x5 =~= doc_of_tool_calls(m.tool_calls) + x6);
    let x7 = doc_of_opt_text(m.tool_call_id) + ("}"@ + rest);
    lemma_after_prefix_concat(",\"tool_call_id\":"@, x7);
    let x8 = "}"@ + rest;
    lemma_parse_opt_text_round(m.tool_call_id, x8);
    assert(x7 =~= doc_of_opt_text(m.tool_call_id) + x8);
    lemma_after_prefix_concat("}"@, rest);
    assert(MessageView {
        role: m.role,
        content: m.content,
        tool_calls: m.tool_calls,
        tool_call_id: m.tool_call_id,
    } =~= m);
}

// ---------------------------------------------------------------------------
// Message lists
// ---------------------------------------------------------------------------
/// The record text after the first element of a non-empty message list.
pub open spec fn doc_of_messages_rest(ms: Seq<MessageView>) -> Seq<char>
    decreases ms.len(),
{
    if ms.len() == 0 {
        seq![']']
    } else {
        seq![','] + doc_of_message(ms[0]) + doc_of_messages_rest(ms.skip(1))
    }
}

/// The record text of a message list, in transcript order.
pub open spec fn doc_of_messages(ms: Seq<MessageView>) -> Seq<char> {
    if ms.len() == 0 {
        seq!['[', ']']
    } else {
        seq!['['] + doc_of_message(ms[0]) + doc_of_messages_rest(ms.skip(1))
    }
}

/// Parse the continuation of a message list.
pub open spec fn parse_messages_rest(s: Seq<char>) -> Option<(Seq<MessageView>, Seq<char>)>
    decreases s.len(),
    via parse_messages_rest_decreases
{
    if s.len() == 0 {
        None
    } else if s[0] == ']' {
        Some((Seq::empty(), s.skip(1)))
    } else if s[0] == ',' {
        match parse_message(s.skip(1)) {
            None => None,
            Some((m, r)) => match parse_messages_rest(r) {
                None => None,
                Some((ms, r2)) => Some((seq![m] + ms, r2)),
            },
        }
    } else {
        None
    }
}

#[via_fn]
proof fn parse_messages_rest_decreases(s: Seq<char>) {
    if s.len() > 0 && s[0] == ',' {
        lemma_parse_message_consumes(s.skip(1));
    }
}

/// Parse a message list.
pub open spec fn parse_messages(s: Seq<char>) -> Option<(Seq<MessageView>, Seq<char>)> {
    if s.len() >= 2 && s[0] == '[' && s[1] == ']' {
        Some((Seq::empty(), s.skip(2)))
    } else if s.len() >= 1 && s[0] == '[' {
        match parse_message(s.skip(1)) {
            None => None,
            Some((m, r)) => match parse_messages_rest(r) {
                None => None,
                Some((ms, r2)) => Some((seq![m] + ms, r2)),
            },
        }
    } else {
        None
    }
}

/// Parsing the continuation text of a message list gives the messages back.
#[verifier::rlimit(100)]
pub proof fn lemma_parse_messages_rest_round(ms: Seq<MessageView>, rest: Seq<char>)
    ensures
        parse_messages_rest(doc_of_messages_rest(ms) + rest) == Some((ms, rest)),
    decreases ms.len(),
{
    let input = doc_of_messages_rest(ms) + rest;
    if ms.len() == 0 {
        assert(input[0] == ']');
        assert(input.skip(1) =~= rest);
        assert(ms =~= Seq::<MessageView>::empty());
    } else {
        let tail = doc_of_messages_rest(ms.skip(1)) + rest;
        assert(input =~= seq![','] + (doc_of_message(ms[0]) + tail));
        assert(input[0] == ',');
        assert(input.skip(1) =~= doc_of_message(ms[0]) + tail);
        lemma_parse_message_round(ms[0], tail);
        lemma_parse_messages_rest_round(ms.skip(1), rest);
        assert(seq![ms[0]] + ms.skip(1) =~= ms);
    }
}

/// Parsing the record text of a message list gives the list back.
#[verifier::rlimit(50)]
pub proof fn lemma_parse_messages_round(ms: Seq<MessageView>, rest: Seq<char>)
    ensures
        parse_messages(doc_of_messages(ms) + rest) == Some((ms, rest)),
{
    let input = doc_of_messages(ms) + rest;
    if ms.len() == 0 {
        assert(input[0] == '[' && input[1] == ']');
        assert(input.skip(2) =~= rest);
        assert(ms =~= Seq::<MessageView>::empty());
    } else {
        reveal_strlit("{\"role\":");
        let tail = doc_of_messages_rest(ms.skip(1)) + rest;
        assert(input =~= seq!['['] + (doc_of_message(ms[0]) + tail));
        assert(input[0] == '[');
        assert(doc_of_message(ms[0])[0] == '{');
        assert(input[1] == '{');
        assert(input.skip(1) =~= doc_of_message(ms[0]) + tail);
        lemma_parse_message_round(ms[0], tail);
        lemma_parse_messages_rest_round(ms.skip(1), rest);
        assert(seq![ms[0]] + ms.skip(1) =~= ms);
    }
}

// ---------------------------------------------------------------------------
// The whole session record
// ---------------------------------------------------------------------------
/// The record text of a whole session.
pub open spec fn doc_of_session(v: SessionView) -> Seq<char> {
    "{\"key\":"@ + quoted(v.key) + ",\"messages\":"@ + doc_of_messages(v.messages) + "}"@
}

/// Parse a whole session record; the record must span the whole input.
pub open spec fn parse_session_doc(s: Seq<char>) -> Option<SessionView> {
    match after_prefix(s, "{\"key\":"@) {
        None => None,
        Some(s1) => match parse_quoted(s1) {
            None => None,
            Some((key, s2)) => match after_prefix(s2, ",\"messages\":"@) {
                None => None,
                Some(s3) => match parse_messages(s3) {
                    None => None,
                    Some((messages, s4)) => match after_prefix(s4, "}"@) {
                        None => None,
                        Some(s5) => if s5.len() == 0 {
                            Some(SessionView { key, messages })
                        } else {
                            None
                        },
                    },
                },
            },
        },
    }
}

/// Decoding an encoded session gives the session back: the record format
/// loses nothing.
#[verifier::rlimit(50)]
pub proof fn lemma_session_round_trip(v: SessionView)
    ensures
        parse_session_doc(doc_of_session(v)) == Some(v),
{
    let input = doc_of_session(v);
    let empty = Seq::<char>::empty();
    let x1 = quoted(v.key) + (",\"messages\":"@ + (doc_of_messages(v.messages) + "}"@));
    assert(input =~= "{\"key\":"@ + x1);
    lemma_after_prefix_concat("{\"key\":"@, x1);
    let x2 = ",\"messages\":"@ + (doc_of_messages(v.messages) + "}"@);
    lemma_parse_quoted_round(v.key, x2);
    assert(x1 =~= quoted(v.key) + x2);
    let x3 = doc_of_messages(v.messages) + "}"@;
    lemma_after_prefix_concat(",\"messages\":"@, x3);
    let x4 = "}"@ + empty;
    lemma_parse_messages_round(v.messages, x4);
    assert(x3 =~= doc_of_messages(v.messages) + x4);
    lemma_after_prefix_concat("}"@, empty);
    assert(SessionView { key: v.key, messages: v.messages } =~= v);
}


// ---------------------------------------------------------------------------
// Encoding
// ---------------------------------------------------------------------------
/// Relies on `String::push`: appends exactly the one given character.
#[verifier::external_body]
pub(crate) fn push_char(out: &mut String, c: char)
    ensures
        final (out)@ == old(out)@.push(c),
{
    out.push(c);
}

/// Append the escape of `s` to `out`.
fn append_escaped(out: &mut String, s: &str)
    ensures
        final (out)@ == old(out)@ + escape_text(s@),
{
    let n = s.unicode_len();
    let mut k: usize = 0;
    while k < n
        invariant
            n == s@.len(),
            k <= n,
            out@ == old(out)@ + escape_text(s@.subrange(0, k as int)),
        decreases n - k,
    {
        let c = s.get_char(k);
        if c == '"' {
            out.append("\\\"");
            proof {
                reveal_strlit("\\\"");
                assert("\\\""@ =~= escaped_char(c));
            }
        } else if c == '\\' {
            out.append("\\\\");
            proof {
                reveal_strlit("\\\\");
                assert("\\\\"@ =~= escaped_char(c));
            }
        } else if c == '\n' {
            out.append("\\n");
            proof {
                reveal_strlit("\\n");
                assert("\\n"@ =~= escaped_char(c));
            }
        } else if c == '\t' {
            out.append("\\t");
            proof {
                reveal_strlit("\\t");
                assert("\\t"@ =~= escaped_char(c));
            }
        } else if c == '\r' {
            out.append("\\r");
            proof {
                reveal_strlit("\\r");
                assert("\\r"@ =~= escaped_char(c));
            }
        } else {
            push_char(out, c);
            proof {
                assert(out@ =~= old(out)@ + escape_text(s@.subrange(0, k as int)) + escaped_char(
                    c,
                ));
            }
        }
        proof {
            lemma_escape_append(s@.subrange(0, k as int), seq![s@[k as int]]);
            assert(seq![s@[k as int]].skip(1) =~= Seq::<char>::empty());
            assert(escape_text(Seq::<char>::empty()) =~= Seq::<char>::empty());
            assert(escape_text(seq![s@[k as int]]) =~= escaped_char(s@[k as int]));
            assert(s@.subrange(0, k + 1 as int) =~= s@.subrange(0, k as int) + seq![s@[k as int]]);
            assert(out@ =~= old(out)@ + escape_text(s@.subrange(0, k + 1 as int)));
        }
        k += 1;
    }
    proof {
        assert(s@.subrange(0, n as int) =~= s@);
    }
}

/// Append `s` as a quoted string to `out`.
fn append_quoted(out: &mut String, s: &str)
    ensures
        final (out)@ == old(out)@ + quoted(s@),
{
    out.append("\"");
    append_escaped(out, s);
    out.append("\"");
    proof {
        reveal_strlit("\"");
        assert("\""@ =~= seq!['"']);
        assert(out@ =~= old(out)@ + quoted(s@));
    }
}

/// Append the record text of one tool call to `out`.
fn append_tool_call(out: &mut String, t: &ToolCall)
    ensures
        final (out)@ == old(out)@ + doc_of_tool_call(t@),
{
    out.append("{\"id\":");
    append_quoted(out, t.id.as_str());
    out.append(",\"name\":");
    append_quoted(out, t.name.as_str());
    out.append(",\"arguments\":");
    append_quoted(out, t.arguments.as_str());
    out.append("}");
    proof {
        assert(out@ =~= old(out)@ + doc_of_tool_call(t@));
    }
}

/// Append the record text of a tool-call list to `out`.
fn append_tool_calls(out: &mut String, ts: &Vec<ToolCall>)
    ensures
        final (out)@ == old(out)@ + doc_of_tool_calls(ts.deep_view()),
{
    if ts.len() == 0 {
        out.append("[]");
        proof {
            reveal_strlit("[]");
            assert(ts.deep_view().len() == 0);
            assert("[]"@ =~= seq!['[', ']']);
            assert(out@ =~= old(out)@ + doc_of_tool_calls(ts.deep_view()));
        }
        return ;
    }
    out.append("[");
    append_tool_call(out, &ts[0]);
    proof {
        reveal_strlit("[");
        assert("["@ =~= seq!['[']);
        assert(ts.deep_view()[0] == ts@[0]@);
        assert(out@ + doc_of_tool_calls_rest(ts.deep_view().skip(1)) =~= old(out)@
            + doc_of_tool_calls(ts.deep_view()));
    }
    let mut k: usize = 1;
    while k < ts.len()
        invariant
            1 <= k <= ts.len(),
            out@ + doc_of_tool_calls_rest(ts.deep_view().skip(k as int)) == old(out)@
                + doc_of_tool_calls(ts.deep_view()),
        decreases ts.len() - k,
    {
        let ghost before = out@;
        out.append(",");
        append_tool_call(out, &ts[k]);
        proof {
            reveal_strlit(",");
            assert(","@ =~= seq![',']);
            let dv = ts.deep_view();
            assert(dv[k as int] == ts@[k as int]@);
            assert(dv.skip(k as int)[0] == dv[k as int]);
            assert(dv.skip(k as int).skip(1) =~= dv.skip(k + 1 as int));
            assert(doc_of_tool_calls_rest(dv.skip(k as int)) == seq![','] + doc_of_tool_call(
                dv[k as int],
            ) + doc_of_tool_calls_rest(dv.skip(k + 1 as int)));
            assert(out@ + doc_of_tool_calls_rest(dv.skip(k + 1 as int)) =~= before
                + doc_of_tool_calls_rest(dv.skip(k as int)));
        }
        k += 1;
    }
    out.append("]");
    proof {
        reveal_strlit("]");
        assert("]"@ =~= seq![']']);
        assert(ts.deep_view().skip(ts.len() as int) =~= Seq::<ToolCallView>::empty());
        assert(doc_of_tool_calls_rest(ts.deep_view().skip(ts.len() as int)) == seq![']']);
        assert(out@ =~= old(out)@ + doc_of_tool_calls(ts.deep_view()));
    }
}

/// The stable record name of a role.
fn role_name_text(r: Role) -> (n: &'static str)
    ensures
        n@ == role_name(r),
{
    match r {
        Role::System => "system",
        Role::User => "user",
        Role::Assistant => "assistant",
        Role::Tool => "tool",
    }
}

/// Append the record text of one message to `out`.
fn append_message(out: &mut String, m: &Message)
    ensures
        final (out)@ == old(out)@ + doc_of_message(m@),
{
    out.append("{\"role\":");
    append_quoted(out, role_name_text(m.role));
    out.append(",\"content\":");
    append_quoted(out, m.content.as_str());
    out.append(",\"tool_calls\":");
    append_tool_calls(out, &m.tool_calls);
    out.append(",\"tool_call_id\":");
    match &m.tool_call_id {
        None => {
            out.append("null");
            proof {
                assert(doc_of_opt_text(m@.tool_call_id) == "null"@);
            }
        },
        Some(id) => {
            append_quoted(out, id.as_str());
            proof {
                assert(doc_of_opt_text(m@.tool_call_id) == quoted(id@));
            }
        },
    }
    out.append("}");
    proof {
        assert(out@ =~= old(out)@ + doc_of_message(m@));
    }
}

/// Append the record text of a message list to `out`.
fn append_messages(out: &mut String, ms: &Vec<Message>)
    ensures
        final (out)@ == old(out)@ + doc_of_messages(ms.deep_view()),
{
    if ms.len() == 0 {
        out.append("[]");
        proof {
            reveal_strlit("[]");
            assert(ms.deep_view().len() == 0);
            assert("[]"@ =~= seq!['[', ']']);
            assert(out@ =~= old(out)@ + doc_of_messages(ms.deep_view()));
        }
        return ;
    }
    out.append("[");
    append_message(out, &ms[0]);
    proof {
        reveal_strlit("[");
        assert("["@ =~= seq!['[']);
        assert(ms.deep_view()[0] == ms@[0]@);
        assert(out@ + doc_of_messages_rest(ms.deep_view().skip(1)) =~= old(out)@ + doc_of_messages(
            ms.deep_view(),
        ));
    }
    let mut k: usize = 1;
    while k < ms.len()
        invariant
            1 <= k <= ms.len(),
            out@ + doc_of_messages_rest(ms.deep_view().skip(k as int)) == old(out)@
                + doc_of_messages(ms.deep_view()),
        decreases ms.len() - k,
    {
        let ghost before = out@;
        out.append(",");
        append_message(out, &ms[k]);
        proof {
            reveal_strlit(",");
            assert(","@ =~= seq![',']);
            let dv = ms.deep_view();
            assert(dv[k as int] == ms@[k as int]@);
            assert(dv.skip(k as int)[0] == dv[k as int]);
            assert(dv.skip(k as int).skip(1) =~= dv.skip(k + 1 as int));
            assert(doc_of_messages_rest(dv.skip(k as int)) == seq![','] + doc_of_message(
                dv[k as int],
            ) + doc_of_messages_rest(dv.skip(k + 1 as int)));
            assert(out@ + doc_of_messages_rest(dv.skip(k + 1 as int)) =~= before
                + doc_of_messages_rest(dv.skip(k as int)));
        }
        k += 1;
    }
    out.append("]");
    proof {
        reveal_strlit("]");
        assert("]"@ =~= seq![']']);
        assert(ms.deep_view().skip(ms.len() as int) =~= Seq::<MessageView>::empty());
        assert(doc_of_messages_rest(ms.deep_view().skip(ms.len() as int)) == seq![']']);
        assert(out@ =~= old(out)@ + doc_of_messages(ms.deep_view()));
    }
}

/// Encode a session as its durable record text.
pub fn encode_session(s: &Session) -> (out: String)
    ensures
        out@ == doc_of_session(s@),
{
    let mut out = String::new();
    out.append("{\"key\":");
    append_quoted(&mut out, s.key.as_str());
    out.append(",\"messages\":");
    append_messages(&mut out, &s.messages);
    out.append("}");
    proof {
        assert(out@ =~= doc_of_session(s@));
    }
    out
}


// ---------------------------------------------------------------------------
// Decoding
// ---------------------------------------------------------------------------
/// The character an escape code stands for.
fn unescape_exec(c: char) -> (r: Option<char>)
    ensures
        r == unescaped_char(c),
{
    if c == '"' {
        Some('"')
    } else if c == '\\' {
        Some('\\')
    } else if c == 'n' {
        Some('\n')
    } else if c == 't' {
        Some('\t')
    } else if c == 'r' {
        Some('\r')
    } else {
        None
    }
}

/// The characters of a string, in order.
pub(crate) fn chars_of(s: &str) -> (r: Vec<char>)
    ensures
        r@ == s@,
{
    let n = s.unicode_len();
    let mut r: Vec<char> = Vec::new();
    let mut k: usize = 0;
    while k < n
        invariant
            n == s@.len(),
            k <= n,
            r@ == s@.subrange(0, k as int),
        decreases n - k,
    {
        r.push(s.get_char(k));
        proof {
            assert(r@ =~= s@.subrange(0, k + 1 as int));
        }
        k += 1;
    }
    proof {
        assert(s@.subrange(0, n as int) =~= s@);
    }
    r
}

/// Match a fixed literal at position `i`; on success the new position is
/// just past it.
pub(crate) fn expect_lit(v: &Vec<char>, i: usize, lit: &str) -> (r: Option<usize>)
    requires
        i <= v.len(),
    ensures
        match r {
            Some(j) => i <= j <= v.len() && j - i == lit@.len() && after_prefix(
                v@.skip(i as int),
                lit@,
            ) == Some(v@.skip(j as int)),
            None => after_prefix(v@.skip(i as int), lit@) is None,
        },
{
    let n = lit.unicode_len();
    proof {
        assert(v@.skip(i as int).len() == v.len() - i);
    }
    if n > v.len() - i {
        return None;
    }
    let mut k: usize = 0;
    while k < n
        invariant
            n == lit@.len(),
            i <= v.len(),
            i + n <= v.len(),
            k <= n,
            forall|q: int| 0 <= q < k ==> v@[i + q] == lit@[q],
        decreases n - k,
    {
        if v[i + k] != lit.get_char(k) {
            proof {
                let s = v@.skip(i as int);
                assert(s.subrange(0, n as int)[k as int] == v@[i + k]);
                assert(s.subrange(0, n as int) != lit@);
            }
            return None;
        }
        k += 1;
    }
    proof {
        let s = v@.skip(i as int);
        assert forall|q: int| 0 <= q < n implies s.subrange(0, n as int)[q] == lit@[q] by {
            assert(s.subrange(0, n as int)[q] == v@[i + q]);
        }
        assert(s.subrange(0, n as int) =~= lit@);
        assert(s.skip(n as int) =~= v@.skip(i + n));
    }
    Some(i + n)
}

/// Parse a string body (after the opening quote) at position `i`.
pub(crate) fn parse_text_at(v: &Vec<char>, i: usize) -> (r: Option<(String, usize)>)
    requires
        i <= v.len(),
    ensures
        match r {
            Some((t, j)) => i < j <= v.len() && parse_text(v@.skip(i as int)) == Some(
                (t@, v@.skip(j as int)),
            ),
            None => parse_text(v@.skip(i as int)) is None,
        },
    decreases v.len() - i,
{
    proof {
        assert(v@.skip(i as int).len() == v.len() - i);
    }
    if i == v.len() {
        return None;
    }
    let c = v[i];
    proof {
        assert(v@.skip(i as int)[0] == v@[i as int]);
    }
    if c == '"' {
        proof {
            assert(v@.skip(i as int).skip(1) =~= v@.skip(i + 1));
        }
        let t = String::new();
        return Some((t, i + 1));
    }
    if c == '\\' {
        if v.len() - i == 1 {
            return None;
        }
        let code = v[i + 1];
        proof {
            assert(v@.skip(i as int)[1] == v@[i + 1]);
        }
        match unescape_exec(code) {
            None => None,
            Some(c0) => {
                proof {
                    assert(v@.skip(i as int).skip(2) =~= v@.skip(i + 2));
                }
                match parse_text_at(v, i + 2) {
                    None => None,
                    Some((t, j)) => {
                        let mut out = String::new();
                        push_char(&mut out, c0);
                        out.append(t.as_str());
                        proof {
                            assert(out@ =~= seq![c0] + t@);
                        }
                        Some((out, j))
                    },
                }
            },
        }
    } else {
        proof {
            assert(v@.skip(i as int).skip(1) =~= v@.skip(i + 1));
        }
        match parse_text_at(v, i + 1) {
            None => None,
            Some((t, j)) => {
                let mut out = String::new();
                push_char(&mut out, c);
                out.append(t.as_str());
                proof {
                    assert(out@ =~= seq![c] + t@);
                }
                Some((out, j))
            },
        }
    }
}

/// Parse a quoted string at position `i`.
fn parse_quoted_at(v: &Vec<char>, i: usize) -> (r: Option<(String, usize)>)
    requires
        i <= v.len(),
    ensures
        match r {
            Some((t, j)) => i < j <= v.len() && parse_quoted(v@.skip(i as int)) == Some(
                (t@, v@.skip(j as int)),
            ),
            None => parse_quoted(v@.skip(i as int)) is None,
        },
{
    proof {
        assert(v@.skip(i as int).len() == v.len() - i);
    }
    if i < v.len() && v[i] == '"' {
        proof {
            assert(v@.skip(i as int)[0] == v@[i as int]);
            assert(v@.skip(i as int).skip(1) =~= v@.skip(i + 1));
        }
        parse_text_at(v, i + 1)
    } else {
        proof {
            if i < v.len() {
                assert(v@.skip(i as int)[0] == v@[i as int]);
            }
        }
        None
    }
}

/// Parse one tool call at position `i`.
fn parse_tool_call_at(v: &Vec<char>, i: usize) -> (r: Option<(ToolCall, usize)>)
    requires
        i <= v.len(),
    ensures
        match r {
            Some((t, j)) => i < j <= v.len() && parse_tool_call(v@.skip(i as int)) == Some(
                (t@, v@.skip(j as int)),
            ),
            None => parse_tool_call(v@.skip(i as int)) is None,
        },
{
    let j1 = match expect_lit(v, i, "{\"id\":") {
        None => {
            return None;
        },
        Some(j) => j,
    };
    let (id, j2) = match parse_quoted_at(v, j1) {
        None => {
            return None;
        },
        Some(x) => x,
    };
    let j3 = match expect_lit(v, j2, ",\"name\":") {
        None => {
            return None;
        },
        Some(j) => j,
    };
    let (name, j4) = match parse_quoted_at(v, j3) {
        None => {
            return None;
        },
        Some(x) => x,
    };
    let j5 = match expect_lit(v, j4, ",\"arguments\":") {
        None => {
            return None;
        },
        Some(j) => j,
    };
    let (arguments, j6) = match parse_quoted_at(v, j5) {
        None => {
            return None;
        },
        Some(x) => x,
    };
    let j7 = match expect_lit(v, j6, "}") {
        None => {
            return None;
        },
        Some(j) => j,
    };
    let t = ToolCall { id, name, arguments };
    Some((t, j7))
}

/// Parse the continuation of a tool-call list at position `i`.
fn parse_tool_calls_rest_at(v: &Vec<char>, i: usize) -> (r: Option<(Vec<ToolCall>, usize)>)
    requires
        i <= v.len(),
    ensures
        match r {
            Some((ts, j)) => i < j <= v.len() && parse_tool_calls_rest(v@.skip(i as int)) == Some(
                (ts.deep_view(), v@.skip(j as int)),
            ),
            None => parse_tool_calls_rest(v@.skip(i as int)) is None,
        },
    decreases v.len() - i,
{
    proof {
        assert(v@.skip(i as int).len() == v.len() - i);
    }
    if i == v.len() {
        return None;
    }
    let c = v[i];
    proof {
        assert(v@.skip(i as int)[0] == v@[i as int]);
    }
    if c == ']' {
        proof {
            assert(v@.skip(i as int).skip(1) =~= v@.skip(i + 1));
        }
        let ts: Vec<ToolCall> = Vec::new();
        proof {
            assert(ts.deep_view() =~= Seq::<ToolCallView>::empty());
        }
        return Some((ts, i + 1));
    }
    if c == ',' {
        proof {
            assert(v@.skip(i as int).skip(1) =~= v@.skip(i + 1));
        }
        match parse_tool_call_at(v, i + 1) {
            None => None,
            Some((t, j)) => {
                match parse_tool_calls_rest_at(v, j) {
                    None => None,
                    Some((mut ts, j2)) => {
                        let ghost prev_raw = ts@;
                        let ghost prev_dv = ts.deep_view();
                        ts.insert(0, t);
                        proof {
                            let dv = ts.deep_view();
                            let target = seq![t@] + prev_dv;
                            assert(ts@ == prev_raw.insert(0, t));
                            assert(prev_dv.len() == prev_raw.len());
                            assert forall|q: int| 0 <= q < dv.len() implies dv[q] == target[q] by {
                                if q == 0 {
                                    assert(ts@[0] == t);
                                } else {
                                    assert(ts@[q] == prev_raw[q - 1]);
                                    assert(prev_dv[q - 1] == prev_raw[q - 1].deep_view());
                                }
                            }
                            assert(dv =~= target);
                        }
                        Some((ts, j2))
                    },
                }
            },
        }
    } else {
        None
    }
}

/// Parse a tool-call list at position `i`.
fn parse_tool_calls_at(v: &Vec<char>, i: usize) -> (r: Option<(Vec<ToolCall>, usize)>)
    requires
        i <= v.len(),
    ensures
        match r {
            Some((ts, j)) => i < j <= v.len() && parse_tool_calls(v@.skip(i as int)) == Some(
                (ts.deep_view(), v@.skip(j as int)),
            ),
            None => parse_tool_calls(v@.skip(i as int)) is None,
        },
{
    proof {
        assert(v@.skip(i as int).len() == v.len() - i);
        if i < v.len() {
            assert(v@.skip(i as int)[0] == v@[i as int]);
        }
        if i + 1 < v.len() {
            assert(v@.skip(i as int)[1] == v@[i + 1]);
        }
    }
    if v.len() - i >= 2 && v[i] == '[' && v[i + 1] == ']' {
        proof {
            assert(v@.skip(i as int).skip(2) =~= v@.skip(i + 2));
        }
        let ts: Vec<ToolCall> = Vec::new();
        proof {
            assert(ts.deep_view() =~= Seq::<ToolCallView>::empty());
        }
        return Some((ts, i + 2));
    }
    if v.len() - i >= 1 && v[i] == '[' {
        proof {
            assert(v@.skip(i as int).skip(1) =~= v@.skip(i + 1));
        }
        match parse_tool_call_at(v, i + 1) {
            None => None,
            Some((t, j)) => {
                match parse_tool_calls_rest_at(v, j) {
                    None => None,
                    Some((mut ts, j2)) => {
                        let ghost prev_raw = ts@;
                        let ghost prev_dv = ts.deep_view();
                        ts.insert(0, t);
                        proof {
                            let dv = ts.deep_view();
                            let target = seq![t@] + prev_dv;
                            assert(ts@ == prev_raw.insert(0, t));
                            assert(prev_dv.len() == prev_raw.len());
                            assert forall|q: int| 0 <= q < dv.len() implies dv[q] == target[q] by {
                                if q == 0 {
                                    assert(ts@[0] == t);
                                } else {
                                    assert(ts@[q] == prev_raw[q - 1]);
                                    assert(prev_dv[q - 1] == prev_raw[q - 1].deep_view());
                                }
                            }
                            assert(dv =~= target);
                        }
                        Some((ts, j2))
                    },
                }
            },
        }
    } else {
        None
    }
}

/// Parse an optional string field at position `i`.
fn parse_opt_at(v: &Vec<char>, i: usize) -> (r: Option<(Option<String>, usize)>)
    requires
        i <= v.len(),
    ensures
        match r {
            Some((o, j)) => i < j <= v.len() && parse_opt_text(v@.skip(i as int)) == Some(
                (o.deep_view(), v@.skip(j as int)),
            ),
            None => parse_opt_text(v@.skip(i as int)) is None,
        },
{
    proof {
        assert(v@.skip(i as int).len() == v.len() - i);
        if i < v.len() {
            assert(v@.skip(i as int)[0] == v@[i as int]);
        }
    }
    if i < v.len() && v[i] == '"' {
        proof {
            assert(v@.skip(i as int).skip(1) =~= v@.skip(i + 1));
        }
        match parse_text_at(v, i + 1) {
            None => None,
            Some((t, j)) => Some((Some(t), j)),
        }
    } else {
        match expect_lit(v, i, "null") {
            None => None,
            Some(j) => {
                proof {
                    reveal_strlit("null");
                }
                let o: Option<String> = None;
                Some((o, j))
            },
        }
    }
}

/// The role a record name denotes.
fn role_from_name(n: &String) -> (r: Option<Role>)
    ensures
        r == role_of_name(n@),
{
    if *n == String::from_str("system") {
        Some(Role::System)
    } else if *n == String::from_str("user") {
        Some(Role::User)
    } else if *n == String::from_str("assistant") {
        Some(Role::Assistant)
    } else if *n == String::from_str("tool") {
        Some(Role::Tool)
    } else {
        None
    }
}

/// Parse one message at position `i`.
fn parse_message_at(v: &Vec<char>, i: usize) -> (r: Option<(Message, usize)>)
    requires
        i <= v.len(),
    ensures
        match r {
            Some((m, j)) => i < j <= v.len() && parse_message(v@.skip(i as int)) == Some(
                (m@, v@.skip(j as int)),
            ),
            None => parse_message(v@.skip(i as int)) is None,
        },
{
    let j1 = match expect_lit(v, i, "{\"role\":") {
        None => {
            return None;
        },
        Some(j) => j,
    };
    let (rname, j2) = match parse_quoted_at(v, j1) {
        None => {
            return None;
        },
        Some(x) => x,
    };
    let role = match role_from_name(&rname) {
        None => {
            return None;
        },
        Some(role) => role,
    };
    let j3 = match expect_lit(v, j2, ",\"content\":") {
        None => {
            return None;
        },
        Some(j) => j,
    };
    let (content, j4) = match parse_quoted_at(v, j3) {
        None => {
            return None;
        },
        Some(x) => x,
    };
    let j5 = match expect_lit(v, j4, ",\"tool_calls\":") {
        None => {
            return None;
        },
        Some(j) => j,
    };
    let (tool_calls, j6) = match parse_tool_calls_at(v, j5) {
        None => {
            return None;
        },
        Some(x) => x,
    };
    let j7 = match expect_lit(v, j6, ",\"tool_call_id\":") {
        None => {
            return None;
        },
        Some(j) => j,
    };
    let (tool_call_id, j8) = match parse_opt_at(v, j7) {
        None => {
            return None;
        },
        Some(x) => x,
    };
    let j9 = match expect_lit(v, j8, "}") {
        None => {
            return None;
        },
        Some(j) => j,
    };
    let m = Message { role, content, tool_calls, tool_call_id };
    Some((m, j9))
}

/// Parse the continuation of a message list at position `i`.
fn parse_messages_rest_at(v: &Vec<char>, i: usize) -> (r: Option<(Vec<Message>, usize)>)
    requires
        i <= v.len(),
    ensures
        match r {
            Some((ms, j)) => i < j <= v.len() && parse_messages_rest(v@.skip(i as int)) == Some(
                (ms.deep_view(), v@.skip(j as int)),
            ),
            None => parse_messages_rest(v@.skip(i as int)) is None,
        },
    decreases v.len() - i,
{
    proof {
        assert(v@.skip(i as int).len() == v.len() - i);
    }
    if i == v.len() {
        return None;
    }
    let c = v[i];
    proof {
        assert(v@.skip(i as int)[0] == v@[i as int]);
    }
    if c == ']' {
        proof {
            assert(v@.skip(i as int).skip(1) =~= v@.skip(i + 1));
        }
        let ms: Vec<Message> = Vec::new();
        proof {
            assert(ms.deep_view() =~= Seq::<MessageView>::empty());
        }
        return Some((ms, i + 1));
    }
    if c == ',' {
        proof {
            assert(v@.skip(i as int).skip(1) =~= v@.skip(i + 1));
        }
        match parse_message_at(v, i + 1) {
            None => None,
            Some((m, j)) => {
                match parse_messages_rest_at(v, j) {
                    None => None,
                    Some((mut ms, j2)) => {
                        let ghost prev_raw = ms@;
                        let ghost prev_dv = ms.deep_view();
                        ms.insert(0, m);
                        proof {
                            let dv = ms.deep_view();
                            let target = seq![m@] + prev_dv;
                            assert(ms@ == prev_raw.insert(0, m));
                            assert(prev_dv.len() == prev_raw.len());
                            assert forall|q: int| 0 <= q < dv.len() implies dv[q] == target[q] by {
                                if q == 0 {
                                    assert(ms@[0] == m);
                                } else {
                                    assert(ms@[q] == prev_raw[q - 1]);
                                    assert(prev_dv[q - 1] == prev_raw[q - 1].deep_view());
                                }
                            }
                            assert(dv =~= target);
                        }
                        Some((ms, j2))
                    },
                }
            },
        }
    } else {
        None
    }
}

/// Parse a message list at position `i`.
fn parse_messages_at(v: &Vec<char>, i: usize) -> (r: Option<(Vec<Message>, usize)>)
    requires
        i <= v.len(),
    ensures
        match r {
            Some((ms, j)) => i < j <= v.len() && parse_messages(v@.skip(i as int)) == Some(
                (ms.deep_view(), v@.skip(j as int)),
            ),
            None => parse_messages(v@.skip(i as int)) is None,
        },
{
    proof {
        assert(v@.skip(i as int).len() == v.len() - i);
        if i < v.len() {
            assert(v@.skip(i as int)[0] == v@[i as int]);
        }
        if i + 1 < v.len() {
            assert(v@.skip(i as int)[1] == v@[i + 1]);
        }
    }
    if v.len() - i >= 2 && v[i] == '[' && v[i + 1] == ']' {
        proof {
            assert(v@.skip(i as int).skip(2) =~= v@.skip(i + 2));
        }
        let ms: Vec<Message> = Vec::new();
        proof {
            assert(ms.deep_view() =~= Seq::<MessageView>::empty());
        }
        return Some((ms, i + 2));
    }
    if v.len() - i >= 1 && v[i] == '[' {
        proof {
            assert(v@.skip(i as int).skip(1) =~= v@.skip(i + 1));
        }
        match parse_message_at(v, i + 1) {
            None => None,
            Some((m, j)) => {
                match parse_messages_rest_at(v, j) {
                    None => None,
                    Some((mut ms, j2)) => {
                        let ghost prev_raw = ms@;
                        let ghost prev_dv = ms.deep_view();
                        ms.insert(0, m);
                        proof {
                            let dv = ms.deep_view();
                            let target = seq![m@] + prev_dv;
                            assert(ms@ == prev_raw.insert(0, m));
                            assert(prev_dv.len() == prev_raw.len());
                            assert forall|q: int| 0 <= q < dv.len() implies dv[q] == target[q] by {
                                if q == 0 {
                                    assert(ms@[0] == m);
                                } else {
                                    assert(ms@[q] == prev_raw[q - 1]);
                                    assert(prev_dv[q - 1] == prev_raw[q - 1].deep_view());
                                }
                            }
                            assert(dv =~= target);
                        }
                        Some((ms, j2))
                    },
                }
            },
        }
    } else {
        None
    }
}

/// Decode a durable session record. Fails with a data error on any text that
/// is not the canonical record of some session.
pub fn decode_session(text: &str) -> (r: Result<Session, crate::errors::PicoError>)
    ensures
        match r {
            Ok(sess) => parse_session_doc(text@) == Some(sess@),
            Err(e) => parse_session_doc(text@) is None,
        },
{
    let v = chars_of(text);
    proof {
        assert(v@.skip(0) =~= text@);
    }
    let j1 = match expect_lit(&v, 0, "{\"key\":") {
        None => {
            return Err(crate::errors::PicoError::Data(
                String::from_str("malformed session record"),
            ));
        },
        Some(j) => j,
    };
    let (key, j2) = match parse_quoted_at(&v, j1) {
        None => {
            return Err(crate::errors::PicoError::Data(
                String::from_str("malformed session record"),
            ));
        },
        Some(x) => x,
    };
    let j3 = match expect_lit(&v, j2, ",\"messages\":") {
        None => {
            return Err(crate::errors::PicoError::Data(
                String::from_str("malformed session record"),
            ));
        },
        Some(j) => j,
    };
    let (messages, j4) = match parse_messages_at(&v, j3) {
        None => {
            return Err(crate::errors::PicoError::Data(
                String::from_str("malformed session record"),
            ));
        },
        Some(x) => x,
    };
    let j5 = match expect_lit(&v, j4, "}") {
        None => {
            return Err(crate::errors::PicoError::Data(
                String::from_str("malformed session record"),
            ));
        },
        Some(j) => j,
    };
    if j5 != v.len() {
        proof {
            assert(v@.skip(j5 as int).len() > 0);
        }
        return Err(crate::errors::PicoError::Data(
            String::from_str("malformed session record"),
        ));
    }
    proof {
        assert(v@.skip(j5 as int).len() == 0);
    }
    let sess = Session { key, messages };
    Ok(sess)
}

} // verus!
