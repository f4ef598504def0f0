//! The session data model: role-tagged messages with tool-call correlation,
//! and the transcript well-formedness invariant.

use vstd::prelude::*;

verus! {

/// The speaker of one transcript entry.
#[derive(Clone, Copy, PartialEq, Eq, Structural, Debug)]
pub enum Role {
    System,
    User,
    Assistant,
    Tool,
}

/// A provider-issued request to run a named tool. `id` is an opaque
/// correlation token, unique within the assistant message that emits it;
/// `arguments` is the structured parameter payload as document text.
#[derive(PartialEq, Eq, Debug)]
pub struct ToolCall {
    pub id: String,
    pub name: String,
    pub arguments: String,
}

/// Mathematical image of a [`ToolCall`].
#[verifier::ext_equal]
pub struct ToolCallView {
    pub id: Seq<char>,
    pub name: Seq<char>,
    pub arguments: Seq<char>,
}

impl View for ToolCall {
    type V = ToolCallView;

    open spec fn view(&self) -> ToolCallView {
        ToolCallView { id: self.id@, name: self.name@, arguments: self.arguments@ }
    }
}

impl DeepView for ToolCall {
    type V = ToolCallView;

    open spec fn deep_view(&self) -> ToolCallView {
        self@
    }
}

impl Clone for ToolCall {
    fn clone(&self) -> (r: Self)
        ensures
            r == *self,
    {
        ToolCall { id: self.id.clone(), name: self.name.clone(), arguments: self.arguments.clone() }
    }
}

impl ToolCall {
    /// Build a tool call from its three components.
    pub fn new(id: &str, name: &str, arguments: &str) -> (r: ToolCall)
        ensures
            r@ == (ToolCallView { id: id@, name: name@, arguments: arguments@ }),
    {
        ToolCall { id: id.to_owned(), name: name.to_owned(), arguments: arguments.to_owned() }
    }
}

/// One turn in a transcript. `tool_calls` is non-empty only on assistant
/// messages that request tool execution; `tool_call_id` is present exactly
/// on tool-role messages and correlates the result to the call it answers.
#[derive(PartialEq, Eq, Debug)]
pub struct Message {
    pub role: Role,
    pub content: String,
    pub tool_calls: Vec<ToolCall>,
    pub tool_call_id: Option<String>,
}

/// Mathematical image of a [`Message`].
#[verifier::ext_equal]
pub struct MessageView {
    pub role: Role,
    pub content: Seq<char>,
    pub tool_calls: Seq<ToolCallView>,
    pub tool_call_id: Option<Seq<char>>,
}

impl View for Message {
    type V = MessageView;

    open spec fn view(&self) -> MessageView {
        MessageView {
            role: self.role,
            content: self.content@,
            tool_calls: self.tool_calls.deep_view(),
            tool_call_id: self.tool_call_id.deep_view(),
        }
    }
}

impl DeepView for Message {
    type V = MessageView;

    open spec fn deep_view(&self) -> MessageView {
        self@
    }
}

impl Clone for Message {
    fn clone(&self) -> (r: Self)
        ensures
            r@ == self@,
    {
        let tool_call_id = match &self.tool_call_id {
            Some(id) => Some(id.clone()),
            None => None,
        };
        let mut tool_calls: Vec<ToolCall> = Vec::new();
        let mut i: usize = 0;
        while i < self.tool_calls.len()
            invariant
                i <= self.tool_calls.len(),
                tool_calls@ == self.tool_calls@.subrange(0, i as int),
            decreases self.tool_calls.len() - i,
        {
            tool_calls.push(self.tool_calls[i].clone());
            proof {
                assert(tool_calls@ =~= self.tool_calls@.subrange(0, i + 1 as int));
            }
            i = i + 1;
        }
        proof {
            assert(tool_calls@ =~= self.tool_calls@);
        }
        let r = Message { role: self.role, content: self.content.clone(), tool_calls, tool_call_id };
        proof {
            assert(r@ =~= self@);
        }
        r
    }
}

/// The view of a plain text message with the given role: no tool calls,
/// no correlation id.
pub open spec fn plain_message(role: Role, content: Seq<char>) -> MessageView {
    MessageView { role, content, tool_calls: Seq::empty(), tool_call_id: None }
}

/// The view of a tool-result message correlated to the call `id`.
pub open spec fn tool_result_message(id: Seq<char>, content: Seq<char>) -> MessageView {
    MessageView { role: Role::Tool, content, tool_calls: Seq::empty(), tool_call_id: Some(id) }
}

impl Message {
    /// A system-role message carrying the given prompt.
    pub fn system(content: &str) -> (m: Message)
        ensures
            m@ == plain_message(Role::System, content@),
    {
        let m = Message {
            role: Role::System,
            content: content.to_owned(),
            tool_calls: Vec::new(),
            tool_call_id: None,
        };
        proof {
            assert(m@ =~= plain_message(Role::System, content@));
        }
        m
    }

    /// A user-role message carrying inbound content.
    pub fn user(content: &str) -> (m: Message)
        ensures
            m@ == plain_message(Role::User, content@),
    {
        let m = Message {
            role: Role::User,
            content: content.to_owned(),
            tool_calls: Vec::new(),
            tool_call_id: None,
        };
        proof {
            assert(m@ =~= plain_message(Role::User, content@));
        }
        m
    }

    /// An assistant-role answer without tool calls.
    pub fn assistant(content: &str) -> (m: Message)
        ensures
            m@ == plain_message(Role::Assistant, content@),
    {
        let m = Message {
            role: Role::Assistant,
            content: content.to_owned(),
            tool_calls: Vec::new(),
            tool_call_id: None,
        };
        proof {
            assert(m@ =~= plain_message(Role::Assistant, content@));
        }
        m
    }

    /// An assistant-role message that requests the given tool executions;
    /// `content` may be empty or a short narration.
    pub fn assistant_with_tools(content: &str, tool_calls: Vec<ToolCall>) -> (m: Message)
        ensures
            m@ == (MessageView {
                role: Role::Assistant,
                content: content@,
                tool_calls: tool_calls.deep_view(),
                tool_call_id: None,
            }),
    {
        let m = Message {
            role: Role::Assistant,
            content: content.to_owned(),
            tool_calls,
            tool_call_id: None,
        };
        proof {
            assert(m@.tool_calls =~= m.tool_calls.deep_view());
        }
        m
    }

    /// A tool-role message carrying the result for the call `tool_call_id`.
    pub fn tool_result(tool_call_id: &str, content: &str) -> (m: Message)
        ensures
            m@ == tool_result_message(tool_call_id@, content@),
    {
        let m = Message {
            role: Role::Tool,
            content: content.to_owned(),
            tool_calls: Vec::new(),
            tool_call_id: Some(tool_call_id.to_owned()),
        };
        proof {
            assert(m@ =~= tool_result_message(tool_call_id@, content@));
        }
        m
    }

    /// Whether this assistant message requests any tool execution.
    pub fn has_tool_calls(&self) -> (r: bool)
        ensures
            r == (self@.tool_calls.len() > 0),
    {
        self.tool_calls.len() > 0
    }

    /// Whether this message is a tool result (never a user-visible answer).
    pub fn is_tool_result(&self) -> (r: bool)
        ensures
            r == (self@.role == Role::Tool),
    {
        self.role == Role::Tool
    }
}

/// Per-message shape invariant: the correlation id is present exactly on
/// tool-role messages, and only assistant messages carry tool calls.
pub open spec fn msg_wf(m: MessageView) -> bool {
    &&& (m.role == Role::Tool) <==> (m.tool_call_id is Some)
    &&& m.tool_calls.len() > 0 ==> m.role == Role::Assistant
}

/// A tool-role message at index `i` answers a call emitted by a preceding
/// assistant message of the same transcript.
pub open spec fn tool_msg_correlated(ms: Seq<MessageView>, i: int) -> bool {
    exists|j: int, k: int|
        0 <= j < i && 0 <= k < ms[j].tool_calls.len() && ms[j].role == Role::Assistant
            && ms[i].tool_call_id == Some(ms[j].tool_calls[k].id)
}

/// Transcript well-formedness: every message is shaped correctly and every
/// tool result answers a preceding assistant tool call.
pub open spec fn transcript_wf(ms: Seq<MessageView>) -> bool {
    &&& forall|i: int| 0 <= i < ms.len() ==> msg_wf(#[trigger] ms[i])
    &&& forall|i: int|
        0 <= i < ms.len() && (#[trigger] ms[i]).role == Role::Tool ==> tool_msg_correlated(ms, i)
}

/// Appending messages never disturbs correlations already established.
pub proof fn lemma_correlated_extend(ms: Seq<MessageView>, tail: Seq<MessageView>, i: int)
    requires
        0 <= i < ms.len(),
        tool_msg_correlated(ms, i),
    ensures
        tool_msg_correlated(ms + tail, i),
{
    let (j, k) = choose|j: int, k: int|
        0 <= j < i && 0 <= k < ms[j].tool_calls.len() && ms[j].role == Role::Assistant
            && ms[i].tool_call_id == Some((#[trigger] ms[j].tool_calls[k]).id);
    assert((ms + tail)[j] == ms[j]);
    assert((ms + tail)[i] == ms[i]);
}

/// A named, persisted conversation transcript. Message order is insertion
/// order and is the single source of truth for replay: messages are only
/// ever appended, never reordered.
#[derive(PartialEq, Eq, Debug)]
pub struct Session {
    pub key: String,
    pub messages: Vec<Message>,
}

/// Mathematical image of a [`Session`].
#[verifier::ext_equal]
pub struct SessionView {
    pub key: Seq<char>,
    pub messages: Seq<MessageView>,
}

impl View for Session {
    type V = SessionView;

    open spec fn view(&self) -> SessionView {
        SessionView { key: self.key@, messages: self.messages.deep_view() }
    }
}

impl DeepView for Session {
    type V = SessionView;

    open spec fn deep_view(&self) -> SessionView {
        self@
    }
}

impl Clone for Session {
    fn clone(&self) -> (r: Self)
        ensures
            r@ == self@,
    {
        let mut messages: Vec<Message> = Vec::new();
        let mut i: usize = 0;
        while i < self.messages.len()
            invariant
                i <= self.messages.len(),
                messages.deep_view() == self.messages.deep_view().subrange(0, i as int),
            decreases self.messages.len() - i,
        {
            let ghost prev_raw = messages@;
            let ghost prev_dv = messages.deep_view();
            let m = self.messages[i].clone();
            messages.push(m);
            proof {
                let dv = messages.deep_view();
                assert(self.messages.deep_view().len() == self.messages@.len());
                assert(messages@ == prev_raw.push(m));
                assert(prev_dv == self.messages.deep_view().subrange(0, i as int));
                assert(prev_dv.len() == i);
                assert(prev_dv.len() == prev_raw.len());
                let target = self.messages.deep_view().subrange(0, i + 1 as int);
                assert forall|j: int| 0 <= j < dv.len() implies dv[j] == target[j] by {
                    assert(dv[j] == messages@[j].deep_view());
                    if j < i as int {
                        assert(messages@[j] == prev_raw[j]);
                        assert(prev_dv[j] == prev_raw[j].deep_view());
                        assert(target[j] == prev_dv[j]);
                    } else {
                        assert(messages@[j] == m);
                        assert(target[j] == self.messages@[i as int].deep_view());
                    }
                }
                assert(dv =~= target);
            }
            i = i + 1;
        }
        proof {
            assert(messages.deep_view() =~= self.messages.deep_view());
        }
        let r = Session { key: self.key.clone(), messages };
        proof {
            assert(r@ =~= self@);
        }
        r
    }
}

impl Session {
    /// A new, empty session under the given key.
    pub fn new(key: &str) -> (s: Session)
        ensures
            s@.key == key@,
            s@.messages == Seq::<MessageView>::empty(),
    {
        let s = Session { key: key.to_owned(), messages: Vec::new() };
        proof {
            assert(s@.messages =~= Seq::<MessageView>::empty());
        }
        s
    }

    /// Append one message; everything already recorded stays in place.
    pub fn add_message(&mut self, m: Message)
        ensures
            final (self)@.key == old(self)@.key,
            final (self)@.messages == old(self)@.messages.push(m@),
    {
        self.messages.push(m);
        proof {
            assert(self@.messages =~= old(self)@.messages.push(m@));
        }
    }

    /// Whether the transcript holds no message yet.
    pub fn is_empty(&self) -> (r: bool)
        ensures
            r == (self@.messages.len() == 0),
    {
        self.messages.len() == 0
    }

    /// The number of messages in the transcript.
    pub fn len(&self) -> (n: usize)
        ensures
            n == self@.messages.len(),
    {
        self.messages.len()
    }
}

} // verus!
