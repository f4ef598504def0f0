//! The orchestration state machine. One inbound message opens a round: the
//! loop awaits the provider; a final answer closes the round, one or more
//! tool calls open a tool-execution batch whose results are appended in call
//! order before the provider is asked again. A configurable round limit
//! bounds the number of tool batches; reaching it closes the round with a
//! synthesized answer that is persisted and returned like any other.
//!
//! Waiting itself — the provider call, the concurrent tool executions, the
//! per-key serialization of inbound messages — happens outside the library,
//! which only decides: every transition here is a function from state and
//! event to the next state.

use crate::errors::{ToolError, ToolErrorView};
use crate::session::{
    plain_message, tool_result_message, transcript_wf, Message, MessageView, Role, Session,
    SessionView, ToolCall, ToolCallView,
};
use vstd::prelude::*;
use vstd::string::*;

verus! {

/// Where a round stands.
#[derive(Clone, Copy, PartialEq, Eq, Structural, Debug)]
pub enum RoundPhase {
    /// The context has been built; the provider's answer is awaited.
    AwaitingProvider,
    /// An assistant message with tool calls was appended; their results are
    /// awaited.
    ExecutingTools,
    /// A final answer was appended; the session must be persisted and the
    /// reply emitted.
    Done,
}

/// What the provider answered: a final text, or a request to run tools.
pub enum ProviderResponse {
    Final { text: String },
    ToolCalls { narration: String, calls: Vec<ToolCall> },
}

/// Mathematical image of a [`ProviderResponse`].
pub enum ProviderResponseView {
    Final { text: Seq<char> },
    ToolCalls { narration: Seq<char>, calls: Seq<ToolCallView> },
}

impl View for ProviderResponse {
    type V = ProviderResponseView;

    open spec fn view(&self) -> ProviderResponseView {
        match self {
            ProviderResponse::Final { text } => ProviderResponseView::Final { text: text@ },
            ProviderResponse::ToolCalls { narration, calls } => ProviderResponseView::ToolCalls {
                narration: narration@,
                calls: calls.deep_view(),
            },
        }
    }
}

/// One in-flight round over a session.
pub struct AgentRound {
    session: Session,
    limit: u64,
    rounds_used: u64,
    pending: Vec<ToolCall>,
    reply: Option<String>,
    phase: RoundPhase,
}

/// Mathematical image of an [`AgentRound`].
#[verifier::ext_equal]
pub struct RoundView {
    pub session: SessionView,
    pub limit: u64,
    pub rounds_used: u64,
    pub pending: Seq<ToolCallView>,
    pub reply: Option<Seq<char>>,
    pub phase: RoundPhase,
}

impl View for AgentRound {
    type V = RoundView;

    closed spec fn view(&self) -> RoundView {
        RoundView {
            session: self.session@,
            limit: self.limit,
            rounds_used: self.rounds_used,
            pending: self.pending.deep_view(),
            reply: self.reply.deep_view(),
            phase: self.phase,
        }
    }
}

/// The synthesized final answer when the round limit is reached.
pub open spec fn limit_notice() -> Seq<char> {
    "Tool-call limit reached; stopping here."@
}

/// Opening a round: the inbound content is appended as a user message and
/// the provider is awaited.
pub open spec fn start_spec(s: SessionView, content: Seq<char>, limit: u64) -> RoundView {
    RoundView {
        session: SessionView {
            key: s.key,
            messages: s.messages.push(plain_message(Role::User, content)),
        },
        limit,
        rounds_used: 0,
        pending: Seq::empty(),
        reply: None,
        phase: RoundPhase::AwaitingProvider,
    }
}

/// The provider answered. A final text — or an empty tool-call list — closes
/// the round with that answer appended. Tool calls past the round limit
/// close the round with the synthesized limit notice. Otherwise the
/// assistant message carrying the calls is appended and their execution
/// begins.
pub open spec fn provider_turn_spec(r: RoundView, resp: ProviderResponseView) -> RoundView {
    match resp {
        ProviderResponseView::Final { text } => RoundView {
            session: SessionView {
                key: r.session.key,
                messages: r.session.messages.push(plain_message(Role::Assistant, text)),
            },
            reply: Some(text),
            phase: RoundPhase::Done,
            ..r
        },
        ProviderResponseView::ToolCalls { narration, calls } => {
            if calls.len() == 0 {
                RoundView {
                    session: SessionView {
                        key: r.session.key,
                        messages: r.session.messages.push(
                            plain_message(Role::Assistant, narration),
                        ),
                    },
                    reply: Some(narration),
                    phase: RoundPhase::Done,
                    ..r
                }
            } else if r.rounds_used >= r.limit {
                RoundView {
                    session: SessionView {
                        key: r.session.key,
                        messages: r.session.messages.push(
                            plain_message(Role::Assistant, limit_notice()),
                        ),
                    },
                    reply: Some(limit_notice()),
                    phase: RoundPhase::Done,
                    ..r
                }
            } else {
                RoundView {
                    session: SessionView {
                        key: r.session.key,
                        messages: r.session.messages.push(
                            MessageView {
                                role: Role::Assistant,
                                content: narration,
                                tool_calls: calls,
                                tool_call_id: None,
                            },
                        ),
                    },
                    rounds_used: (r.rounds_used + 1) as u64,
                    pending: calls,
                    phase: RoundPhase::ExecutingTools,
                    ..r
                }
            }
        },
    }
}

/// The text a tool result contributes to the transcript: the returned text,
/// or the error's description behind a fixed marker.
pub open spec fn result_text(r: Result<Seq<char>, ToolErrorView>) -> Seq<char> {
    match r {
        Ok(t) => t,
        Err(e) => "Error: "@ + e.message,
    }
}

/// The tool-role messages a batch of results appends: one per call, in call
/// order, each correlated to its call's id.
pub open spec fn tool_result_messages(
    calls: Seq<ToolCallView>,
    results: Seq<Result<Seq<char>, ToolErrorView>>,
) -> Seq<MessageView> {
    Seq::new(calls.len(), |i: int| tool_result_message(calls[i].id, result_text(results[i])))
}

/// All tool results of the batch arrived: their messages are appended in
/// call order and the provider is awaited again.
pub open spec fn tool_results_turn_spec(
    r: RoundView,
    results: Seq<Result<Seq<char>, ToolErrorView>>,
) -> RoundView {
    RoundView {
        session: SessionView {
            key: r.session.key,
            messages: r.session.messages + tool_result_messages(r.pending, results),
        },
        pending: Seq::empty(),
        phase: RoundPhase::AwaitingProvider,
        ..r
    }
}

/// Mathematical image of a batch of executed results.
pub open spec fn results_view(rs: Seq<Result<String, ToolError>>) -> Seq<
    Result<Seq<char>, ToolErrorView>,
> {
    rs.map_values(
        |r: Result<String, ToolError>|
            match r {
                Ok(t) => Ok(t@),
                Err(e) => Err(e@),
            },
    )
}

impl AgentRound {
    /// Open a round for one inbound message over the given session.
    pub fn start(session: Session, content: &str, limit: u64) -> (r: AgentRound)
        ensures
            r@ == start_spec(session@, content@, limit),
    {
        let mut session = session;
        let ghost sv = session@;
        session.add_message(Message::user(content));
        let r = AgentRound {
            session,
            limit,
            rounds_used: 0,
            pending: Vec::new(),
            reply: None,
            phase: RoundPhase::AwaitingProvider,
        };
        proof {
            assert(r@.pending =~= Seq::<ToolCallView>::empty());
            assert(r@ =~= start_spec(sv, content@, limit));
        }
        r
    }

    /// Where the round stands.
    pub fn phase(&self) -> (p: RoundPhase)
        ensures
            p == self@.phase,
    {
        self.phase
    }

    /// The round's session, to render the next context or to persist.
    pub fn session(&self) -> (s: &Session)
        ensures
            s@ == self@.session,
    {
        &self.session
    }

    /// The calls awaiting execution, in the order the provider issued them.
    pub fn pending_calls(&self) -> (c: &Vec<ToolCall>)
        ensures
            c.deep_view() == self@.pending,
    {
        &self.pending
    }

    /// The reply to emit once the round is done.
    pub fn reply(&self) -> (r: &Option<String>)
        ensures
            r.deep_view() == self@.reply,
    {
        &self.reply
    }

    /// Close the round and hand the session back for persistence.
    pub fn into_session(self) -> (s: Session)
        ensures
            s@ == self@.session,
    {
        self.session
    }

    /// Feed the provider's answer into the round.
    pub fn on_provider_response(&mut self, resp: ProviderResponse)
        requires
            old(self)@.phase == RoundPhase::AwaitingProvider,
        ensures
            final (self)@ == provider_turn_spec(old(self)@, resp@),
    {
        match resp {
            ProviderResponse::Final { text } => {
                self.session.add_message(Message::assistant(text.as_str()));
                self.reply = Some(text);
                self.phase = RoundPhase::Done;
            },
            ProviderResponse::ToolCalls { narration, calls } => {
                if calls.len() == 0 {
                    self.session.add_message(Message::assistant(narration.as_str()));
                    self.reply = Some(narration);
                    self.phase = RoundPhase::Done;
                } else if self.rounds_used >= self.limit {
                    self.session.add_message(
                        Message::assistant("Tool-call limit reached; stopping here."),
                    );
                    self.reply = Some(String::from_str("Tool-call limit reached; stopping here."));
                    self.phase = RoundPhase::Done;
                } else {
                    let pending = clone_calls(&calls);
                    self.session.add_message(
                        Message::assistant_with_tools(narration.as_str(), calls),
                    );
                    self.pending = pending;
                    self.rounds_used = self.rounds_used + 1;
                    self.phase = RoundPhase::ExecutingTools;
                }
            },
        }
    }

    /// Feed a whole batch of tool results, aligned with the pending calls,
    /// into the round: their messages are appended in call order even where
    /// execution was concurrent.
    pub fn on_tool_results(&mut self, results: Vec<Result<String, ToolError>>)
        requires
            old(self)@.phase == RoundPhase::ExecutingTools,
            results@.len() == old(self)@.pending.len(),
        ensures
            final (self)@ == tool_results_turn_spec(old(self)@, results_view(results@)),
    {
        let ghost rv = results_view(results@);
        let ghost pending0 = self@.pending;
        let ghost base = self@.session.messages;
        let n = self.pending.len();
        let mut i: usize = 0;
        while i < n
            invariant
                n == self.pending@.len(),
                i <= n,
                results@.len() == n,
                self.pending.deep_view() == pending0,
                rv == results_view(results@),
                self@.session.key == old(self)@.session.key,
                self@.session.messages == base + tool_result_messages(pending0, rv).subrange(
                    0,
                    i as int,
                ),
                self.limit == old(self).limit,
                self.rounds_used == old(self).rounds_used,
                self.reply.deep_view() == old(self)@.reply,
                self.phase == old(self).phase,
            decreases n - i,
        {
            let text: String = match &results[i] {
                Ok(t) => t.clone(),
                Err(e) => {
                    let mut m = String::from_str("Error: ");
                    m.append(e.message_text().as_str());
                    m
                },
            };
            let msg = Message::tool_result(self.pending[i].id.as_str(), text.as_str());
            proof {
                assert(rv[i as int] == results_view(results@)[i as int]);
                assert(pending0[i as int] == self.pending@[i as int]@);
                assert(msg@ == tool_result_messages(pending0, rv)[i as int]);
            }
            let ghost before = self@.session.messages;
            self.session.add_message(msg);
            proof {
                assert(self@.session.messages =~= base + tool_result_messages(
                    pending0,
                    rv,
                ).subrange(0, i + 1 as int));
            }
            i += 1;
        }
        self.pending = Vec::new();
        self.phase = RoundPhase::AwaitingProvider;
        proof {
            assert(tool_result_messages(pending0, rv).subrange(0, n as int)
                =~= tool_result_messages(pending0, rv));
            assert(self.pending.deep_view() =~= Seq::<ToolCallView>::empty());
            assert(self@ =~= tool_results_turn_spec(old(self)@, rv));
        }
    }
}

/// Copy a call list; the copy reads the same.
fn clone_calls(calls: &Vec<ToolCall>) -> (r: Vec<ToolCall>)
    ensures
        r.deep_view() == calls.deep_view(),
        r@ == calls@,
{
    let mut r: Vec<ToolCall> = Vec::new();
    let mut i: usize = 0;
    while i < calls.len()
        invariant
            i <= calls.len(),
            r@ == calls@.subrange(0, i as int),
        decreases calls.len() - i,
    {
        r.push(calls[i].clone());
        proof {
            assert(r@ =~= calls@.subrange(0, i + 1 as int));
        }
        i += 1;
    }
    proof {
        assert(r@ =~= calls@);
    }
    r
}


// ---------------------------------------------------------------------------
// Laws of the round
// ---------------------------------------------------------------------------
/// A round in a good state: its transcript is well formed, and while tools
/// execute, the last message is the assistant message carrying exactly the
/// pending calls.
pub open spec fn round_wf(r: RoundView) -> bool {
    &&& transcript_wf(r.session.messages)
    &&& r.phase == RoundPhase::ExecutingTools ==> {
        &&& r.pending.len() > 0
        &&& r.session.messages.len() > 0
        &&& r.session.messages.last().role == Role::Assistant
        &&& r.session.messages.last().tool_calls == r.pending
        &&& r.session.messages.last().tool_call_id is None
    }
}

/// Opening a round preserves transcript well-formedness: the appended user
/// message disturbs no correlation.
pub proof fn lemma_start_wf(s: SessionView, content: Seq<char>, limit: u64)
    requires
        transcript_wf(s.messages),
    ensures
        round_wf(start_spec(s, content, limit)),
{
    let ms = s.messages;
    let m = plain_message(Role::User, content);
    let out = ms.push(m);
    assert(out =~= ms + seq![m]);
    assert forall|i: int| 0 <= i < out.len() implies crate::session::msg_wf(#[trigger] out[i]) by {
        if i < ms.len() {
            assert(out[i] == ms[i]);
        } else {
            assert(out[i] == m);
        }
    }
    assert forall|i: int|
        0 <= i < out.len() && (#[trigger] out[i]).role
            == Role::Tool implies crate::session::tool_msg_correlated(out, i) by {
        assert(out[i] == ms[i]);
        crate::session::lemma_correlated_extend(ms, seq![m], i);
    }
}

/// The provider turn preserves the round's good state: every answer appends
/// one well-formed assistant message, and tool calls leave it as the last
/// message with exactly the pending calls.
pub proof fn lemma_provider_turn_wf(r: RoundView, resp: ProviderResponseView)
    requires
        round_wf(r),
        r.phase == RoundPhase::AwaitingProvider,
    ensures
        round_wf(provider_turn_spec(r, resp)),
{
    let ms = r.session.messages;
    let m = match resp {
        ProviderResponseView::Final { text } => plain_message(Role::Assistant, text),
        ProviderResponseView::ToolCalls { narration, calls } => {
            if calls.len() == 0 {
                plain_message(Role::Assistant, narration)
            } else if r.rounds_used >= r.limit {
                plain_message(Role::Assistant, limit_notice())
            } else {
                MessageView {
                    role: Role::Assistant,
                    content: narration,
                    tool_calls: calls,
                    tool_call_id: None,
                }
            }
        },
    };
    let out = ms.push(m);
    assert(out =~= ms + seq![m]);
    assert forall|i: int| 0 <= i < out.len() implies crate::session::msg_wf(#[trigger] out[i]) by {
        if i < ms.len() {
            assert(out[i] == ms[i]);
        } else {
            assert(out[i] == m);
        }
    }
    assert forall|i: int|
        0 <= i < out.len() && (#[trigger] out[i]).role
            == Role::Tool implies crate::session::tool_msg_correlated(out, i) by {
        assert(out[i] == ms[i]);
        crate::session::lemma_correlated_extend(ms, seq![m], i);
    }
    assert(provider_turn_spec(r, resp).session.messages == out);
    assert(out.last() == m);
}

/// Appending a batch of tool results preserves the round's good state; each
/// result message is correlated to a call of the assistant message right
/// before the batch, and the batch keeps call order. This is the ordering
/// invariant of the transcript: replaying the persisted list reproduces the
/// appends, tool results after their calls, in call order.
pub proof fn lemma_tool_results_wf(r: RoundView, results: Seq<Result<Seq<char>, ToolErrorView>>)
    requires
        round_wf(r),
        r.phase == RoundPhase::ExecutingTools,
        results.len() == r.pending.len(),
    ensures
        round_wf(tool_results_turn_spec(r, results)),
{
    let ms = r.session.messages;
    let tail = tool_result_messages(r.pending, results);
    let out = ms + tail;
    assert forall|i: int| 0 <= i < out.len() implies crate::session::msg_wf(#[trigger] out[i]) by {
        if i < ms.len() {
            assert(out[i] == ms[i]);
        } else {
            assert(out[i] == tail[i - ms.len()]);
        }
    }
    assert forall|i: int|
        0 <= i < out.len() && (#[trigger] out[i]).role
            == Role::Tool implies crate::session::tool_msg_correlated(out, i) by {
        if i < ms.len() {
            assert(out[i] == ms[i]);
            crate::session::lemma_correlated_extend(ms, tail, i);
        } else {
            let q = i - ms.len();
            let j = ms.len() - 1;
            assert(out[i] == tail[q]);
            assert(out[j] == ms.last());
            assert(out[j].tool_calls == r.pending);
            assert(out[i].tool_call_id == Some(r.pending[q].id));
            assert(0 <= j < i && 0 <= q < out[j].tool_calls.len() && out[j].role == Role::Assistant
                && out[i].tool_call_id == Some(out[j].tool_calls[q].id));
        }
    }
    assert(tool_results_turn_spec(r, results).session.messages == out);
}

// ---------------------------------------------------------------------------
// Termination under the round limit
// ---------------------------------------------------------------------------
/// One full cycle: a provider turn and, if it opened a tool batch, the
/// results turn that closes the batch.
pub open spec fn cycle_spec(
    r: RoundView,
    resp: ProviderResponseView,
    results: Seq<Result<Seq<char>, ToolErrorView>>,
) -> RoundView {
    let r1 = provider_turn_spec(r, resp);
    if r1.phase == RoundPhase::ExecutingTools {
        tool_results_turn_spec(r1, results)
    } else {
        r1
    }
}

/// Run cycles until the responses run out or the round is done.
pub open spec fn run_cycles(
    r: RoundView,
    resps: Seq<ProviderResponseView>,
    results: Seq<Seq<Result<Seq<char>, ToolErrorView>>>,
) -> RoundView
    decreases resps.len(),
{
    if resps.len() == 0 || r.phase != RoundPhase::AwaitingProvider {
        r
    } else {
        run_cycles(cycle_spec(r, resps[0], results[0]), resps.skip(1), results.skip(1))
    }
}

/// Every response requests at least one tool call.
pub open spec fn all_tool_calls(resps: Seq<ProviderResponseView>) -> bool {
    forall|i: int|
        0 <= i < resps.len() ==> ((#[trigger] resps[i]) matches ProviderResponseView::ToolCalls {
            narration,
            calls,
        } && calls.len() > 0)
}

/// Termination: however the tools answer, a provider that always requests
/// tool calls drives the round to Done within the configured limit of
/// cycles, and the round closes with the synthesized limit notice as its
/// reply — persisted and returned like any normal final answer.
pub proof fn lemma_round_limit_termination(
    r: RoundView,
    resps: Seq<ProviderResponseView>,
    results: Seq<Seq<Result<Seq<char>, ToolErrorView>>>,
)
    requires
        r.phase == RoundPhase::AwaitingProvider,
        r.rounds_used <= r.limit,
        resps.len() == results.len(),
        resps.len() > r.limit - r.rounds_used,
        all_tool_calls(resps),
    ensures
        run_cycles(r, resps, results).phase == RoundPhase::Done,
        run_cycles(r, resps, results).reply == Some(limit_notice()),
        run_cycles(r, resps, results).session.messages.len() > 0,
        run_cycles(r, resps, results).session.messages.last() == plain_message(
            Role::Assistant,
            limit_notice(),
        ),
    decreases resps.len(),
{
    let resp = resps[0];
    let r1 = provider_turn_spec(r, resp);
    let c = cycle_spec(r, resps[0], results[0]);
    if r.rounds_used >= r.limit {
        assert(r1.phase == RoundPhase::Done);
        assert(c == r1);
        assert(run_cycles(c, resps.skip(1), results.skip(1)) == c);
    } else {
        assert(r1.phase == RoundPhase::ExecutingTools);
        assert(c.phase == RoundPhase::AwaitingProvider);
        assert(c.rounds_used == r.rounds_used + 1);
        assert(c.limit == r.limit);
        assert forall|i: int|
            0 <= i < resps.skip(1).len() implies ((#[trigger] resps.skip(1)[i])
            matches ProviderResponseView::ToolCalls { narration, calls } && calls.len() > 0) by {
            assert(resps.skip(1)[i] == resps[i + 1]);
        }
        lemma_round_limit_termination(c, resps.skip(1), results.skip(1));
    }
}

// ---------------------------------------------------------------------------
// One user message per inbound, in arrival order
// ---------------------------------------------------------------------------
/// Everything a round appends beyond its base transcript: the inbound user
/// message first, then only non-user messages. Rounds processed one after
/// another therefore append their user messages in arrival order, exactly
/// one each — the serialized-processing guarantee.
pub open spec fn round_extends(base: Seq<MessageView>, content: Seq<char>, r: RoundView) -> bool {
    &&& r.session.messages.len() > base.len()
    &&& r.session.messages.subrange(0, base.len() as int) == base
    &&& r.session.messages[base.len() as int] == plain_message(Role::User, content)
    &&& forall|q: int|
        base.len() < q < r.session.messages.len() ==> (#[trigger] r.session.messages[q]).role
            != Role::User
}

/// Opening a round appends exactly the inbound user message.
pub proof fn lemma_start_extends(s: SessionView, content: Seq<char>, limit: u64)
    ensures
        round_extends(s.messages, content, start_spec(s, content, limit)),
{
    let out = start_spec(s, content, limit).session.messages;
    assert(out.subrange(0, s.messages.len() as int) =~= s.messages);
}

/// A provider turn appends only assistant messages.
pub proof fn lemma_provider_turn_extends(
    base: Seq<MessageView>,
    content: Seq<char>,
    r: RoundView,
    resp: ProviderResponseView,
)
    requires
        round_extends(base, content, r),
    ensures
        round_extends(base, content, provider_turn_spec(r, resp)),
{
    let pre = r.session.messages;
    let out = provider_turn_spec(r, resp).session.messages;
    assert(out.subrange(0, base.len() as int) =~= pre.subrange(0, base.len() as int));
    assert(out[base.len() as int] == pre[base.len() as int]);
    assert forall|q: int|
        base.len() < q < out.len() implies (#[trigger] out[q]).role != Role::User by {
        if q < pre.len() {
            assert(out[q] == pre[q]);
        }
    }
}

/// A tool-results turn appends only tool messages.
pub proof fn lemma_tool_results_extends(
    base: Seq<MessageView>,
    content: Seq<char>,
    r: RoundView,
    results: Seq<Result<Seq<char>, ToolErrorView>>,
)
    requires
        round_extends(base, content, r),
    ensures
        round_extends(base, content, tool_results_turn_spec(r, results)),
{
    let pre = r.session.messages;
    let tail = tool_result_messages(r.pending, results);
    let out = tool_results_turn_spec(r, results).session.messages;
    assert(out =~= pre + tail);
    assert(out.subrange(0, base.len() as int) =~= pre.subrange(0, base.len() as int));
    assert(out[base.len() as int] == pre[base.len() as int]);
    assert forall|q: int|
        base.len() < q < out.len() implies (#[trigger] out[q]).role != Role::User by {
        if q < pre.len() {
            assert(out[q] == pre[q]);
        } else {
            assert(out[q] == tail[q - pre.len()]);
        }
    }
}


/// The user-message contents of a transcript, in order.
pub open spec fn user_contents(ms: Seq<MessageView>) -> Seq<Seq<char>> {
    ms.filter(|m: MessageView| m.role == Role::User).map_values(|m: MessageView| m.content)
}

/// A tail whose first message is the only user message filters down to just
/// that message.
proof fn lemma_filter_single_user(tail: Seq<MessageView>)
    requires
        tail.len() > 0,
        tail[0].role == Role::User,
        forall|q: int| 0 < q < tail.len() ==> (#[trigger] tail[q]).role != Role::User,
    ensures
        tail.filter(|m: MessageView| m.role == Role::User) == seq![tail[0]],
    decreases tail.len(),
{
    reveal(Seq::filter);
    if tail.len() == 1 {
        assert(tail.drop_last() =~= Seq::<MessageView>::empty());
        assert(tail.filter(|m: MessageView| m.role == Role::User) =~= seq![tail[0]]);
    } else {
        assert(tail.last().role != Role::User);
        assert(tail.drop_last()[0] == tail[0]);
        lemma_filter_single_user(tail.drop_last());
    }
}

/// A completed round appends exactly one user message: the inbound content,
/// at the end of the transcript's user messages.
pub proof fn lemma_round_user_contents(
    base: Seq<MessageView>,
    content: Seq<char>,
    r: RoundView,
)
    requires
        round_extends(base, content, r),
    ensures
        user_contents(r.session.messages) == user_contents(base).push(content),
{
    let ms = r.session.messages;
    let tail = ms.subrange(base.len() as int, ms.len() as int);
    let pred = |m: MessageView| m.role == Role::User;
    assert(ms =~= base + tail);
    Seq::filter_distributes_over_add(base, tail, pred);
    lemma_filter_single_user(tail);
    assert(ms.filter(pred) == base.filter(pred) + seq![tail[0]]);
    assert(user_contents(ms) =~= user_contents(base).push(content));
}

/// Rounds run one after another, each opened on the transcript the
/// previous round left.
pub open spec fn rounds_chained(
    init: Seq<MessageView>,
    contents: Seq<Seq<char>>,
    rounds: Seq<RoundView>,
) -> bool
    decreases rounds.len(),
{
    if rounds.len() != contents.len() {
        false
    } else if rounds.len() == 0 {
        true
    } else {
        round_extends(init, contents[0], rounds[0]) && rounds_chained(
            rounds[0].session.messages,
            contents.skip(1),
            rounds.skip(1),
        )
    }
}

/// Serialized processing keeps arrival order: rounds chained one after
/// another append exactly their inbound contents as the transcript's user
/// messages, in order — no inbound message is lost or reordered.
pub proof fn lemma_serialized_rounds_user_order(
    init: Seq<MessageView>,
    contents: Seq<Seq<char>>,
    rounds: Seq<RoundView>,
)
    requires
        rounds_chained(init, contents, rounds),
        rounds.len() > 0,
    ensures
        user_contents(rounds.last().session.messages) == user_contents(init) + contents,
    decreases rounds.len(),
{
    lemma_round_user_contents(init, contents[0], rounds[0]);
    if rounds.len() == 1 {
        assert(rounds.last() == rounds[0]);
        assert(user_contents(init).push(contents[0]) =~= user_contents(init) + contents);
    } else {
        lemma_serialized_rounds_user_order(
            rounds[0].session.messages,
            contents.skip(1),
            rounds.skip(1),
        );
        assert(rounds.skip(1).last() == rounds.last());
        assert((user_contents(init).push(contents[0])) + contents.skip(1) =~= user_contents(init)
            + contents);
    }
}

} // verus!
