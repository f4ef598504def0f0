//! The context builder: turns a session's transcript, plus an optional
//! system prompt, into the exact ordered message sequence handed to the
//! provider. Retained messages are never reordered and nothing is dropped;
//! a size budget is an integrator policy hook that this builder does not
//! impose.

use crate::session::{plain_message, transcript_wf, Message, MessageView, Role, Session};
use vstd::prelude::*;

verus! {

/// Builds provider input from a session.
pub struct ContextBuilder {
    system_prompt: Option<String>,
}

impl ContextBuilder {
    /// The configured system prompt.
    pub closed spec fn prompt_view(self) -> Option<Seq<char>> {
        self.system_prompt.deep_view()
    }

    /// A builder that prepends no system prompt.
    pub fn new() -> (r: ContextBuilder)
        ensures
            r.prompt_view() is None,
    {
        ContextBuilder { system_prompt: None }
    }

    /// A builder that prepends the given system prompt.
    pub fn with_system_prompt(prompt: &str) -> (r: ContextBuilder)
        ensures
            r.prompt_view() == Some(prompt@),
    {
        ContextBuilder { system_prompt: Some(prompt.to_owned()) }
    }

    /// The sequence a built context must read as: the system prompt first,
    /// when configured, then the session's messages in stored order.
    pub open spec fn built(self, ms: Seq<MessageView>) -> Seq<MessageView> {
        match self.prompt_view() {
            Some(p) => seq![plain_message(Role::System, p)] + ms,
            None => ms,
        }
    }

    /// Render the provider input for a session.
    pub fn build(&self, session: &Session) -> (r: Vec<Message>)
        ensures
            r.deep_view() == self.built(session@.messages),
    {
        let mut out: Vec<Message> = Vec::new();
        match &self.system_prompt {
            Some(p) => {
                out.push(Message::system(p.as_str()));
            },
            None => {},
        }
        let ghost base = out.deep_view();
        let n = session.messages.len();
        let mut i: usize = 0;
        while i < n
            invariant
                n == session.messages@.len(),
                i <= n,
                out.deep_view() == base + session@.messages.subrange(0, i as int),
            decreases n - i,
        {
            let ghost prev_raw = out@;
            let ghost prev_dv = out.deep_view();
            let m = session.messages[i].clone();
            out.push(m);
            proof {
                let dv = out.deep_view();
                assert(prev_dv.len() == prev_raw.len());
                assert(prev_dv.len() == base.len() + i);
                assert(session@.messages[i as int] == session.messages@[i as int]@);
                let target = base + session@.messages.subrange(0, i + 1 as int);
                assert forall|q: int| 0 <= q < dv.len() implies dv[q] == target[q] by {
                    assert(dv[q] == out@[q].deep_view());
                    if q < prev_raw.len() {
                        assert(out@[q] == prev_raw[q]);
                        assert(prev_dv[q] == prev_raw[q].deep_view());
                        assert(target[q] == prev_dv[q]);
                    } else {
                        assert(out@[q] == m);
                        assert(target[q] == session@.messages[i as int]);
                    }
                }
                assert(dv =~= target);
            }
            i += 1;
        }
        proof {
            assert(session@.messages.subrange(0, n as int) =~= session@.messages);
            match self.prompt_view() {
                Some(p) => {
                    assert(out.deep_view() =~= self.built(session@.messages));
                },
                None => {
                    assert(base =~= Seq::<MessageView>::empty());
                    assert(out.deep_view() =~= self.built(session@.messages));
                },
            }
        }
        out
    }
}

/// Building a context never disturbs transcript well-formedness: retained
/// messages keep their order and every tool-result correlation survives the
/// optional system-prompt prefix.
pub proof fn lemma_built_context_wf(b: ContextBuilder, ms: Seq<MessageView>)
    requires
        transcript_wf(ms),
    ensures
        transcript_wf(b.built(ms)),
{
    match b.prompt_view() {
        None => {},
        Some(p) => {
            let out = seq![plain_message(Role::System, p)] + ms;
            assert forall|i: int| 0 <= i < out.len() implies crate::session::msg_wf(
                #[trigger] out[i],
            ) by {
                if i > 0 {
                    assert(out[i] == ms[i - 1]);
                }
            }
            assert forall|i: int|
                0 <= i < out.len() && (#[trigger] out[i]).role
                    == Role::Tool implies crate::session::tool_msg_correlated(out, i) by {
                assert(out[i] == ms[i - 1]);
                let (j, k) = choose|j: int, k: int|
                    0 <= j < i - 1 && 0 <= k < ms[j].tool_calls.len() && ms[j].role
                        == Role::Assistant && ms[i - 1].tool_call_id == Some(
                        (#[trigger] ms[j].tool_calls[k]).id,
                    );
                assert(out[j + 1] == ms[j]);
            }
        },
    }
}

} // verus!
