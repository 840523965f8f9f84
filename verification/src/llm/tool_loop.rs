//! The tool-calling loop: which request goes out next, and what becomes of its answer.
//!
//! Sending requests and running tools is the caller's part; it hands back what came of them.

use vstd::prelude::*;

use crate::llm::client::{
    request_builder, ChatMessage, ChatRequest, Choice, ResponseFormat, ToolCallRequest,
    ToolDefinition,
};
use crate::text::{blank, is_blank, lemma_blank_iff_trimmed_empty, opt_view, trimmed, views};

verus! {

/// The outcome of a completion that may use tools.
#[derive(Debug, PartialEq, Eq)]
pub struct Completion {
    pub choice: Choice,
    /// Whether the rounds ran out and the answer was given with tools disabled.
    pub budget_exhausted: bool,
}

/// A failure after the tool rounds were spent: another attempt would spend them all again
/// before failing the same way.
#[derive(Debug, Clone, Copy, PartialEq, Eq, Structural)]
pub struct BudgetExhausted;

impl BudgetExhausted {
    /// What is said of it.
    pub fn message(&self) -> (text: String)
        ensures
            text@
                == "failed after the tool round budget was spent, so retrying would repeat the full budget"@,
    {
        "failed after the tool round budget was spent, so retrying would repeat the full budget".to_owned()
    }
}

/// Where a tool-calling loop stands.
#[derive(Debug, Clone, Copy, PartialEq, Eq, Structural)]
pub struct ToolLoop {
    round: usize,
    max_rounds: usize,
    has_tools: bool,
}

/// What becomes of a model's answer.
#[derive(Debug, PartialEq, Eq)]
pub enum LoopStep {
    /// It is the final one.
    Finish(Completion),
    /// Its tool calls are to be run, their results appended, and the model asked again.
    RunTools(Choice),
}

impl ToolLoop {
    /// How many rounds of tools have been run.
    pub closed spec fn rounds(&self) -> int {
        self.round as int
    }

    /// How many may be run.
    pub closed spec fn limit(&self) -> int {
        self.max_rounds as int
    }

    /// Whether any tool is on offer.
    pub closed spec fn offers_tools(&self) -> bool {
        self.has_tools
    }

    /// Whether the next answer may call tools.
    pub open spec fn allows_tools(&self) -> bool {
        self.rounds() < self.limit()
    }

    /// Whether tools have been taken away that were on offer.
    pub open spec fn exhausted(&self) -> bool {
        !self.allows_tools() && self.offers_tools()
    }

    /// No more rounds have been run than may be.
    pub open spec fn wf(&self) -> bool {
        0 <= self.rounds() <= self.limit()
    }

    /// Whether this is the same loop as `other`, at whatever round.
    pub open spec fn same_loop(&self, other: ToolLoop) -> bool {
        self.limit() == other.limit() && self.offers_tools() == other.offers_tools()
    }

    /// Whether an answer leads from this state to `next` by `step`: an answer without tool calls
    /// is final, so is one that calls tools after they were forbidden, and any other spends a
    /// round.
    pub open spec fn decides(&self, choice: Choice, next: ToolLoop, step: LoopStep) -> bool {
        &&& next.same_loop(*self)
        &&& if choice.tool_calls@.len() == 0 || !self.allows_tools() {
            next.rounds() == self.rounds() && step == LoopStep::Finish(
                Completion { choice, budget_exhausted: self.exhausted() },
            )
        } else {
            next.rounds() == self.rounds() + 1 && step == LoopStep::RunTools(choice)
        }
    }

    /// A loop before its first request.
    pub fn new(max_rounds: usize, tools: &Vec<ToolDefinition>) -> (state: Self)
        ensures
            state.wf(),
            state.rounds() == 0,
            state.limit() == max_rounds,
            state.offers_tools() == (tools@.len() > 0),
    {
        ToolLoop { round: 0, max_rounds, has_tools: tools.len() > 0 }
    }

    /// Whether the next answer may call tools.
    pub fn tools_allowed(&self) -> (allowed: bool)
        ensures
            allowed == self.allows_tools(),
    {
        self.round < self.max_rounds
    }

    /// Whether tools have been taken away that were on offer.
    pub fn budget_exhausted(&self) -> (exhausted: bool)
        ensures
            exhausted == self.exhausted(),
    {
        self.round >= self.max_rounds && self.has_tools
    }

    /// The mark that a failure of the next request carries: none while rounds are left.
    pub fn failure_mark(&self) -> (mark: Option<BudgetExhausted>)
        ensures
            mark == if self.exhausted() {
                Some(BudgetExhausted)
            } else {
                None
            },
    {
        if self.budget_exhausted() {
            Some(BudgetExhausted)
        } else {
            None
        }
    }

    /// The next request: once the rounds are spent, tools stay listed but are forbidden.
    pub fn request<'a>(
        &self,
        model: &'a str,
        messages: &'a Vec<ChatMessage>,
        max_tokens: u32,
        tools: &'a Vec<ToolDefinition>,
        response_format: Option<&'a ResponseFormat>,
    ) -> (request: ChatRequest<'a>)
        ensures
            request.model@ == model@,
            request.messages == messages,
            request.max_tokens == max_tokens,
            request.tools == if tools@.len() == 0 {
                None
            } else {
                Some(tools)
            },
            request.tools_forbidden == (!self.allows_tools() && tools@.len() > 0),
            request.response_format == response_format,
    {
        let mut request = request_builder(model, messages, max_tokens, tools);
        request.response_format = response_format;
        if !self.tools_allowed() {
            disable_tools(&mut request, tools);
        }
        request
    }

    /// Decide what becomes of an answer. An answer without tool calls is final; so is one that
    /// calls tools after they were forbidden.
    pub fn on_choice(&mut self, choice: Choice) -> (step: LoopStep)
        requires
            old(self).wf(),
        ensures
            final(self).wf(),
            old(self).decides(choice, *final(self), step),
    {
        let budget_exhausted = self.budget_exhausted();
        if choice.tool_calls.len() == 0 {
            return LoopStep::Finish(Completion { choice, budget_exhausted });
        }
        if !self.tools_allowed() {
            return LoopStep::Finish(Completion { choice, budget_exhausted });
        }
        self.round = self.round + 1;
        LoopStep::RunTools(choice)
    }

    /// Count a round of tools whose calls arrived in a stream.
    pub(crate) fn spend_round(&mut self)
        requires
            old(self).wf(),
            old(self).allows_tools(),
        ensures
            final(self).wf(),
            final(self).same_loop(*old(self)),
            final(self).rounds() == old(self).rounds() + 1,
    {
        self.round = self.round + 1;
    }
}

/// Forbid further tool calls on a request. Without tools there is nothing to forbid.
pub fn disable_tools(request: &mut ChatRequest<'_>, tools: &Vec<ToolDefinition>)
    ensures
        final(request).model@ == old(request).model@,
        final(request).messages == old(request).messages,
        final(request).max_tokens == old(request).max_tokens,
        final(request).tools == old(request).tools,
        final(request).response_format == old(request).response_format,
        final(request).tools_forbidden == (old(request).tools_forbidden || tools@.len() > 0),
{
    if tools.len() > 0 {
        request.tools_forbidden = true;
    }
}

/// Whether each answer leads from one state to the next, and the loop went on only to run tools.
pub open spec fn runs(states: Seq<ToolLoop>, choices: Seq<Choice>, steps: Seq<LoopStep>) -> bool {
    &&& states.len() == steps.len() + 1
    &&& choices.len() == steps.len()
    &&& forall|i: int|
        0 <= i < steps.len() ==> states[i].decides(
            choices[i],
            states[i + 1],
            #[trigger] steps[i],
        )
    &&& forall|i: int| 0 <= i < steps.len() - 1 ==> (#[trigger] steps[i]) is RunTools
}

proof fn lemma_runs(states: Seq<ToolLoop>, choices: Seq<Choice>, steps: Seq<LoopStep>, n: int)
    requires
        states[0].wf(),
        runs(states, choices, steps),
        0 <= n < steps.len(),
    ensures
        states[n].same_loop(states[0]),
        states[n].rounds() == states[0].rounds() + n,
        states[n].rounds() <= states[0].limit(),
    decreases n,
{
    if n > 0 {
        lemma_runs(states, choices, steps, n - 1);
        assert(steps[n - 1] is RunTools);
        assert(states[n - 1].decides(choices[n - 1], states[n], steps[n - 1]));
    }
}

/// Whatever a model answers, a loop takes no more answers than it has rounds left and one, the
/// last of these is final, and it never runs more rounds of tools than it may.
pub proof fn a_loop_always_finishes(
    states: Seq<ToolLoop>,
    choices: Seq<Choice>,
    steps: Seq<LoopStep>,
)
    requires
        states.len() > 0,
        states[0].wf(),
        runs(states, choices, steps),
    ensures
        ({
            let left = states[0].limit() - states[0].rounds();
            &&& steps.len() <= left + 1
            &&& steps.len() == left + 1 ==> steps.last() is Finish
        }),
        states.last().wf(),
        states.last().same_loop(states[0]),
{
    if steps.len() > 0 {
        let n = steps.len() - 1;
        lemma_runs(states, choices, steps, n);
        assert(states[n].decides(choices[n], states[n + 1], steps[n]));
    }
}

/// The id of a tool call.
pub open spec fn call_id(call: ToolCallRequest) -> Seq<char> {
    match call {
        ToolCallRequest::Function { id, .. } => id@,
        ToolCallRequest::Custom { id, .. } => id@,
    }
}

/// What an assistant said beside its tool calls, where it said anything.
pub open spec fn narration(text: Option<Seq<char>>) -> Option<Seq<char>> {
    match text {
        Some(said) if !blank(said) => Some(said),
        _ => None,
    }
}

/// Whether `message` answers the tool call with id `id` by `content`.
pub open spec fn answers_call(message: ChatMessage, id: Seq<char>, content: Seq<char>) -> bool {
    message matches ChatMessage::Tool { tool_call_id, content: said } && tool_call_id@ == id
        && said@ == content
}

/// Whether `after` is `before` with the message that asked for the tools behind it, and then one
/// answer for each call, in order.
pub open spec fn appends(
    before: Seq<ChatMessage>,
    after: Seq<ChatMessage>,
    tool_calls: Vec<ToolCallRequest>,
    assistant_text: Option<Seq<char>>,
    results: Seq<Seq<char>>,
) -> bool {
    &&& after.len() == before.len() + 1 + tool_calls@.len()
    &&& after.take(before.len() as int) == before
    &&& after[before.len() as int] matches ChatMessage::Assistant { content, tool_calls: asked }
        && asked == tool_calls && opt_view(content) == narration(assistant_text)
    &&& forall|i: int|
        0 <= i < tool_calls@.len() ==> answers_call(
            #[trigger] after[before.len() + 1 + i],
            call_id(tool_calls@[i]),
            results[i],
        )
}

/// Append the message that asked for the tools, then one answer for each call, in order: every
/// call is answered, since an endpoint rejects a conversation that leaves one open.
pub fn append_tool_results(
    messages: &mut Vec<ChatMessage>,
    tool_calls: Vec<ToolCallRequest>,
    assistant_text: Option<String>,
    results: Vec<String>,
)
    requires
        results@.len() == tool_calls@.len(),
    ensures
        appends(
            old(messages)@,
            final(messages)@,
            tool_calls,
            opt_view(assistant_text),
            views(results@),
        ),
{
    let ghost before = messages@;
    let content: Option<String> = match assistant_text {
        Some(text) => {
            if is_blank(text.as_str()) {
                None
            } else {
                Some(text)
            }
        },
        None => None,
    };
    let mut answers: Vec<ChatMessage> = Vec::new();
    let mut i: usize = 0;
    while i < tool_calls.len()
        invariant
            i <= tool_calls@.len(),
            results@.len() == tool_calls@.len(),
            answers@.len() == i,
            forall|k: int|
                0 <= k < i ==> answers_call(
                    #[trigger] answers@[k],
                    call_id(tool_calls@[k]),
                    results@[k]@,
                ),
        decreases tool_calls@.len() - i,
    {
        let id = match &tool_calls[i] {
            ToolCallRequest::Function { id, .. } => id.clone(),
            ToolCallRequest::Custom { id, .. } => id.clone(),
        };
        answers.push(ChatMessage::Tool { tool_call_id: id, content: results[i].clone() });
        i += 1;
    }
    messages.push(ChatMessage::Assistant { content, tool_calls });
    let ghost replies = answers@;
    messages.append(&mut answers);
    proof {
        let after = messages@;
        assert(after.take(before.len() as int) =~= before);
        assert forall|k: int| 0 <= k < tool_calls@.len() implies answers_call(
            #[trigger] after[before.len() + 1 + k],
            call_id(tool_calls@[k]),
            results@[k]@,
        ) by {
            assert(after[before.len() + 1 + k] == replies[k]);
        }
    }
}

/// What to do about one tool call.
#[derive(Debug, PartialEq, Eq)]
pub enum Dispatch {
    /// Run this tool on these arguments.
    Run { name: String, arguments: String },
    /// Answer with this: the tool cannot be run.
    Reply(String),
}

/// What to do about one tool call. Custom tools are not supported, but still answered.
pub fn execute(tool_call: &ToolCallRequest) -> (dispatch: Dispatch)
    ensures
        match *tool_call {
            ToolCallRequest::Function { name, arguments, .. } => dispatch == (Dispatch::Run {
                name,
                arguments,
            }),
            ToolCallRequest::Custom { name, .. } => dispatch matches Dispatch::Reply(text) && text@
                == "Error: custom tool `"@ + name@ + "` is not supported"@,
        },
{
    match tool_call {
        ToolCallRequest::Function { name, arguments, .. } => Dispatch::Run {
            name: name.clone(),
            arguments: arguments.clone(),
        },
        ToolCallRequest::Custom { name, .. } => {
            let mut text = "Error: custom tool `".to_owned();
            text.append(name.as_str());
            text.append("` is not supported");
            Dispatch::Reply(text)
        },
    }
}

/// What a model said beside its calls is kept as it was said; only nothing but white space is left
/// out.
pub proof fn narration_is_kept_whole(text: Seq<char>)
    ensures
        narration(Some(text)) == if trimmed(text).len() > 0 {
            Some(text)
        } else {
            None
        },
        narration(None) is None,
{
    lemma_blank_iff_trimmed_empty(text);
}

/// Tools run while rounds are left and only when they are called: an answer that calls none is
/// final as it is, and so is one that comes when no round is left.
pub proof fn tools_run_while_rounds_are_left(
    before: ToolLoop,
    choice: Choice,
    after: ToolLoop,
    step: LoopStep,
)
    requires
        before.decides(choice, after, step),
    ensures
        before.rounds() < before.limit() && choice.tool_calls@.len() > 0 ==> step
            == LoopStep::RunTools(choice) && after.rounds() == before.rounds() + 1,
        choice.tool_calls@.len() == 0 || before.rounds() >= before.limit() ==> (step matches
            LoopStep::Finish(completion) && completion.choice == choice
            && completion.budget_exhausted == (before.rounds() >= before.limit()
            && before.offers_tools())),
{
}

/// A call is run under its own name with its own arguments; one of another kind is answered, not
/// run.
pub proof fn a_call_is_run_as_it_was_made(call: &ToolCallRequest, dispatch: Dispatch)
    requires
        call_ensures(execute, (call,), dispatch),
    ensures
        match *call {
            ToolCallRequest::Function { name, arguments, .. } => dispatch == (Dispatch::Run {
                name,
                arguments,
            }),
            ToolCallRequest::Custom { .. } => dispatch is Reply,
        },
{
}

/// No call is left open and no message is lost: what was said before stays in its place, the calls
/// follow as they were made, and each is answered by its own id with its own result, in order.
pub proof fn every_call_is_answered(
    before: Seq<ChatMessage>,
    after: Seq<ChatMessage>,
    tool_calls: Vec<ToolCallRequest>,
    assistant_text: Option<Seq<char>>,
    results: Seq<Seq<char>>,
    i: int,
)
    requires
        appends(before, after, tool_calls, assistant_text, results),
        0 <= i < tool_calls@.len(),
    ensures
        after.len() == before.len() + tool_calls@.len() + 1,
        forall|k: int| 0 <= k < before.len() ==> after[k] == #[trigger] before[k],
        after[before.len() as int] matches ChatMessage::Assistant { tool_calls: asked, .. } && asked
            == tool_calls,
        after[before.len() + 1 + i] matches ChatMessage::Tool { tool_call_id, content }
            && tool_call_id@ == (match tool_calls@[i] {
            ToolCallRequest::Function { id, .. } => id@,
            ToolCallRequest::Custom { id, .. } => id@,
        }) && content@ == results[i],
{
    assert forall|k: int| 0 <= k < before.len() implies after[k] == #[trigger] before[k] by {
        assert(after.take(before.len() as int)[k] == after[k]);
    }
    assert(answers_call(after[before.len() + 1 + i], call_id(tool_calls@[i]), results[i]));
}

/// Every request lists the tools there are, and forbids them only once no round is left.
pub proof fn tools_are_offered_in_every_round<'a>(
    state: &ToolLoop,
    model: &'a str,
    messages: &'a Vec<ChatMessage>,
    max_tokens: u32,
    tools: &'a Vec<ToolDefinition>,
    response_format: Option<&'a ResponseFormat>,
    request: ChatRequest<'a>,
)
    requires
        call_ensures(
            ToolLoop::request,
            (state, model, messages, max_tokens, tools, response_format),
            request,
        ),
    ensures
        tools@.len() > 0 ==> request.tools == Some(tools),
        request.tools_forbidden == (tools@.len() > 0 && state.rounds() >= state.limit()),
        request.messages == messages && request.max_tokens == max_tokens && request.response_format
            == response_format && request.model@ == model@,
{
}

} // verus!
