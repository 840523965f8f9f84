//! Asking a human before a gated tool runs, whichever front-end they answer from.
//!
//! Whether a call is gated is decided here, and so is what becomes of it once it is answered
//! or is not; putting the question and waiting for the answer is the caller's part.

use std::cmp::Ordering;
use std::time::Duration;

use vstd::prelude::*;

use crate::agent::continuity::{
    age, distinct_keys, reading_keeps_an_entry, reading_refreshes, stored, stored_value_is_found,
    storing_keeps_an_entry, storing_leaves_other_conversations_alone, touched, used_lately,
    value_for, ContinuityCache,
};
use crate::agent::{
    continuity_text, ExecutionContext, ToolCallDecision, ToolCallView, ToolResultStatus,
};
use crate::json::Json;
use crate::text::{
    blank, chars_of, is_blank, lemma_blank_iff_trimmed_empty, lemma_precedes_irreflexive,
    lemma_precedes_total, lemma_precedes_transitive, lower_case_keeps_a_text_trimmed, lowercase,
    lowered, occurs_at, occurs_in, opt_view, precedes, same_text, stands_before, trim, trimmed,
    trimming_takes_only_white_ends,
};

verus! {

/// How many conversations' remembered answers are kept.
pub const STICKY_CONVERSATIONS: usize = 32;

/// A human's answer to one approval prompt.
#[derive(Debug, PartialEq, Eq)]
pub struct ApprovalOutcome {
    pub approved: bool,
    /// Apply the same answer to every later call of the tool in this conversation.
    pub sticky: bool,
    /// Why the call was refused, for the model to read.
    pub reason: Option<String>,
}

/// An answer by its contents: the verdict, whether it stands, and the reason.
#[verifier::ext_equal]
pub struct Answer {
    pub approved: bool,
    pub sticky: bool,
    pub reason: Option<Seq<char>>,
}

impl View for ApprovalOutcome {
    type V = Answer;

    open spec fn view(&self) -> Answer {
        Answer { approved: self.approved, sticky: self.sticky, reason: opt_view(self.reason) }
    }
}

/// A reason worth recording: a blank one is none.
pub open spec fn given_reason(reason: Seq<char>) -> Option<Seq<char>> {
    if blank(reason) {
        None
    } else {
        Some(reason)
    }
}

impl ApprovalOutcome {
    /// A decision for this call only.
    pub fn once(approved: bool) -> (outcome: Self)
        ensures
            outcome@ == (Answer { approved, sticky: false, reason: None }),
    {
        ApprovalOutcome { approved, sticky: false, reason: None }
    }

    /// A decision for this tool for the rest of the conversation.
    pub fn sticky(approved: bool) -> (outcome: Self)
        ensures
            outcome@ == (Answer { approved, sticky: true, reason: None }),
    {
        ApprovalOutcome { approved, sticky: true, reason: None }
    }

    /// Attach the reason to report for a refusal. A blank reason is dropped.
    #[must_use]
    pub fn with_reason(self, reason: String) -> (outcome: Self)
        ensures
            outcome@ == (Answer {
                approved: self.approved,
                sticky: self.sticky,
                reason: given_reason(reason@),
            }),
    {
        let mut outcome = self;
        outcome.reason = if is_blank(reason.as_str()) {
            None
        } else {
            Some(reason)
        };
        outcome
    }
}

/// What the verdict of a typed answer means: approved or not, and whether it stands for the
/// rest of the conversation.
pub open spec fn verdict_of(word: Seq<char>) -> Option<(bool, bool)> {
    let said = lowered(trimmed(word));
    if said == "y"@ || said == "yes"@ || said == "/approve"@ {
        Some((true, false))
    } else if said == "n"@ || said == "no"@ || said == "/deny"@ {
        Some((false, false))
    } else if said == "a"@ || said == "always"@ || said == "/always"@ {
        Some((true, true))
    } else if said == "d"@ || said == "never"@ || said == "/never"@ {
        Some((false, true))
    } else {
        None
    }
}

/// A colon of either width.
pub open spec fn is_colon(c: char) -> bool {
    c == ':' || c == '：'
}

/// Where the first colon stands, or the end where there is none.
pub open spec fn colon_at(line: Seq<char>) -> int
    decreases line.len(),
{
    if line.len() == 0 || is_colon(line[0]) {
        0
    } else {
        1 + colon_at(line.drop_first())
    }
}

/// What a typed line answers: the verdict before the first colon, and the reason behind it.
pub open spec fn typed_answer(line: Seq<char>) -> Option<Answer> {
    let at = colon_at(line);
    match verdict_of(line.take(at)) {
        None => None,
        Some((approved, sticky)) => Some(
            Answer {
                approved,
                sticky,
                reason: if at < line.len() {
                    given_reason(trimmed(line.skip(at + 1)))
                } else {
                    None
                },
            },
        ),
    }
}

proof fn lemma_colon_at(line: Seq<char>, at: int)
    requires
        0 <= at <= line.len(),
        forall|k: int| 0 <= k < at ==> !is_colon(#[trigger] line[k]),
        at < line.len() ==> is_colon(line[at]),
    ensures
        colon_at(line) == at,
    decreases at,
{
    if at > 0 {
        let rest = line.drop_first();
        assert(!is_colon(line[0]));
        assert forall|k: int| 0 <= k < at - 1 implies !is_colon(#[trigger] rest[k]) by {
            assert(rest[k] == line[k + 1]);
        }
        lemma_colon_at(rest, at - 1);
    }
}

fn parse_verdict(word: &str) -> (verdict: Option<(bool, bool)>)
    ensures
        verdict == verdict_of(word@),
{
    let said = lowercase(trim(word));
    let said = said.as_str();
    if same_text(said, "y") || same_text(said, "yes") || same_text(said, "/approve") {
        Some((true, false))
    } else if same_text(said, "n") || same_text(said, "no") || same_text(said, "/deny") {
        Some((false, false))
    } else if same_text(said, "a") || same_text(said, "always") || same_text(said, "/always") {
        Some((true, true))
    } else if same_text(said, "d") || same_text(said, "never") || same_text(said, "/never") {
        Some((false, true))
    } else {
        None
    }
}

/// Interpret a typed answer to an approval prompt; nothing for anything that is not one.
///
/// A trailing `: reason` attaches the reason. What silence or a stray word means is the
/// caller's to decide.
pub fn parse_approval_answer(line: &str) -> (outcome: Option<ApprovalOutcome>)
    ensures
        match outcome {
            Some(answer) => typed_answer(line@) == Some(answer@),
            None => typed_answer(line@) is None,
        },
{
    let chars = chars_of(line);
    let mut at: usize = 0;
    while at < chars.len() && chars[at] != ':' && chars[at] != '：'
        invariant
            at <= chars.len(),
            chars@ == line@,
            forall|k: int| 0 <= k < at ==> !is_colon(#[trigger] line@[k]),
        decreases chars.len() - at,
    {
        at += 1;
    }
    proof {
        lemma_colon_at(line@, at as int);
        assert(line@.subrange(0, at as int) =~= line@.take(at as int));
    }
    let (approved, sticky) = match parse_verdict(line.substring_char(0, at)) {
        Some(verdict) => verdict,
        None => return None,
    };
    let outcome = ApprovalOutcome { approved, sticky, reason: None };
    if at < chars.len() {
        let rest = line.substring_char(at + 1, chars.len());
        assert(rest@ =~= line@.skip(at + 1));
        Some(outcome.with_reason(trim(rest).to_owned()))
    } else {
        Some(outcome)
    }
}

/// What the console shows before a gated call: the tool, its arguments as the model wrote
/// them, and the answers it takes.
pub open spec fn console_prompt(call: ToolCallView<'_>) -> Seq<char> {
    "\n⚠️  即将执行高危操作\n工具: "@ + call.name@ + "\n参数: "@ + call.raw_arguments@
        + "\n是否执行？(y=本次允许 / n=本次拒绝 / a=本会话总是允许 / d=本会话总是拒绝): "@
}

/// What the console shows before a gated call.
pub fn terminal_prompt(call: &ToolCallView<'_>) -> (text: String)
    ensures
        text@ == console_prompt(*call),
{
    let mut text = "\n⚠️  即将执行高危操作\n工具: ".to_owned();
    text.append(call.name);
    text.append("\n参数: ");
    text.append(call.raw_arguments);
    text.append("\n是否执行？(y=本次允许 / n=本次拒绝 / a=本会话总是允许 / d=本会话总是拒绝): ");
    text
}

/// What the console shows once an answer is in.
pub open spec fn acknowledged(answer: Answer) -> Seq<char> {
    match (answer.approved, answer.sticky) {
        (true, false) => "✅ 已批准，继续执行...\n"@,
        (true, true) => "✅ 已批准，本会话内不再询问该工具...\n"@,
        (false, false) => "❌ 已拒绝，跳过执行\n"@,
        (false, true) => "❌ 已拒绝，本会话内将自动拒绝该工具\n"@,
    }
}

/// What the console shows once an answer is in.
pub fn acknowledgement(outcome: &ApprovalOutcome) -> (text: &'static str)
    ensures
        text@ == acknowledged(outcome@),
{
    match (outcome.approved, outcome.sticky) {
        (true, false) => "✅ 已批准，继续执行...\n",
        (true, true) => "✅ 已批准，本会话内不再询问该工具...\n",
        (false, false) => "❌ 已拒绝，跳过执行\n",
        (false, true) => "❌ 已拒绝，本会话内将自动拒绝该工具\n",
    }
}

/// What a front-end needs in order to show one pending approval.
#[derive(Debug, PartialEq, Eq)]
pub struct ApprovalMeta {
    /// The tool call's own id.
    pub id: String,
    pub tool: String,
    /// The arguments as the tool would be handed them.
    pub raw_arguments: String,
    /// Unix seconds at which the prompt was raised.
    pub requested_at: i64,
}

/// An [`ApprovalMeta`] by its contents.
#[verifier::ext_equal]
pub struct Prompt {
    pub id: Seq<char>,
    pub tool: Seq<char>,
    pub raw_arguments: Seq<char>,
    pub requested_at: int,
}

impl View for ApprovalMeta {
    type V = Prompt;

    open spec fn view(&self) -> Prompt {
        Prompt {
            id: self.id@,
            tool: self.tool@,
            raw_arguments: self.raw_arguments@,
            requested_at: self.requested_at as int,
        }
    }
}

impl ApprovalMeta {
    /// The prompt for one tool call, raised at `now`.
    pub fn for_call(call: &ToolCallView<'_>, now: i64) -> (meta: Self)
        ensures
            meta@ == (Prompt {
                id: call.tool_call_id@,
                tool: call.name@,
                raw_arguments: call.raw_arguments@,
                requested_at: now as int,
            }),
    {
        ApprovalMeta {
            id: call.tool_call_id.to_owned(),
            tool: call.name.to_owned(),
            raw_arguments: call.raw_arguments.to_owned(),
            requested_at: now,
        }
    }

    fn duplicate(&self) -> (copy: Self)
        ensures
            copy@ == self@,
    {
        ApprovalMeta {
            id: self.id.clone(),
            tool: self.tool.clone(),
            raw_arguments: self.raw_arguments.clone(),
            requested_at: self.requested_at,
        }
    }
}

/// Whether `left` was raised before `right`; prompts of the same second are ordered by id.
pub open spec fn older(left: Prompt, right: Prompt) -> bool {
    left.requested_at < right.requested_at || (left.requested_at == right.requested_at && precedes(
        left.id,
        right.id,
    ))
}

/// The order of age is total on prompts with different ids, and strict.
pub proof fn age_order_is_total(a: Prompt, b: Prompt, c: Prompt)
    ensures
        !older(a, a),
        !(older(a, b) && older(b, a)),
        a.id != b.id ==> older(a, b) || older(b, a),
        older(a, b) && older(b, c) ==> older(a, c),
{
    lemma_precedes_irreflexive(a.id);
    lemma_precedes_total(a.id, b.id);
    if precedes(a.id, b.id) && precedes(b.id, c.id) {
        lemma_precedes_transitive(a.id, b.id, c.id);
    }
}

/// Order two prompts, the older first, ties broken by id.
pub fn compare_by_age(left: &ApprovalMeta, right: &ApprovalMeta) -> (order: Ordering)
    ensures
        order == if older(left@, right@) {
            Ordering::Less
        } else if older(right@, left@) {
            Ordering::Greater
        } else {
            Ordering::Equal
        },
{
    proof {
        age_order_is_total(left@, right@, left@);
    }
    if left.requested_at < right.requested_at {
        Ordering::Less
    } else if left.requested_at > right.requested_at {
        Ordering::Greater
    } else if stands_before(left.id.as_str(), right.id.as_str()) {
        Ordering::Less
    } else if stands_before(right.id.as_str(), left.id.as_str()) {
        Ordering::Greater
    } else {
        Ordering::Equal
    }
}

/// The sending end of a `tokio` one-shot channel: where an answer goes. Nothing of what is
/// inside one is stated.
#[verifier::external_type_specification]
#[verifier::external_body]
#[verifier::reject_recursive_types(T)]
pub struct ExDecisionSender<T>(tokio::sync::oneshot::Sender<T>);

/// An answer on its way: what is handed over, and to whom.
pub struct Delivery {
    /// The tool call that waits for the answer.
    pub id: String,
    pub outcome: ApprovalOutcome,
    pub to: tokio::sync::oneshot::Sender<ApprovalOutcome>,
}

/// `tokio::sync::oneshot::Sender::send`: hand the answer to whoever waits for it. Whether
/// anybody still does is not known here; where nobody does, the answer comes back.
#[verifier::external_body]
fn send_decision(delivery: Delivery) -> (sent: Result<(), ApprovalOutcome>)
    ensures
        sent is Err ==> sent->Err_0 == delivery.outcome,
{
    delivery.to.send(delivery.outcome)
}

/// Why an answer reached nobody.
#[derive(Debug, PartialEq, Eq)]
pub enum Undelivered {
    /// Nothing waits under that id.
    NotPending,
    /// The waiting side has given up; the answer comes back.
    GaveUp(ApprovalOutcome),
}

/// What handing an answer over came to: an answer that came back reached nobody.
pub fn delivered(sent: Result<(), ApprovalOutcome>) -> (delivered: Result<(), Undelivered>)
    ensures
        delivered == match sent {
            Ok(_) => Ok::<(), Undelivered>(()),
            Err(back) => Err(Undelivered::GaveUp(back)),
        },
{
    match sent {
        Ok(_) => Ok(()),
        Err(back) => Err(Undelivered::GaveUp(back)),
    }
}

/// Whether an answer decided: it did where it was delivered.
pub fn has_decided(delivered: &Result<(), Undelivered>) -> (decided: bool)
    ensures
        decided == (*delivered is Ok),
{
    delivered.is_ok()
}

/// One prompt that waits for an answer, and where the answer goes.
pub struct PendingApproval {
    pub meta: ApprovalMeta,
    pub decision: tokio::sync::oneshot::Sender<ApprovalOutcome>,
}

/// The prompts of a session that wait for an answer, one for each tool call id.
///
/// Every front-end of the session shares it, so any of them can answer any prompt. The first
/// answer removes the prompt; a second one finds nothing to answer.
pub struct ApprovalRegistry {
    pending: Vec<PendingApproval>,
}

/// The prompts by their contents.
pub open spec fn prompts(pending: Seq<PendingApproval>) -> Seq<Prompt> {
    pending.map_values(|p: PendingApproval| p.meta@)
}

/// Whether no two prompts have one id.
pub open spec fn distinct_ids(prompts: Seq<Prompt>) -> bool {
    forall|i: int, j: int|
        0 <= i < j < prompts.len() ==> (#[trigger] prompts[i]).id != (#[trigger] prompts[j]).id
}

/// Whether a prompt with id `id` is among `prompts`.
pub open spec fn waits_for(prompts: Seq<Prompt>, id: Seq<char>) -> bool {
    exists|i: int| 0 <= i < prompts.len() && (#[trigger] prompts[i]).id == id
}

/// The pending prompts without the one with id `id`.
pub open spec fn answered(pending: Seq<PendingApproval>, id: Seq<char>) -> Seq<PendingApproval>
    decreases pending.len(),
{
    if pending.len() == 0 {
        pending
    } else if pending.last().meta@.id == id {
        pending.drop_last()
    } else {
        answered(pending.drop_last(), id).push(pending.last())
    }
}

/// The pending prompts without those with the given ids.
pub open spec fn discarded(pending: Seq<PendingApproval>, ids: Seq<String>) -> Seq<PendingApproval>
    decreases ids.len(),
{
    if ids.len() == 0 {
        pending
    } else {
        answered(discarded(pending, ids.drop_last()), ids.last()@)
    }
}

/// Whether prompts are in order of age, the oldest first.
pub open spec fn by_age(prompts: Seq<Prompt>) -> bool {
    forall|i: int, j: int|
        0 <= i < j < prompts.len() ==> older(#[trigger] prompts[i], #[trigger] prompts[j])
}

proof fn lemma_answered(pending: Seq<PendingApproval>, id: Seq<char>)
    requires
        distinct_ids(prompts(pending)),
    ensures
        distinct_ids(prompts(answered(pending, id))),
        !waits_for(prompts(answered(pending, id)), id),
        !waits_for(prompts(pending), id) ==> answered(pending, id) == pending,
        forall|other: Seq<char>|
            other != id ==> #[trigger] waits_for(prompts(answered(pending, id)), other)
                == waits_for(prompts(pending), other),
        answered(pending, id).len() <= pending.len(),
        forall|p: PendingApproval|
            answered(pending, id).contains(p) ==> #[trigger] pending.contains(p),
    decreases pending.len(),
{
    if pending.len() > 0 {
        let front = pending.drop_last();
        let last = pending.last();
        let after = answered(pending, id);
        assert(prompts(front) =~= prompts(pending).drop_last());
        assert(prompts(pending)[pending.len() - 1] == last.meta@);
        lemma_answered(front, id);
        assert forall|other: Seq<char>| #[trigger] waits_for(prompts(front), other) implies waits_for(
            prompts(pending),
            other,
        ) by {
            let i = choose|i: int| 0 <= i < prompts(front).len() && prompts(front)[i].id == other;
            assert(prompts(pending)[i].id == other);
        }
        assert forall|other: Seq<char>| #[trigger] waits_for(prompts(pending), other) && other
            != last.meta@.id implies waits_for(prompts(front), other) by {
            let i = choose|i: int|
                0 <= i < prompts(pending).len() && prompts(pending)[i].id == other;
            assert(prompts(front)[i].id == other);
        }
        if last.meta@.id == id {
            assert(after =~= front);
            assert forall|i: int| 0 <= i < prompts(front).len() implies (#[trigger] prompts(
                front,
            )[i]).id != id by {
                assert(prompts(pending)[i].id != prompts(pending)[pending.len() - 1].id);
            }
        } else {
            let kept = answered(front, id);
            assert(after =~= kept.push(last));
            assert(prompts(after) =~= prompts(kept).push(last.meta@));
            if !waits_for(prompts(pending), id) {
                assert(!waits_for(prompts(front), id));
                assert(after =~= pending);
            }
            assert(!waits_for(prompts(front), last.meta@.id)) by {
                if waits_for(prompts(front), last.meta@.id) {
                    let i = choose|i: int|
                        0 <= i < prompts(front).len() && prompts(front)[i].id == last.meta@.id;
                    assert(prompts(pending)[i].id != prompts(pending)[pending.len() - 1].id);
                }
            }
            assert(!waits_for(prompts(kept), last.meta@.id));
            assert forall|i: int, j: int| 0 <= i < j < prompts(after).len() implies (
            #[trigger] prompts(after)[i]).id != (#[trigger] prompts(after)[j]).id by {
                assert(prompts(kept)[i] == prompts(after)[i]);
                if j < prompts(kept).len() {
                    assert(prompts(kept)[j] == prompts(after)[j]);
                } else {
                    assert(prompts(kept)[i].id != last.meta@.id);
                }
            }
            assert forall|other: Seq<char>| other != id implies #[trigger] waits_for(
                prompts(after),
                other,
            ) == waits_for(prompts(pending), other) by {
                if waits_for(prompts(kept), other) {
                    let i = choose|i: int|
                        0 <= i < prompts(kept).len() && prompts(kept)[i].id == other;
                    assert(prompts(after)[i].id == other);
                }
                if waits_for(prompts(after), other) {
                    let i = choose|i: int|
                        0 <= i < prompts(after).len() && prompts(after)[i].id == other;
                    if i < prompts(kept).len() {
                        assert(prompts(kept)[i].id == other);
                    }
                }
                if other == last.meta@.id {
                    assert(prompts(after)[prompts(kept).len() as int].id == other);
                }
            }
            if waits_for(prompts(after), id) {
                let i = choose|i: int| 0 <= i < prompts(after).len() && prompts(after)[i].id == id;
                if i < prompts(kept).len() {
                    assert(prompts(kept)[i].id == id);
                }
            }
        }
        assert forall|p: PendingApproval| after.contains(p) implies #[trigger] pending.contains(
            p,
        ) by {
            let i = choose|i: int| 0 <= i < after.len() && after[i] == p;
            if last.meta@.id == id {
                assert(pending[i] == p);
            } else {
                let kept = answered(front, id);
                if i < kept.len() {
                    assert(kept[i] == p);
                    assert(front.contains(p));
                    let j = choose|j: int| 0 <= j < front.len() && front[j] == p;
                    assert(pending[j] == p);
                } else {
                    assert(pending[pending.len() - 1] == p);
                }
            }
        }
    }
}

/// The first answer wins: once a prompt has been answered, nothing waits for an answer under
/// its id, and every other prompt waits as before.
pub proof fn first_answer_wins(pending: Seq<PendingApproval>, id: Seq<char>, other: Seq<char>)
    requires
        distinct_ids(prompts(pending)),
    ensures
        !waits_for(prompts(answered(pending, id)), id),
        other != id ==> waits_for(prompts(answered(pending, id)), other) == waits_for(
            prompts(pending),
            other,
        ),
        answered(answered(pending, id), id) == answered(pending, id),
{
    lemma_answered(pending, id);
    lemma_answered(answered(pending, id), id);
}

impl Default for ApprovalRegistry {
    fn default() -> (registry: Self)
        ensures
            registry.wf(),
            registry.waiting().len() == 0,
    {
        ApprovalRegistry::new()
    }
}

impl ApprovalRegistry {
    /// The prompts that wait for an answer.
    pub closed spec fn waiting(&self) -> Seq<PendingApproval> {
        self.pending@
    }

    /// At most one prompt for each id.
    pub open spec fn wf(&self) -> bool {
        distinct_ids(prompts(self.waiting()))
    }

    /// A registry in which nothing waits.
    pub fn new() -> (registry: Self)
        ensures
            registry.wf(),
            registry.waiting().len() == 0,
    {
        ApprovalRegistry { pending: Vec::new() }
    }

    fn find(&self, id: &str) -> (found: Option<usize>)
        requires
            self.wf(),
        ensures
            match found {
                Some(at) => at < self.waiting().len() && self.waiting()[at as int].meta@.id == id@
                    && answered(self.waiting(), id@) == self.waiting().remove(at as int)
                    && waits_for(prompts(self.waiting()), id@),
                None => !waits_for(prompts(self.waiting()), id@) && answered(self.waiting(), id@)
                    == self.waiting(),
            },
    {
        let mut i: usize = self.pending.len();
        while i > 0
            invariant
                i <= self.pending@.len(),
                forall|k: int| i <= k < self.pending@.len() ==> (#[trigger] self.pending@[k]).meta@.id
                    != id@,
            decreases i,
        {
            i -= 1;
            if same_text(self.pending[i].meta.id.as_str(), id) {
                proof {
                    lemma_answered_at(self.pending@, id@, i as int);
                    assert(prompts(self.waiting())[i as int].id == id@);
                }
                return Some(i);
            }
        }
        proof {
            assert forall|k: int| 0 <= k < prompts(self.waiting()).len() implies (
            #[trigger] prompts(self.waiting())[k]).id != id@ by {
                assert(self.pending@[k].meta@.id != id@);
            }
            lemma_answered(self.waiting(), id@);
        }
        None
    }

    /// Take custody of a prompt, in place of one with the same id.
    pub fn register(
        &mut self,
        meta: ApprovalMeta,
        decision: tokio::sync::oneshot::Sender<ApprovalOutcome>,
    )
        requires
            old(self).wf(),
        ensures
            final(self).wf(),
            final(self).waiting() == answered(old(self).waiting(), meta@.id).push(
                PendingApproval { meta, decision },
            ),
    {
        proof {
            lemma_answered(self.waiting(), meta@.id);
        }
        let _ = self.take(meta.id.as_str());
        let ghost kept = self.pending@;
        let pending = PendingApproval { meta, decision };
        self.pending.push(pending);
        proof {
            let after = prompts(self.waiting());
            assert(after =~= prompts(kept).push(meta@));
            assert forall|i: int, j: int| 0 <= i < j < after.len() implies (#[trigger] after[i]).id
                != (#[trigger] after[j]).id by {
                assert(prompts(kept)[i] == after[i]);
                if j < kept.len() {
                    assert(prompts(kept)[j] == after[j]);
                } else if prompts(kept)[i].id == meta@.id {
                    assert(waits_for(prompts(kept), meta@.id));
                }
            }
        }
    }

    /// Remove and return the prompt with id `id`.
    fn take(&mut self, id: &str) -> (taken: Option<PendingApproval>)
        requires
            old(self).wf(),
        ensures
            final(self).wf(),
            final(self).waiting() == answered(old(self).waiting(), id@),
            match taken {
                Some(pending) => old(self).waiting().contains(pending) && pending.meta@.id == id@
                    && waits_for(prompts(old(self).waiting()), id@),
                None => !waits_for(prompts(old(self).waiting()), id@),
            },
    {
        proof {
            lemma_answered(self.waiting(), id@);
        }
        match self.find(id) {
            Some(at) => Some(self.pending.remove(at)),
            None => None,
        }
    }

    /// Take a pending prompt out to be answered: what is handed over is `outcome` itself, to
    /// whoever waits on the prompt with id `id`, and nothing where no such prompt waits.
    pub fn claim(&mut self, id: &str, outcome: ApprovalOutcome) -> (delivery: Option<Delivery>)
        requires
            old(self).wf(),
        ensures
            final(self).wf(),
            final(self).waiting() == answered(old(self).waiting(), id@),
            match delivery {
                Some(d) => d.outcome == outcome && d.id@ == id@ && exists|p: PendingApproval|
                    old(self).waiting().contains(p) && p.meta@.id == id@ && p.decision == d.to,
                None => !waits_for(prompts(old(self).waiting()), id@),
            },
            delivery is Some == waits_for(prompts(old(self).waiting()), id@),
    {
        match self.take(id) {
            Some(pending) => {
                assert(old(self).waiting().contains(pending));
                Some(Delivery { id: id.to_owned(), outcome, to: pending.decision })
            },
            None => None,
        }
    }

    /// Answer a pending prompt: `outcome` goes to whoever waits on the prompt with id `id`. The
    /// prompt is gone in any case.
    pub fn answer(&mut self, id: &str, outcome: ApprovalOutcome) -> (delivered: Result<
        (),
        Undelivered,
    >)
        requires
            old(self).wf(),
        ensures
            final(self).wf(),
            final(self).waiting() == answered(old(self).waiting(), id@),
            match delivered {
                Ok(_) => waits_for(prompts(old(self).waiting()), id@),
                Err(Undelivered::NotPending) => !waits_for(prompts(old(self).waiting()), id@),
                Err(Undelivered::GaveUp(back)) => waits_for(prompts(old(self).waiting()), id@)
                    && back == outcome,
            },
    {
        match self.claim(id, outcome) {
            Some(delivery) => delivered(send_decision(delivery)),
            None => Err(Undelivered::NotPending),
        }
    }

    /// [`Self::answer`], as to whether this call is the one that decided: `false` if nothing
    /// waited under that id, or if the waiting side has given up.
    pub fn resolve(&mut self, id: &str, outcome: ApprovalOutcome) -> (decided: bool)
        requires
            old(self).wf(),
        ensures
            final(self).wf(),
            final(self).waiting() == answered(old(self).waiting(), id@),
            !waits_for(prompts(old(self).waiting()), id@) ==> !decided,
    {
        has_decided(&self.answer(id, outcome))
    }

    /// Drop prompts without answering them, for a turn that has ended.
    pub fn discard(&mut self, ids: &Vec<String>)
        requires
            old(self).wf(),
        ensures
            final(self).wf(),
            final(self).waiting() == discarded(old(self).waiting(), ids@),
    {
        let mut i: usize = 0;
        while i < ids.len()
            invariant
                i <= ids@.len(),
                self.wf(),
                self.waiting() == discarded(old(self).waiting(), ids@.take(i as int)),
            decreases ids@.len() - i,
        {
            let _ = self.take(ids[i].as_str());
            assert(ids@.take(i + 1).drop_last() =~= ids@.take(i as int));
            i += 1;
        }
        assert(ids@.take(i as int) =~= ids@);
    }

    /// Whether `id` still waits for an answer.
    pub fn is_pending(&self, id: &str) -> (waits: bool)
        requires
            self.wf(),
        ensures
            waits == waits_for(prompts(self.waiting()), id@),
    {
        self.find(id).is_some()
    }

    /// Whether nothing waits for an answer.
    pub fn is_empty(&self) -> (empty: bool)
        ensures
            empty == (self.waiting().len() == 0),
    {
        self.pending.len() == 0
    }

    /// Every prompt that waits for an answer, the oldest first.
    pub fn pending_snapshot(&self) -> (items: Vec<ApprovalMeta>)
        requires
            self.wf(),
        ensures
            by_age(metas(items@)),
            metas(items@).to_multiset() == prompts(self.waiting()).to_multiset(),
    {
        let mut items: Vec<ApprovalMeta> = Vec::new();
        let mut i: usize = 0;
        assert(metas(items@) =~= prompts(self.pending@.take(0)));
        while i < self.pending.len()
            invariant
                i <= self.pending@.len(),
                self.wf(),
                by_age(metas(items@)),
                metas(items@).to_multiset() == prompts(self.pending@.take(i as int)).to_multiset(),
            decreases self.pending@.len() - i,
        {
            let meta = self.pending[i].meta.duplicate();
            let mut at: usize = items.len();
            let ghost sorted = metas(items@);
            proof {
                let seen = prompts(self.pending@.take(i as int));
                assert(seen =~= prompts(self.waiting()).take(i as int));
                assert forall|k: int| 0 <= k < sorted.len() implies (#[trigger] sorted[k]).id
                    != meta@.id by {
                    sorted.to_multiset_ensures();
                    seen.to_multiset_ensures();
                    assert(sorted.contains(sorted[k]));
                    assert(sorted.to_multiset().count(sorted[k]) > 0);
                    assert(seen.to_multiset().count(sorted[k]) > 0);
                    assert(seen.contains(sorted[k]));
                    let j = choose|j: int| 0 <= j < seen.len() && seen[j] == sorted[k];
                    assert(prompts(self.waiting())[j] == sorted[k]);
                    assert(prompts(self.waiting())[i as int] == meta@);
                }
            }
            while at > 0 && is_older(&meta, &items[at - 1])
                invariant
                    at <= items@.len(),
                    sorted == metas(items@),
                    by_age(sorted),
                    forall|k: int| at <= k < sorted.len() ==> older(meta@, #[trigger] sorted[k]),
                decreases at,
            {
                at -= 1;
            }
            items.insert(at, meta);
            proof {
                let after = metas(items@);
                assert(after =~= sorted.insert(at as int, meta@));
                if at > 0 {
                    age_order_is_total(meta@, sorted[at - 1], meta@);
                }
                assert forall|j: int, k: int| 0 <= j < k < after.len() implies older(
                    #[trigger] after[j],
                    #[trigger] after[k],
                ) by {
                    if k == at {
                        assert(after[j] == sorted[j]);
                        assert(j == at - 1 || older(sorted[j], sorted[at - 1]));
                        age_order_is_total(sorted[j], sorted[at - 1], meta@);
                    } else if j == at {
                        assert(after[k] == sorted[k - 1]);
                    } else {
                        let a = if j < at {
                            j
                        } else {
                            j - 1
                        };
                        let b = if k < at {
                            k
                        } else {
                            k - 1
                        };
                        assert(after[j] == sorted[a]);
                        assert(after[k] == sorted[b]);
                    }
                }
                let seen = prompts(self.pending@.take(i as int));
                let next = prompts(self.pending@.take(i + 1));
                assert(next =~= seen.push(meta@));
                sorted.to_multiset_ensures();
                seen.to_multiset_ensures();
                vstd::seq_lib::to_multiset_insert(sorted, at as int, meta@);
            }
            i += 1;
        }
        assert(self.pending@.take(i as int) =~= self.pending@);
        items
    }

    /// Id of the oldest prompt that waits for an answer.
    pub fn any_pending(&self) -> (found: Option<String>)
        requires
            self.wf(),
        ensures
            match found {
                Some(id) => is_oldest(prompts(self.waiting()), id@),
                None => self.waiting().len() == 0,
            },
    {
        if self.pending.len() == 0 {
            return None;
        }
        let ghost all = prompts(self.waiting());
        let mut best: usize = 0;
        let mut i: usize = 1;
        while i < self.pending.len()
            invariant
                self.wf(),
                all == prompts(self.waiting()),
                best < i <= self.pending@.len(),
                forall|k: int| 0 <= k < i && k != best ==> older(all[best as int], #[trigger] all[k]),
            decreases self.pending@.len() - i,
        {
            proof {
                age_order_is_total(all[best as int], all[i as int], all[best as int]);
                assert(all[best as int] == self.pending@[best as int].meta@);
                assert(all[i as int] == self.pending@[i as int].meta@);
            }
            if is_older(&self.pending[i].meta, &self.pending[best].meta) {
                proof {
                    assert forall|k: int| 0 <= k < i implies older(
                        all[i as int],
                        #[trigger] all[k],
                    ) by {
                        if k != best {
                            age_order_is_total(all[i as int], all[best as int], all[k]);
                        }
                    }
                }
                best = i;
            }
            i += 1;
        }
        assert(all[best as int] == self.pending@[best as int].meta@);
        Some(self.pending[best].meta.id.clone())
    }
}

/// Whether the prompt with id `id` is older than every other.
pub open spec fn is_oldest(prompts: Seq<Prompt>, id: Seq<char>) -> bool {
    exists|i: int|
        0 <= i < prompts.len() && (#[trigger] prompts[i]).id == id && forall|k: int|
            0 <= k < prompts.len() && k != i ==> older(prompts[i], #[trigger] prompts[k])
}

/// What is offered to be answered first is what is shown first: the oldest prompt opens every
/// snapshot.
pub proof fn oldest_prompt_opens_the_snapshot(
    waiting: Seq<Prompt>,
    snapshot: Seq<Prompt>,
    id: Seq<char>,
)
    requires
        by_age(snapshot),
        snapshot.to_multiset() == waiting.to_multiset(),
        is_oldest(waiting, id),
    ensures
        snapshot.len() > 0,
        snapshot[0].id == id,
{
    let i = choose|i: int|
        0 <= i < waiting.len() && (#[trigger] waiting[i]).id == id && forall|k: int|
            0 <= k < waiting.len() && k != i ==> older(waiting[i], #[trigger] waiting[k]);
    waiting.to_multiset_ensures();
    snapshot.to_multiset_ensures();
    assert(waiting.contains(waiting[i]));
    assert(waiting.to_multiset().count(waiting[i]) > 0);
    assert(snapshot.to_multiset().count(waiting[i]) > 0);
    assert(snapshot.contains(waiting[i]));
    let k = choose|k: int| 0 <= k < snapshot.len() && snapshot[k] == waiting[i];
    assert(snapshot.contains(snapshot[0]));
    assert(snapshot.to_multiset().count(snapshot[0]) > 0);
    assert(waiting.to_multiset().count(snapshot[0]) > 0);
    assert(waiting.contains(snapshot[0]));
    let j = choose|j: int| 0 <= j < waiting.len() && waiting[j] == snapshot[0];
    age_order_is_total(snapshot[0], waiting[i], snapshot[0]);
    if k > 0 {
        assert(older(snapshot[0], snapshot[k]));
        if j != i {
            assert(older(waiting[i], waiting[j]));
        }
    }
}

/// Prompts by their contents.
pub open spec fn metas(items: Seq<ApprovalMeta>) -> Seq<Prompt> {
    items.map_values(|m: ApprovalMeta| m@)
}

fn is_older(left: &ApprovalMeta, right: &ApprovalMeta) -> (is: bool)
    ensures
        is == older(left@, right@),
{
    match compare_by_age(left, right) {
        Ordering::Less => true,
        _ => false,
    }
}

proof fn lemma_answered_at(pending: Seq<PendingApproval>, id: Seq<char>, at: int)
    requires
        0 <= at < pending.len(),
        pending[at].meta@.id == id,
        forall|k: int| at < k < pending.len() ==> (#[trigger] pending[k]).meta@.id != id,
    ensures
        answered(pending, id) == pending.remove(at),
    decreases pending.len(),
{
    if at == pending.len() - 1 {
        assert(pending.remove(at) =~= pending.drop_last());
    } else {
        let front = pending.drop_last();
        assert forall|k: int| at < k < front.len() implies (#[trigger] front[k]).meta@.id != id by {
            assert(front[k] == pending[k]);
        }
        lemma_answered_at(front, id, at);
        assert(pending.remove(at) =~= front.remove(at).push(pending.last()));
    }
}

/// When calls to one tool need a human decision.
pub enum ApprovalRule<P> {
    /// Every call is gated.
    Always,
    /// A call is gated where the predicate says so. The predicate is not asked about a call
    /// whose arguments cannot be read: such a call is gated.
    When(P),
}

impl<P: Fn(&ToolCallView<'_>) -> bool> ApprovalRule<P> {
    /// [`Self::When`] of a predicate.
    pub fn when(predicate: P) -> (rule: Self)
        ensures
            rule == ApprovalRule::When(predicate),
    {
        ApprovalRule::When(predicate)
    }
}

/// Why a call's arguments cannot be handed to a predicate.
#[derive(Debug, Clone, Copy, PartialEq, Eq, Structural)]
pub enum UnreadableArguments {
    /// Nothing at all was sent.
    Empty,
    /// Not valid JSON.
    Unparsable,
    /// Valid JSON, but not an object.
    NotAnObject,
}

/// Whether a call's arguments are unfit for a predicate, and why. Arguments that did not
/// parse are held as null, so the raw text tells them from a null that was sent.
pub open spec fn unreadable(call: ToolCallView<'_>) -> Option<UnreadableArguments> {
    if blank(call.raw_arguments@) {
        Some(UnreadableArguments::Empty)
    } else if call.arguments is Null && trimmed(call.raw_arguments@) != "null"@ {
        Some(UnreadableArguments::Unparsable)
    } else if !(call.arguments is Object) {
        Some(UnreadableArguments::NotAnObject)
    } else {
        None
    }
}

/// Whether a call's arguments are unfit for a predicate, and why.
pub fn unreadable_arguments(call: &ToolCallView<'_>) -> (why: Option<UnreadableArguments>)
    ensures
        why == unreadable(*call),
{
    if is_blank(call.raw_arguments) {
        return Some(UnreadableArguments::Empty);
    }
    match call.arguments {
        Json::Null => {
            if same_text(trim(call.raw_arguments), "null") {
                Some(UnreadableArguments::NotAnObject)
            } else {
                Some(UnreadableArguments::Unparsable)
            }
        },
        Json::Object(_) => None,
        _ => Some(UnreadableArguments::NotAnObject),
    }
}

/// What to do about a prompt that nobody answered. Neither choice lets the call run.
#[derive(Debug, Clone, Copy, PartialEq, Eq, Structural)]
pub enum WhenUnanswered {
    /// Refuse the call.
    Refuse,
    /// Leave the call open, to be taken up again once someone answers.
    Suspend,
}

impl Default for WhenUnanswered {
    fn default() -> (policy: Self)
        ensures
            policy == WhenUnanswered::Refuse,
    {
        WhenUnanswered::Refuse
    }
}

/// A remembered answer: the verdict, and the reason given with it.
#[derive(Debug, PartialEq, Eq)]
pub struct StickyDecision {
    pub approved: bool,
    pub reason: Option<String>,
}

/// The remembered answer about `tool` among `decisions`.
pub open spec fn decision_for(
    decisions: Seq<(String, StickyDecision)>,
    tool: Seq<char>,
) -> Option<StickyDecision>
    decreases decisions.len(),
{
    if decisions.len() == 0 {
        None
    } else if decisions.last().0@ == tool {
        Some(decisions.last().1)
    } else {
        decision_for(decisions.drop_last(), tool)
    }
}

/// The rule for `tool` among `rules`.
pub open spec fn rule_for<P>(rules: Seq<(String, ApprovalRule<P>)>, tool: Seq<char>) -> Option<
    ApprovalRule<P>,
>
    decreases rules.len(),
{
    if rules.len() == 0 {
        None
    } else if rules.last().0@ == tool {
        Some(rules.last().1)
    } else {
        rule_for(rules.drop_last(), tool)
    }
}

/// Whether a rule's predicate can be called on any call whose arguments can be read. It is never
/// called on another one, so nothing is asked of it there.
pub open spec fn askable<P: Fn(&ToolCallView<'_>) -> bool>(rule: ApprovalRule<P>) -> bool {
    rule matches ApprovalRule::When(predicate) ==> forall|call: &ToolCallView<'_>|
        unreadable(*call) is None ==> #[trigger] call_requires(predicate, (call,))
}

/// What is recorded in place of a refused call. The explanation never stands alone: it is
/// marked as the decision of the person running the agent.
pub open spec fn denial_text(tool: Seq<char>, explanation: Option<Seq<char>>) -> Seq<char> {
    match explanation {
        Some(reason) => "User denied execution of "@ + tool + ": "@ + reason,
        None => "User denied execution of "@ + tool,
    }
}

/// Whether the prompt has to be put to a human now.
#[derive(Debug, PartialEq, Eq)]
pub enum ApprovalStep {
    /// It need not: this becomes of the call.
    Decided(ToolCallDecision),
    /// It does; go on with [`DualApprovalCallback::conclude`].
    Ask,
}

/// Asks a human before a gated tool runs.
pub struct DualApprovalCallback<P, F> {
    rules: Vec<(String, ApprovalRule<P>)>,
    timeout: Duration,
    sticky: ContinuityCache<Vec<(String, StickyDecision)>>,
    rejection_formatter: Option<F>,
    when_unanswered: WhenUnanswered,
}

impl<P: Fn(&ToolCallView<'_>) -> bool, F: Fn(&ToolCallView<'_>) -> String> DualApprovalCallback<
    P,
    F,
> {
    /// The rule for a tool; a tool without one is never gated.
    pub closed spec fn rule(&self, tool: Seq<char>) -> Option<ApprovalRule<P>> {
        rule_for(self.rules@, tool)
    }

    /// What explains a refusal that came without a reason.
    pub closed spec fn formatter(&self) -> Option<F> {
        self.rejection_formatter
    }

    /// What becomes of a call that nobody answered about.
    pub closed spec fn unanswered(&self) -> WhenUnanswered {
        self.when_unanswered
    }

    /// How long a human is waited for.
    pub closed spec fn patience(&self) -> Duration {
        self.timeout
    }

    /// The remembered answers of each conversation, the least recently used first.
    pub closed spec fn remembered(&self) -> Seq<(Seq<char>, Vec<(String, StickyDecision)>)> {
        self.sticky.contents()
    }

    /// The remembered answer about `tool` in the conversation `key`.
    pub open spec fn standing(&self, key: Seq<char>, tool: Seq<char>) -> Option<StickyDecision> {
        recalled(self.remembered(), key, tool)
    }

    /// The memory is in order, with room for so many conversations, and the predicates and the
    /// formatter can be called.
    pub open spec fn wf(&self) -> bool {
        &&& distinct_keys(self.remembered())
        &&& self.remembered().len() <= STICKY_CONVERSATIONS
        &&& self.ready()
    }

    /// Every predicate can be called on a call whose arguments can be read, and the formatter on
    /// any call.
    pub closed spec fn ready(&self) -> bool {
        &&& self.sticky.limit() == STICKY_CONVERSATIONS
        &&& forall|i: int| 0 <= i < self.rules@.len() ==> askable((#[trigger] self.rules@[i]).1)
        &&& self.rejection_formatter matches Some(format) ==> forall|call: &ToolCallView<'_>|
            #[trigger] call_requires(format, (call,))
    }

    /// Nothing but the memory may have changed.
    pub open spec fn same_settings(&self, other: Self) -> bool {
        &&& forall|tool: Seq<char>| #[trigger] self.rule(tool) == other.rule(tool)
        &&& self.formatter() == other.formatter()
        &&& self.unanswered() == other.unanswered()
        &&& self.patience() == other.patience()
    }

    /// Whether `decision` refuses `call`, explained by `reason` or else by the formatter.
    pub open spec fn denies(
        &self,
        call: &ToolCallView<'_>,
        reason: Option<Seq<char>>,
        decision: ToolCallDecision,
    ) -> bool {
        decision matches ToolCallDecision::ShortCircuit(ToolResultStatus::Error, content) && match (
            reason,
            self.formatter(),
        ) {
            (Some(said), _) => content@ == denial_text(call.name@, Some(said)),
            (None, Some(format)) => exists|said: String| #[trigger]
                call_ensures(format, (call,), said) && content@ == denial_text(
                    call.name@,
                    Some(said@),
                ),
            (None, None) => content@ == denial_text(call.name@, None),
        }
    }

    /// Gate every call of each named tool; a human is waited for as long as `timeout`.
    pub fn new(dangerous_tools: Vec<String>, timeout: Duration) -> (callback: Self)
        ensures
            callback.wf(),
            callback.remembered().len() == 0,
            callback.formatter() is None,
            callback.unanswered() == WhenUnanswered::Refuse,
            callback.patience() == timeout,
            forall|tool: Seq<char>| #[trigger]
                callback.rule(tool) == if exists|i: int|
                    0 <= i < dangerous_tools@.len() && #[trigger] dangerous_tools@[i]@ == tool {
                    Some(ApprovalRule::<P>::Always)
                } else {
                    None
                },
    {
        let ghost names = dangerous_tools@;
        let mut rest = dangerous_tools;
        let mut rules: Vec<(String, ApprovalRule<P>)> = Vec::new();
        while rest.len() > 0
            invariant
                rest@.len() <= names.len(),
                rest@ == names.take(rest@.len() as int),
                forall|i: int|
                    0 <= i < rules@.len() ==> (#[trigger] rules@[i]).1 == ApprovalRule::<P>::Always,
                forall|tool: Seq<char>| #[trigger]
                    rule_for(rules@, tool) == if exists|i: int|
                        rest@.len() <= i < names.len() && #[trigger] names[i]@ == tool {
                        Some(ApprovalRule::<P>::Always)
                    } else {
                        None
                    },
            decreases rest@.len(),
        {
            let ghost before = rules@;
            let ghost left = rest@.len();
            match rest.pop() {
                Some(name) => {
                    rules.push((name, ApprovalRule::Always));
                    proof {
                        assert(names[left - 1] == name);
                        assert(rules@.drop_last() =~= before);
                        assert forall|tool: Seq<char>| #[trigger]
                            rule_for(rules@, tool) == if exists|i: int|
                                left - 1 <= i < names.len() && #[trigger] names[i]@ == tool {
                                Some(ApprovalRule::<P>::Always)
                            } else {
                                None
                            } by {
                            if name@ == tool {
                                assert(names[left - 1]@ == tool);
                            } else {
                                assert(rule_for(rules@, tool) == rule_for(before, tool));
                            }
                        }
                    }
                },
                None => {},
            }
        }
        DualApprovalCallback {
            rules,
            timeout,
            sticky: ContinuityCache::new(STICKY_CONVERSATIONS),
            rejection_formatter: None,
            when_unanswered: WhenUnanswered::Refuse,
        }
    }

    /// Gate `tool` under `rule`, in place of any rule set for it before.
    #[must_use]
    pub fn with_rule(self, tool: String, rule: ApprovalRule<P>) -> (callback: Self)
        requires
            self.wf(),
            askable(rule),
        ensures
            callback.wf(),
            callback.rule(tool@) == Some(rule),
            forall|other: Seq<char>|
                other != tool@ ==> #[trigger] callback.rule(other) == self.rule(other),
            callback.formatter() == self.formatter(),
            callback.unanswered() == self.unanswered(),
            callback.patience() == self.patience(),
            callback.remembered() == self.remembered(),
    {
        let mut callback = self;
        callback.rules.push((tool, rule));
        assert(callback.rules@.drop_last() =~= self.rules@);
        callback
    }

    /// Wait for a human as long as `timeout`.
    #[must_use]
    pub fn with_timeout(self, timeout: Duration) -> (callback: Self)
        requires
            self.wf(),
        ensures
            callback.wf(),
            callback.patience() == timeout,
            forall|tool: Seq<char>| #[trigger] callback.rule(tool) == self.rule(tool),
            callback.formatter() == self.formatter(),
            callback.unanswered() == self.unanswered(),
            callback.remembered() == self.remembered(),
    {
        let mut callback = self;
        callback.timeout = timeout;
        callback
    }

    /// Explain a refusal that came without a reason by what `formatter` says of the call.
    #[must_use]
    pub fn with_rejection_formatter(self, formatter: F) -> (callback: Self)
        requires
            self.wf(),
            forall|call: &ToolCallView<'_>| #[trigger] call_requires(formatter, (call,)),
        ensures
            callback.wf(),
            callback.formatter() == Some(formatter),
            forall|tool: Seq<char>| #[trigger] callback.rule(tool) == self.rule(tool),
            callback.unanswered() == self.unanswered(),
            callback.patience() == self.patience(),
            callback.remembered() == self.remembered(),
    {
        let mut callback = self;
        callback.rejection_formatter = Some(formatter);
        callback
    }

    /// Do `policy` about a prompt that nobody answers.
    #[must_use]
    pub fn when_unanswered(self, policy: WhenUnanswered) -> (callback: Self)
        requires
            self.wf(),
        ensures
            callback.wf(),
            callback.unanswered() == policy,
            forall|tool: Seq<char>| #[trigger] callback.rule(tool) == self.rule(tool),
            callback.formatter() == self.formatter(),
            callback.patience() == self.patience(),
            callback.remembered() == self.remembered(),
    {
        let mut callback = self;
        callback.when_unanswered = policy;
        callback
    }

    /// How long to wait for a human.
    pub fn timeout(&self) -> (timeout: Duration)
        ensures
            timeout == self.patience(),
    {
        self.timeout
    }

    /// Whether a call has to be put to a human, as its rule has it: never without a rule,
    /// always under `Always` or where the arguments cannot be read, else as the predicate
    /// says.
    pub open spec fn gates(&self, call: &ToolCallView<'_>, gated: bool) -> bool {
        match self.rule(call.name@) {
            None => !gated,
            Some(ApprovalRule::Always) => gated,
            Some(ApprovalRule::When(predicate)) => if unreadable(*call) is Some {
                gated
            } else {
                call_ensures(predicate, (call,), gated)
            },
        }
    }

    /// Whether this call has to be put to a human.
    pub fn requires_approval(&self, call: &ToolCallView<'_>) -> (gated: bool)
        requires
            self.wf(),
        ensures
            self.gates(call, gated),
    {
        let mut i: usize = self.rules.len();
        assert(self.rules@.take(i as int) =~= self.rules@);
        while i > 0
            invariant
                self.wf(),
                i <= self.rules@.len(),
                rule_for(self.rules@, call.name@) == rule_for(
                    self.rules@.take(i as int),
                    call.name@,
                ),
            decreases i,
        {
            i -= 1;
            assert(self.rules@.take(i + 1).drop_last() =~= self.rules@.take(i as int));
            if same_text(self.rules[i].0.as_str(), call.name) {
                assert(self.rule(call.name@) == Some(self.rules@[i as int].1));
                return match &self.rules[i].1 {
                    ApprovalRule::Always => true,
                    ApprovalRule::When(predicate) => {
                        if unreadable_arguments(call).is_some() {
                            true
                        } else {
                            predicate(call)
                        }
                    },
                };
            }
        }
        false
    }

    /// The result recorded in place of a call that was not allowed to run.
    fn denial(&self, call: &ToolCallView<'_>, reason: Option<String>) -> (decision: ToolCallDecision)
        requires
            self.wf(),
        ensures
            self.denies(call, opt_view(reason), decision),
    {
        let explanation: Option<String> = match reason {
            Some(said) => Some(said),
            None => match &self.rejection_formatter {
                Some(format) => Some(format(call)),
                None => None,
            },
        };
        let mut content = "User denied execution of ".to_owned();
        content.append(call.name);
        match explanation {
            Some(said) => {
                content.append(": ");
                content.append(said.as_str());
            },
            None => {},
        }
        ToolCallDecision::deny(content)
    }

    /// A remembered answer about `tool` in the conversation `key`, which becomes the most
    /// recently used.
    pub fn sticky_decision(&mut self, key: &str, tool: &str) -> (found: Option<StickyDecision>)
        requires
            old(self).wf(),
        ensures
            final(self).wf(),
            final(self).same_settings(*old(self)),
            final(self).remembered() == touched(old(self).remembered(), key@),
            same_decision(found, old(self).standing(key@, tool@)),
    {
        match self.sticky.get(key) {
            Some(decisions) => find_decision(decisions, tool),
            None => None,
        }
    }

    /// Remember the verdict about `tool`, and its reason, for the rest of the conversation
    /// `key`. What is remembered about other tools stays.
    pub fn remember(&mut self, key: String, tool: &str, outcome: &ApprovalOutcome)
        requires
            old(self).wf(),
        ensures
            final(self).wf(),
            final(self).same_settings(*old(self)),
            noted(
                old(self).remembered(),
                final(self).remembered(),
                key@,
                tool@,
                outcome.approved,
                opt_view(outcome.reason),
            ),
    {
        let reason: Option<String> = match &outcome.reason {
            Some(said) => Some(said.clone()),
            None => None,
        };
        let mut entry: Vec<(String, StickyDecision)> = Vec::new();
        entry.push((tool.to_owned(), StickyDecision { approved: outcome.approved, reason }));
        let merge = |existing: Vec<(String, StickyDecision)>, incoming: Vec<
            (String, StickyDecision),
        >| -> (kept: Vec<(String, StickyDecision)>)
            ensures
                kept@ == existing@ + incoming@,
            {
                let mut kept = existing;
                let mut added = incoming;
                kept.append(&mut added);
                kept
            };
        let ghost before = self.remembered();
        let ghost said = entry@[0];
        self.sticky.put_with(key, entry, merge);
        proof {
            let kept = match value_for(before, key@) {
                Some(held) => choose|merged: Vec<(String, StickyDecision)>| #[trigger]
                    call_ensures(merge, (held, entry), merged) && self.remembered() == stored(
                        before,
                        STICKY_CONVERSATIONS as nat,
                        key@,
                        merged,
                    ),
                None => entry,
            };
            let held = match value_for(before, key@) {
                Some(held) => held@,
                None => seq![],
            };
            assert(kept@ =~= held.push(said));
            assert(kept@.drop_last() =~= held);
            assert(opt_view(said.1.reason) == opt_view(outcome.reason));
            assert(decision_for(kept@, tool@) == Some(said.1));
            assert forall|other: Seq<char>| other != tool@ implies #[trigger] decision_for(
                kept@,
                other,
            ) == decision_for(held, other) by {}
            assert forall|other: Seq<char>| other != tool@ implies #[trigger] decision_for(
                kept@,
                other,
            ) == match value_for(before, key@) {
                Some(found) => decision_for(found@, other),
                None => None,
            } by {
                assert(value_for(before, key@) is None ==> decision_for(held, other) is None);
            }
            assert(self.remembered() == stored(before, STICKY_CONVERSATIONS as nat, key@, kept));
        }
    }

    /// Forget every remembered answer of the conversation `key`.
    pub fn forget_sticky(&mut self, key: String)
        requires
            old(self).wf(),
        ensures
            final(self).wf(),
            final(self).same_settings(*old(self)),
            exists|nothing: Vec<(String, StickyDecision)>|
                nothing@.len() == 0 && final(self).remembered() == #[trigger] stored(
                    old(self).remembered(),
                    STICKY_CONVERSATIONS as nat,
                    key@,
                    nothing,
                ),
    {
        let nothing: Vec<(String, StickyDecision)> = Vec::new();
        self.sticky.put(key, nothing);
        assert(self.remembered() == stored(
            old(self).remembered(),
            STICKY_CONVERSATIONS as nat,
            key@,
            nothing,
        ));
    }

    /// Whether `step` is what a gated call comes to before anyone is asked: a remembered
    /// approval lets it run, a remembered refusal refuses it with its own reason, and
    /// otherwise someone has to be asked.
    pub open spec fn recalls(
        &self,
        key: Seq<char>,
        call: &ToolCallView<'_>,
        step: ApprovalStep,
    ) -> bool {
        match self.standing(key, call.name@) {
            None => step == ApprovalStep::Ask,
            Some(decision) => if decision.approved {
                step == ApprovalStep::Decided(ToolCallDecision::Proceed)
            } else {
                step matches ApprovalStep::Decided(denied) && self.denies(
                    call,
                    opt_view(decision.reason),
                    denied,
                )
            },
        }
    }

    /// Decide about a call as far as that needs no human.
    pub fn begin(&mut self, context: &ExecutionContext, call: &ToolCallView<'_>) -> (step:
        ApprovalStep)
        requires
            old(self).wf(),
        ensures
            final(self).wf(),
            final(self).same_settings(*old(self)),
            ({
                let key = continuity_text(context.continuity());
                exists|gated: bool| #[trigger]
                    old(self).gates(call, gated) && if gated {
                        old(self).recalls(key, call, step)
                            && final(self).remembered() == touched(old(self).remembered(), key)
                    } else {
                        step == ApprovalStep::Decided(ToolCallDecision::Proceed)
                            && final(self).remembered() == old(self).remembered()
                    }
            }),
    {
        let ghost this = *self;
        let gated = self.requires_approval(call);
        if !gated {
            assert(this.gates(call, false));
            return ApprovalStep::Decided(ToolCallDecision::Proceed);
        }
        assert(this.gates(call, true));
        let key = context.continuity_key();
        match self.sticky_decision(key.as_str(), call.name) {
            Some(decision) => {
                if decision.approved {
                    ApprovalStep::Decided(ToolCallDecision::Proceed)
                } else {
                    ApprovalStep::Decided(self.denial(call, decision.reason))
                }
            },
            None => ApprovalStep::Ask,
        }
    }

    /// Decide about a gated call once its prompt has been answered, or has not been.
    ///
    /// No answer is no decision: nothing is remembered, and the call does not run.
    pub fn conclude(
        &mut self,
        context: &ExecutionContext,
        call: &ToolCallView<'_>,
        outcome: Option<ApprovalOutcome>,
    ) -> (decision: ToolCallDecision)
        requires
            old(self).wf(),
        ensures
            final(self).wf(),
            final(self).same_settings(*old(self)),
            match outcome {
                None => {
                    &&& final(self).remembered() == old(self).remembered()
                    &&& match old(self).unanswered() {
                        WhenUnanswered::Refuse => old(self).denies(call, None, decision),
                        WhenUnanswered::Suspend => decision == ToolCallDecision::Suspend,
                    }
                },
                Some(answer) => {
                    &&& if answer.sticky {
                        noted(
                            old(self).remembered(),
                            final(self).remembered(),
                            continuity_text(context.continuity()),
                            call.name@,
                            answer.approved,
                            opt_view(answer.reason),
                        )
                    } else {
                        final(self).remembered() == old(self).remembered()
                    }
                    &&& if answer.approved {
                        decision == ToolCallDecision::Proceed
                    } else {
                        old(self).denies(call, opt_view(answer.reason), decision)
                    }
                },
            },
    {
        match outcome {
            None => match self.when_unanswered {
                WhenUnanswered::Refuse => self.denial(call, None),
                WhenUnanswered::Suspend => ToolCallDecision::Suspend,
            },
            Some(answer) => {
                if answer.sticky {
                    let key = context.continuity_key();
                    self.remember(key, call.name, &answer);
                }
                if answer.approved {
                    ToolCallDecision::Proceed
                } else {
                    self.denial(call, answer.reason)
                }
            },
        }
    }
}

/// The remembered answer about `tool` among `decisions`.
fn find_decision(decisions: &Vec<(String, StickyDecision)>, tool: &str) -> (found: Option<
    StickyDecision,
>)
    ensures
        same_decision(found, decision_for(decisions@, tool@)),
{
    let mut i: usize = decisions.len();
    assert(decisions@.take(i as int) =~= decisions@);
    while i > 0
        invariant
            i <= decisions@.len(),
            decision_for(decisions@, tool@) == decision_for(decisions@.take(i as int), tool@),
        decreases i,
    {
        i -= 1;
        assert(decisions@.take(i + 1).drop_last() =~= decisions@.take(i as int));
        if same_text(decisions[i].0.as_str(), tool) {
            return Some(decisions[i].1.duplicate());
        }
    }
    None
}

impl StickyDecision {
    fn duplicate(&self) -> (copy: Self)
        ensures
            same_decision(Some(copy), Some(*self)),
    {
        let reason: Option<String> = match &self.reason {
            Some(said) => Some(said.clone()),
            None => None,
        };
        StickyDecision { approved: self.approved, reason }
    }
}

/// Whether two remembered answers say the same.
pub open spec fn same_decision(a: Option<StickyDecision>, b: Option<StickyDecision>) -> bool {
    match (a, b) {
        (Some(x), Some(y)) => x.approved == y.approved && opt_view(x.reason) == opt_view(y.reason),
        (None, None) => true,
        _ => false,
    }
}

/// `after` is `before` with an answer about `tool` remembered for the conversation `key`, and
/// everything remembered about its other tools kept.
pub open spec fn noted(
    before: Seq<(Seq<char>, Vec<(String, StickyDecision)>)>,
    after: Seq<(Seq<char>, Vec<(String, StickyDecision)>)>,
    key: Seq<char>,
    tool: Seq<char>,
    approved: bool,
    reason: Option<Seq<char>>,
) -> bool {
    exists|entry: Vec<(String, StickyDecision)>|
        {
            &&& after == #[trigger] stored(before, STICKY_CONVERSATIONS as nat, key, entry)
            &&& decision_for(entry@, tool) matches Some(decision) && decision.approved == approved
                && opt_view(decision.reason) == reason
            &&& forall|other: Seq<char>|
                other != tool ==> #[trigger] decision_for(entry@, other) == match value_for(
                    before,
                    key,
                ) {
                    Some(held) => decision_for(held@, other),
                    None => None,
                }
        }
}

/// What is remembered about `tool` in the conversation `key`.
pub open spec fn recalled(
    memory: Seq<(Seq<char>, Vec<(String, StickyDecision)>)>,
    key: Seq<char>,
    tool: Seq<char>,
) -> Option<StickyDecision> {
    match value_for(memory, key) {
        Some(decisions) => decision_for(decisions@, tool),
        None => None,
    }
}

/// Whether no conversation but `key` has gained or changed an answer.
pub open spec fn gained_nothing(
    before: Seq<(Seq<char>, Vec<(String, StickyDecision)>)>,
    after: Seq<(Seq<char>, Vec<(String, StickyDecision)>)>,
    key: Seq<char>,
) -> bool {
    forall|other: Seq<char>, about: Seq<char>|
        other != key ==> (#[trigger] recalled(after, other, about) is None || recalled(
            after,
            other,
            about,
        ) == recalled(before, other, about))
}

proof fn lemma_noted(
    before: Seq<(Seq<char>, Vec<(String, StickyDecision)>)>,
    after: Seq<(Seq<char>, Vec<(String, StickyDecision)>)>,
    key: Seq<char>,
    tool: Seq<char>,
    approved: bool,
    reason: Option<Seq<char>>,
)
    requires
        distinct_keys(before),
        before.len() <= STICKY_CONVERSATIONS,
        noted(before, after, key, tool, approved, reason),
    ensures
        distinct_keys(after),
        after.len() <= STICKY_CONVERSATIONS,
        age(after, key) == Some(0int),
        recalled(after, key, tool) matches Some(decision) && decision.approved == approved
            && opt_view(decision.reason) == reason,
        forall|other: Seq<char>|
            other != tool ==> #[trigger] recalled(after, key, other) == recalled(before, key, other),
        gained_nothing(before, after, key),
{
    let entry = choose|entry: Vec<(String, StickyDecision)>|
        {
            &&& after == #[trigger] stored(before, STICKY_CONVERSATIONS as nat, key, entry)
            &&& decision_for(entry@, tool) matches Some(decision) && decision.approved == approved
                && opt_view(decision.reason) == reason
            &&& forall|other: Seq<char>|
                other != tool ==> #[trigger] decision_for(entry@, other) == match value_for(
                    before,
                    key,
                ) {
                    Some(held) => decision_for(held@, other),
                    None => None,
                }
        };
    stored_value_is_found(before, STICKY_CONVERSATIONS as nat, key, entry);
    assert forall|other: Seq<char>, about: Seq<char>| other != key implies (#[trigger] recalled(
        after,
        other,
        about,
    ) is None || recalled(after, other, about) == recalled(before, other, about)) by {
        storing_leaves_other_conversations_alone(
            before,
            STICKY_CONVERSATIONS as nat,
            key,
            entry,
            other,
        );
    }
}

/// Whether `after` is what one step makes of a memory in which no answer comes to stand: a call
/// that is not gated, or an answer for this once, leaves it; a gated call of the conversation
/// `key` or of one among `others` looks there; one among `others` may be forgotten.
pub open spec fn no_answer_stands(
    before: Seq<(Seq<char>, Vec<(String, StickyDecision)>)>,
    after: Seq<(Seq<char>, Vec<(String, StickyDecision)>)>,
    key: Seq<char>,
    others: Set<Seq<char>>,
) -> bool {
    ||| after == before
    ||| exists|asked: Seq<char>|
        (asked == key || others.contains(asked)) && after == #[trigger] touched(before, asked)
    ||| exists|gone: Seq<char>, nothing: Vec<(String, StickyDecision)>|
        gone != key && others.contains(gone) && nothing@.len() == 0 && after == #[trigger] stored(
            before,
            STICKY_CONVERSATIONS as nat,
            gone,
            nothing,
        )
}

proof fn lemma_no_answer_stands(
    before: Seq<(Seq<char>, Vec<(String, StickyDecision)>)>,
    after: Seq<(Seq<char>, Vec<(String, StickyDecision)>)>,
    key: Seq<char>,
    others: Set<Seq<char>>,
)
    requires
        distinct_keys(before),
        before.len() <= STICKY_CONVERSATIONS,
        used_lately(before, key, others),
        others.finite(),
        others.len() < STICKY_CONVERSATIONS,
        no_answer_stands(before, after, key, others),
    ensures
        distinct_keys(after),
        after.len() <= STICKY_CONVERSATIONS,
        used_lately(after, key, others),
        value_for(after, key) == value_for(before, key),
        gained_nothing(before, after, key),
{
    if after == before {
    } else if exists|asked: Seq<char>|
        (asked == key || others.contains(asked)) && after == #[trigger] touched(before, asked) {
        let asked = choose|asked: Seq<char>|
            (asked == key || others.contains(asked)) && after == #[trigger] touched(before, asked);
        reading_keeps_an_entry(before, key, others, asked);
        assert forall|other: Seq<char>, about: Seq<char>| other != key implies (
        #[trigger] recalled(after, other, about) is None || recalled(after, other, about)
            == recalled(before, other, about)) by {
            reading_refreshes(before, asked, other);
        }
        reading_refreshes(before, asked, key);
    } else {
        let (gone, nothing) = choose|gone: Seq<char>, nothing: Vec<(String, StickyDecision)>|
            gone != key && others.contains(gone) && nothing@.len() == 0 && after
                == #[trigger] stored(before, STICKY_CONVERSATIONS as nat, gone, nothing);
        let limit = STICKY_CONVERSATIONS as nat;
        storing_keeps_an_entry(before, limit, key, others, gone, nothing);
        stored_value_is_found(before, limit, gone, nothing);
        assert forall|other: Seq<char>, about: Seq<char>| other != key implies (
        #[trigger] recalled(after, other, about) is None || recalled(after, other, about)
            == recalled(before, other, about)) by {
            if other != gone {
                storing_leaves_other_conversations_alone(before, limit, gone, nothing, other);
            }
        }
    }
}

proof fn lemma_standing_answer<
    P: Fn(&ToolCallView<'_>) -> bool,
    F: Fn(&ToolCallView<'_>) -> String,
>(
    states: Seq<DualApprovalCallback<P, F>>,
    key: Seq<char>,
    others: Set<Seq<char>>,
    n: int,
)
    requires
        0 <= n < states.len(),
        distinct_keys(states[0].remembered()),
        states[0].remembered().len() <= STICKY_CONVERSATIONS,
        age(states[0].remembered(), key) == Some(0int),
        others.finite(),
        others.len() < STICKY_CONVERSATIONS,
        forall|i: int|
            0 <= i < states.len() - 1 ==> no_answer_stands(
                (#[trigger] states[i]).remembered(),
                states[i + 1].remembered(),
                key,
                others,
            ),
    ensures
        distinct_keys(states[n].remembered()),
        states[n].remembered().len() <= STICKY_CONVERSATIONS,
        used_lately(states[n].remembered(), key, others),
        value_for(states[n].remembered(), key) == value_for(states[0].remembered(), key),
        gained_nothing(states[0].remembered(), states[n].remembered(), key),
    decreases n,
{
    if n > 0 {
        lemma_standing_answer(states, key, others, n - 1);
        let last = states[n - 1].remembered();
        let next = states[n].remembered();
        lemma_no_answer_stands(last, next, key, others);
        assert forall|other: Seq<char>, about: Seq<char>| other != key implies (
        #[trigger] recalled(next, other, about) is None || recalled(next, other, about)
            == recalled(states[0].remembered(), other, about)) by {
            assert(recalled(last, other, about) is None || recalled(last, other, about)
                == recalled(states[0].remembered(), other, about));
        }
    }
}

/// A standing answer stands for its own tool in its own conversation and for nothing else, over
/// any number of calls.
///
/// `before` is the callback when the answer about `tool` came in the conversation `key`, and
/// `states` what it went through since, in which no other answer came to stand, `key` was not
/// forgotten and fewer other conversations were in use than the memory has room for. A gated
/// call of the tool in that conversation is then decided as the answer was, without a prompt. A
/// gated call of another tool there, or of any tool in another conversation, is put to a human
/// unless an answer about it stood before.
pub proof fn a_standing_answer_is_scoped<
    P: Fn(&ToolCallView<'_>) -> bool,
    F: Fn(&ToolCallView<'_>) -> String,
>(
    before: DualApprovalCallback<P, F>,
    states: Seq<DualApprovalCallback<P, F>>,
    key: Seq<char>,
    others: Set<Seq<char>>,
    tool: Seq<char>,
    approved: bool,
    reason: Option<Seq<char>>,
)
    requires
        before.wf(),
        states.len() > 0,
        noted(before.remembered(), states[0].remembered(), key, tool, approved, reason),
        forall|i: int|
            0 <= i < states.len() - 1 ==> no_answer_stands(
                (#[trigger] states[i]).remembered(),
                states[i + 1].remembered(),
                key,
                others,
            ),
        others.finite(),
        others.len() < STICKY_CONVERSATIONS,
    ensures
        forall|call: &ToolCallView<'_>, step: ApprovalStep| #[trigger]
            states.last().recalls(key, call, step) && call.name@ == tool ==> if approved {
                step == ApprovalStep::Decided(ToolCallDecision::Proceed)
            } else {
                step matches ApprovalStep::Decided(denied) && states.last().denies(
                    call,
                    reason,
                    denied,
                )
            },
        forall|call: &ToolCallView<'_>, step: ApprovalStep| #[trigger]
            states.last().recalls(key, call, step) && call.name@ != tool && before.standing(
                key,
                call.name@,
            ) is None ==> step == ApprovalStep::Ask,
        forall|other: Seq<char>, call: &ToolCallView<'_>, step: ApprovalStep| #[trigger]
            states.last().recalls(other, call, step) && other != key && before.standing(
                other,
                call.name@,
            ) is None ==> step == ApprovalStep::Ask,
{
    let first = states[0].remembered();
    lemma_noted(before.remembered(), first, key, tool, approved, reason);
    lemma_standing_answer(states, key, others, states.len() - 1);
    let last = states.last().remembered();
    assert forall|about: Seq<char>| #[trigger] recalled(last, key, about) == recalled(
        first,
        key,
        about,
    ) by {}
    assert forall|other: Seq<char>, call: &ToolCallView<'_>, step: ApprovalStep| #[trigger]
        states.last().recalls(other, call, step) && other != key && before.standing(
            other,
            call.name@,
        ) is None implies step == ApprovalStep::Ask by {
        assert(recalled(first, other, call.name@) is None);
        assert(recalled(last, other, call.name@) is None);
    }
}

/// Forgetting a conversation forgets every answer that stood in it.
pub proof fn forgetting_clears_every_standing_answer(
    before: Seq<(Seq<char>, Vec<(String, StickyDecision)>)>,
    key: Seq<char>,
    nothing: Vec<(String, StickyDecision)>,
    tool: Seq<char>,
)
    requires
        distinct_keys(before),
        before.len() <= STICKY_CONVERSATIONS,
        nothing@.len() == 0,
    ensures
        recalled(stored(before, STICKY_CONVERSATIONS as nat, key, nothing), key, tool) is None,
{
    stored_value_is_found(before, STICKY_CONVERSATIONS as nat, key, nothing);
}

/// A gated call runs only on an approval: nothing else a prompt can come to lets it through.
pub proof fn only_an_approval_lets_a_gated_call_run<
    P: Fn(&ToolCallView<'_>) -> bool,
    F: Fn(&ToolCallView<'_>) -> String,
>(callback: DualApprovalCallback<P, F>, key: Seq<char>, call: &ToolCallView<'_>)
    ensures
        callback.recalls(key, call, ApprovalStep::Decided(ToolCallDecision::Proceed)) ==> (
        callback.standing(key, call.name@) matches Some(decision) && decision.approved),
        !callback.denies(call, None, ToolCallDecision::Proceed),
        forall|reason: Seq<char>| !#[trigger]
            callback.denies(call, Some(reason), ToolCallDecision::Proceed),
{
}

/// Every refusal opens by naming whose decision it is.
pub proof fn every_refusal_is_attributed(tool: Seq<char>, explanation: Option<Seq<char>>)
    ensures
        ("User denied execution of "@ + tool).is_prefix_of(denial_text(tool, explanation)),
{
}

proof fn lemma_no_colon(word: Seq<char>)
    requires
        forall|i: int| 0 <= i < word.len() ==> #[trigger] word[i] != ':' && word[i] != '：',
    ensures
        colon_at(word) == word.len(),
{
    lemma_colon_at(word, word.len() as int);
}

/// The reason behind the colon is kept whole, the white space around it aside, and the verdict is
/// what stands before it: a typed line answers as its first word does, whatever follows.
pub proof fn a_typed_reason_is_kept_whole(word: Seq<char>, colon: char, rest: Seq<char>)
    requires
        forall|i: int| 0 <= i < word.len() ==> #[trigger] word[i] != ':' && word[i] != '：',
        colon == ':' || colon == '：',
    ensures
        match (typed_answer(word), typed_answer(word.push(colon) + rest)) {
            (None, None) => true,
            (Some(bare), Some(full)) => {
                &&& bare.approved == full.approved
                &&& bare.sticky == full.sticky
                &&& bare.reason is None
                &&& full.reason == if trimmed(rest).len() == 0 {
                    None
                } else {
                    Some(trimmed(rest))
                }
            },
            _ => false,
        },
{
    let line = word.push(colon) + rest;
    lemma_no_colon(word);
    assert forall|k: int| 0 <= k < word.len() implies !is_colon(#[trigger] line[k]) by {
        assert(line[k] == word[k]);
    }
    lemma_colon_at(line, word.len() as int);
    assert(word.take(word.len() as int) =~= word);
    assert(line.take(word.len() as int) =~= word);
    assert(line.skip(word.len() as int + 1) =~= rest);
    lemma_blank_iff_trimmed_empty(rest);
    lemma_blank_iff_trimmed_empty(trimmed(rest));
    trimming_takes_only_white_ends(rest);
}

/// Whether a word is one of some words, its case and the white space around it aside.
pub open spec fn is_one_of(word: Seq<char>, words: Seq<Seq<char>>) -> bool {
    words.contains(lowered(trimmed(word)))
}

/// A call is approved only by a word that approves, refused only by one that refuses, and an answer
/// stands only where the word says so; no other line is an answer.
pub proof fn an_answer_is_what_was_typed(word: Seq<char>)
    ensures
        match verdict_of(word) {
            Some((true, false)) => is_one_of(word, seq!["y"@, "yes"@, "/approve"@]),
            Some((false, false)) => is_one_of(word, seq!["n"@, "no"@, "/deny"@]),
            Some((true, true)) => is_one_of(word, seq!["a"@, "always"@, "/always"@]),
            Some((false, true)) => is_one_of(word, seq!["d"@, "never"@, "/never"@]),
            None => !is_one_of(
                word,
                seq![
                    "y"@,
                    "yes"@,
                    "/approve"@,
                    "n"@,
                    "no"@,
                    "/deny"@,
                    "a"@,
                    "always"@,
                    "/always"@,
                    "d"@,
                    "never"@,
                    "/never"@,
                ],
            ),
        },
        verdict_of(word) == verdict_of(lowered(trimmed(word))),
{
    let said = lowered(trimmed(word));
    let approve = seq!["y"@, "yes"@, "/approve"@];
    let refuse = seq!["n"@, "no"@, "/deny"@];
    let always = seq!["a"@, "always"@, "/always"@];
    let never = seq!["d"@, "never"@, "/never"@];
    assert(approve[0] == "y"@ && approve[1] == "yes"@ && approve[2] == "/approve"@);
    assert(refuse[0] == "n"@ && refuse[1] == "no"@ && refuse[2] == "/deny"@);
    assert(always[0] == "a"@ && always[1] == "always"@ && always[2] == "/always"@);
    assert(never[0] == "d"@ && never[1] == "never"@ && never[2] == "/never"@);
    lower_case_keeps_a_text_trimmed(word);
}

/// What the model reads of a refusal ends in the whole reason, and names the tool before it.
pub proof fn a_refusal_carries_its_reason_whole(tool: Seq<char>, reason: Seq<char>)
    ensures
        ({
            let said = denial_text(tool, Some(reason));
            &&& said.skip(said.len() - reason.len()) == reason
            &&& denial_text(tool, None).is_prefix_of(said)
            &&& denial_text(tool, None).skip(denial_text(tool, None).len() - tool.len()) == tool
        }),
{
    let said = denial_text(tool, Some(reason));
    let bare = denial_text(tool, None);
    assert(said.skip(said.len() - reason.len()) =~= reason);
    assert(bare.skip(bare.len() - tool.len()) =~= tool);
}

/// Answering a prompt takes that one out and leaves all others as they are, in their order.
pub proof fn answering_takes_out_one_prompt(
    pending: Seq<PendingApproval>,
    at: int,
    id: Seq<char>,
)
    requires
        distinct_ids(prompts(pending)),
    ensures
        0 <= at < pending.len() && pending[at].meta@.id == id ==> answered(pending, id)
            == pending.remove(at),
        (forall|i: int| 0 <= i < pending.len() ==> (#[trigger] pending[i]).meta@.id != id)
            ==> answered(pending, id) == pending,
{
    if 0 <= at < pending.len() && pending[at].meta@.id == id {
        assert forall|k: int| at < k < pending.len() implies (#[trigger] pending[k]).meta@.id
            != id by {
            assert(prompts(pending)[at].id != prompts(pending)[k].id);
        }
        lemma_answered_at(pending, id, at);
    }
    if forall|i: int| 0 <= i < pending.len() ==> (#[trigger] pending[i]).meta@.id != id {
        assert(!waits_for(prompts(pending), id)) by {
            if waits_for(prompts(pending), id) {
                let i = choose|i: int|
                    0 <= i < prompts(pending).len() && (#[trigger] prompts(pending)[i]).id == id;
                assert(pending[i].meta@.id == id);
            }
        }
        lemma_answered(pending, id);
    }
}

/// Discarding prompts leaves those that were not named, and only those.
pub proof fn discarding_leaves_the_others(
    pending: Seq<PendingApproval>,
    ids: Seq<String>,
    other: Seq<char>,
)
    requires
        distinct_ids(prompts(pending)),
    ensures
        distinct_ids(prompts(discarded(pending, ids))),
        waits_for(prompts(discarded(pending, ids)), other) == (waits_for(prompts(pending), other)
            && forall|i: int| 0 <= i < ids.len() ==> (#[trigger] ids[i])@ != other),
    decreases ids.len(),
{
    if ids.len() > 0 {
        let front = ids.drop_last();
        discarding_leaves_the_others(pending, front, other);
        lemma_answered(discarded(pending, front), ids.last()@);
        assert forall|i: int| 0 <= i < front.len() implies front[i] == #[trigger] ids[i] by {}
        assert(ids[ids.len() - 1] == ids.last());
        if forall|i: int| 0 <= i < ids.len() ==> (#[trigger] ids[i])@ != other {
            assert forall|i: int| 0 <= i < front.len() implies (#[trigger] front[i])@ != other by {
                assert(ids[i]@ != other);
            }
        }
        if forall|i: int| 0 <= i < front.len() ==> (#[trigger] front[i])@ != other {
            if ids.last()@ != other {
                assert forall|i: int| 0 <= i < ids.len() implies (#[trigger] ids[i])@ != other by {
                    if i < front.len() {
                        assert(front[i]@ != other);
                    }
                }
            }
        }
    }
}

/// A prompt raised in an earlier second is the older one.
pub proof fn an_earlier_prompt_is_older(left: Prompt, right: Prompt)
    requires
        left.requested_at < right.requested_at,
    ensures
        older(left, right),
        !older(right, left),
{
}

/// A predicate is consulted only about arguments that were sent and parsed as an object; a call
/// with any others is gated wherever there is a rule, and no call is without one.
pub proof fn only_readable_objects_reach_a_predicate<
    P: Fn(&ToolCallView<'_>) -> bool,
    F: Fn(&ToolCallView<'_>) -> String,
>(callback: DualApprovalCallback<P, F>, call: &ToolCallView<'_>, gated: bool)
    ensures
        (unreadable(*call) is None) == (call.arguments is Object && trimmed(
            call.raw_arguments@,
        ).len() > 0),
        callback.gates(call, gated) ==> match callback.rule(call.name@) {
            None => !gated,
            Some(ApprovalRule::Always) => gated,
            Some(ApprovalRule::When(predicate)) => {
                &&& !(call.arguments is Object) || trimmed(call.raw_arguments@).len() == 0 ==> gated
                &&& call.arguments is Object && trimmed(call.raw_arguments@).len() > 0
                    ==> call_ensures(predicate, (call,), gated)
            },
        },
{
    lemma_blank_iff_trimmed_empty(call.raw_arguments@);
}

/// What the console shows holds the tool's name and its arguments as the model wrote them, whole.
pub proof fn the_console_shows_the_call(call: ToolCallView<'_>)
    ensures
        occurs_in(console_prompt(call), call.name@),
        occurs_in(console_prompt(call), call.raw_arguments@),
{
    let text = console_prompt(call);
    let at = "\n⚠️  即将执行高危操作\n工具: "@.len() as int;
    assert(text.subrange(at, at + call.name@.len()) =~= call.name@);
    assert(occurs_at(text, call.name@, at));
    let behind = at + call.name@.len() + "\n参数: "@.len();
    assert(text.subrange(behind, behind + call.raw_arguments@.len()) =~= call.raw_arguments@);
    assert(occurs_at(text, call.raw_arguments@, behind));
}

/// Whatever line lets a call run says so before its first colon, in one of the words for it.
pub proof fn a_line_approves_only_in_so_many_words(line: &str, outcome: Option<ApprovalOutcome>)
    requires
        call_ensures(parse_approval_answer, (line,), outcome),
        outcome matches Some(answer) && answer.approved,
    ensures
        exists|at: int|
            {
                &&& 0 <= at <= line@.len()
                &&& at < line@.len() ==> line@[at] == ':' || line@[at] == '：'
                &&& is_one_of(
                    #[trigger] line@.take(at),
                    seq!["y"@, "yes"@, "/approve"@, "a"@, "always"@, "/always"@],
                )
            },
{
    let at = colon_at(line@);
    lemma_colon_in_range(line@);
    let word = line@.take(at);
    an_answer_is_what_was_typed(word);
    let said = lowered(trimmed(word));
    let all = seq!["y"@, "yes"@, "/approve"@, "a"@, "always"@, "/always"@];
    assert(all[0] == "y"@ && all[1] == "yes"@ && all[2] == "/approve"@);
    assert(all[3] == "a"@ && all[4] == "always"@ && all[5] == "/always"@);
    let once = seq!["y"@, "yes"@, "/approve"@];
    let always = seq!["a"@, "always"@, "/always"@];
    if once.contains(said) {
        let i = choose|i: int| 0 <= i < once.len() && once[i] == said;
        assert(all[i] == said);
    }
    if always.contains(said) {
        let i = choose|i: int| 0 <= i < always.len() && always[i] == said;
        assert(all[i + 3] == said);
    }
}

proof fn lemma_colon_in_range(line: Seq<char>)
    ensures
        0 <= colon_at(line) <= line.len(),
        colon_at(line) < line.len() ==> is_colon(line[colon_at(line)]),
    decreases line.len(),
{
    if line.len() > 0 && !is_colon(line[0]) {
        lemma_colon_in_range(line.drop_first());
    }
}

/// A refusal never lets the call run, and what it says ends in the reason that was given; without
/// one, in what the formatter says of the call where there is a formatter.
pub proof fn a_refusal_says_why<
    P: Fn(&ToolCallView<'_>) -> bool,
    F: Fn(&ToolCallView<'_>) -> String,
>(
    callback: DualApprovalCallback<P, F>,
    call: &ToolCallView<'_>,
    reason: Option<Seq<char>>,
    decision: ToolCallDecision,
)
    requires
        callback.denies(call, reason, decision),
    ensures
        decision matches ToolCallDecision::ShortCircuit(ToolResultStatus::Error, content) && (reason
            matches Some(said) ==> content@.skip(content@.len() - said.len()) == said) && (
        reason is None && callback.formatter() is None ==> content@.skip(
            content@.len() - call.name@.len(),
        ) == call.name@) && (reason is None && callback.formatter() is Some ==> exists|said: String|
            #[trigger]
            call_ensures(callback.formatter()->0, (call,), said) && content@.skip(
                content@.len() - said@.len(),
            ) == said@),
{
    match decision {
        ToolCallDecision::ShortCircuit(_, content) => {
            match reason {
                Some(said) => a_refusal_carries_its_reason_whole(call.name@, said),
                None => {
                    match callback.formatter() {
                        Some(format) => {
                            let said = choose|said: String| #[trigger]
                                call_ensures(format, (call,), said) && content@ == denial_text(
                                    call.name@,
                                    Some(said@),
                                );
                            a_refusal_carries_its_reason_whole(call.name@, said@);
                        },
                        None => a_refusal_carries_its_reason_whole(call.name@, seq![]),
                    }
                },
            }
        },
        _ => {},
    }
}

} // verus!
