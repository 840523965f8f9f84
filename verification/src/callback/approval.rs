//! Asking a person at the console before a dangerous tool runs.
//!
//! Showing the prompt and reading the answer is the caller's part; what is shown, and what
//! becomes of the call, is decided here.

use vstd::prelude::*;

use crate::agent::{ToolCallView, ToolResultStatus};
use crate::text::{
    holds, lower_case_changes_only_capitals, lowercase, lowered, occurs_at, occurs_in, same_text, trim,
    trimmed, views,
};

verus! {

/// Asks a person before letting any listed tool run. A refusal is recorded in place of the
/// call, and the model carries on without it.
#[derive(Debug)]
pub struct ApprovalCallback {
    dangerous_tools: Vec<String>,
}

/// Whether an answer approves: a `y` in either case, white space around it aside. No answer
/// (the console could not be read) does not.
pub open spec fn approves(answer: Option<Seq<char>>) -> bool {
    answer matches Some(line) && lowered(trimmed(line)) == "y"@
}

/// What the person is shown: the tool, and its arguments as the model wrote them.
pub open spec fn prompt_text(call: ToolCallView<'_>) -> Seq<char> {
    "\n⚠️  即将执行高危操作\n工具: "@ + call.name@ + "\n参数: "@ + call.raw_arguments@
        + "\n是否执行？(y/n): "@
}

/// What stands in place of the result of a refused call.
pub open spec fn refusal(tool: Seq<char>) -> Seq<char> {
    "User denied execution of "@ + tool
}

impl ApprovalCallback {
    /// Whether a tool is one to ask about.
    pub closed spec fn lists(&self, tool: Seq<char>) -> bool {
        views(self.dangerous_tools@).contains(tool)
    }

    /// Ask before each of the named tools.
    pub fn new(dangerous_tools: Vec<String>) -> (callback: Self)
        ensures
            forall|tool: Seq<char>|
                #[trigger] callback.lists(tool) == views(dangerous_tools@).contains(tool),
    {
        ApprovalCallback { dangerous_tools }
    }

    /// The prompt to show before a call; none where the tool runs unasked.
    pub fn begin(&self, call: &ToolCallView<'_>) -> (prompt: Option<String>)
        ensures
            match prompt {
                Some(text) => self.lists(call.name@) && text@ == prompt_text(*call),
                None => !self.lists(call.name@),
            },
    {
        if !holds(&self.dangerous_tools, call.name) {
            return None;
        }
        let mut text = "\n⚠️  即将执行高危操作\n工具: ".to_owned();
        text.append(call.name);
        text.append("\n参数: ");
        text.append(call.raw_arguments);
        text.append("\n是否执行？(y/n): ");
        Some(text)
    }

    /// What stands in place of the call, given the line that was answered; nothing where the
    /// call runs. A listed tool runs only on approval.
    pub fn conclude(&self, call: &ToolCallView<'_>, answer: Option<&str>) -> (replaced: Option<
        (ToolResultStatus, String),
    >)
        ensures
            (replaced is None) == (!self.lists(call.name@) || (answer matches Some(line)
                && approves(Some(line@)))),
            replaced matches Some((status, text)) ==> status == ToolResultStatus::Error && text@
                == refusal(call.name@),
    {
        if !holds(&self.dangerous_tools, call.name) {
            return None;
        }
        let approved = match answer {
            Some(line) => {
                let low = lowercase(trim(line));
                same_text(low.as_str(), "y")
            },
            None => false,
        };
        if approved {
            return None;
        }
        let mut text = "User denied execution of ".to_owned();
        text.append(call.name);
        Some((ToolResultStatus::Error, text))
    }
}

/// A call runs only on a single `y`, in either case and with nothing but white space around it;
/// silence does not let it run.
pub proof fn only_a_yes_approves(answer: Option<Seq<char>>)
    ensures
        approves(answer) == (answer matches Some(line) && trimmed(line).len() == 1 && (trimmed(
            line,
        )[0] == 'y' || trimmed(line)[0] == 'Y')),
{
    reveal_strlit("y");
    match answer {
        Some(line) => {
            let said = trimmed(line);
            lower_case_changes_only_capitals(said);
            if lowered(said) == "y"@ {
                assert(lowered(said)[0] == 'y');
            }
            if said.len() == 1 && (said[0] == 'y' || said[0] == 'Y') {
                assert(lowered(said)[0] as int == 'y' as int);
                assert(lowered(said) =~= "y"@);
            }
        },
        None => {},
    }
}

/// The person is shown the tool's name and its arguments as the model wrote them, whole.
pub proof fn the_person_sees_the_call(call: ToolCallView<'_>)
    ensures
        occurs_in(prompt_text(call), call.name@),
        occurs_in(prompt_text(call), call.raw_arguments@),
        refusal(call.name@).skip(refusal(call.name@).len() - call.name@.len()) == call.name@,
{
    let text = prompt_text(call);
    let at = "\n⚠️  即将执行高危操作\n工具: "@.len() as int;
    assert(text.subrange(at, at + call.name@.len()) =~= call.name@);
    assert(occurs_at(text, call.name@, at));
    let behind = at + call.name@.len() + "\n参数: "@.len();
    assert(text.subrange(behind, behind + call.raw_arguments@.len()) =~= call.raw_arguments@);
    assert(occurs_at(text, call.raw_arguments@, behind));
    assert(refusal(call.name@).skip(refusal(call.name@).len() - call.name@.len()) =~= call.name@);
}

} // verus!
