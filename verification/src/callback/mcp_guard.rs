//! Keeping the tools of other programs away from credentials.
//!
//! The arguments of such a tool have no known meaning, so every text in them is a candidate,
//! however deeply nested. A call is refused when one of them plainly names a well-known
//! credential location under the home directory. Looking paths up on disk is the caller's
//! part.

use vstd::prelude::*;

use crate::agent::{ToolCallDecision, ToolCallView, ToolResultStatus};
use crate::callback::path_guard::{
    lexical_normalize, lies_under, normal_form, normal_form_from, resolved_text, LexicalPath, Place,
    Resolved,
};
use crate::json::strings_in;
use crate::path::{is_absolute, starts_at_root};
use crate::text::{chars_of, occurs_in, same_text, stands_at, trim, trimmed, views};
use crate::tools::mcp::client::{is_mcp_tool_name, LABEL_SEPARATOR};

verus! {

/// Locations under the home directory that almost always hold credentials.
pub const SENSITIVE_HOME_SUBPATHS: [&'static str; 14] = [
    ".ssh",
    ".aws",
    ".azure",
    ".kube",
    ".docker",
    ".gnupg",
    ".npmrc",
    ".npm",
    ".pki",
    ".terraform.d",
    ".netrc",
    ".git-credentials",
    ".config/gh",
    ".config/gcloud",
];

/// The place that a text names: one that starts with `~` under the home directory, or one that
/// starts at the root. Any other text names none.
pub open spec fn named_place(candidate: Seq<char>, home: Seq<char>) -> Option<Place> {
    let text = trimmed(candidate);
    if text == "~"@ {
        Some(normal_form(home))
    } else if "~/"@.is_prefix_of(text) {
        Some(normal_form_from(normal_form(home), text.skip(2)))
    } else if is_absolute(text) {
        Some(normal_form(text))
    } else {
        None
    }
}

/// The place that a text names, if it names one.
pub fn absolute_or_home_relative(candidate: &str, home: &str) -> (place: Option<LexicalPath>)
    ensures
        match place {
            Some(p) => named_place(candidate@, home@) == Some(p@),
            None => named_place(candidate@, home@) is None,
        },
{
    let text = trim(candidate);
    if same_text(text, "~") {
        return Some(lexical_normalize(home));
    }
    let chars = chars_of(text);
    let prefix = chars_of("~/");
    proof {
        reveal_strlit("~/");
        if text@.len() >= 2 {
            assert(text@.subrange(0, 2) =~= text@.take(2));
        }
    }
    if stands_at(&chars, &prefix, 0) {
        proof {
            assert forall|i: int| 0 <= i < 2 implies "~/"@[i] == text@[i] by {
                assert(text@.subrange(0, 2)[i] == text@[i]);
            }
        }
        let rest = text.substring_char(2, chars.len());
        assert(rest@ =~= text@.skip(2));
        return Some(lexical_normalize(home).join(rest));
    }
    assert(!"~/"@.is_prefix_of(text@)) by {
        if "~/"@.is_prefix_of(text@) {
            assert(text@.subrange(0, 2) =~= "~/"@);
        }
    }
    if starts_at_root(text) {
        return Some(lexical_normalize(text));
    }
    None
}

/// Those of the first `n` texts that name a place.
pub open spec fn candidates_in(texts: Seq<Seq<char>>, home: Seq<char>, n: int) -> Seq<Seq<char>>
    decreases n,
{
    if n <= 0 {
        seq![]
    } else if named_place(texts[n - 1], home) is Some {
        candidates_in(texts, home, n - 1).push(texts[n - 1])
    } else {
        candidates_in(texts, home, n - 1)
    }
}

/// The first sensitive place, at or after `from`, that a resolved path lies under.
pub open spec fn first_sensitive(resolved: Place, roots: Seq<Resolved>, from: int) -> Option<int>
    decreases roots.len() - from,
{
    if from >= roots.len() {
        None
    } else if lies_under(resolved, roots[from].place@) {
        Some(from)
    } else {
        first_sensitive(resolved, roots, from + 1)
    }
}

/// Why a path is refused.
pub open spec fn sensitive_reason(
    candidate: Seq<char>,
    resolved: Resolved,
    root: Resolved,
) -> Seq<char> {
    "`"@ + candidate + "` resolves to `"@ + resolved_text(resolved.place@, resolved.exists)
        + "`, inside the sensitive path `"@ + resolved_text(root.place@, root.exists) + "`"@
}

/// The first resolved path, at or after `from`, that lies under a sensitive place.
pub open spec fn first_violation(
    resolved: Seq<Resolved>,
    roots: Seq<Resolved>,
    from: int,
) -> Option<int>
    decreases resolved.len() - from,
{
    if from >= resolved.len() {
        None
    } else if first_sensitive(resolved[from].place@, roots, 0) is Some {
        Some(from)
    } else {
        first_violation(resolved, roots, from + 1)
    }
}

/// Refuses calls of other programs' tools that name a credential location.
#[derive(Debug, Clone, Copy, PartialEq, Eq)]
pub struct McpGuardCallback;

impl McpGuardCallback {
    /// A guard.
    pub fn new() -> (guard: Self)
        ensures
            guard == McpGuardCallback,
    {
        McpGuardCallback
    }

    /// The texts of a call that name a place to check. None of a tool of this program, and
    /// none where the home directory is not known.
    pub fn candidates(call: &ToolCallView<'_>, home: Option<&str>) -> (found: Vec<String>)
        ensures
            views(found@) == match home {
                Some(dir) if occurs_in(call.name@, LABEL_SEPARATOR@) => candidates_in(
                    strings_in(*call.arguments),
                    dir@,
                    strings_in(*call.arguments).len() as int,
                ),
                _ => seq![],
            },
    {
        let mut found: Vec<String> = Vec::new();
        assert(views(found@) =~= seq![]);
        let dir = match home {
            Some(dir) => dir,
            None => return found,
        };
        if !is_mcp_tool_name(call.name) {
            return found;
        }
        let texts = call.arguments.strings();
        let mut i: usize = 0;
        while i < texts.len()
            invariant
                i <= texts@.len(),
                views(found@) == candidates_in(views(texts@), dir@, i as int),
            decreases texts@.len() - i,
        {
            let ghost before = found@;
            if absolute_or_home_relative(texts[i].as_str(), dir).is_some() {
                found.push(texts[i].clone());
                assert(views(found@) =~= views(before).push(texts@[i as int]@));
            }
            i += 1;
        }
        found
    }

    /// The sensitive places under a home directory, before the disk is asked.
    pub fn sensitive_places(home: &str) -> (places: Vec<LexicalPath>)
        ensures
            places@.len() == 14,
            forall|i: int|
                0 <= i < 14 ==> (#[trigger] places@[i])@ == normal_form_from(
                    normal_form(home@),
                    SENSITIVE_HOME_SUBPATHS[i]@,
                ),
    {
        let base = lexical_normalize(home);
        let mut places: Vec<LexicalPath> = Vec::new();
        let mut i: usize = 0;
        while i < 14
            invariant
                i <= 14,
                base@ == normal_form(home@),
                places@.len() == i,
                forall|k: int|
                    0 <= k < i ==> (#[trigger] places@[k])@ == normal_form_from(
                        base@,
                        SENSITIVE_HOME_SUBPATHS[k]@,
                    ),
            decreases 14 - i,
        {
            places.push(base.join(SENSITIVE_HOME_SUBPATHS[i]));
            i += 1;
        }
        places
    }

    /// Why a text that resolves to `resolved` is refused; nothing where it lies under none of
    /// the sensitive places `roots`.
    pub fn violation(candidate: &str, resolved: &Resolved, roots: &Vec<Resolved>) -> (reason: Option<
        String,
    >)
        ensures
            match first_sensitive(resolved.place@, roots@, 0) {
                Some(i) => reason matches Some(text) && text@ == sensitive_reason(
                    candidate@,
                    *resolved,
                    roots@[i],
                ),
                None => reason is None,
            },
    {
        let mut i: usize = 0;
        while i < roots.len()
            invariant
                i <= roots@.len(),
                first_sensitive(resolved.place@, roots@, 0) == first_sensitive(
                    resolved.place@,
                    roots@,
                    i as int,
                ),
            decreases roots@.len() - i,
        {
            if resolved.place.starts_with(&roots[i].place) {
                let mut text = "`".to_owned();
                text.append(candidate);
                text.append("` resolves to `");
                text.append(resolved.display().as_str());
                text.append("`, inside the sensitive path `");
                text.append(roots[i].display().as_str());
                text.append("`");
                return Some(text);
            }
            i += 1;
        }
        None
    }

    /// Decide about a call whose candidates resolve to `resolved`: the first that lies under a
    /// sensitive place refuses it.
    pub fn decide(
        candidates: &Vec<String>,
        resolved: &Vec<Resolved>,
        roots: &Vec<Resolved>,
    ) -> (decision: ToolCallDecision)
        requires
            candidates@.len() == resolved@.len(),
        ensures
            match first_violation(resolved@, roots@, 0) {
                None => decision == ToolCallDecision::Proceed,
                Some(i) => decision matches ToolCallDecision::ShortCircuit(
                    ToolResultStatus::Error,
                    content,
                ) && content@ == "Denied: "@ + sensitive_reason(
                    candidates@[i]@,
                    resolved@[i],
                    roots@[first_sensitive(resolved@[i].place@, roots@, 0)->0],
                )
                    + ". MCP tools are not allowed to reference credential/config paths under the home directory."@,
            },
    {
        let mut i: usize = 0;
        while i < candidates.len()
            invariant
                candidates@.len() == resolved@.len(),
                i <= candidates@.len(),
                first_violation(resolved@, roots@, 0) == first_violation(
                    resolved@,
                    roots@,
                    i as int,
                ),
            decreases candidates@.len() - i,
        {
            match McpGuardCallback::violation(candidates[i].as_str(), &resolved[i], roots) {
                Some(reason) => {
                    let mut content = "Denied: ".to_owned();
                    content.append(reason.as_str());
                    content.append(
                        ". MCP tools are not allowed to reference credential/config paths under the home directory.",
                    );
                    return ToolCallDecision::deny(content);
                },
                None => {},
            }
            i += 1;
        }
        ToolCallDecision::Proceed
    }
}

impl Default for McpGuardCallback {
    fn default() -> (guard: Self)
        ensures
            guard == McpGuardCallback,
    {
        McpGuardCallback::new()
    }
}

/// A call runs only if none of the paths it names lies under a sensitive place.
pub proof fn a_call_that_runs_names_no_credentials(
    resolved: Seq<Resolved>,
    roots: Seq<Resolved>,
    from: int,
    i: int,
    k: int,
)
    requires
        0 <= from <= i < resolved.len(),
        0 <= k < roots.len(),
        first_violation(resolved, roots, from) is None,
    ensures
        !lies_under(resolved[i].place@, roots[k].place@),
    decreases resolved.len() - from,
{
    if from < i {
        a_call_that_runs_names_no_credentials(resolved, roots, from + 1, i, k);
    } else {
        lemma_no_sensitive_place(resolved[i].place@, roots, 0, k);
    }
}

proof fn lemma_no_sensitive_place(resolved: Place, roots: Seq<Resolved>, from: int, k: int)
    requires
        0 <= from <= k < roots.len(),
        first_sensitive(resolved, roots, from) is None,
    ensures
        !lies_under(resolved, roots[k].place@),
    decreases roots.len() - from,
{
    if from < k {
        lemma_no_sensitive_place(resolved, roots, from + 1, k);
    }
}

/// A text names a place exactly where, the white space around it aside, it is a `~`, starts with
/// `~/` or starts at the root; a place under the home directory is reached from there.
pub proof fn what_names_a_place(candidate: Seq<char>, home: Seq<char>)
    ensures
        ({
            let text = trimmed(candidate);
            &&& named_place(candidate, home) is Some == (text.len() > 0 && (text[0] == '/' || (
            text[0] == '~' && (text.len() == 1 || text[1] == '/'))))
            &&& text.len() > 0 && text[0] == '/' ==> named_place(candidate, home) == Some(
                normal_form(text),
            )
            &&& text.len() == 1 && text[0] == '~' ==> named_place(candidate, home) == Some(
                normal_form(home),
            )
            &&& text.len() > 1 && text[0] == '~' && text[1] == '/' ==> named_place(candidate, home)
                == Some(normal_form_from(normal_form(home), text.skip(2)))
        }),
{
    reveal_strlit("~");
    reveal_strlit("~/");
    let text = trimmed(candidate);
    if text.len() == 1 && text[0] == '~' {
        assert(text =~= "~"@);
    }
    if text.len() > 1 && text[0] == '~' && text[1] == '/' {
        assert(text.take(2) =~= "~/"@);
        assert("~/"@.is_prefix_of(text));
    }
    if "~/"@.is_prefix_of(text) {
        assert(text.take(2)[0] == '~' && text.take(2)[1] == '/');
    }
}

/// Every text that names a place is checked, and no other.
pub proof fn every_place_named_is_checked(
    texts: Seq<Seq<char>>,
    home: Seq<char>,
    n: int,
    text: Seq<char>,
)
    requires
        0 <= n <= texts.len(),
    ensures
        candidates_in(texts, home, n).contains(text) == (texts.take(n).contains(text)
            && named_place(text, home) is Some),
    decreases n,
{
    let found = candidates_in(texts, home, n);
    let given = texts.take(n);
    if n > 0 {
        let before = candidates_in(texts, home, n - 1);
        let front = texts.take(n - 1);
        every_place_named_is_checked(texts, home, n - 1, text);
        assert(given[n - 1] == texts[n - 1]);
        if before.contains(text) {
            let i = choose|i: int| 0 <= i < before.len() && before[i] == text;
            assert(found[i] == text);
        }
        if front.contains(text) {
            let i = choose|i: int| 0 <= i < front.len() && front[i] == text;
            assert(given[i] == text);
        }
        if texts[n - 1] == text && named_place(text, home) is Some {
            assert(found[before.len() as int] == text);
        }
        if found.contains(text) {
            let i = choose|i: int| 0 <= i < found.len() && found[i] == text;
            if i < before.len() {
                assert(before[i] == text);
            }
        }
        if given.contains(text) && texts[n - 1] != text {
            let i = choose|i: int| 0 <= i < given.len() && given[i] == text;
            assert(front[i] == text);
        }
    }
}

} // verus!
