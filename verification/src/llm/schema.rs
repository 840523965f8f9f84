//! What both ways of asking for structured output share.

use vstd::prelude::*;

use crate::json::{pretty_text, Json};
use crate::llm::client::{given_system, ResponseFormat, ToolDefinition};
use crate::text::{
    chars_of, clean, cleaned_text, cut_white, find_first, first_at, is_blank, is_white,
    lemma_blank_iff_trimmed_empty, lemma_first_at, name_char, occurs_at, occurs_in, opt_str_view,
    skip_white, stands_at, trim, trim_end, trimmed,
};

verus! {

/// Name of the tool by which a model submits its final answer.
pub const FINAL_ANSWER_TOOL_NAME: &'static str = "final_answer";

/// Where `pattern` stands last in `s`.
pub open spec fn last_at(s: Seq<char>, pattern: Seq<char>, from: int) -> Option<int>
    decreases from + 1,
{
    if from < 0 {
        None
    } else if occurs_at(s, pattern, from) {
        Some(from)
    } else {
        last_at(s, pattern, from - 1)
    }
}

/// A type's full name without its generics: what stands before the first `<`.
pub open spec fn without_generics(full: Seq<char>) -> Seq<char> {
    match first_at(full, "<"@, 0) {
        Some(at) => full.take(at),
        None => full,
    }
}

/// A type's own name: without its generics and its module path.
pub open spec fn own_name(full: Seq<char>) -> Seq<char> {
    let head = without_generics(full);
    match last_at(head, "::"@, head.len() as int) {
        Some(at) => head.skip(at + 2),
        None => head,
    }
}

/// A type's own name as an endpoint accepts it: every character that may not stand in a name is
/// replaced.
pub open spec fn bare_name(full: Seq<char>) -> Seq<char> {
    cleaned_text(own_name(full))
}

proof fn lemma_last_at(s: Seq<char>, pattern: Seq<char>, from: int)
    ensures
        match last_at(s, pattern, from) {
            Some(at) => 0 <= at <= from && occurs_at(s, pattern, at) && forall|k: int|
                at < k <= from ==> !#[trigger] occurs_at(s, pattern, k),
            None => forall|k: int| 0 <= k <= from ==> !#[trigger] occurs_at(s, pattern, k),
        },
    decreases from + 1,
{
    if from >= 0 && !occurs_at(s, pattern, from) {
        lemma_last_at(s, pattern, from - 1);
    }
}

/// A type's own name holds neither a path separator nor the start of generics.
pub proof fn own_names_are_bare(full: Seq<char>)
    ensures
        !occurs_in(own_name(full), "::"@),
        !occurs_in(own_name(full), "<"@),
{
    reveal_strlit("::");
    reveal_strlit("<");
    let head = without_generics(full);
    let name = own_name(full);
    lemma_first_at(full, "<"@, 0);
    lemma_last_at(head, "::"@, head.len() as int);
    let start = head.len() - name.len();
    if occurs_in(name, "<"@) {
        let at = choose|at: int| occurs_at(name, "<"@, at);
        assert(name.subrange(at, at + 1)[0] == '<');
        assert(full[start + at] == '<');
        assert(full.subrange(start + at, start + at + 1) =~= "<"@);
        assert(occurs_at(full, "<"@, start + at));
    }
    if occurs_in(name, "::"@) {
        let at = choose|at: int| occurs_at(name, "::"@, at);
        assert(head.subrange(start + at, start + at + 2) =~= name.subrange(at, at + 2));
        assert(occurs_at(head, "::"@, start + at));
    }
}

/// A bare name holds only characters that an endpoint accepts, and is the type's own name where
/// that does.
pub proof fn bare_names_are_bare(full: Seq<char>)
    ensures
        forall|i: int| 0 <= i < bare_name(full).len() ==> name_char(#[trigger] bare_name(full)[i]),
        (forall|i: int| 0 <= i < own_name(full).len() ==> name_char(#[trigger] own_name(full)[i]))
            ==> bare_name(full) == own_name(full),
{
    if forall|i: int| 0 <= i < own_name(full).len() ==> name_char(#[trigger] own_name(full)[i]) {
        assert(bare_name(full) =~= own_name(full));
    }
}

/// A name for the schema of a type, out of the type's full name: its own name, without its
/// module path and its generics, in letters, digits, `_` and `-` alone.
pub fn schema_name(full: &str) -> (name: String)
    ensures
        name@ == bare_name(full@),
        forall|i: int| 0 <= i < name@.len() ==> name_char(#[trigger] name@[i]),
{
    clean(name_of(full))
}

fn name_of(full: &str) -> (name: &str)
    ensures
        name@ == own_name(full@),
{
    let chars = chars_of(full);
    let open = chars_of("<");
    let path = chars_of("::");
    proof {
        lemma_first_at(full@, "<"@, 0);
    }
    let end: usize = match find_first(&chars, &open, 0) {
        Some(at) => at,
        None => chars.len(),
    };
    let head = full.substring_char(0, end);
    proof {
        assert(full@.subrange(0, end as int) =~= full@.take(end as int));
        assert(full@.take(full@.len() as int) =~= full@);
        reveal_strlit("::");
    }
    let head_chars = chars_of(head);
    let mut i: usize = head_chars.len();
    loop
        invariant
            i <= head_chars@.len(),
            head_chars@ == head@,
            path@ == "::"@,
            head@ == without_generics(full@),
            "::"@.len() == 2,
            last_at(head@, "::"@, head@.len() as int) == last_at(head@, "::"@, i as int),
        decreases i,
    {
        if stands_at(&head_chars, &path, i) {
            assert(head@.subrange(i + 2, head@.len() as int) =~= head@.skip(i + 2));
            let total: usize = head_chars.len();
            assert(i + 2 <= total);
            return head.substring_char(i + 2, total);
        }
        if i == 0 {
            assert(last_at(head@, "::"@, -1) is None);
            assert(last_at(head@, "::"@, 0) is None);
            return head;
        }
        i -= 1;
    }
}

/// The tool by which a model submits its final answer.
pub fn final_answer_tool(schema_name: &str, schema: Json) -> (tool: ToolDefinition)
    ensures
        tool.name@ == FINAL_ANSWER_TOOL_NAME@,
        tool.description@ == "Return the final answer as a `"@ + schema_name@
            + "` object matching the required schema."@,
        tool.parameters == schema,
{
    let mut description = "Return the final answer as a `".to_owned();
    description.append(schema_name);
    description.append("` object matching the required schema.");
    ToolDefinition { name: FINAL_ANSWER_TOOL_NAME.to_owned(), description, parameters: schema }
}

/// The response format by which an endpoint enforces a schema.
pub fn native_schema_format(schema_name: String, schema: Json) -> (format: ResponseFormat)
    ensures
        format == (ResponseFormat::JsonSchema { name: schema_name, schema, strict: true }),
{
    ResponseFormat::JsonSchema { name: schema_name, schema, strict: true }
}

/// The instruction by which a schema is asked for where no endpoint enforces it: the schema laid
/// out for reading behind what is asked of the answer.
pub open spec fn instruction_text(schema: Json) -> Seq<char> {
    "You must reply with a single valid JSON object that conforms to the following JSON Schema. Do not include any explanation, markdown code fences, or extra text.\n\nJSON Schema:\n"@
        + pretty_text(schema)
}

/// A schema as an instruction.
pub fn schema_instruction(schema: &Json) -> (text: String)
    ensures
        text@ == instruction_text(*schema),
{
    let mut text =
        "You must reply with a single valid JSON object that conforms to the following JSON Schema. Do not include any explanation, markdown code fences, or extra text.\n\nJSON Schema:\n".to_owned();
    text.append(schema.to_pretty().as_str());
    text
}

/// The caller's system prompt with an instruction behind it.
pub open spec fn merged_system(system: Option<Seq<char>>, instruction: Seq<char>) -> Seq<char> {
    match given_system(system) {
        Some(text) => text + "\n\n"@ + instruction,
        None => instruction,
    }
}

/// The caller's system prompt with an instruction behind it; a blank prompt counts as not
/// given.
pub fn merge_system(system: Option<&str>, instruction: &str) -> (merged: String)
    ensures
        merged@ == merged_system(opt_str_view(system), instruction@),
{
    match system {
        Some(text) => {
            if is_blank(text) {
                instruction.to_owned()
            } else {
                let mut merged = trim(text).to_owned();
                merged.append("\n\n");
                merged.append(instruction);
                merged
            }
        },
        None => instruction.to_owned(),
    }
}

/// Whether `s` ends with `ending`.
pub open spec fn ends_with(s: Seq<char>, ending: Seq<char>) -> bool {
    occurs_at(s, ending, s.len() - ending.len())
}

/// A text without the code fence around it, and without white space at either end.
pub open spec fn unfenced(content: Seq<char>) -> Seq<char> {
    let whole = trimmed(content);
    if !occurs_at(whole, "```"@, 0) {
        whole
    } else {
        let rest = whole.skip(3);
        let body = match first_at(rest, "\n"@, 0) {
            Some(at) => rest.skip(at + 1),
            None => rest,
        };
        let kept = cut_white(body);
        if ends_with(kept, "```"@) {
            trimmed(kept.take(kept.len() - 3))
        } else {
            trimmed(body)
        }
    }
}

/// Strip a code fence around a text, with the line that follows the opening one.
pub fn strip_code_fence(content: &str) -> (inner: &str)
    ensures
        inner@ == unfenced(content@),
{
    let whole = trim(content);
    let whole_chars = chars_of(whole);
    let fence = chars_of("```");
    let newline = chars_of("\n");
    proof {
        reveal_strlit("```");
        reveal_strlit("\n");
    }
    if !stands_at(&whole_chars, &fence, 0) {
        return whole;
    }
    let rest = whole.substring_char(3, whole_chars.len());
    assert(rest@ =~= whole@.skip(3));
    let rest_chars = chars_of(rest);
    let body = match find_first(&rest_chars, &newline, 0) {
        Some(at) => {
            assert(rest@.subrange(at + 1, rest@.len() as int) =~= rest@.skip(at + 1));
            rest.substring_char(at + 1, rest_chars.len())
        },
        None => rest,
    };
    let kept = trim_end(body);
    let kept_chars = chars_of(kept);
    if kept_chars.len() >= 3 && stands_at(&kept_chars, &fence, kept_chars.len() - 3) {
        assert(kept@.subrange(0, kept@.len() - 3) =~= kept@.take(kept@.len() - 3));
        trim(kept.substring_char(0, kept_chars.len() - 3))
    } else {
        trim(body)
    }
}

proof fn lemma_trim_keeps_solid(s: Seq<char>)
    requires
        s.len() > 0,
        !is_white(s[0]),
        !is_white(s.last()),
    ensures
        trimmed(s) == s,
        cut_white(s) == s,
{
}

proof fn lemma_cut_white_of_push(s: Seq<char>, w: char)
    requires
        is_white(w),
    ensures
        cut_white(s.push(w)) == cut_white(s),
{
    assert(s.push(w).drop_last() =~= s);
}

proof fn lemma_skip_white_of_push(s: Seq<char>, w: char)
    requires
        is_white(w),
    ensures
        trimmed(s.push(w)) == trimmed(s),
    decreases s.len(),
{
    if s.len() == 0 {
        assert(s.push(w).drop_first() =~= s);
        assert(skip_white(s.push(w)) == skip_white(s));
    } else if is_white(s[0]) {
        assert(s.push(w).drop_first() =~= s.drop_first().push(w));
        lemma_skip_white_of_push(s.drop_first(), w);
    } else {
        lemma_cut_white_of_push(s, w);
    }
}

/// Stripping undoes fencing: whatever stands on the opening line behind the fence, the text
/// between the fences comes back, the white space around it aside.
pub proof fn stripping_undoes_fencing(tag: Seq<char>, body: Seq<char>)
    requires
        !occurs_in(tag, "\n"@),
    ensures
        unfenced("```"@ + tag + "\n"@ + body + "\n```"@) == trimmed(body),
{
    reveal_strlit("```");
    reveal_strlit("\n");
    reveal_strlit("\n```");
    let whole = "```"@ + tag + "\n"@ + body + "\n```"@;
    assert(whole[0] == '`');
    assert(whole.last() == '`');
    lemma_trim_keeps_solid(whole);
    assert(whole.subrange(0, 3) =~= "```"@);
    let rest = whole.skip(3);
    let at = tag.len() as int;
    assert(rest =~= tag + "\n"@ + body + "\n```"@);
    assert(rest.subrange(at, at + 1) =~= "\n"@);
    lemma_first_at(rest, "\n"@, 0);
    assert forall|k: int| 0 <= k < at implies !#[trigger] occurs_at(rest, "\n"@, k) by {
        if occurs_at(rest, "\n"@, k) {
            assert(rest.subrange(k, k + 1)[0] == rest[k]);
            assert(rest[k] == tag[k]);
            assert(tag.subrange(k, k + 1) =~= "\n"@);
            assert(occurs_at(tag, "\n"@, k));
        }
    }
    assert(occurs_at(rest, "\n"@, at));
    assert(first_at(rest, "\n"@, 0) == Some(at));
    let inside = rest.skip(at + 1);
    assert(inside =~= body + "\n```"@);
    assert(inside.last() == '`');
    assert(cut_white(inside) == inside);
    assert(inside.subrange(inside.len() - 3, inside.len() as int) =~= "```"@);
    assert(inside.take(inside.len() - 3) =~= body.push('\n'));
    lemma_skip_white_of_push(body, '\n');
}

/// A text without a fence is only trimmed.
pub proof fn unfenced_text_is_only_trimmed(content: Seq<char>)
    requires
        !occurs_in(content, "```"@),
    ensures
        unfenced(content) == trimmed(content),
{
    reveal_strlit("```");
    let whole = trimmed(content);
    if occurs_at(whole, "```"@, 0) {
        lemma_trimmed_is_inside(content);
        let at = choose|at: int| occurs_at(content, whole, at);
        assert(content.subrange(at, at + 3) =~= whole.subrange(0, 3));
        assert(occurs_at(content, "```"@, at));
    }
}

proof fn lemma_trimmed_is_inside(s: Seq<char>)
    ensures
        occurs_in(s, trimmed(s)),
    decreases s.len(),
{
    if s.len() > 0 && is_white(s[0]) {
        let rest = s.drop_first();
        lemma_trimmed_is_inside(rest);
        let at = choose|at: int| occurs_at(rest, trimmed(rest), at);
        assert(s.subrange(at + 1, at + 1 + trimmed(s).len()) =~= rest.subrange(
            at,
            at + trimmed(rest).len(),
        ));
        assert(occurs_at(s, trimmed(s), at + 1));
    } else {
        lemma_cut_white_is_prefix(s);
        let at: int = 0;
        assert(s.subrange(at, at + trimmed(s).len()) =~= trimmed(s));
        assert(occurs_at(s, trimmed(s), at));
    }
}

proof fn lemma_cut_white_is_prefix(s: Seq<char>)
    ensures
        cut_white(s).len() <= s.len(),
        s.take(cut_white(s).len() as int) == cut_white(s),
    decreases s.len(),
{
    if s.len() > 0 && is_white(s.last()) {
        lemma_cut_white_is_prefix(s.drop_last());
        assert(s.drop_last().take(cut_white(s).len() as int) =~= s.take(
            cut_white(s).len() as int,
        ));
    } else {
        assert(s.take(s.len() as int) =~= s);
    }
}

/// A schema is named after its type: the path before the name and the generics behind it go, and
/// all of the name stays, its characters cleaned.
pub proof fn a_schema_is_named_after_its_type(
    path: Seq<char>,
    name: Seq<char>,
    generics: Seq<char>,
)
    requires
        path.len() == 0 || ends_with(path, "::"@),
        !path.contains('<'),
        !name.contains('<') && !name.contains(':'),
        generics.len() == 0 || generics[0] == '<',
    ensures
        bare_name(path + name + generics).len() == name.len(),
        forall|i: int|
            0 <= i < name.len() ==> #[trigger] bare_name(path + name + generics)[i] == if name_char(
                name[i],
            ) {
                name[i]
            } else {
                '_'
            },
{
    reveal_strlit("::");
    reveal_strlit("<");
    let full = path + name + generics;
    let head = path + name;
    lemma_first_at(full, "<"@, 0);
    assert forall|i: int| 0 <= i < head.len() implies head[i] != '<' by {
        if i < path.len() {
            assert(path.contains(path[i]));
        } else {
            assert(name.contains(name[i - path.len()]));
        }
    }
    assert(without_generics(full) =~= head) by {
        match first_at(full, "<"@, 0) {
            Some(at) => {
                assert(full.subrange(at, at + 1)[0] == '<');
                assert(full[at] == '<');
                if at > head.len() {
                    assert(full[head.len() as int] == '<');
                    assert(full.subrange(head.len() as int, head.len() as int + 1) =~= "<"@);
                    assert(occurs_at(full, "<"@, head.len() as int));
                }
            },
            None => {
                if generics.len() > 0 {
                    assert(full[head.len() as int] == '<');
                    assert(full.subrange(head.len() as int, head.len() as int + 1) =~= "<"@);
                    assert(occurs_at(full, "<"@, head.len() as int));
                }
            },
        }
    }
    lemma_last_at(head, "::"@, head.len() as int);
    assert forall|k: int| path.len() - 1 <= k && 0 <= k implies !#[trigger] occurs_at(
        head,
        "::"@,
        k,
    ) by {
        if occurs_at(head, "::"@, k) {
            assert(head.subrange(k, k + 2)[1] == ':');
            assert(head[k + 1] == ':');
            assert(name.contains(name[k + 1 - path.len()]));
        }
    }
    if path.len() > 0 {
        let at = path.len() - 2;
        assert(path.subrange(at, at + 2) == "::"@);
        assert(head.subrange(at, at + 2) =~= "::"@) by {
            assert forall|i: int| 0 <= i < 2 implies head.subrange(at, at + 2)[i] == "::"@[i] by {
                assert(path.subrange(at, at + 2)[i] == path[at + i]);
            }
        }
        assert(occurs_at(head, "::"@, at));
    }
    assert(own_name(full) =~= name);
}

/// An instruction keeps its last word: it stands whole at the end of the system prompt, behind all
/// that the caller said, the white space around that aside.
pub proof fn an_instruction_follows_the_system_prompt(
    system: Option<Seq<char>>,
    instruction: Seq<char>,
)
    ensures
        ({
            let whole = merged_system(system, instruction);
            &&& whole.skip(whole.len() - instruction.len()) == instruction
            &&& system matches Some(text) ==> trimmed(text).is_prefix_of(whole) || trimmed(
                text,
            ).len() == 0
            &&& (system is None || trimmed(system->0).len() == 0) ==> whole == instruction
        }),
{
    let whole = merged_system(system, instruction);
    assert(whole.skip(whole.len() - instruction.len()) =~= instruction);
    match system {
        Some(text) => {
            lemma_blank_iff_trimmed_empty(text);
        },
        None => {},
    }
}

/// The whole schema stands at the end of the instruction that asks for it.
pub proof fn an_instruction_ends_in_its_schema(schema: Json)
    ensures
        ({
            let text = instruction_text(schema);
            text.skip(text.len() - pretty_text(schema).len()) == pretty_text(schema)
        }),
{
    let text = instruction_text(schema);
    assert(text.skip(text.len() - pretty_text(schema).len()) =~= pretty_text(schema));
}

/// The name of a schema is its type's own, whatever path stands before it and whatever generics
/// behind.
pub proof fn a_schema_name_is_the_bare_name(
    full: &str,
    path: Seq<char>,
    own: Seq<char>,
    generics: Seq<char>,
    name: String,
)
    requires
        call_ensures(schema_name, (full,), name),
        full@ == path + own + generics,
        path.len() == 0 || ends_with(path, "::"@),
        !path.contains('<'),
        !own.contains('<') && !own.contains(':'),
        generics.len() == 0 || generics[0] == '<',
    ensures
        name@.len() == own.len(),
        forall|i: int|
            0 <= i < own.len() ==> #[trigger] name@[i] == if name_char(own[i]) {
                own[i]
            } else {
                '_'
            },
{
    a_schema_is_named_after_its_type(path, own, generics);
}

/// A text that no fence opens is handed on whole, the white space around it aside.
pub proof fn what_is_not_fenced_is_kept(content: &str, inner: &str)
    requires
        call_ensures(strip_code_fence, (content,), inner),
        !occurs_at(trimmed(content@), "```"@, 0),
    ensures
        inner@ == trimmed(content@),
{
}

} // verus!
