//! What is made of the tools a connected server offers, and of their answers.

use vstd::prelude::*;

use crate::json::{json_text, model_of, Json, JsonModel};
use crate::pairs::{in_name_order, put, table};
use crate::text::{
    blank, chars_of, clean, cleaned_text, cut, is_blank, join, joined, lowered, name_char,
    occurs_at, occurs_in, opt_view, same_text, trim, trimmed, views,
};
use crate::tools::tool::Tool;
use crate::util::truncate_chars;

verus! {

/// Separates the server label from the remote tool name in the local name.
pub const LABEL_SEPARATOR: &'static str = "__";

/// The longest function name a chat endpoint accepts.
pub const MAX_NAME_CHARS: usize = 64;

/// The most characters of a label that leave room for the separator behind it.
pub const MAX_LABEL_CHARS: usize = 62;

/// The server's label, the separator and the remote name, with other characters replaced and cut
/// to the longest name.
pub open spec fn prefixed(label: Seq<char>, remote_name: Seq<char>) -> Seq<char> {
    cut(cleaned_text(label + LABEL_SEPARATOR@ + remote_name), MAX_NAME_CHARS as nat)
}

/// The local name of a remote tool: the label and the remote name about the separator. Where the
/// cut would leave no separator in the name, the label is cut to leave it room.
pub open spec fn namespaced(label: Seq<char>, remote_name: Seq<char>) -> Seq<char> {
    let name = prefixed(label, remote_name);
    if occurs_in(name, LABEL_SEPARATOR@) {
        name
    } else {
        prefixed(cut(label, MAX_LABEL_CHARS as nat), remote_name)
    }
}

fn prefix(label: &str, remote_name: &str) -> (name: String)
    ensures
        name@ == prefixed(label@, remote_name@),
{
    let mut full = label.to_owned();
    full.append(LABEL_SEPARATOR);
    full.append(remote_name);
    let name = clean(full.as_str());
    truncate_chars(name.as_str(), MAX_NAME_CHARS).to_owned()
}

/// Namespace a remote tool name.
pub fn local_name(label: &str, remote_name: &str) -> (name: String)
    ensures
        name@ == namespaced(label@, remote_name@),
{
    let name = prefix(label, remote_name);
    if is_mcp_tool_name(name.as_str()) {
        name
    } else {
        prefix(truncate_chars(label, MAX_LABEL_CHARS), remote_name)
    }
}

/// Whether a name looks like the local name of a remote tool.
pub fn is_mcp_tool_name(name: &str) -> (is: bool)
    ensures
        is == occurs_in(name@, LABEL_SEPARATOR@),
{
    crate::text::contains(name, LABEL_SEPARATOR)
}

/// A local name holds only characters that an endpoint accepts, and not too many of them.
pub proof fn local_names_are_acceptable(label: Seq<char>, remote_name: Seq<char>)
    ensures
        namespaced(label, remote_name).len() <= MAX_NAME_CHARS,
        forall|i: int|
            0 <= i < namespaced(label, remote_name).len() ==> name_char(
                #[trigger] namespaced(label, remote_name)[i],
            ),
{
}

/// A local name is recognized as one, and is the plain one wherever the label leaves the separator
/// room.
pub proof fn local_names_are_recognized(label: Seq<char>, remote_name: Seq<char>)
    ensures
        occurs_in(namespaced(label, remote_name), LABEL_SEPARATOR@),
        label.len() <= MAX_LABEL_CHARS ==> namespaced(label, remote_name) == prefixed(
            label,
            remote_name,
        ),
{
    reveal_strlit("__");
    let short = cut(label, MAX_LABEL_CHARS as nat);
    let name = prefixed(short, remote_name);
    let at = short.len() as int;
    assert(name.subrange(at, at + 2) =~= LABEL_SEPARATOR@);
    assert(occurs_at(name, LABEL_SEPARATOR@, at));
}

/// A part of what a remote tool answered.
#[derive(Debug, PartialEq, Eq)]
pub enum ContentBlock {
    Text(String),
    Image,
    Audio,
    Resource,
    /// Where the resource can be found.
    ResourceLink(String),
    Unsupported,
}

/// What is shown of one part: anything but text is noted rather than left out.
pub open spec fn block_text(block: ContentBlock) -> Seq<char> {
    match block {
        ContentBlock::Text(text) => text@,
        ContentBlock::Image => "[image content omitted]"@,
        ContentBlock::Audio => "[audio content omitted]"@,
        ContentBlock::Resource => "[embedded resource omitted]"@,
        ContentBlock::ResourceLink(uri) => "[resource link: "@ + uri@ + "]"@,
        ContentBlock::Unsupported => "[unsupported content omitted]"@,
    }
}

/// What is shown of each part.
pub open spec fn block_texts(blocks: Seq<ContentBlock>) -> Seq<Seq<char>> {
    blocks.map_values(|b: ContentBlock| block_text(b))
}

/// Whether every one of some texts is blank.
pub open spec fn all_blank(parts: Seq<Seq<char>>) -> bool {
    forall|i: int| 0 <= i < parts.len() ==> blank(#[trigger] parts[i])
}

/// The answer as one text: the parts line by line, or the structured answer where every part
/// is blank.
pub open spec fn answer_text(blocks: Seq<ContentBlock>, structured: Option<Json>) -> Seq<char> {
    let parts = block_texts(blocks);
    let said = trimmed(
        match structured {
            Some(value) if all_blank(parts) => json_text(value),
            _ => joined(parts, "\n"@),
        },
    );
    if said.len() == 0 {
        "(the tool returned no content)"@
    } else {
        said
    }
}

fn render_block(block: &ContentBlock) -> (text: String)
    ensures
        text@ == block_text(*block),
{
    match block {
        ContentBlock::Text(text) => text.clone(),
        ContentBlock::Image => "[image content omitted]".to_owned(),
        ContentBlock::Audio => "[audio content omitted]".to_owned(),
        ContentBlock::Resource => "[embedded resource omitted]".to_owned(),
        ContentBlock::ResourceLink(uri) => {
            let mut text = "[resource link: ".to_owned();
            text.append(uri.as_str());
            text.append("]");
            text
        },
        ContentBlock::Unsupported => "[unsupported content omitted]".to_owned(),
    }
}

/// Flatten an answer into the text that a tool message can carry.
pub fn render_content(content: &Vec<ContentBlock>, structured: Option<&Json>) -> (text: String)
    ensures
        text@ == answer_text(
            content@,
            match structured {
                Some(value) => Some(*value),
                None => None,
            },
        ),
{
    let mut parts: Vec<String> = Vec::new();
    let mut nothing = true;
    let mut i: usize = 0;
    while i < content.len()
        invariant
            i <= content@.len(),
            views(parts@) =~= block_texts(content@).take(i as int),
            nothing == all_blank(block_texts(content@).take(i as int)),
        decreases content@.len() - i,
    {
        let part = render_block(&content[i]);
        let is = is_blank(part.as_str());
        let ghost before = parts@;
        proof {
            let seen = block_texts(content@).take(i as int);
            let next = block_texts(content@).take(i + 1);
            assert(next =~= seen.push(part@));
            if nothing && is {
                assert forall|k: int| 0 <= k < next.len() implies blank(#[trigger] next[k]) by {
                    if k < seen.len() {
                        assert(blank(seen[k]));
                    }
                }
            }
            if all_blank(next) {
                assert forall|k: int| 0 <= k < seen.len() implies blank(#[trigger] seen[k]) by {
                    assert(blank(next[k]));
                }
                assert(blank(next[i as int]));
            }
        }
        nothing = nothing && is;
        parts.push(part);
        assert(views(parts@) =~= views(before).push(part@));
        i += 1;
    }
    assert(block_texts(content@).take(i as int) =~= block_texts(content@));
    let whole = match structured {
        Some(value) => {
            if nothing {
                value.to_text()
            } else {
                join(&parts, "\n")
            }
        },
        None => join(&parts, "\n"),
    };
    let said = trim(whole.as_str());
    if said.is_empty() {
        "(the tool returned no content)".to_owned()
    } else {
        said.to_owned()
    }
}

/// What a call of a remote tool comes to: a failure that the tool reports is an error.
pub fn call_outcome(remote_name: &str, is_error: Option<bool>, rendered: String) -> (outcome: Result<
    String,
    String,
>)
    ensures
        match outcome {
            Ok(text) => is_error != Some(true) && text == rendered,
            Err(text) => is_error == Some(true) && text@ == "MCP tool `"@ + remote_name@
                + "` reported an error: "@ + rendered@,
        },
{
    match is_error {
        Some(true) => {
            let mut text = "MCP tool `".to_owned();
            text.append(remote_name);
            text.append("` reported an error: ");
            text.append(rendered.as_str());
            Err(text)
        },
        _ => Ok(rendered),
    }
}

/// A tool as a server describes it.
#[derive(Debug, PartialEq, Eq)]
pub struct RemoteTool {
    pub name: String,
    pub description: Option<String>,
    /// JSON Schema of the arguments.
    pub input_schema: Json,
}

/// A server's tool as it is offered to a model.
#[derive(Debug, PartialEq, Eq)]
pub struct McpTool {
    /// Name advertised to the model.
    pub name: String,
    /// Name the server knows the tool by.
    pub remote_name: String,
    pub description: String,
    pub parameters: Json,
}

impl Tool for McpTool {
    open spec fn called(&self) -> Seq<char> {
        self.name@
    }

    open spec fn described(&self) -> Seq<char> {
        self.description@
    }

    open spec fn schema(&self) -> JsonModel {
        model_of(self.parameters)
    }

    fn name(&self) -> (name: &str) {
        self.name.as_str()
    }

    fn description(&self) -> (text: &str) {
        self.description.as_str()
    }

    fn parameters(&self) -> (schema: Json) {
        self.parameters.duplicate()
    }
}

/// What a tool without a description is described as.
pub open spec fn description_of(label: Seq<char>, description: Option<Seq<char>>) -> Seq<char> {
    match description {
        Some(text) => text,
        None => "Tool provided by the `"@ + label + "` MCP server."@,
    }
}

/// Offer a server's tool under its local name.
pub fn adapt_tool(label: &str, tool: RemoteTool) -> (adapted: McpTool)
    ensures
        adapted.name@ == namespaced(label@, tool.name@),
        adapted.remote_name == tool.name,
        adapted.description@ == description_of(label@, opt_view(tool.description)),
        adapted.parameters == tool.input_schema,
{
    let name = local_name(label, tool.name.as_str());
    let description = match tool.description {
        Some(text) => text,
        None => {
            let mut text = "Tool provided by the `".to_owned();
            text.append(label);
            text.append("` MCP server.");
            text
        },
    };
    McpTool { name, remote_name: tool.name, description, parameters: tool.input_schema }
}

/// Why a connection is not attempted.
#[derive(Debug, Clone, Copy, PartialEq, Eq, Structural)]
pub enum InvalidTarget {
    EmptyLabel,
    EmptyUrl,
}

impl InvalidTarget {
    /// What is said of it.
    pub fn message(&self) -> (text: String)
        ensures
            text@ == match *self {
                InvalidTarget::EmptyLabel => "server label must not be empty"@,
                InvalidTarget::EmptyUrl => "server url must not be empty"@,
            },
    {
        match self {
            InvalidTarget::EmptyLabel => "server label must not be empty".to_owned(),
            InvalidTarget::EmptyUrl => "server url must not be empty".to_owned(),
        }
    }
}

/// A blank label names no server.
pub fn check_label(label: &str) -> (checked: Result<(), InvalidTarget>)
    ensures
        checked == if blank(label@) {
            Err(InvalidTarget::EmptyLabel)
        } else {
            Ok(())
        },
{
    if is_blank(label) {
        Err(InvalidTarget::EmptyLabel)
    } else {
        Ok(())
    }
}

/// The address to connect to, without the white space around it; a blank label or address
/// leads nowhere.
pub fn check_url<'a>(label: &str, url: &'a str) -> (checked: Result<&'a str, InvalidTarget>)
    ensures
        match checked {
            Ok(address) => !blank(label@) && !blank(url@) && address@ == trimmed(url@),
            Err(why) => why == if blank(label@) {
                InvalidTarget::EmptyLabel
            } else {
                InvalidTarget::EmptyUrl
            } && (blank(label@) || blank(url@)),
        },
{
    match check_label(label) {
        Ok(()) => {},
        Err(why) => return Err(why),
    }
    if is_blank(url) {
        return Err(InvalidTarget::EmptyUrl);
    }
    Ok(trim(url))
}

/// Whether a character may stand in the name of an HTTP header.
pub open spec fn token_char(c: char) -> bool {
    ('a' <= c <= 'z') || ('A' <= c <= 'Z') || ('0' <= c <= '9') || c == '!' || c == '#' || c == '$'
        || c == '%' || c == '&' || c == '\'' || c == '*' || c == '+' || c == '-' || c == '.' || c
        == '^' || c == '_' || c == '`' || c == '|' || c == '~'
}

/// The name of an HTTP header in lower case; nothing where it is not one.
pub open spec fn header_name_of(name: Seq<char>) -> Option<Seq<char>> {
    if 0 < name.len() <= 65535 && forall|i: int| 0 <= i < name.len() ==> token_char(#[trigger] name[i]) {
        Some(lowered(name))
    } else {
        None
    }
}

/// Whether a text may be the value of an HTTP header: no control character but the tab.
pub open spec fn header_value_ok(value: Seq<char>) -> bool {
    forall|i: int|
        0 <= i < value.len() ==> (#[trigger] value[i] == '\t' || (value[i] >= ' ' && value[i]
            != '\x7f'))
}

/// `HeaderName::try_from` on a text, as `reqwest` offers it: the name in lower case where it
/// is made of one to 65535 token characters, an error otherwise.
#[verifier::external_body]
fn header_name(name: &str) -> (accepted: Option<String>)
    ensures
        opt_view(accepted) == header_name_of(name@),
{
    reqwest::header::HeaderName::try_from(name).ok().map(|n| n.as_str().to_owned())
}

/// `HeaderValue::from_str`, as `reqwest` offers it: accepts a text exactly where it holds no
/// control character but the tab.
#[verifier::external_body]
fn header_value_accepted(value: &str) -> (accepted: bool)
    ensures
        accepted == header_value_ok(value@),
{
    reqwest::header::HeaderValue::from_str(value).is_ok()
}

/// A header that cannot be sent. Its value is never part of it: that is often a secret.
#[derive(Debug, PartialEq, Eq)]
pub enum InvalidHeader {
    Name(String),
    Value(String),
}

/// An [`InvalidHeader`] by its contents.
pub enum HeaderFault {
    Name(Seq<char>),
    Value(Seq<char>),
}

impl View for InvalidHeader {
    type V = HeaderFault;

    open spec fn view(&self) -> HeaderFault {
        match self {
            InvalidHeader::Name(name) => HeaderFault::Name(name@),
            InvalidHeader::Value(name) => HeaderFault::Value(name@),
        }
    }
}

impl InvalidHeader {
    /// What is said of it.
    pub fn message(&self) -> (text: String)
        ensures
            text@ == match self@ {
                HeaderFault::Name(name) => "`"@ + name + "` is not a valid HTTP header name"@,
                HeaderFault::Value(name) => "header `"@ + name
                    + "` has a value the HTTP layer rejects"@,
            },
    {
        match self {
            InvalidHeader::Name(name) => {
                let mut text = "`".to_owned();
                text.append(name.as_str());
                text.append("` is not a valid HTTP header name");
                text
            },
            InvalidHeader::Value(name) => {
                let mut text = "header `".to_owned();
                text.append(name.as_str());
                text.append("` has a value the HTTP layer rejects");
                text
            },
        }
    }
}

/// The headers to send, by their names in lower case, or the first that cannot be sent.
pub open spec fn headers_of(headers: Seq<(String, String)>) -> Result<
    Map<Seq<char>, Seq<char>>,
    HeaderFault,
>
    decreases headers.len(),
{
    if headers.len() == 0 {
        Ok(Map::empty())
    } else {
        match headers_of(headers.drop_last()) {
            Err(fault) => Err(fault),
            Ok(built) => {
                let name = trimmed(headers.last().0@);
                let value = trimmed(headers.last().1@);
                match header_name_of(name) {
                    None => Err(HeaderFault::Name(name)),
                    Some(accepted) => if header_value_ok(value) {
                        Ok(built.insert(accepted, value))
                    } else {
                        Err(HeaderFault::Value(name))
                    },
                }
            },
        }
    }
}

proof fn lemma_headers_fail_early(headers: Seq<(String, String)>, n: int)
    requires
        0 <= n <= headers.len(),
        headers_of(headers.take(n)) is Err,
    ensures
        headers_of(headers) == headers_of(headers.take(n)),
    decreases headers.len(),
{
    if n < headers.len() {
        assert(headers.drop_last().take(n) =~= headers.take(n));
        lemma_headers_fail_early(headers.drop_last(), n);
    } else {
        assert(headers.take(n) =~= headers);
    }
}

/// Check configured headers and prepare them for sending, every one of them: a header that
/// silently never arrives would show as an unexplained refusal.
pub fn build_headers(headers: &Vec<(String, String)>) -> (built: Result<
    Vec<(String, String)>,
    InvalidHeader,
>)
    ensures
        match (built, headers_of(headers@)) {
            (Ok(pairs), Ok(expected)) => in_name_order(pairs@) && table(pairs@) == expected,
            (Err(why), Err(fault)) => why@ == fault,
            _ => false,
        },
{
    let mut built: Vec<(String, String)> = Vec::new();
    let mut i: usize = 0;
    while i < headers.len()
        invariant
            i <= headers@.len(),
            in_name_order(built@),
            headers_of(headers@.take(i as int)) matches Ok(expected) && table(built@) == expected,
        decreases headers@.len() - i,
    {
        let name = trim(headers[i].0.as_str());
        let value = trim(headers[i].1.as_str());
        let ghost next = headers@.take(i + 1);
        proof {
            assert(next.drop_last() =~= headers@.take(i as int));
            assert(next.last() == headers@[i as int]);
        }
        match header_name(name) {
            None => {
                proof {
                    lemma_headers_fail_early(headers@, i + 1);
                }
                return Err(InvalidHeader::Name(name.to_owned()));
            },
            Some(accepted) => {
                if !header_value_accepted(value) {
                    proof {
                        lemma_headers_fail_early(headers@, i + 1);
                    }
                    return Err(InvalidHeader::Value(name.to_owned()));
                }
                put(&mut built, accepted, value.to_owned());
            },
        }
        i += 1;
    }
    assert(headers@.take(i as int) =~= headers@);
    Ok(built)
}

/// A JSON value of `serde_json`.
#[verifier::external_type_specification]
#[verifier::external_body]
pub struct ExJsonValue(serde_json::Value);

/// The fields of a JSON object of `serde_json`.
#[verifier::external_type_specification]
#[verifier::external_body]
#[verifier::reject_recursive_types(K)]
#[verifier::reject_recursive_types(V)]
pub struct ExJsonObject<K, V>(serde_json::Map<K, V>);

/// Why `serde_json` rejects a text.
#[verifier::external_type_specification]
#[verifier::external_body]
pub struct ExJsonError(serde_json::Error);

/// What a JSON object holds: under each field's name the field's value as compact text.
pub uninterp spec fn object_fields(
    object: serde_json::Map<String, serde_json::Value>,
) -> Map<Seq<char>, Seq<char>>;

/// What the JSON object written in a text holds; nothing where the text is not one.
pub uninterp spec fn parsed_object(text: Seq<char>) -> Option<Map<Seq<char>, Seq<char>>>;

/// No field at all.
pub open spec fn no_fields() -> Map<Seq<char>, Seq<char>> {
    Map::empty()
}

/// `serde_json::Map::new`: an object without fields.
#[verifier::external_body]
fn empty_object() -> (object: serde_json::Map<String, serde_json::Value>)
    ensures
        object_fields(object) == no_fields(),
{
    serde_json::Map::new()
}

/// `serde_json::from_str` into an object. What it gives depends on the text alone; which texts
/// are objects, and what they hold, is not spelled out here.
#[verifier::external_body]
fn parse_object(text: &str) -> (parsed: Result<
    serde_json::Map<String, serde_json::Value>,
    serde_json::Error,
>)
    ensures
        parsed is Ok == (parsed_object(text@) is Some),
        parsed is Ok ==> parsed_object(text@) == Some(object_fields(parsed->Ok_0)),
{
    serde_json::from_str(text)
}

/// Arguments that are not a JSON object.
#[derive(Debug)]
pub struct InvalidArguments {
    pub cause: serde_json::Error,
}

impl InvalidArguments {
    /// What is said of it.
    pub fn message(&self) -> (text: String)
        ensures
            text@ == "MCP tool arguments must be a JSON object"@,
    {
        "MCP tool arguments must be a JSON object".to_owned()
    }
}

/// The arguments that a text stands for: none where it is blank or null, else the object it
/// holds.
pub open spec fn arguments_in(text: Seq<char>) -> Option<Map<Seq<char>, Seq<char>>> {
    if blank(text) || trimmed(text) == "null"@ {
        Some(no_fields())
    } else {
        parsed_object(trimmed(text))
    }
}

/// Whether a text stands for no arguments at all: models send an empty text or null for a
/// tool that takes none.
pub fn takes_no_arguments(args_json: &str) -> (none: bool)
    ensures
        none == (blank(args_json@) || trimmed(args_json@) == "null"@),
{
    is_blank(args_json) || same_text(trim(args_json), "null")
}

/// Parse the model's arguments into the object that a server expects.
pub fn parse_arguments(args_json: &str) -> (arguments: Result<
    serde_json::Map<String, serde_json::Value>,
    InvalidArguments,
>)
    ensures
        match arguments {
            Ok(object) => arguments_in(args_json@) == Some(object_fields(object)),
            Err(_) => arguments_in(args_json@) is None,
        },
{
    if takes_no_arguments(args_json) {
        return Ok(empty_object());
    }
    match parse_object(trim(args_json)) {
        Ok(object) => Ok(object),
        Err(cause) => Err(InvalidArguments { cause }),
    }
}

/// Every header is sent: where none is refused, each arrives under its name in lower case, with the
/// value of the last one of that name.
pub proof fn every_header_is_sent(headers: Seq<(String, String)>, i: int)
    requires
        0 <= i < headers.len(),
        headers_of(headers) is Ok,
    ensures
        ({
            let sent = headers_of(headers)->Ok_0;
            let name = lowered(trimmed(headers[i].0@));
            &&& sent.dom().contains(name)
            &&& (forall|k: int|
                i < k < headers.len() ==> lowered(trimmed((#[trigger] headers[k]).0@)) != name)
                ==> sent[name] == trimmed(headers[i].1@)
        }),
    decreases headers.len(),
{
    let n = headers.len() - 1;
    if i < n {
        let front = headers.drop_last();
        every_header_is_sent(front, i);
        let name = lowered(trimmed(headers[i].0@));
        if forall|k: int|
            i < k < headers.len() ==> lowered(trimmed((#[trigger] headers[k]).0@)) != name {
            assert forall|k: int| i < k < front.len() implies lowered(
                trimmed((#[trigger] front[k]).0@),
            ) != name by {
                assert(front[k] == headers[k]);
            }
            assert(lowered(trimmed(headers[n].0@)) != name);
        }
    }
}

/// A refused header is named and its value is not: the fault holds a name that was configured, and
/// the one whose name or value is refused.
pub proof fn a_refused_header_is_named(headers: Seq<(String, String)>)
    ensures
        match headers_of(headers) {
            Ok(_) => forall|i: int|
                0 <= i < headers.len() ==> header_name_of(trimmed((#[trigger] headers[i]).0@)) is Some
                    && header_value_ok(trimmed(headers[i].1@)),
            Err(HeaderFault::Name(name)) => exists|i: int|
                0 <= i < headers.len() && trimmed((#[trigger] headers[i]).0@) == name
                    && header_name_of(name) is None,
            Err(HeaderFault::Value(name)) => exists|i: int|
                0 <= i < headers.len() && trimmed((#[trigger] headers[i]).0@) == name
                    && !header_value_ok(trimmed(headers[i].1@)),
        },
    decreases headers.len(),
{
    if headers.len() > 0 {
        let front = headers.drop_last();
        let n = headers.len() - 1;
        a_refused_header_is_named(front);
        assert(headers[n] == headers.last());
        match headers_of(front) {
            Ok(_) => {
                if headers_of(headers) is Ok {
                    assert forall|i: int| 0 <= i < headers.len() implies header_name_of(
                        trimmed((#[trigger] headers[i]).0@),
                    ) is Some && header_value_ok(trimmed(headers[i].1@)) by {
                        if i < n {
                            assert(front[i] == headers[i]);
                        }
                    }
                }
            },
            Err(HeaderFault::Name(name)) => {
                let i = choose|i: int|
                    0 <= i < front.len() && trimmed((#[trigger] front[i]).0@) == name
                        && header_name_of(name) is None;
                assert(trimmed(headers[i].0@) == name);
            },
            Err(HeaderFault::Value(name)) => {
                let i = choose|i: int|
                    0 <= i < front.len() && trimmed((#[trigger] front[i]).0@) == name
                        && !header_value_ok(trimmed(front[i].1@));
                assert(trimmed(headers[i].0@) == name);
            },
        }
    }
}

/// What a tool said is handed on whole: all parts line by line, text as it is and anything else as a
/// note, the white space around them aside; the structured answer only where every part is blank.
pub proof fn an_answer_is_handed_on_whole(blocks: Seq<ContentBlock>, structured: Option<Json>)
    ensures
        ({
            let said = trimmed(joined(block_texts(blocks), "\n"@));
            &&& said.len() > 0 && !all_blank(block_texts(blocks)) ==> answer_text(
                blocks,
                structured,
            ) == said
            &&& structured is None && said.len() > 0 ==> answer_text(blocks, structured) == said
            &&& (structured matches Some(value) && all_blank(block_texts(blocks)) && trimmed(
                json_text(value),
            ).len() > 0) ==> answer_text(blocks, structured) == trimmed(
                json_text(structured->0),
            )
            &&& answer_text(blocks, structured).len() > 0
        }),
        forall|i: int|
            0 <= i < blocks.len() ==> match #[trigger] blocks[i] {
                ContentBlock::Text(text) => block_texts(blocks)[i] == text@,
                ContentBlock::ResourceLink(uri) => occurs_in(block_texts(blocks)[i], uri@),
                _ => block_texts(blocks)[i].len() > 0,
            },
{
    reveal_strlit("(the tool returned no content)");
    reveal_strlit("[image content omitted]");
    reveal_strlit("[audio content omitted]");
    reveal_strlit("[embedded resource omitted]");
    reveal_strlit("[unsupported content omitted]");
    assert forall|i: int| 0 <= i < blocks.len() implies match #[trigger] blocks[i] {
        ContentBlock::Text(text) => block_texts(blocks)[i] == text@,
        ContentBlock::ResourceLink(uri) => occurs_in(block_texts(blocks)[i], uri@),
        _ => block_texts(blocks)[i].len() > 0,
    } by {
        match blocks[i] {
            ContentBlock::ResourceLink(uri) => {
                let text = block_texts(blocks)[i];
                let at = "[resource link: "@.len() as int;
                assert(text.subrange(at, at + uri@.len()) =~= uri@);
                assert(occurs_at(text, uri@, at));
            },
            _ => {},
        }
    }
}

/// A tool is offered under a name that an endpoint accepts and that is recognized as another
/// program's; where all of it fits, the name is the label, the separator and the remote name, with
/// nothing but the other characters replaced.
pub proof fn a_tool_is_offered_under_its_own_name(label: &str, remote_name: &str, name: String)
    requires
        call_ensures(local_name, (label, remote_name), name),
    ensures
        0 < name@.len() <= 64,
        forall|i: int| 0 <= i < name@.len() ==> name_char(#[trigger] name@[i]),
        occurs_in(name@, seq!['_', '_']),
        label@.len() + 2 + remote_name@.len() <= 64 ==> ({
            let whole = label@ + seq!['_', '_'] + remote_name@;
            name@.len() == whole.len() && forall|i: int|
                0 <= i < whole.len() ==> #[trigger] name@[i] == if name_char(whole[i]) {
                    whole[i]
                } else {
                    '_'
                }
        }),
{
    reveal_strlit("__");
    assert("__"@ =~= seq!['_', '_']);
    local_names_are_acceptable(label@, remote_name@);
    local_names_are_recognized(label@, remote_name@);
    let at = choose|at: int| occurs_at(name@, "__"@, at);
    assert(occurs_at(name@, "__"@, at));
}

/// What a model is told of a remote tool's answer is all it said.
pub proof fn a_remote_answer_is_rendered_whole(
    content: &Vec<ContentBlock>,
    structured: Option<&Json>,
    text: String,
)
    requires
        call_ensures(render_content, (content, structured), text),
    ensures
        text@.len() > 0,
        trimmed(joined(block_texts(content@), "\n"@)).len() > 0 && structured is None ==> text@
            == trimmed(joined(block_texts(content@), "\n"@)),
        !all_blank(block_texts(content@)) && trimmed(joined(block_texts(content@), "\n"@)).len()
            > 0 ==> text@ == trimmed(joined(block_texts(content@), "\n"@)),
{
    an_answer_is_handed_on_whole(
        content@,
        match structured {
            Some(value) => Some(*value),
            None => None,
        },
    );
}

/// A remote tool is offered as its server describes it, and called by the name its server knows.
pub proof fn a_remote_tool_is_offered_as_described(label: &str, tool: RemoteTool, adapted: McpTool)
    requires
        call_ensures(adapt_tool, (label, tool), adapted),
    ensures
        adapted.remote_name == tool.name,
        adapted.parameters == tool.input_schema,
        tool.description matches Some(text) ==> adapted.description@ == text@,
        occurs_in(adapted.name@, "__"@),
{
    local_names_are_recognized(label@, tool.name@);
}

/// A remote tool's failure is never taken for an answer, nor an answer for a failure.
pub proof fn a_remote_failure_is_an_error(
    remote_name: &str,
    is_error: Option<bool>,
    rendered: String,
    outcome: Result<String, String>,
)
    requires
        call_ensures(call_outcome, (remote_name, is_error, rendered), outcome),
    ensures
        outcome is Err == (is_error == Some(true)),
        outcome matches Ok(text) ==> text == rendered,
        outcome matches Err(text) ==> text@.skip(text@.len() - rendered@.len()) == rendered@,
{
    match outcome {
        Err(text) => {
            assert(text@.skip(text@.len() - rendered@.len()) =~= rendered@);
        },
        Ok(_) => {},
    }
}

} // verus!
