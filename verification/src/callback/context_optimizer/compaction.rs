//! Rewriting spent tool results in place: the cheapest stage of the context optimizer.
//!
//! A bulky tool result is replaced with a one-line note saying what was fetched and how to
//! fetch it again. Only results of registered tools are touched, only their content is
//! rewritten, and the most recent items are left whole.

use vstd::prelude::*;

use crate::agent::{ContentItem, LlmRequest};
use crate::callback::context_optimizer::safety::{answers, pairing_kept};
use crate::callback::context_optimizer::tokens::{
    byte_len, encodable, fits, lemma_byte_len_bound, lists, short_texts_are_encodable,
    PER_MESSAGE_OVERHEAD,
};
use crate::json::{string_field, Json};
use crate::text::{occurs_at, occurs_in, same_text};
use crate::tools::{file_list, file_read, web_search};

verus! {

/// Characters of a single argument echoed into a note.
pub const MAX_ARGUMENT_CHARS: usize = 200;

/// Whether `describe` can build the note that stands in for a tool's spent result, given the
/// arguments of any call: it may be asked about all of them, and what it says can be counted.
/// The result itself is out of its reach.
pub open spec fn describes<D: Fn(&Json) -> String>(describe: D) -> bool {
    &&& forall|arguments: &Json| #[trigger] describe.requires((arguments,))
    &&& forall|arguments: &Json, text: String| #[trigger]
        describe.ensures((arguments,), text) ==> note_fits(text@)
}

/// Whether what a note costs can be counted.
pub open spec fn note_fits(text: Seq<char>) -> bool {
    PER_MESSAGE_OVERHEAD + byte_len(text) <= usize::MAX && encodable(text)
}

/// `text` cut to [`MAX_ARGUMENT_CHARS`] characters, marked when anything was cut.
pub open spec fn previewed(text: Seq<char>) -> Seq<char> {
    if text.len() <= MAX_ARGUMENT_CHARS {
        text
    } else {
        text.take(MAX_ARGUMENT_CHARS as int).push('…')
    }
}

/// `arguments[key]` as a text, or `fallback` where there is none, cut to a preview.
pub open spec fn argument_or(arguments: Json, key: Seq<char>, fallback: Seq<char>) -> Seq<char> {
    match string_field(arguments, key) {
        Some(text) => previewed(text),
        None => previewed(fallback),
    }
}

/// `text` cut to [`MAX_ARGUMENT_CHARS`] characters, marked when anything was cut.
pub fn preview(text: &str) -> (shown: String)
    ensures
        shown@ == previewed(text@),
        shown@.len() <= MAX_ARGUMENT_CHARS + 1,
{
    if text.unicode_len() <= MAX_ARGUMENT_CHARS {
        text.to_owned()
    } else {
        let mut shown = text.substring_char(0, MAX_ARGUMENT_CHARS).to_owned();
        shown.push('…');
        shown
    }
}

/// `arguments[key]` as a preview, or `"unknown"` where the call is not available or the key
/// is missing.
pub fn argument(arguments: &Json, key: &str) -> (shown: String)
    ensures
        shown@ == argument_or(*arguments, key@, "unknown"@),
        shown@.len() <= MAX_ARGUMENT_CHARS + 1,
{
    match arguments.get_str(key) {
        Some(text) => preview(text),
        None => preview("unknown"),
    }
}

/// The note of a spent file read.
pub open spec fn file_read_note(arguments: Json) -> Seq<char> {
    "File '"@ + argument_or(arguments, "file_path"@, "unknown"@) + "' was already read. Call "@
        + file_read::NAME@ + " again if you need it."@
}

/// The note of a spent directory listing. A path that was left out is the one the listing
/// falls back to, not an unknown one.
pub open spec fn file_list_note(arguments: Json) -> Seq<char> {
    "Directory '"@ + argument_or(arguments, "path"@, file_list::DEFAULT_PATH@)
        + "' was already listed. Call "@ + file_list::NAME@ + " again if you need it."@
}

/// The note of a spent web search.
pub open spec fn web_search_note(arguments: Json) -> Seq<char> {
    "Search results for '"@ + argument_or(arguments, "query"@, "unknown"@)
        + "' were already processed. Call "@ + web_search::NAME@ + " again if you need them."@
}

/// The three parts of a note around what it names, one after another.
fn note_text(before: &str, named: &str, after: &str, tool: &str, end: &str) -> (text: String)
    ensures
        text@ == before@ + named@ + after@ + tool@ + end@,
{
    let mut text = before.to_owned();
    text.append(named);
    text.append(after);
    text.append(tool);
    text.append(end);
    text
}

/// The note of a spent file read.
pub fn describe_file_read(arguments: &Json) -> (text: String)
    ensures
        text@ == file_read_note(*arguments),
        note_fits(text@),
{
    let named = argument(arguments, "file_path");
    let text = note_text(
        "File '",
        named.as_str(),
        "' was already read. Call ",
        file_read::NAME,
        " again if you need it.",
    );
    proof {
        builtin_notes_are_bounded(*arguments);
        lemma_byte_len_bound(text@);
        short_texts_are_encodable(text@);
    }
    text
}

/// The note of a spent web search.
pub fn describe_web_search(arguments: &Json) -> (text: String)
    ensures
        text@ == web_search_note(*arguments),
        note_fits(text@),
{
    let named = argument(arguments, "query");
    let text = note_text(
        "Search results for '",
        named.as_str(),
        "' were already processed. Call ",
        web_search::NAME,
        " again if you need them.",
    );
    proof {
        builtin_notes_are_bounded(*arguments);
        lemma_byte_len_bound(text@);
        short_texts_are_encodable(text@);
    }
    text
}

/// The note of a spent directory listing.
pub fn describe_file_list(arguments: &Json) -> (text: String)
    ensures
        text@ == file_list_note(*arguments),
        note_fits(text@),
{
    let named = match arguments.get_str("path") {
        Some(path) => preview(path),
        None => preview(file_list::DEFAULT_PATH),
    };
    let text = note_text(
        "Directory '",
        named.as_str(),
        "' was already listed. Call ",
        file_list::NAME,
        " again if you need it.",
    );
    proof {
        builtin_notes_are_bounded(*arguments);
        lemma_byte_len_bound(text@);
        short_texts_are_encodable(text@);
    }
    text
}

/// A built-in note never grows with the arguments it echoes: it stays within a fixed length.
pub proof fn builtin_notes_are_bounded(arguments: Json)
    ensures
        file_read_note(arguments).len() <= 300,
        file_list_note(arguments).len() <= 300,
        web_search_note(arguments).len() <= 300,
{
    reveal_strlit("File '");
    reveal_strlit("' was already read. Call ");
    reveal_strlit("read_file");
    reveal_strlit(" again if you need it.");
    reveal_strlit("Directory '");
    reveal_strlit("' was already listed. Call ");
    reveal_strlit("list_files");
    reveal_strlit("Search results for '");
    reveal_strlit("' were already processed. Call ");
    reveal_strlit("web_search");
    reveal_strlit(" again if you need them.");
    reveal_strlit("unknown");
    reveal_strlit(".");
}

/// How one tool's spent results are described: one of the built-in notes, or a caller's own.
pub enum Note<D> {
    FileRead,
    FileList,
    WebSearch,
    Custom(D),
}

/// Whether the note for a call made with `arguments` may read `text`.
pub open spec fn reads<D: Fn(&Json) -> String>(
    note: Note<D>,
    arguments: Json,
    text: Seq<char>,
) -> bool {
    match note {
        Note::FileRead => text == file_read_note(arguments),
        Note::FileList => text == file_list_note(arguments),
        Note::WebSearch => text == web_search_note(arguments),
        Note::Custom(own) => exists|said: String| #[trigger]
            own.ensures((&arguments,), said) && said@ == text,
    }
}

/// Whether what is said of a call depends on its arguments alone.
pub open spec fn repeats<D: Fn(&Json) -> String>(describe: D) -> bool {
    forall|arguments: &Json, left: String, right: String| #[trigger]
        describe.ensures((arguments,), left) && #[trigger] describe.ensures((arguments,), right)
            ==> left@ == right@
}

impl<D: Fn(&Json) -> String> Note<D> {
    /// Whether the note can be built for any call.
    pub open spec fn usable(&self) -> bool {
        *self matches Note::Custom(own) ==> describes(own)
    }

    /// The note for a call made with `arguments`.
    pub fn describe(&self, arguments: &Json) -> (text: String)
        requires
            self.usable(),
        ensures
            reads(*self, *arguments, text@),
            note_fits(text@),
    {
        match self {
            Note::FileRead => describe_file_read(arguments),
            Note::FileList => describe_file_list(arguments),
            Note::WebSearch => describe_web_search(arguments),
            Note::Custom(own) => own(arguments),
        }
    }
}

/// Which tools' spent results may be rewritten, and how many items are left whole.
pub struct Compaction<D> {
    keep_recent: usize,
    describers: Vec<(String, Note<D>)>,
}

/// The describer registered under `name`: each name is registered once.
pub open spec fn describer<D>(
    describers: Seq<(String, Note<D>)>,
    name: Seq<char>,
) -> Option<Note<D>>
    decreases describers.len(),
{
    if describers.len() == 0 {
        None
    } else if describers.last().0@ == name {
        Some(describers.last().1)
    } else {
        describer(describers.drop_last(), name)
    }
}

/// The latest tool call with id `id` before position `before`.
pub open spec fn latest_call(contents: Seq<ContentItem>, before: int, id: Seq<char>) -> Option<int>
    decreases before,
{
    if before <= 0 {
        None
    } else if contents[before - 1] matches ContentItem::ToolCall { tool_call_id, .. }
        && tool_call_id@ == id {
        Some(before - 1)
    } else {
        latest_call(contents, before - 1, id)
    }
}

/// The arguments that the result at `index` was produced with; null where its call is not in
/// the conversation before it.
pub open spec fn arguments_of(contents: Seq<ContentItem>, index: int) -> Json {
    match latest_call(contents, index, contents[index]->ToolResult_tool_call_id@) {
        Some(call) => contents[call]->arguments,
        None => Json::Null,
    }
}

/// `after` is `before` with its content replaced by `text`.
pub open spec fn rewritten_to(before: ContentItem, after: ContentItem, text: Seq<char>) -> bool {
    match (before, after) {
        (
            ContentItem::ToolResult { tool_call_id: id, name, status, .. },
            ContentItem::ToolResult {
                tool_call_id: new_id,
                name: new_name,
                status: new_status,
                content,
            },
        ) => new_id == id && new_name == name && new_status == status && content@ == text,
        _ => false,
    }
}

/// Whether `after` is what becomes of the result `before` that is due a note: a result that
/// reads so already is left as it is. An item that is due none is left alone.
pub open spec fn noted<D: Fn(&Json) -> String>(
    due: Option<(Note<D>, Json)>,
    before: ContentItem,
    after: ContentItem,
) -> bool {
    match due {
        None => after == before,
        Some((note, arguments)) => exists|text: Seq<char>| #[trigger]
            reads(note, arguments, text) && if before->ToolResult_content@ == text {
                after == before
            } else {
                rewritten_to(before, after, text)
            },
    }
}

impl<D: Fn(&Json) -> String> Compaction<D> {
    /// How many trailing items are left untouched.
    pub closed spec fn recent(&self) -> nat {
        self.keep_recent as nat
    }

    /// The describer registered for a tool.
    pub closed spec fn describer_for(&self, name: Seq<char>) -> Option<Note<D>> {
        describer(self.describers@, name)
    }

    /// Whether exactly the built-in reproducible tools are registered.
    pub open spec fn is_builtin(&self) -> bool {
        forall|name: Seq<char>| #[trigger]
            self.describer_for(name) == if name == file_read::NAME@ {
                Some(Note::<D>::FileRead)
            } else if name == file_list::NAME@ {
                Some(Note::<D>::FileList)
            } else if name == web_search::NAME@ {
                Some(Note::<D>::WebSearch)
            } else {
                None
            }
    }

    /// Every registered note can be built.
    pub open spec fn wf(&self) -> bool {
        forall|name: Seq<char>|
            (#[trigger] self.describer_for(name)) matches Some(note) ==> note.usable()
    }

    /// What is said of a call depends on its arguments alone, whichever tool it is of.
    pub open spec fn is_repeatable(&self) -> bool {
        forall|name: Seq<char>|
            (#[trigger] self.describer_for(name)) matches Some(Note::Custom(own)) ==> repeats(own)
    }

    /// The note that the item at `index` is due, and the arguments it is built from, where the
    /// item is a result of a registered tool that is not among the recent items.
    pub open spec fn due_at(&self, contents: Seq<ContentItem>, index: int) -> Option<
        (Note<D>, Json),
    > {
        if index + self.recent() >= contents.len() {
            None
        } else {
            match contents[index] {
                ContentItem::ToolResult { name, .. } => match self.describer_for(name@) {
                    Some(found) => Some((found, arguments_of(contents, index))),
                    None => None,
                },
                _ => None,
            }
        }
    }

    /// `after` is what compaction makes of the conversation `before`.
    pub open spec fn compacts(&self, before: Seq<ContentItem>, after: Seq<ContentItem>) -> bool {
        &&& after.len() == before.len()
        &&& forall|i: int|
            0 <= i < before.len() ==> noted(self.due_at(before, i), before[i], #[trigger] after[i])
    }

    /// Recognize nothing at all, leaving the last `keep_recent` items whole.
    pub fn empty(keep_recent: usize) -> (compaction: Self)
        ensures
            compaction.wf(),
            compaction.recent() == keep_recent,
            forall|name: Seq<char>| (#[trigger] compaction.describer_for(name)) is None,
    {
        Compaction { keep_recent, describers: Vec::new() }
    }

    /// Rewrite spent results of the built-in reproducible tools, leaving the last
    /// `keep_recent` items whole.
    pub fn new(keep_recent: usize) -> (compaction: Self)
        ensures
            compaction.wf(),
            compaction.recent() == keep_recent,
            compaction.is_builtin(),
    {
        proof {
            reveal_strlit("read_file");
            reveal_strlit("list_files");
            reveal_strlit("web_search");
            assert("read_file"@.len() != "list_files"@.len());
            assert("list_files"@[0] != "web_search"@[0]);
        }
        let mut compaction = Compaction::empty(keep_recent);
        compaction.register(file_read::NAME.to_owned(), Note::FileRead);
        compaction.register(file_list::NAME.to_owned(), Note::FileList);
        compaction.register(web_search::NAME.to_owned(), Note::WebSearch);
        compaction
    }

    /// Describe the tool `name` by `note`, in place of anything registered for it before.
    fn register(&mut self, name: String, note: Note<D>)
        ensures
            final(self).recent() == old(self).recent(),
            final(self).describer_for(name@) == Some(note),
            forall|other: Seq<char>|
                other != name@ ==> #[trigger] final(self).describer_for(other) == old(
                    self,
                ).describer_for(other),
    {
        self.describers.push((name, note));
        assert(self.describers@.drop_last() =~= old(self).describers@);
    }

    /// Allow the spent results of the tool `name` to be replaced by what `describe` says of
    /// them, in place of anything registered for it before.
    #[must_use]
    pub fn with_tool(self, name: String, describe: D) -> (extended: Self)
        requires
            self.wf(),
            describes(describe),
        ensures
            extended.wf(),
            extended.recent() == self.recent(),
            extended.describer_for(name@) == Some(Note::Custom(describe)),
            forall|other: Seq<char>|
                other != name@ ==> #[trigger] extended.describer_for(other) == self.describer_for(
                    other,
                ),
    {
        let mut extended = self;
        extended.register(name, Note::Custom(describe));
        proof {
            assert forall|other: Seq<char>| (#[trigger] extended.describer_for(
                other,
            )) is Some implies extended.describer_for(other)->0.usable() by {
                if other != name@ {
                    assert(extended.describer_for(other) == self.describer_for(other));
                }
            }
        }
        extended
    }

    /// Trailing items left untouched.
    pub fn keep_recent(&self) -> (n: usize)
        ensures
            n == self.recent(),
    {
        self.keep_recent
    }

    /// The describer registered for the tool `name`.
    fn find_describer(&self, name: &str) -> (found: Option<&Note<D>>)
        ensures
            match found {
                Some(note) => self.describer_for(name@) == Some(*note),
                None => self.describer_for(name@) is None,
            },
    {
        let mut i: usize = self.describers.len();
        assert(self.describers@.take(i as int) =~= self.describers@);
        while i > 0
            invariant
                i <= self.describers@.len(),
                describer(self.describers@, name@) == describer(
                    self.describers@.take(i as int),
                    name@,
                ),
            decreases i,
        {
            i -= 1;
            assert(self.describers@.take(i + 1).drop_last() =~= self.describers@.take(i as int));
            if same_text(self.describers[i].0.as_str(), name) {
                return Some(&self.describers[i].1);
            }
        }
        None
    }

    /// The note for the item at `index`, where it is due one and does not read so already.
    fn plan(&self, contents: &Vec<ContentItem>, index: usize) -> (planned: Option<String>)
        requires
            self.wf(),
            index < contents@.len(),
        ensures
            match planned {
                Some(text) => self.due_at(contents@, index as int) matches Some((note, arguments))
                    && reads(note, arguments, text@)
                    && contents@[index as int]->ToolResult_content@ != text@ && note_fits(text@),
                None => noted(
                    self.due_at(contents@, index as int),
                    contents@[index as int],
                    contents@[index as int],
                ),
            },
    {
        if contents.len() - index <= self.keep_recent {
            return None;
        }
        match &contents[index] {
            ContentItem::ToolResult { tool_call_id, name, content, .. } => {
                match self.find_describer(name.as_str()) {
                    Some(note) => {
                        let replacement = match find_latest_call(
                            contents,
                            index,
                            tool_call_id.as_str(),
                        ) {
                            Some(arguments) => note.describe(arguments),
                            None => note.describe(&Json::Null),
                        };
                        assert(reads(*note, arguments_of(contents@, index as int), replacement@));
                        if same_text(content.as_str(), replacement.as_str()) {
                            None
                        } else {
                            Some(replacement)
                        }
                    },
                    None => None,
                }
            },
            _ => None,
        }
    }

    /// Rewrite every recognized tool result in `request` that is not recent, in place.
    ///
    /// Returns the positions that were rewritten, in order. Nothing else of the request
    /// changes: no item is added, moved or removed.
    pub fn apply(&self, request: &mut LlmRequest) -> (rewritten: Vec<usize>)
        requires
            self.wf(),
        ensures
            final(request).instructions == old(request).instructions,
            self.compacts(old(request).contents@, final(request).contents@),
            forall|i: int|
                0 <= i < old(request).contents@.len() ==> #[trigger] lists(rewritten@, i) == (
                final(request).contents@[i] != old(request).contents@[i]),
            forall|k: int| 0 <= k < rewritten@.len() ==> #[trigger] rewritten@[k] < old(
                request,
            ).contents@.len(),
            forall|j: int, k: int|
                0 <= j < k < rewritten@.len() ==> #[trigger] rewritten@[j]
                    < #[trigger] rewritten@[k],
            forall|k: int|
                0 <= k < rewritten@.len() ==> fits(
                    final(request).contents@[#[trigger] rewritten@[k] as int],
                ),
    {
        let ghost before = request.contents@;
        let mut rewritten: Vec<usize> = Vec::new();
        let mut index: usize = 0;
        while index < request.contents.len()
            invariant
                self.wf(),
                before == old(request).contents@,
                request.instructions == old(request).instructions,
                request.contents@.len() == before.len(),
                index <= before.len(),
                forall|i: int| index <= i < before.len() ==> request.contents@[i] == before[i],
                forall|i: int|
                    0 <= i < index ==> noted(
                        self.due_at(before, i),
                        before[i],
                        #[trigger] request.contents@[i],
                    ),
                forall|i: int|
                    0 <= i < index ==> #[trigger] lists(rewritten@, i) == (request.contents@[i]
                        != before[i]),
                forall|k: int| 0 <= k < rewritten@.len() ==> #[trigger] rewritten@[k] < index,
                forall|j: int, k: int|
                    0 <= j < k < rewritten@.len() ==> #[trigger] rewritten@[j]
                        < #[trigger] rewritten@[k],
                forall|k: int|
                    0 <= k < rewritten@.len() ==> fits(
                        request.contents@[#[trigger] rewritten@[k] as int],
                    ),
            decreases before.len() - index,
        {
            let ghost now = request.contents@;
            let ghost listed = rewritten@;
            proof {
                lemma_due_unchanged(self, before, now, index as int);
            }
            match self.plan(&request.contents, index) {
                Some(text) => {
                    let ghost said = text@;
                    match &mut request.contents[index] {
                        ContentItem::ToolResult { content, .. } => {
                            *content = text;
                        },
                        _ => {},
                    }
                    rewritten.push(index);
                    proof {
                        assert(rewritten@[listed.len() as int] == index);
                        assert(lists(rewritten@, index as int));
                        let item = request.contents@[index as int];
                        assert(rewritten_to(before[index as int], item, said));
                        assert(item->ToolResult_content@
                            != before[index as int]->ToolResult_content@);
                        assert(item != before[index as int]);
                    }
                },
                None => {
                    assert(!lists(rewritten@, index as int));
                },
            }
            proof {
                assert forall|i: int| 0 <= i <= index implies #[trigger] lists(rewritten@, i) == (
                request.contents@[i] != before[i]) by {
                    if i < index {
                        if lists(listed, i) {
                            let k = choose|k: int| 0 <= k < listed.len() && listed[k] == i;
                            assert(rewritten@[k] == i);
                        }
                        if lists(rewritten@, i) {
                            let k = choose|k: int| 0 <= k < rewritten@.len() && rewritten@[k] == i;
                            assert(listed[k] == i);
                        }
                        assert(request.contents@[i] == now[i]);
                    }
                }
                assert forall|i: int| 0 <= i <= index implies noted(
                    self.due_at(before, i),
                    before[i],
                    #[trigger] request.contents@[i],
                ) by {
                    if i < index {
                        assert(request.contents@[i] == now[i]);
                    }
                }
            }
            index += 1;
        }
        rewritten
    }
}

/// The arguments of the latest tool call with id `id` before position `before`.
fn find_latest_call<'a>(contents: &'a Vec<ContentItem>, before: usize, id: &str) -> (found: Option<
    &'a Json,
>)
    requires
        before <= contents@.len(),
    ensures
        match found {
            Some(arguments) => latest_call(contents@, before as int, id@) matches Some(call)
                && 0 <= call < before && contents@[call] is ToolCall && contents@[call]->arguments
                == *arguments,
            None => latest_call(contents@, before as int, id@) is None,
        },
{
    let mut i: usize = before;
    while i > 0
        invariant
            i <= before <= contents@.len(),
            latest_call(contents@, before as int, id@) == latest_call(contents@, i as int, id@),
        decreases i,
    {
        i -= 1;
        match &contents[i] {
            ContentItem::ToolCall { tool_call_id, arguments, .. } => {
                if same_text(tool_call_id.as_str(), id) {
                    return Some(arguments);
                }
            },
            _ => {},
        }
    }
    None
}

proof fn lemma_latest_call_same(
    before: Seq<ContentItem>,
    after: Seq<ContentItem>,
    at: int,
    id: Seq<char>,
)
    requires
        at <= before.len() == after.len(),
        forall|i: int|
            0 <= i < at ==> (#[trigger] after[i] == before[i] || (before[i] is ToolResult
                && after[i] is ToolResult)),
    ensures
        latest_call(after, at, id) == latest_call(before, at, id),
        latest_call(before, at, id) matches Some(call) ==> 0 <= call < at && before[call] is ToolCall
            && after[call] == before[call],
    decreases at,
{
    if at > 0 {
        assert(after[at - 1] == before[at - 1] || (before[at - 1] is ToolResult
            && after[at - 1] is ToolResult));
        lemma_latest_call_same(before, after, at - 1, id);
    }
}

/// What the item at `index` is due does not depend on whether earlier results have been
/// rewritten.
proof fn lemma_due_unchanged<D: Fn(&Json) -> String>(
    compaction: &Compaction<D>,
    before: Seq<ContentItem>,
    after: Seq<ContentItem>,
    index: int,
)
    requires
        0 <= index < before.len() == after.len(),
        after[index] == before[index],
        forall|i: int|
            0 <= i < index ==> noted(compaction.due_at(before, i), before[i], #[trigger] after[i]),
    ensures
        compaction.due_at(after, index) == compaction.due_at(before, index),
{
    if before[index] is ToolResult {
        lemma_latest_call_same(
            before,
            after,
            index,
            before[index]->ToolResult_tool_call_id@,
        );
    }
}

/// Compacting again changes nothing, as long as what is said of a call depends on its arguments
/// alone, as it does of the built-in tools.
pub proof fn compaction_is_idempotent<D: Fn(&Json) -> String>(
    compaction: Compaction<D>,
    before: Seq<ContentItem>,
    once: Seq<ContentItem>,
    twice: Seq<ContentItem>,
)
    requires
        compaction.compacts(before, once),
        compaction.compacts(once, twice),
        compaction.is_builtin() || compaction.is_repeatable(),
    ensures
        twice == once,
{
    assert forall|i: int| 0 <= i < once.len() implies twice[i] == once[i] by {
        assert(noted(compaction.due_at(before, i), before[i], once[i]));
        assert(noted(compaction.due_at(once, i), once[i], twice[i]));
        assert forall|k: int| 0 <= k < i implies #[trigger] once[k] == before[k] || (
        before[k] is ToolResult && once[k] is ToolResult) by {
            assert(noted(compaction.due_at(before, k), before[k], once[k]));
        }
        if before[i] is ToolResult {
            lemma_latest_call_same(before, once, i, before[i]->ToolResult_tool_call_id@);
            match compaction.due_at(before, i) {
                Some((note, arguments)) => {
                    let name = before[i]->ToolResult_name@;
                    assert(compaction.describer_for(name) == Some(note));
                    assert(compaction.due_at(once, i) == Some((note, arguments)));
                    let first = choose|text: Seq<char>| #[trigger]
                        reads(note, arguments, text) && if before[i]->ToolResult_content@ == text {
                            once[i] == before[i]
                        } else {
                            rewritten_to(before[i], once[i], text)
                        };
                    let second = choose|text: Seq<char>| #[trigger]
                        reads(note, arguments, text) && if once[i]->ToolResult_content@ == text {
                            twice[i] == once[i]
                        } else {
                            rewritten_to(once[i], twice[i], text)
                        };
                    assert(first == second);
                },
                None => {},
            }
        }
    }
    assert(twice =~= once);
}

/// Compaction leaves every tool call and every tool result where it was, so whatever position
/// was safe to cut at still is, and no other.
pub proof fn compaction_keeps_pairing<D: Fn(&Json) -> String>(
    compaction: Compaction<D>,
    before: Seq<ContentItem>,
    after: Seq<ContentItem>,
    start: int,
)
    requires
        compaction.compacts(before, after),
        0 <= start,
    ensures
        pairing_kept(after, start) == pairing_kept(before, start),
{
    assert forall|r: int, c: int| 0 <= r < before.len() && 0 <= c < before.len() implies answers(
        after[r],
        after[c],
    ) == answers(before[r], before[c]) by {
        assert(noted(compaction.due_at(before, r), before[r], after[r]));
        assert(noted(compaction.due_at(before, c), before[c], after[c]));
    }
    if pairing_kept(before, start) {
        assert forall|r: int, c: int|
            start <= r < after.len() && 0 <= c < after.len() && #[trigger] answers(
                after[r],
                after[c],
            ) implies start <= c by {
            assert(answers(before[r], before[c]));
        }
    }
    if pairing_kept(after, start) {
        assert forall|r: int, c: int|
            start <= r < before.len() && 0 <= c < before.len() && #[trigger] answers(
                before[r],
                before[c],
            ) implies start <= c by {
            assert(answers(after[r], after[c]));
        }
    }
}

/// Compaction touches nothing but the content of spent results: messages, calls and the recent
/// items stay as they are, so do the results of tools that are not registered, and every result
/// keeps its place, its id, its tool and its status.
pub proof fn compaction_touches_only_spent_results<D: Fn(&Json) -> String>(
    compaction: Compaction<D>,
    before: Seq<ContentItem>,
    after: Seq<ContentItem>,
    i: int,
)
    requires
        compaction.compacts(before, after),
        0 <= i < before.len(),
    ensures
        after.len() == before.len(),
        i >= before.len() - compaction.recent() ==> after[i] == before[i],
        match before[i] {
            ContentItem::ToolResult { tool_call_id, name, status, .. } => {
                &&& compaction.describer_for(name@) is None ==> after[i] == before[i]
                &&& after[i] matches ContentItem::ToolResult {
                    tool_call_id: new_id,
                    name: new_name,
                    status: new_status,
                    ..
                } && new_id == tool_call_id && new_name == name && new_status == status
            },
            _ => after[i] == before[i],
        },
{
    assert(noted(compaction.due_at(before, i), before[i], after[i]));
}

/// Every spent result of a registered tool ends up as the note for the call it answers: the last
/// call before it that has its id.
pub proof fn a_spent_result_is_noted<D: Fn(&Json) -> String>(
    compaction: Compaction<D>,
    before: Seq<ContentItem>,
    after: Seq<ContentItem>,
    call: int,
    i: int,
)
    requires
        compaction.compacts(before, after),
        0 <= call < i < before.len() - compaction.recent(),
        before[i] is ToolResult,
        before[call] matches ContentItem::ToolCall { tool_call_id, .. } && tool_call_id@
            == before[i]->ToolResult_tool_call_id@,
        forall|k: int|
            call < k < i ==> !((#[trigger] before[k]) matches ContentItem::ToolCall {
                tool_call_id,
                ..
            } && tool_call_id@ == before[i]->ToolResult_tool_call_id@),
    ensures
        compaction.describer_for(before[i]->ToolResult_name@) matches Some(note) ==> reads(
            note,
            before[call]->arguments,
            after[i]->ToolResult_content@,
        ),
{
    assert(noted(compaction.due_at(before, i), before[i], after[i]));
    lemma_latest_call_is(before, i, before[i]->ToolResult_tool_call_id@, call);
}

proof fn lemma_latest_call_is(contents: Seq<ContentItem>, before: int, id: Seq<char>, call: int)
    requires
        0 <= call < before <= contents.len(),
        contents[call] matches ContentItem::ToolCall { tool_call_id, .. } && tool_call_id@ == id,
        forall|k: int|
            call < k < before ==> !((#[trigger] contents[k]) matches ContentItem::ToolCall {
                tool_call_id,
                ..
            } && tool_call_id@ == id),
    ensures
        latest_call(contents, before, id) == Some(call),
    decreases before - call,
{
    if call < before - 1 {
        assert(contents[before - 1] == contents[before - 1]);
        lemma_latest_call_is(contents, before - 1, id, call);
    }
}

/// A built-in note says what was fetched and which tool fetches it again: the path or the query of
/// the call stands in it, whole or as its first 200 characters.
pub proof fn a_note_says_what_was_fetched<D: Fn(&Json) -> String>(
    arguments: Json,
    asked: Seq<char>,
    text: Seq<char>,
)
    ensures
        ({
            let shown = if asked.len() <= 200 {
                asked
            } else {
                asked.take(200)
            };
            &&& reads(Note::<D>::FileRead, arguments, text) && string_field(
                arguments,
                "file_path"@,
            ) == Some(asked) ==> occurs_in(text, shown) && occurs_in(text, "read_file"@)
            &&& reads(Note::<D>::FileList, arguments, text) && string_field(arguments, "path"@)
                == Some(asked) ==> occurs_in(text, shown) && occurs_in(text, "list_files"@)
            &&& reads(Note::<D>::WebSearch, arguments, text) && string_field(arguments, "query"@)
                == Some(asked) ==> occurs_in(text, shown) && occurs_in(text, "web_search"@)
        }),
{
    let shown = if asked.len() <= 200 {
        asked
    } else {
        asked.take(200)
    };
    let named = previewed(asked);
    assert(named.take(shown.len() as int) =~= shown);
    if reads(Note::<D>::FileRead, arguments, text) && string_field(arguments, "file_path"@)
        == Some(asked) {
        lemma_note("File '"@, named, "' was already read. Call "@, "read_file"@, text, shown);
    }
    if reads(Note::<D>::FileList, arguments, text) && string_field(arguments, "path"@)
        == Some(asked) {
        lemma_note(
            "Directory '"@,
            named,
            "' was already listed. Call "@,
            "list_files"@,
            text,
            shown,
        );
    }
    if reads(Note::<D>::WebSearch, arguments, text) && string_field(arguments, "query"@)
        == Some(asked) {
        lemma_note(
            "Search results for '"@,
            named,
            "' were already processed. Call "@,
            "web_search"@,
            text,
            shown,
        );
    }
}

proof fn lemma_note(
    before: Seq<char>,
    named: Seq<char>,
    between: Seq<char>,
    tool: Seq<char>,
    text: Seq<char>,
    shown: Seq<char>,
)
    requires
        (before + named + between + tool).is_prefix_of(text),
        shown.is_prefix_of(named),
    ensures
        occurs_in(text, shown),
        occurs_in(text, tool),
{
    let at = before.len() as int;
    let whole = before + named + between + tool;
    assert(text.take(whole.len() as int) =~= whole);
    assert(text.subrange(at, at + shown.len()) =~= shown) by {
        assert forall|i: int| 0 <= i < shown.len() implies text[at + i] == shown[i] by {
            assert(whole[at + i] == named[i]);
            assert(text[at + i] == whole[at + i]);
        }
    }
    assert(occurs_at(text, shown, at));
    let behind = whole.len() - tool.len();
    assert(text.subrange(behind, behind + tool.len()) =~= tool) by {
        assert forall|i: int| 0 <= i < tool.len() implies text[behind + i] == tool[i] by {
            assert(whole[behind + i] == tool[i]);
            assert(text[behind + i] == whole[behind + i]);
        }
    }
    assert(occurs_at(text, tool, behind));
}

/// A preview is the opening of a text, as much as 200 characters, and marks what was cut.
pub proof fn a_preview_marks_what_was_cut(text: &str, shown: String)
    requires
        call_ensures(preview, (text,), shown),
    ensures
        text@.len() <= 200 ==> shown@ == text@,
        text@.len() > 200 ==> shown@ == text@.take(200).push('…'),
{
}

/// A note still says something where the call did not say what it asked for: that it is unknown, or
/// of a listing that it was of the present directory.
pub proof fn a_note_is_never_left_blank<D: Fn(&Json) -> String>(arguments: Json, text: Seq<char>)
    ensures
        reads(Note::<D>::FileRead, arguments, text) && string_field(arguments, "file_path"@) is None
            ==> occurs_in(text, "unknown"@),
        reads(Note::<D>::WebSearch, arguments, text) && string_field(arguments, "query"@) is None
            ==> occurs_in(text, "unknown"@),
        reads(Note::<D>::FileList, arguments, text) && string_field(arguments, "path"@) is None
            ==> occurs_in(text, "'.'"@),
{
    reveal_strlit("unknown");
    reveal_strlit(".");
    reveal_strlit("'.'");
    reveal_strlit("Directory '");
    reveal_strlit("' was already listed. Call ");
    let unknown = previewed("unknown"@);
    assert(unknown.take("unknown"@.len() as int) =~= "unknown"@);
    if reads(Note::<D>::FileRead, arguments, text) && string_field(arguments, "file_path"@) is None {
        lemma_note(
            "File '"@,
            unknown,
            "' was already read. Call "@,
            "read_file"@,
            text,
            "unknown"@,
        );
    }
    if reads(Note::<D>::WebSearch, arguments, text) && string_field(arguments, "query"@) is None {
        lemma_note(
            "Search results for '"@,
            unknown,
            "' were already processed. Call "@,
            "web_search"@,
            text,
            "unknown"@,
        );
    }
    if reads(Note::<D>::FileList, arguments, text) && string_field(arguments, "path"@) is None {
        let at = "Directory '"@.len() - 1;
        assert(text.subrange(at, at + 3) =~= "'.'"@);
        assert(occurs_at(text, "'.'"@, at));
    }
}

} // verus!
