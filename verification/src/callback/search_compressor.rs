//! Cutting a long search result down to the passages that are about the query.
//!
//! Searching the passages is the caller's part, between the two steps.

use vstd::prelude::*;

use crate::agent::{ContentItem, Event, ExecutionContext, ToolResultStatus};
use crate::json::string_field;
use crate::knowledge_base::chunk::{fixed_length_chunking, passages};
use crate::knowledge_base::search::SearchHit;
use crate::text::{join, joined, occurs_at, occurs_in, opt_view, same_text, views};
use crate::tools::web_search::NAME;

verus! {

/// A result with fewer characters than this is left alone: searching it would cost more than
/// it saves.
pub const COMPRESS_THRESHOLD: usize = 2000;

/// How many characters a passage holds.
pub const CHUNK_SIZE: usize = 500;

/// How many characters a passage shares with the next.
pub const CHUNK_OVERLAP: usize = 50;

/// How many passages are kept.
pub const TOP_K: usize = 3;

/// Replaces a long search result by the passages of it that answer the query.
#[derive(Debug, Clone, Copy, PartialEq, Eq, Structural)]
pub struct SearchCompressorCallback;

/// A search to make before a result can be compressed.
#[derive(Debug, PartialEq, Eq)]
pub struct CompressionTask {
    pub query: String,
    pub chunks: Vec<String>,
}

/// The query that an item searches for, where it is the web search with the given id.
pub open spec fn searched_for(item: ContentItem, id: Seq<char>) -> Option<Seq<char>> {
    match item {
        ContentItem::ToolCall { tool_call_id, name, arguments } if tool_call_id@ == id && name@
            == NAME@ => string_field(arguments, "query"@),
        _ => None,
    }
}

/// The query of the first item that searches for one.
pub open spec fn query_in(items: Seq<ContentItem>, id: Seq<char>) -> Option<Seq<char>>
    decreases items.len(),
{
    if items.len() == 0 {
        None
    } else if searched_for(items[0], id) is Some {
        searched_for(items[0], id)
    } else {
        query_in(items.drop_first(), id)
    }
}

/// The query of the first item of a transcript that searches for one.
pub open spec fn query_of(events: Seq<Event>, id: Seq<char>) -> Option<Seq<char>>
    decreases events.len(),
{
    if events.len() == 0 {
        None
    } else if query_in(events[0].content@, id) is Some {
        query_in(events[0].content@, id)
    } else {
        query_of(events.drop_first(), id)
    }
}

fn find_query(items: &Vec<ContentItem>, id: &str) -> (query: Option<String>)
    ensures
        opt_view(query) == query_in(items@, id@),
{
    let mut i: usize = 0;
    assert(items@.skip(0) =~= items@);
    while i < items.len()
        invariant
            i <= items@.len(),
            query_in(items@, id@) == query_in(items@.skip(i as int), id@),
        decreases items@.len() - i,
    {
        assert(items@.skip(i as int).drop_first() =~= items@.skip(i + 1));
        if let ContentItem::ToolCall { tool_call_id, name, arguments } = &items[i] {
            if same_text(tool_call_id.as_str(), id) && same_text(name.as_str(), NAME) {
                if let Some(query) = arguments.get_str("query") {
                    return Some(query.to_owned());
                }
            }
        }
        i += 1;
    }
    None
}

/// The query of the web search with the given id, as the transcript records it.
pub fn extract_query(context: &ExecutionContext, tool_call_id: &str) -> (query: Option<String>)
    ensures
        opt_view(query) == query_of(context.events@, tool_call_id@),
{
    let events = &context.events;
    let mut i: usize = 0;
    assert(events@.skip(0) =~= events@);
    while i < events.len()
        invariant
            i <= events@.len(),
            events == &context.events,
            query_of(events@, tool_call_id@) == query_of(events@.skip(i as int), tool_call_id@),
        decreases events@.len() - i,
    {
        assert(events@.skip(i as int).drop_first() =~= events@.skip(i + 1));
        let found = find_query(&events[i].content, tool_call_id);
        if found.is_some() {
            return found;
        }
        i += 1;
    }
    None
}

/// Whether a result is worth compressing: a long one, that a successful web search gave, with
/// its query on record and anything but white space in it.
pub open spec fn compressible(
    context: ExecutionContext,
    tool_call_id: Seq<char>,
    tool_name: Seq<char>,
    status: ToolResultStatus,
    content: Seq<char>,
) -> bool {
    &&& tool_name == NAME@
    &&& status == ToolResultStatus::Success
    &&& content.len() >= COMPRESS_THRESHOLD
    &&& query_of(context.events@, tool_call_id) is Some
    &&& passages(content, CHUNK_SIZE as nat, CHUNK_OVERLAP as nat).len() > 0
}

/// The texts of the passages that were found.
pub open spec fn hit_texts(hits: Seq<SearchHit>) -> Seq<Seq<char>> {
    hits.map_values(|hit: SearchHit| hit.text@)
}

/// The passages among `chunks` that were found, in the order of the page.
pub open spec fn survivors(chunks: Seq<Seq<char>>, found: Seq<Seq<char>>) -> Seq<Seq<char>> {
    chunks.filter(|chunk: Seq<char>| found.contains(chunk))
}

fn was_found(hits: &Vec<SearchHit>, chunk: &str) -> (found: bool)
    ensures
        found == hit_texts(hits@).contains(chunk@),
{
    let mut i: usize = 0;
    while i < hits.len()
        invariant
            i <= hits@.len(),
            forall|k: int| 0 <= k < i ==> #[trigger] hit_texts(hits@)[k] != chunk@,
        decreases hits@.len() - i,
    {
        if same_text(hits[i].text.as_str(), chunk) {
            assert(hit_texts(hits@)[i as int] == chunk@);
            return true;
        }
        i += 1;
    }
    false
}

impl SearchCompressorCallback {
    /// The search to make before a result is handed on; none where it is handed on as it is.
    pub fn begin(
        &self,
        context: &ExecutionContext,
        tool_call_id: &str,
        tool_name: &str,
        status: ToolResultStatus,
        content: &str,
    ) -> (task: Option<CompressionTask>)
        ensures
            match task {
                Some(task) => {
                    &&& compressible(*context, tool_call_id@, tool_name@, status, content@)
                    &&& query_of(context.events@, tool_call_id@) == Some(task.query@)
                    &&& views(task.chunks@) == passages(
                        content@,
                        CHUNK_SIZE as nat,
                        CHUNK_OVERLAP as nat,
                    )
                },
                None => !compressible(*context, tool_call_id@, tool_name@, status, content@),
            },
    {
        if !same_text(tool_name, NAME) || status != ToolResultStatus::Success {
            return None;
        }
        if content.unicode_len() < COMPRESS_THRESHOLD {
            return None;
        }
        let query = match extract_query(context, tool_call_id) {
            Some(query) => query,
            None => {
                return None;
            },
        };
        let chunks = fixed_length_chunking(content, CHUNK_SIZE, CHUNK_OVERLAP);
        assert(views(chunks@).len() == chunks@.len());
        if chunks.len() == 0 {
            return None;
        }
        Some(CompressionTask { query, chunks })
    }

    /// What replaces the result, given what the search found: the passages found, in the order
    /// of the page, so that they read on. A search that failed leaves the result as it is.
    pub fn conclude(&self, task: &CompressionTask, hits: Option<&Vec<SearchHit>>) -> (replaced: Option<
        (ToolResultStatus, String),
    >)
        ensures
            match hits {
                None => replaced is None,
                Some(found) => replaced matches Some((status, text)) && status
                    == ToolResultStatus::Success && text@ == joined(
                    survivors(views(task.chunks@), hit_texts(found@)),
                    "\n\n"@,
                ),
            },
    {
        let found = match hits {
            Some(found) => found,
            None => {
                return None;
            },
        };
        let ghost keep = |chunk: Seq<char>| hit_texts(found@).contains(chunk);
        let mut kept: Vec<String> = Vec::new();
        let mut i: usize = 0;
        proof {
            reveal(Seq::filter);
            assert(views(task.chunks@).take(0).filter(keep) =~= seq![]);
            assert(views(kept@) =~= seq![]);
        }
        while i < task.chunks.len()
            invariant
                i <= task.chunks@.len(),
                keep == (|chunk: Seq<char>| hit_texts(found@).contains(chunk)),
                views(kept@) == views(task.chunks@).take(i as int).filter(keep),
            decreases task.chunks@.len() - i,
        {
            let ghost before = kept@;
            proof {
                reveal(Seq::filter);
                let next = views(task.chunks@).take(i + 1);
                assert(next.drop_last() =~= views(task.chunks@).take(i as int));
                assert(next.last() == task.chunks@[i as int]@);
            }
            if was_found(found, task.chunks[i].as_str()) {
                let chunk = task.chunks[i].clone();
                let ghost said = chunk@;
                kept.push(chunk);
                assert(views(kept@) =~= views(before).push(said));
            }
            i += 1;
        }
        assert(views(task.chunks@).take(i as int) =~= views(task.chunks@));
        let text = join(&kept, "\n\n");
        Some((ToolResultStatus::Success, text))
    }
}

/// The query on record is that of a web search with the same id; without one there is none.
pub proof fn a_query_is_that_of_its_search(events: Seq<Event>, id: Seq<char>)
    ensures
        match query_of(events, id) {
            Some(query) => exists|e: int, i: int|
                0 <= e < events.len() && 0 <= i < events[e].content@.len() && asks(
                    #[trigger] events[e].content@[i],
                    id,
                    query,
                ),
            None => forall|e: int, i: int, query: Seq<char>|
                0 <= e < events.len() && 0 <= i < events[e].content@.len() ==> !#[trigger] asks(
                    events[e].content@[i],
                    id,
                    query,
                ),
        },
    decreases events.len(),
{
    if events.len() > 0 {
        lemma_query_in(events[0].content@, id);
        let rest = events.drop_first();
        a_query_is_that_of_its_search(rest, id);
        if query_in(events[0].content@, id) is Some {
            let query = query_in(events[0].content@, id)->0;
            let i = choose|i: int|
                0 <= i < events[0].content@.len() && asks(
                    #[trigger] events[0].content@[i],
                    id,
                    query,
                );
            assert(asks(events[0].content@[i], id, query));
        } else {
            match query_of(rest, id) {
                Some(query) => {
                    let (e, i) = choose|e: int, i: int|
                        0 <= e < rest.len() && 0 <= i < rest[e].content@.len() && asks(
                            #[trigger] rest[e].content@[i],
                            id,
                            query,
                        );
                    assert(asks(events[e + 1].content@[i], id, query));
                },
                None => {
                    assert forall|e: int, i: int, query: Seq<char>|
                        0 <= e < events.len() && 0 <= i
                            < events[e].content@.len() implies !#[trigger] asks(
                        events[e].content@[i],
                        id,
                        query,
                    ) by {
                        if e > 0 {
                            assert(!asks(rest[e - 1].content@[i], id, query));
                        }
                    }
                },
            }
        }
    }
}

/// Whether an item is the web search with the given id and asks for `query`.
pub open spec fn asks(item: ContentItem, id: Seq<char>, query: Seq<char>) -> bool {
    item matches ContentItem::ToolCall { tool_call_id, name, arguments } && tool_call_id@ == id
        && name@ == "web_search"@ && string_field(arguments, "query"@) == Some(query)
}

proof fn lemma_query_in(items: Seq<ContentItem>, id: Seq<char>)
    ensures
        match query_in(items, id) {
            Some(query) => exists|i: int|
                0 <= i < items.len() && asks(#[trigger] items[i], id, query),
            None => forall|i: int, query: Seq<char>|
                0 <= i < items.len() ==> !#[trigger] asks(items[i], id, query),
        },
    decreases items.len(),
{
    if items.len() > 0 {
        let rest = items.drop_first();
        lemma_query_in(rest, id);
        if searched_for(items[0], id) is Some {
            assert(asks(items[0], id, searched_for(items[0], id)->0));
        } else {
            match query_in(rest, id) {
                Some(query) => {
                    let i = choose|i: int|
                        0 <= i < rest.len() && asks(#[trigger] rest[i], id, query);
                    assert(asks(items[i + 1], id, query));
                },
                None => {
                    assert forall|i: int, query: Seq<char>|
                        0 <= i < items.len() implies !#[trigger] asks(items[i], id, query) by {
                        if i > 0 {
                            assert(!asks(rest[i - 1], id, query));
                        }
                    }
                },
            }
        }
    }
}

/// What is kept of a page are the passages that were found, all of these, in the order of the page.
pub proof fn found_passages_are_kept_in_order(
    left: Seq<Seq<char>>,
    right: Seq<Seq<char>>,
    found: Seq<Seq<char>>,
    chunk: Seq<char>,
)
    ensures
        survivors(left, found).contains(chunk) == (left.contains(chunk) && found.contains(chunk)),
        survivors(left + right, found) == survivors(left, found) + survivors(right, found),
        found.contains(chunk) ==> survivors(seq![chunk], found) == seq![chunk],
        !found.contains(chunk) ==> survivors(seq![chunk], found) == Seq::<Seq<char>>::empty(),
{
    let keep = |chunk: Seq<char>| found.contains(chunk);
    lemma_survives(left, found, chunk);
    Seq::filter_distributes_over_add(left, right, keep);
    reveal(Seq::filter);
    assert(seq![chunk].drop_last() =~= seq![]);
    assert(seq![chunk].drop_last().filter(keep) =~= seq![]);
    if found.contains(chunk) {
        assert(survivors(seq![chunk], found) =~= seq![chunk]);
    }
}

proof fn lemma_survives(chunks: Seq<Seq<char>>, found: Seq<Seq<char>>, chunk: Seq<char>)
    ensures
        survivors(chunks, found).contains(chunk) == (chunks.contains(chunk) && found.contains(
            chunk,
        )),
    decreases chunks.len(),
{
    reveal(Seq::filter);
    if chunks.len() > 0 {
        let front = chunks.drop_last();
        let last = chunks.last();
        lemma_survives(front, found, chunk);
        let before = survivors(front, found);
        let after = survivors(chunks, found);
        if before.contains(chunk) {
            let i = choose|i: int| 0 <= i < before.len() && before[i] == chunk;
            assert(after[i] == chunk);
        }
        if front.contains(chunk) {
            let i = choose|i: int| 0 <= i < front.len() && front[i] == chunk;
            assert(chunks[i] == chunk);
        }
        if last == chunk {
            assert(chunks[chunks.len() - 1] == chunk);
            if found.contains(chunk) {
                assert(after[before.len() as int] == chunk);
            }
        }
        if chunks.contains(chunk) && last != chunk {
            let i = choose|i: int| 0 <= i < chunks.len() && chunks[i] == chunk;
            assert(front[i] == chunk);
        }
        if after.contains(chunk) {
            let i = choose|i: int| 0 <= i < after.len() && after[i] == chunk;
            if i < before.len() {
                assert(before[i] == chunk);
            }
        }
    }
}

/// Only the long result of a successful web search is ever compressed.
pub proof fn other_results_are_left_alone(
    context: ExecutionContext,
    tool_call_id: Seq<char>,
    tool_name: Seq<char>,
    status: ToolResultStatus,
    content: Seq<char>,
)
    requires
        compressible(context, tool_call_id, tool_name, status, content),
    ensures
        tool_name == "web_search"@,
        status == ToolResultStatus::Success,
        content.len() >= 2000,
{
}

/// What replaces a long result holds every passage that was found, whole.
pub proof fn a_found_passage_is_kept_whole(
    callback: &SearchCompressorCallback,
    task: &CompressionTask,
    hits: &Vec<SearchHit>,
    replaced: Option<(ToolResultStatus, String)>,
    chunk: Seq<char>,
)
    requires
        call_ensures(SearchCompressorCallback::conclude, (callback, task, Some(hits)), replaced),
        views(task.chunks@).contains(chunk),
        hit_texts(hits@).contains(chunk),
    ensures
        replaced matches Some((status, text)) && status == ToolResultStatus::Success && occurs_in(
            text@,
            chunk,
        ),
{
    let kept = survivors(views(task.chunks@), hit_texts(hits@));
    found_passages_are_kept_in_order(views(task.chunks@), seq![], hit_texts(hits@), chunk);
    let k = choose|k: int| 0 <= k < kept.len() && kept[k] == chunk;
    lemma_part_occurs(kept, "\n\n"@, k);
}

proof fn lemma_part_occurs(parts: Seq<Seq<char>>, separator: Seq<char>, k: int)
    requires
        0 <= k < parts.len(),
    ensures
        occurs_in(joined(parts, separator), parts[k]),
    decreases parts.len(),
{
    let text = joined(parts, separator);
    let part = parts[k];
    if parts.len() == 1 {
        assert(text.subrange(0, part.len() as int) =~= part);
        assert(occurs_at(text, part, 0));
    } else {
        let front = parts.drop_last();
        let before = joined(front, separator);
        if k == parts.len() - 1 {
            let at = (before.len() + separator.len()) as int;
            assert(text.subrange(at, at + part.len()) =~= part);
            assert(occurs_at(text, part, at));
        } else {
            lemma_part_occurs(front, separator, k);
            assert(front[k] == part);
            let at = choose|at: int| occurs_at(before, part, at);
            assert(occurs_at(before, part, at));
            assert(text.subrange(at, at + part.len()) =~= before.subrange(at, at + part.len()));
            assert(occurs_at(text, part, at));
        }
    }
}

} // verus!
