//! Cutting a long search result down, and the search behind it.

use agent::agent::{ContentItem, Event, ExecutionContext, ToolResultStatus};
use agent::callback::search_compressor::{
    extract_query, SearchCompressorCallback, CHUNK_OVERLAP, CHUNK_SIZE, COMPRESS_THRESHOLD, TOP_K,
};
use agent::json::Json;
use agent::knowledge_base::chunk::fixed_length_chunking;
use agent::knowledge_base::embed::{batches, order_batch, single, CountMismatch, MAX_BATCH_SIZE};
use agent::knowledge_base::search::{
    plan_search, rank, search_hits, EmbedModelNotSet, SearchHit, SearchPlan,
};
use agent::tools::web_search;

const CALL_ID: &str = "call-1";

fn long_content() -> String {
    "word ".repeat(COMPRESS_THRESHOLD)
}

fn new_context() -> ExecutionContext {
    ExecutionContext::new("run".to_owned())
}

fn context_with(name: &str, query: Json) -> ExecutionContext {
    let mut context = new_context();
    context.add_event(Event {
        execution_id: "run".to_owned(),
        author: "assistant".to_owned(),
        content: vec![ContentItem::ToolCall {
            tool_call_id: CALL_ID.to_owned(),
            name: name.to_owned(),
            arguments: Json::Object(vec![("query".to_owned(), query)]),
        }],
    });
    context
}

fn context_with_query(query: &str) -> ExecutionContext {
    context_with(web_search::NAME, Json::text(query))
}

#[test]
fn extract_query_finds_the_query_of_the_matching_tool_call() {
    let context = context_with_query("rust async runtimes");
    assert_eq!(extract_query(&context, CALL_ID), Some("rust async runtimes".to_owned()));
}

#[test]
fn extract_query_ignores_a_tool_call_with_a_different_id() {
    let context = context_with_query("rust async runtimes");
    assert_eq!(extract_query(&context, "some-other-call"), None);
}

#[test]
fn extract_query_ignores_a_matching_id_for_a_different_tool() {
    let context = context_with("calculator", Json::text("irrelevant"));
    assert_eq!(extract_query(&context, CALL_ID), None);
}

#[test]
fn extract_query_returns_none_when_the_argument_is_missing_or_not_a_string() {
    let context = context_with(web_search::NAME, Json::Number("42".to_owned()));
    assert_eq!(extract_query(&context, CALL_ID), None);
}

#[test]
fn extract_query_returns_none_for_an_empty_context() {
    assert_eq!(extract_query(&new_context(), CALL_ID), None);
}

#[test]
fn ignores_a_result_from_a_tool_other_than_web_search() {
    let task = SearchCompressorCallback.begin(
        &context_with_query("anything"),
        CALL_ID,
        "calculator",
        ToolResultStatus::Success,
        &long_content(),
    );
    assert!(task.is_none());
}

#[test]
fn ignores_a_failed_search() {
    let task = SearchCompressorCallback.begin(
        &context_with_query("anything"),
        CALL_ID,
        web_search::NAME,
        ToolResultStatus::Error,
        &long_content(),
    );
    assert!(task.is_none());
}

#[test]
fn ignores_content_below_the_compression_threshold() {
    let task = SearchCompressorCallback.begin(
        &context_with_query("anything"),
        CALL_ID,
        web_search::NAME,
        ToolResultStatus::Success,
        "a short result, nowhere near the threshold",
    );
    assert!(task.is_none());
}

#[test]
fn ignores_content_of_only_whitespace_even_above_the_char_threshold() {
    let task = SearchCompressorCallback.begin(
        &context_with_query("anything"),
        CALL_ID,
        web_search::NAME,
        ToolResultStatus::Success,
        &" ".repeat(COMPRESS_THRESHOLD + 100),
    );
    assert!(task.is_none());
}

#[test]
fn returns_none_when_no_matching_tool_call_is_recorded_in_context() {
    let task = SearchCompressorCallback.begin(
        &new_context(),
        CALL_ID,
        web_search::NAME,
        ToolResultStatus::Success,
        &long_content(),
    );
    assert!(task.is_none());
}

#[test]
fn skips_compression_when_the_embedder_is_not_configured() {
    let task = SearchCompressorCallback
        .begin(
            &context_with_query("anything"),
            CALL_ID,
            web_search::NAME,
            ToolResultStatus::Success,
            &long_content(),
        )
        .expect("the result is worth compressing");
    assert_eq!(task.query, "anything");

    let plan = plan_search(&task.chunks, TOP_K, None);
    assert_eq!(plan, Err(EmbedModelNotSet));
    assert_eq!(EmbedModelNotSet.message(), "EMBED_MODEL is not set");
    assert!(SearchCompressorCallback.conclude(&task, None).is_none());
}

#[test]
fn survivors_keep_the_order_of_the_page() {
    let page: String =
        ["a", "b", "c", "d", "e"].iter().map(|letter| letter.repeat(CHUNK_SIZE)).collect();
    let task = SearchCompressorCallback
        .begin(
            &context_with_query("anything"),
            CALL_ID,
            web_search::NAME,
            ToolResultStatus::Success,
            &page,
        )
        .unwrap();
    assert_eq!(task.chunks.len(), 6);
    let hit = |i: usize| SearchHit { text: task.chunks[i].clone(), similarity: 0 };
    let hits = vec![hit(4), hit(0), hit(2)];
    let (status, text) = SearchCompressorCallback.conclude(&task, Some(&hits)).unwrap();
    assert_eq!(status, ToolResultStatus::Success);
    assert_eq!(
        text,
        [&task.chunks[0], &task.chunks[2], &task.chunks[4]].map(String::as_str).join("\n\n")
    );
}

#[test]
fn passages_share_their_edges() {
    let chunks = fixed_length_chunking("abcdefghij", 4, 1);
    assert_eq!(chunks, ["abcd", "defg", "ghij"]);
    assert_eq!(fixed_length_chunking("中文内容很长", 4, 2), ["中文内容", "内容很长"]);
    assert_eq!(fixed_length_chunking("ab  cd", 2, 0), ["ab", "cd"]);
    assert!(fixed_length_chunking("", CHUNK_SIZE, CHUNK_OVERLAP).is_empty());
}

#[test]
fn vector_search_of_empty_chunks_returns_no_hits_without_calling_the_embedder() {
    assert_eq!(plan_search(&Vec::new(), 5, None), Ok(SearchPlan::NoHits));
}

#[test]
fn vector_search_of_zero_top_k_returns_no_hits_without_calling_the_embedder() {
    assert_eq!(plan_search(&vec!["a".to_owned()], 0, None), Ok(SearchPlan::NoHits));
}

#[test]
fn a_search_embeds_with_the_configured_model() {
    assert_eq!(
        plan_search(&vec!["a".to_owned()], 1, Some("embed".to_owned())),
        Ok(SearchPlan::Embed { model: "embed".to_owned() })
    );
}

#[test]
fn the_most_similar_passages_come_first() {
    let scores: Vec<u32> =
        [0.5f32, -0.25, 0.75, 0.5, -1.0, 0.0, -0.0].iter().map(|s| s.to_bits()).collect();
    assert_eq!(rank(&scores, 3), vec![2, 0, 3]);
    assert_eq!(rank(&scores, 99), vec![2, 0, 3, 5, 6, 1, 4]);
    assert!(rank(&scores, 0).is_empty());

    let chunks: Vec<String> = ["a", "b", "c"].iter().map(|s| (*s).to_owned()).collect();
    let hits = search_hits(&chunks, &[0.1f32, 0.9, 0.5].map(f32::to_bits).to_vec(), 2);
    let found: Vec<(&str, f32)> =
        hits.iter().map(|hit| (hit.text.as_str(), f32::from_bits(hit.similarity))).collect();
    assert_eq!(found, [("b", 0.9), ("c", 0.5)]);
}

#[test]
fn inputs_are_sent_in_batches() {
    assert!(batches(0).is_empty());
    assert_eq!(batches(1), vec![(0, 1)]);
    assert_eq!(batches(MAX_BATCH_SIZE), vec![(0, 2048)]);
    assert_eq!(batches(5000), vec![(0, 2048), (2048, 4096), (4096, 5000)]);
}

#[test]
fn replies_are_put_in_the_order_of_their_inputs() {
    assert_eq!(
        order_batch(vec![(2, "c"), (0, "a"), (1, "b")], 3),
        Ok(vec!["a", "b", "c"])
    );
    assert_eq!(order_batch(vec![(1, "x"), (0, "a"), (1, "y")], 3), Ok(vec!["a", "x", "y"]));
    let short = order_batch(vec![(0, "a")], 2);
    assert_eq!(short, Err(CountMismatch { vectors: 1, inputs: 2 }));
    assert_eq!(
        short.unwrap_err().message(),
        "embedding API returned 1 vectors for 2 inputs"
    );
    assert_eq!(single(vec!["v"]), Ok("v"));
    let none: Vec<&str> = Vec::new();
    assert_eq!(single(none).unwrap_err().message(), "embedding API returned no vectors");
}
