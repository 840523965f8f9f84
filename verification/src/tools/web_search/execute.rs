//! What is asked of the search API, and what a model is shown of its reply.
//!
//! Sending the request and decoding the reply is the caller's part.

use vstd::prelude::*;

use crate::json::{field_models, model_of, Json, JsonModel};
use crate::text::{
    blank, cut, cut_white, cutting_takes_only_white_space, decimal, decimal_text, is_blank,
    lemma_blank_iff_trimmed_empty, lemma_trimmed_is_solid, occurs_at, occurs_in, opt_view, trim, trim_end, trimmed,
    trimming_takes_only_white_ends,
};
use crate::tools::web_search::{results_wanted, WebSearchArgs};
use crate::util::truncate_chars;

verus! {

/// Where searches are sent.
pub const TAVILY_ENDPOINT: &'static str = "https://api.tavily.com/search";

/// How many characters of a snippet are shown.
pub const SNIPPET_PREVIEW_CHARS: usize = 500;

/// How many characters of an error body are shown.
pub const ERROR_PREVIEW_CHARS: usize = 200;

/// What is used of a reply.
#[derive(Debug, PartialEq, Eq)]
pub struct TavilyResponse {
    pub answer: Option<String>,
    pub results: Vec<TavilyResult>,
}

/// One page that was found.
#[derive(Debug, PartialEq, Eq)]
pub struct TavilyResult {
    pub title: String,
    pub url: String,
    pub content: String,
}

/// A search, ready to be sent.
#[derive(Debug, PartialEq, Eq)]
pub struct SearchRequest {
    pub endpoint: &'static str,
    /// The credential it is sent with.
    pub api_key: String,
    pub body: Json,
}

/// Why a search is not sent.
#[derive(Debug, Clone, Copy, PartialEq, Eq, Structural)]
pub enum SearchRefusal {
    EmptyQuery,
    NoApiKey,
}

impl SearchRefusal {
    /// What is said of it.
    pub fn message(&self) -> (text: String)
        ensures
            text@ == match *self {
                SearchRefusal::EmptyQuery => "query must not be empty"@,
                SearchRefusal::NoApiKey =>
                    "TAVILY_API_KEY is not set; create a key at https://app.tavily.com"@,
            },
    {
        match self {
            SearchRefusal::EmptyQuery => "query must not be empty".to_owned(),
            SearchRefusal::NoApiKey =>
                "TAVILY_API_KEY is not set; create a key at https://app.tavily.com".to_owned(),
        }
    }
}

/// What a search request says.
pub open spec fn body_model(query: Seq<char>, depth: Seq<char>, max_results: u8) -> JsonModel {
    JsonModel::Object(
        seq![
            ("query"@, JsonModel::Text(query)),
            ("search_depth"@, JsonModel::Text(depth)),
            ("max_results"@, JsonModel::Number(decimal(max_results as nat))),
            ("include_answer"@, JsonModel::Bool(true)),
        ],
    )
}

/// The search to send: the query without the white space around it. A blank query is refused,
/// and so is a search without a credential, in this order.
pub fn search(args: &WebSearchArgs, api_key: Option<String>, search_depth: String) -> (request:
    Result<SearchRequest, SearchRefusal>)
    ensures
        match request {
            Ok(sent) => {
                &&& !blank(args.query@)
                &&& api_key == Some(sent.api_key)
                &&& sent.endpoint@ == TAVILY_ENDPOINT@
                &&& model_of(sent.body) == body_model(
                    trimmed(args.query@),
                    search_depth@,
                    results_wanted(args.max_results),
                )
            },
            Err(SearchRefusal::EmptyQuery) => blank(args.query@),
            Err(SearchRefusal::NoApiKey) => !blank(args.query@) && api_key is None,
        },
{
    if is_blank(args.query.as_str()) {
        return Err(SearchRefusal::EmptyQuery);
    }
    let api_key = match api_key {
        Some(key) => key,
        None => {
            return Err(SearchRefusal::NoApiKey);
        },
    };
    let body = Json::Object(
        vec![
            ("query".to_owned(), Json::text(trim(args.query.as_str()))),
            ("search_depth".to_owned(), Json::Text(search_depth)),
            (
                "max_results".to_owned(),
                Json::Number(decimal_text(args.effective_max_results() as u64)),
            ),
            ("include_answer".to_owned(), Json::Bool(true)),
        ],
    );
    proof {
        reveal_with_fuel(field_models, 5);
        let said = body_model(
            trimmed(args.query@),
            search_depth@,
            results_wanted(args.max_results),
        );
        assert(field_models(body, 4) =~= said->Object_0);
    }
    Ok(SearchRequest { endpoint: TAVILY_ENDPOINT, api_key, body })
}

/// What is said of a reply that reports a failure: its status, and the start of its body, where
/// the reason is given.
pub fn refused(status: &str, body: &str) -> (text: String)
    ensures
        text@ == "Tavily returned "@ + status@ + ": "@ + cut(body@, ERROR_PREVIEW_CHARS as nat),
{
    let mut text = "Tavily returned ".to_owned();
    text.append(status);
    text.append(": ");
    text.append(truncate_chars(body, ERROR_PREVIEW_CHARS));
    text
}

/// What is said of a reply that could not be decoded.
pub fn unparsable(error: &str, body: &str) -> (text: String)
    ensures
        text@ == "failed to parse Tavily response: "@ + error@ + "; body: "@ + cut(
            body@,
            ERROR_PREVIEW_CHARS as nat,
        ),
{
    let mut text = "failed to parse Tavily response: ".to_owned();
    text.append(error);
    text.append("; body: ");
    text.append(truncate_chars(body, ERROR_PREVIEW_CHARS));
    text
}

/// What a model is told of arguments that could not be decoded.
pub fn invalid_arguments(error: &str) -> (text: String)
    ensures
        text@ == "Error: invalid arguments: "@ + error@,
{
    let mut text = "Error: invalid arguments: ".to_owned();
    text.append(error);
    text
}

/// What a model is told: the results, or the error that kept them away. It is a text either
/// way, so that the model can work around a failure.
pub fn reply(outcome: Result<&TavilyResponse, &str>) -> (text: String)
    ensures
        text@ == match outcome {
            Ok(response) => rendered(*response),
            Err(error) => "Error: "@ + error@,
        },
{
    match outcome {
        Ok(response) => render(response),
        Err(error) => {
            let mut text = "Error: ".to_owned();
            text.append(error);
            text
        },
    }
}

/// The answer of a reply, without the white space around it; a blank one counts as none.
pub open spec fn given_answer(answer: Option<Seq<char>>) -> Option<Seq<char>> {
    match answer {
        Some(text) if !blank(text) => Some(trimmed(text)),
        _ => None,
    }
}

/// How result number `n` is shown: its number, title, address and the start of its text.
pub open spec fn entry(n: nat, result: TavilyResult) -> Seq<char> {
    "["@ + decimal(n) + "] "@ + trimmed(result.title@) + "\n"@ + trimmed(result.url@) + "\n"@ + cut(
        trimmed(result.content@),
        SNIPPET_PREVIEW_CHARS as nat,
    ) + "\n\n"@
}

/// How results are shown, numbered from one.
pub open spec fn entries(results: Seq<TavilyResult>) -> Seq<char>
    decreases results.len(),
{
    if results.len() == 0 {
        seq![]
    } else {
        entries(results.drop_last()) + entry(results.len(), results.last())
    }
}

/// How a reply is shown.
pub open spec fn rendered(response: TavilyResponse) -> Seq<char> {
    let answer = given_answer(opt_view(response.answer));
    if response.results@.len() == 0 {
        match answer {
            Some(text) => "Answer: "@ + text,
            None => "No results found."@,
        }
    } else {
        let opening = match answer {
            Some(text) => "Answer: "@ + text + "\n\n"@,
            None => seq![],
        };
        cut_white(opening + entries(response.results@))
    }
}

fn push_entry(text: &mut String, n: u64, result: &TavilyResult)
    ensures
        final(text)@ == old(text)@ + entry(n as nat, *result),
{
    let ghost before = text@;
    let number = decimal_text(n);
    text.append("[");
    text.append(number.as_str());
    text.append("] ");
    text.append(trim(result.title.as_str()));
    text.append("\n");
    text.append(trim(result.url.as_str()));
    text.append("\n");
    text.append(truncate_chars(trim(result.content.as_str()), SNIPPET_PREVIEW_CHARS));
    text.append("\n\n");
    assert(text@ =~= before + entry(n as nat, *result));
}

/// Show a reply as compact text: the answer where there is one, then each result with its
/// number and address, so that the model can cite it.
pub fn render(response: &TavilyResponse) -> (text: String)
    ensures
        text@ == rendered(*response),
{
    let answer: Option<&str> = match &response.answer {
        Some(text) => {
            if is_blank(text.as_str()) {
                None
            } else {
                Some(trim(text.as_str()))
            }
        },
        None => None,
    };
    if response.results.len() == 0 {
        return match answer {
            Some(said) => {
                let mut text = "Answer: ".to_owned();
                text.append(said);
                text
            },
            None => "No results found.".to_owned(),
        };
    }
    let mut out = String::new();
    if let Some(said) = answer {
        out.append("Answer: ");
        out.append(said);
        out.append("\n\n");
    }
    let ghost opening = match given_answer(opt_view(response.answer)) {
        Some(text) => "Answer: "@ + text + "\n\n"@,
        None => seq![],
    };
    assert(out@ =~= opening);
    assert(opening + entries(response.results@.take(0)) =~= opening);
    let mut i: usize = 0;
    while i < response.results.len()
        invariant
            i <= response.results@.len(),
            out@ == opening + entries(response.results@.take(i as int)),
        decreases response.results@.len() - i,
    {
        let ghost shown = entries(response.results@.take(i as int));
        proof {
            let next = response.results@.take(i + 1);
            assert(next.drop_last() =~= response.results@.take(i as int));
        }
        push_entry(&mut out, i as u64 + 1, &response.results[i]);
        assert(out@ =~= opening + (shown + entry((i + 1) as nat, response.results@[i as int])));
        i += 1;
    }
    assert(response.results@.take(i as int) =~= response.results@);
    trim_end(out.as_str()).to_owned()
}

/// A result is shown with its number in front, and with its title, its address and the first 500
/// characters of its text whole, the white space around each aside.
pub proof fn a_result_is_shown_whole(n: nat, result: TavilyResult)
    ensures
        ({
            let shown = entry(n, result);
            let content = trimmed(result.content@);
            &&& (seq!['['] + decimal(n) + seq![']']).is_prefix_of(shown)
            &&& occurs_in(shown, trimmed(result.title@))
            &&& occurs_in(shown, trimmed(result.url@))
            &&& occurs_in(
                shown,
                if content.len() <= 500 {
                    content
                } else {
                    content.take(500)
                },
            )
        }),
{
    reveal_strlit("[");
    reveal_strlit("] ");
    reveal_strlit("\n");
    let shown = entry(n, result);
    let title = trimmed(result.title@);
    let url = trimmed(result.url@);
    let content = cut(trimmed(result.content@), 500);
    let number = decimal(n);
    let opening = seq!['['] + number + seq![']'];
    assert(shown.take(opening.len() as int) =~= opening);
    let a = number.len() as int + 3;
    assert(shown.subrange(a, a + title.len()) =~= title);
    assert(occurs_at(shown, title, a));
    let b = a + title.len() + 1;
    assert(shown.subrange(b, b + url.len()) =~= url);
    assert(occurs_at(shown, url, b));
    let c = b + url.len() + 1;
    assert(shown.subrange(c, c + content.len()) =~= content);
    assert(occurs_at(shown, content, c));
}

/// Every result is shown, in order, each under its own number counted from one.
pub proof fn every_result_is_shown(results: Seq<TavilyResult>, k: int)
    requires
        0 <= k < results.len(),
    ensures
        exists|rest: Seq<char>|
            entries(results) == entries(results.take(k)) + entry((k + 1) as nat, results[k])
                + #[trigger] rest.take(rest.len() as int),
    decreases results.len(),
{
    let front = results.drop_last();
    if k == results.len() - 1 {
        let rest = Seq::<char>::empty();
        assert(results.take(k) =~= front);
        assert(entries(results) =~= entries(results.take(k)) + entry((k + 1) as nat, results[k])
            + rest.take(rest.len() as int));
    } else {
        every_result_is_shown(front, k);
        assert(front.take(k) =~= results.take(k));
        let before = choose|rest: Seq<char>|
            entries(front) == entries(front.take(k)) + entry((k + 1) as nat, front[k])
                + #[trigger] rest.take(rest.len() as int);
        let rest = before + entry(results.len(), results.last());
        assert(entries(results) =~= entries(results.take(k)) + entry((k + 1) as nat, results[k])
            + rest.take(rest.len() as int));
    }
}

/// What is shown of a reply that has results is its answer, where it gives one, and then all of
/// them; nothing but white space is cut off at the end.
pub proof fn a_reply_is_shown_whole(response: TavilyResponse)
    requires
        response.results@.len() > 0,
    ensures
        ({
            let said = match response.answer {
                Some(text) => trimmed(text@),
                None => seq![],
            };
            let whole = if said.len() > 0 {
                "Answer: "@ + said + "\n\n"@ + entries(response.results@)
            } else {
                entries(response.results@)
            };
            &&& rendered(response).is_prefix_of(whole)
            &&& blank(whole.skip(rendered(response).len() as int))
        }),
{
    match response.answer {
        Some(text) => lemma_blank_iff_trimmed_empty(text@),
        None => {},
    }
    let opening = match given_answer(opt_view(response.answer)) {
        Some(text) => "Answer: "@ + text + "\n\n"@,
        None => seq![],
    };
    let whole = opening + entries(response.results@);
    cutting_takes_only_white_space(whole);
    if opening.len() == 0 {
        assert(whole =~= entries(response.results@));
    }
}

/// A search asks for what the model wants to know, all of it and nothing added, the white space
/// around it aside, with the caller's key.
pub proof fn a_search_asks_the_whole_query(
    args: &WebSearchArgs,
    api_key: Option<String>,
    search_depth: String,
    request: Result<SearchRequest, SearchRefusal>,
)
    requires
        call_ensures(search, (args, api_key, search_depth), request),
    ensures
        request is Ok == (trimmed(args.query@).len() > 0 && api_key is Some),
        request matches Ok(sent) ==> Some(sent.api_key) == api_key && ({
            let fields = model_of(sent.body)->Object_0;
            &&& model_of(sent.body) is Object
            &&& fields.contains(("query"@, JsonModel::Text(trimmed(args.query@))))
            &&& fields.contains(("search_depth"@, JsonModel::Text(search_depth@)))
        }),
{
    lemma_blank_iff_trimmed_empty(args.query@);
    match request {
        Ok(sent) => {
            let fields = model_of(sent.body)->Object_0;
            assert(fields[0] == ("query"@, JsonModel::Text(trimmed(args.query@))));
            assert(fields[1] == ("search_depth"@, JsonModel::Text(search_depth@)));
        },
        Err(_) => {},
    }
}

/// What a model is told of a reply holds every result's title and address, and an error whole.
pub proof fn a_model_is_told_every_address(response: &TavilyResponse, k: int, text: String)
    requires
        call_ensures(render, (response,), text),
        0 <= k < response.results@.len(),
        trimmed(response.results@[k].url@).len() > 0,
    ensures
        occurs_in(text@, trimmed(response.results@[k].url@)),
{
    let results = response.results@;
    let url = trimmed(results[k].url@);
    let shown = entry((k + 1) as nat, results[k]);
    a_result_is_shown_whole((k + 1) as nat, results[k]);
    every_result_is_shown(results, k);
    a_reply_is_shown_whole(*response);
    let said = match response.answer {
        Some(text) => trimmed(text@),
        None => seq![],
    };
    let whole = if said.len() > 0 {
        "Answer: "@ + said + "\n\n"@ + entries(results)
    } else {
        entries(results)
    };
    let rest = choose|rest: Seq<char>|
        entries(results) == entries(results.take(k)) + shown + #[trigger] rest.take(
            rest.len() as int,
        );
    let opening = whole.len() - entries(results).len();
    let inside = choose|at: int| occurs_at(shown, url, at);
    assert(occurs_at(shown, url, inside));
    let at = opening + entries(results.take(k)).len() + inside;
    assert forall|i: int| 0 <= i < url.len() implies whole[at + i] == url[i] by {
        assert(shown.subrange(inside, inside + url.len())[i] == shown[inside + i]);
        assert(entries(results)[entries(results.take(k)).len() + inside + i] == shown[inside + i]);
    }
    trimming_takes_only_white_ends(results[k].url@);
    lemma_trimmed_is_solid(results[k].url@);
    let kept = text@;
    if at + url.len() > kept.len() {
        let last = at + url.len() - 1;
        let tail = whole.skip(kept.len() as int);
        assert(tail[last - kept.len()] == whole[last]);
        assert(whole[last] == url[url.len() - 1]);
    }
    assert(kept.subrange(at, at + url.len()) =~= url) by {
        assert forall|i: int| 0 <= i < url.len() implies kept[at + i] == url[i] by {
            assert(kept[at + i] == whole[at + i]);
        }
    }
    assert(occurs_at(kept, url, at));
}

/// What a model is told of a failure ends in the whole error, and of a reply without results in its
/// whole answer; it is never told nothing.
pub proof fn a_model_is_never_told_nothing(
    outcome: Result<&TavilyResponse, &str>,
    text: String,
)
    requires
        call_ensures(reply, (outcome,), text),
    ensures
        outcome matches Err(error) ==> text@.skip(text@.len() - error@.len()) == error@
            && text@.len() > error@.len(),
        outcome matches Ok(response) && response.results@.len() == 0 ==> text@.len() > 0 && (
        outcome->Ok_0.answer matches Some(said) && trimmed(said@).len() > 0 ==> text@.skip(
            text@.len() - trimmed(outcome->Ok_0.answer->0@).len(),
        ) == trimmed(outcome->Ok_0.answer->0@)),
{
    reveal_strlit("Error: ");
    reveal_strlit("Answer: ");
    reveal_strlit("No results found.");
    match outcome {
        Err(error) => {
            assert(text@.skip(text@.len() - error@.len()) =~= error@);
        },
        Ok(response) => {
            match response.answer {
                Some(said) => {
                    lemma_blank_iff_trimmed_empty(said@);
                    if response.results@.len() == 0 && trimmed(said@).len() > 0 {
                        assert(text@.skip(text@.len() - trimmed(said@).len()) =~= trimmed(said@));
                    }
                },
                None => {},
            }
        },
    }
}

} // verus!
