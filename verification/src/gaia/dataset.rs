//! Fetching the benchmark from the HF datasets-server: what to ask for, and what to make of the
//! answer.

use vstd::prelude::*;

use crate::gaia::models::{GaiaRow, HfResponse, HfRow};
use crate::text::{cut, decimal, decimal_text, decimals_read_back, number_written};
use crate::util::truncate_chars;

verus! {

/// Where rows are queried.
pub const HF_ROWS_ENDPOINT: &'static str = "https://datasets-server.huggingface.co/rows";

/// The dataset; a gated one.
pub const GAIA_DATASET: &'static str = "gaia-benchmark/GAIA";

/// Most rows of one request.
pub const MAX_ROWS_PER_REQUEST: usize = 100;

/// Characters of a response kept in an error.
pub const BODY_PREVIEW_CHARS: usize = 512;

/// Why rows are not asked for.
#[derive(Debug, Clone, Copy, PartialEq, Eq, Structural)]
pub enum InvalidQuery {
    Length(usize),
    MissingToken,
}

impl InvalidQuery {
    /// What is said of it.
    pub fn message(&self) -> (text: String)
        ensures
            text@ == match *self {
                InvalidQuery::Length(n) => "length must be in 1..=100, got "@ + decimal(n as nat),
                InvalidQuery::MissingToken =>
                    "HF_TOKEN is not set; create a read token at https://huggingface.co/settings/tokens"@,
            },
    {
        match self {
            InvalidQuery::Length(n) => {
                let mut text = "length must be in 1..=100, got ".to_owned();
                text.append(decimal_text(*n as u64).as_str());
                text
            },
            InvalidQuery::MissingToken =>
                "HF_TOKEN is not set; create a read token at https://huggingface.co/settings/tokens".to_owned(),
        }
    }
}

/// A request for rows: its query parameters and the token to send with it.
#[derive(Debug, PartialEq, Eq)]
pub struct RowsQuery {
    pub config: String,
    pub split: String,
    pub offset: String,
    pub length: String,
    pub token: String,
}

/// The request for `length` rows from `offset` on. A length outside the accepted range is
/// refused before a missing token is.
pub fn rows_query(
    config: &str,
    split: &str,
    offset: usize,
    length: usize,
    token: Option<String>,
) -> (query: Result<RowsQuery, InvalidQuery>)
    ensures
        match query {
            Ok(q) => {
                &&& 1 <= length <= MAX_ROWS_PER_REQUEST
                &&& token == Some(q.token)
                &&& q.config@ == config@
                &&& q.split@ == split@
                &&& q.offset@ == decimal(offset as nat)
                &&& q.length@ == decimal(length as nat)
            },
            Err(InvalidQuery::Length(n)) => n == length && !(1 <= length <= MAX_ROWS_PER_REQUEST),
            Err(InvalidQuery::MissingToken) => 1 <= length <= MAX_ROWS_PER_REQUEST && token is None,
        },
{
    if length < 1 || length > MAX_ROWS_PER_REQUEST {
        return Err(InvalidQuery::Length(length));
    }
    match token {
        None => Err(InvalidQuery::MissingToken),
        Some(token) => Ok(
            RowsQuery {
                config: config.to_owned(),
                split: split.to_owned(),
                offset: decimal_text(offset as u64),
                length: decimal_text(length as u64),
                token,
            },
        ),
    }
}

/// What a response with `status` says of itself: nothing where it succeeded. A gated dataset
/// answers 404 to an account that may not read it.
pub open spec fn refusal_text(
    config: Seq<char>,
    split: Seq<char>,
    status: u16,
    status_text: Seq<char>,
    body: Seq<char>,
) -> Option<Seq<char>> {
    let shown = cut(body, BODY_PREVIEW_CHARS as nat);
    if 200 <= status < 300 {
        None
    } else if status == 404 {
        Some(
            "HF datasets-server returned 404 for `gaia-benchmark/GAIA`. It is a gated dataset: open https://huggingface.co/datasets/gaia-benchmark/GAIA and accept the access conditions with the same account that owns HF_TOKEN (unauthorized gated repos are reported as 404, not 403). Also verify config=`"@
                + config + "` / split=`"@ + split + "` exist. Response: "@ + shown,
        )
    } else {
        Some("HF datasets-server request failed with "@ + status_text + ". Response: "@ + shown)
    }
}

/// Why a response carries no rows; nothing where it succeeded.
pub fn rows_refusal(config: &str, split: &str, status: u16, status_text: &str, body: &str) -> (why:
    Option<String>)
    ensures
        match why {
            Some(text) => refusal_text(config@, split@, status, status_text@, body@) == Some(text@),
            None => refusal_text(config@, split@, status, status_text@, body@) is None,
        },
{
    if 200 <= status && status < 300 {
        return None;
    }
    let shown = truncate_chars(body, BODY_PREVIEW_CHARS);
    if status == 404 {
        let mut text =
            "HF datasets-server returned 404 for `gaia-benchmark/GAIA`. It is a gated dataset: open https://huggingface.co/datasets/gaia-benchmark/GAIA and accept the access conditions with the same account that owns HF_TOKEN (unauthorized gated repos are reported as 404, not 403). Also verify config=`".to_owned();
        text.append(config);
        text.append("` / split=`");
        text.append(split);
        text.append("` exist. Response: ");
        text.append(shown);
        return Some(text);
    }
    let mut text = "HF datasets-server request failed with ".to_owned();
    text.append(status_text);
    text.append(". Response: ");
    text.append(shown);
    Some(text)
}

/// What is said of a response that does not parse.
pub fn unparsable_rows(error: &str, body: &str) -> (text: String)
    ensures
        text@ == "Failed to parse HF rows response: "@ + error@ + "; body: "@ + cut(
            body@,
            BODY_PREVIEW_CHARS as nat,
        ),
{
    let mut text = "Failed to parse HF rows response: ".to_owned();
    text.append(error);
    text.append("; body: ");
    text.append(truncate_chars(body, BODY_PREVIEW_CHARS));
    text
}

/// The problems of a page, in order.
pub fn problems(page: HfResponse) -> (rows: Vec<GaiaRow>)
    ensures
        rows@ == page.rows@.map_values(|r: HfRow| r.row),
{
    let ghost all = page.rows@;
    let mut left = page.rows;
    let mut rows: Vec<GaiaRow> = Vec::new();
    let ghost mut done: int = 0;
    assert(all.skip(0) =~= all);
    while left.len() > 0
        invariant
            0 <= done <= all.len(),
            left@ == all.skip(done),
            rows@ =~= all.take(done).map_values(|r: HfRow| r.row),
        decreases left@.len(),
    {
        let row = left.remove(0);
        rows.push(row.row);
        proof {
            assert(left@ =~= all.skip(done + 1));
            done = done + 1;
        }
    }
    assert(all.take(done) =~= all);
    rows
}

/// A response is refused exactly where its status is none of success, and what is said of it ends
/// in the opening of its body, as much as 512 characters.
pub proof fn a_refusal_shows_the_response(
    config: Seq<char>,
    split: Seq<char>,
    status: u16,
    status_text: Seq<char>,
    body: Seq<char>,
)
    ensures
        refusal_text(config, split, status, status_text, body) is None == (200 <= status <= 299),
        refusal_text(config, split, status, status_text, body) matches Some(said) ==> ({
            let shown = if body.len() <= 512 {
                body
            } else {
                body.take(512)
            };
            said.len() >= shown.len() && said.skip(said.len() - shown.len()) == shown
        }),
{
    match refusal_text(config, split, status, status_text, body) {
        Some(said) => {
            let shown = cut(body, 512);
            assert(said.skip(said.len() - shown.len()) =~= shown);
        },
        None => {},
    }
}

/// Rows are asked for as many and from where the caller says, by the caller's token, as long as the
/// number is one the server takes: what is sent reads back as what was asked.
pub proof fn rows_are_asked_for_as_wanted(
    config: &str,
    split: &str,
    offset: usize,
    length: usize,
    token: Option<String>,
    query: Result<RowsQuery, InvalidQuery>,
)
    requires
        call_ensures(rows_query, (config, split, offset, length, token), query),
    ensures
        query is Ok == (1 <= length <= 100 && token is Some),
        query matches Ok(sent) ==> number_written(sent.offset@) == offset && number_written(
            sent.length@,
        ) == length && Some(sent.token) == token && sent.config@ == config@ && sent.split@
            == split@,
{
    decimals_read_back(offset as nat);
    decimals_read_back(length as nat);
}

/// A page gives all its problems, in order.
pub proof fn a_page_gives_all_its_problems(page: HfResponse, rows: Vec<GaiaRow>)
    requires
        call_ensures(problems, (page,), rows),
    ensures
        rows@.len() == page.rows@.len(),
        forall|i: int| 0 <= i < rows@.len() ==> #[trigger] rows@[i] == page.rows@[i].row,
{
}

} // verus!
