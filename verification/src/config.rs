//! What the environment configures, with its defaults.
//!
//! Each setting is a function of the value its variable has, if it is set. Reading the
//! environment is the caller's part.

use vstd::prelude::*;

use crate::text::{
    blank, chars_of, contains, decimal, decimals_read_back, digit, is_blank,
    lemma_blank_iff_trimmed_empty, lower_case_changes_only_capitals, lowercase, lowered, occurs_at,
    occurs_in, opt_str_view, opt_view, same_text, trim, trimmed,
};

verus! {

/// Model name.
pub const ENV_MODEL: &'static str = "LLM_MODEL";

/// Max concurrency.
pub const ENV_MAX_CONCURRENCY: &'static str = "LLM_MAX_CONCURRENCY";

/// Log level.
pub const ENV_LOG_LEVEL: &'static str = "RUST_LOG";

/// Force a structured-output mode.
pub const ENV_STRUCTURED_MODE: &'static str = "LLM_STRUCTURED_MODE";

/// Force whether the model is treated as supporting `tool_choice`.
pub const ENV_SUPPORTS_TOOL_CHOICE: &'static str = "LLM_SUPPORTS_TOOL_CHOICE";

/// Rounds of tool execution allowed before a final answer is forced.
pub const ENV_MAX_TOOL_ROUNDS: &'static str = "LLM_MAX_TOOL_ROUNDS";

/// Max attempts for a retryable request.
pub const ENV_MAX_RETRIES: &'static str = "LLM_MAX_RETRIES";

/// Path to the MCP server config file.
pub const ENV_MCP_CONFIG_PATH: &'static str = "MCP_CONFIG_PATH";

/// Address the HTTP agent server listens on.
pub const ENV_HTTP_ADDR: &'static str = "AGENT_HTTP_ADDR";

/// Path to the tenant config file.
pub const ENV_TENANTS_CONFIG_PATH: &'static str = "AGENT_TENANTS_PATH";

/// Idle timeout of sessions, in seconds.
pub const ENV_SESSION_TTL_SECS: &'static str = "AGENT_SESSION_TTL_SECS";

/// How long a response is cached against its key, in seconds.
pub const ENV_IDEMPOTENCY_TTL_SECS: &'static str = "AGENT_IDEMPOTENCY_TTL_SECS";

/// Soft token budget for conversation history.
pub const ENV_MAX_HISTORY_TOKENS: &'static str = "LLM_MAX_HISTORY_TOKENS";

/// Tavily API key.
pub const ENV_TAVILY_API_KEY: &'static str = "TAVILY_API_KEY";

/// Hugging Face read token.
pub const ENV_HF_TOKEN: &'static str = "HF_TOKEN";

/// Tavily search depth.
pub const ENV_TAVILY_SEARCH_DEPTH: &'static str = "TAVILY_SEARCH_DEPTH";

/// Embedding model.
pub const ENV_EMBED_MODEL: &'static str = "EMBED_MODEL";

/// Base URL of the embeddings API.
pub const ENV_EMBED_BASE_URL: &'static str = "EMBED_BASE_URL";

/// API key of the embeddings API.
pub const ENV_EMBED_API_KEY: &'static str = "EMBED_API_KEY";

/// How long an approval is waited for, in seconds.
pub const ENV_APPROVAL_TIMEOUT_SECS: &'static str = "AGENT_APPROVAL_TIMEOUT_SECS";

pub const DEFAULT_MODEL: &'static str = "deepseek-v4-flash";

pub const DEFAULT_MAX_CONCURRENCY: usize = 3;

pub const DEFAULT_MAX_TOOL_ROUNDS: usize = 10;

pub const DEFAULT_MAX_RETRIES: usize = 3;

pub const DEFAULT_MCP_CONFIG_PATH: &'static str = "mcp.json";

pub const DEFAULT_HTTP_ADDR: &'static str = "0.0.0.0:8080";

pub const DEFAULT_TENANTS_CONFIG_PATH: &'static str = "tenants.json";

pub const DEFAULT_SESSION_TTL_SECS: u64 = 1800;

pub const DEFAULT_IDEMPOTENCY_TTL_SECS: u64 = 86_400;

pub const DEFAULT_MAX_HISTORY_TOKENS: usize = 6_000;

pub const DEFAULT_TAVILY_SEARCH_DEPTH: &'static str = "basic";

pub const DEFAULT_APPROVAL_TIMEOUT_SECS: u64 = 300;

/// Lower-case keyword in the names of models that reject any `tool_choice`, or that know no
/// `json_schema` response format.
pub const REASONING_KEYWORD: &'static str = "deepseek";

/// A variable's value without the white space around it; a blank one counts as not set.
pub open spec fn set_value(value: Option<Seq<char>>) -> Option<Seq<char>> {
    match value {
        Some(text) if !blank(text) => Some(trimmed(text)),
        _ => None,
    }
}

/// A variable's value, or `fallback` where it is not set.
pub open spec fn value_or(value: Option<Seq<char>>, fallback: Seq<char>) -> Seq<char> {
    match set_value(value) {
        Some(text) => text,
        None => fallback,
    }
}

/// The number that a run of decimal digits writes; nothing where a character is no digit.
pub open spec fn digits_value(s: Seq<char>) -> Option<nat>
    decreases s.len(),
{
    if s.len() == 0 {
        Some(0)
    } else {
        match digits_value(s.drop_last()) {
            Some(front) if '0' <= s.last() <= '9' => Some(
                (front * 10 + (s.last() as u32 - '0' as u32)) as nat,
            ),
            _ => None,
        }
    }
}

/// The number that a text writes in decimal: one or more digits, a plus sign in front of them
/// allowed.
pub open spec fn number_in(s: Seq<char>) -> Option<nat> {
    if s.len() > 0 && s[0] == '+' {
        if s.len() > 1 {
            digits_value(s.drop_first())
        } else {
            None
        }
    } else if s.len() > 0 {
        digits_value(s)
    } else {
        None
    }
}

/// A variable's value as a number up to `max`, or `fallback` where it is not set or is none.
pub open spec fn number_or(value: Option<Seq<char>>, max: int, fallback: int) -> int {
    match set_value(value) {
        Some(text) => match number_in(text) {
            Some(n) if n <= max => n as int,
            _ => fallback,
        },
        None => fallback,
    }
}

/// As [`number_or`], where zero counts as not set too.
pub open spec fn positive_or(value: Option<Seq<char>>, max: int, fallback: int) -> int {
    if number_or(value, max, fallback) == 0 {
        fallback
    } else {
        number_or(value, max, fallback)
    }
}

proof fn lemma_digits_grow(s: Seq<char>, n: int)
    requires
        0 <= n <= s.len(),
        digits_value(s) is Some,
    ensures
        digits_value(s.take(n)) is Some,
        digits_value(s.take(n))->0 <= digits_value(s)->0,
    decreases s.len(),
{
    if n == s.len() {
        assert(s.take(n) =~= s);
    } else {
        lemma_digits_grow(s.drop_last(), n);
        assert(s.drop_last().take(n) =~= s.take(n));
    }
}

/// The number up to `max` that a text writes in decimal.
pub fn parse_number(text: &str, max: u64) -> (number: Option<u64>)
    ensures
        match number {
            Some(n) => n <= max && number_in(text@) == Some(n as nat),
            None => number_in(text@) matches Some(n) ==> n > max,
        },
{
    let chars = chars_of(text);
    let start: usize = if chars.len() > 0 && chars[0] == '+' {
        1
    } else {
        0
    };
    if start == chars.len() {
        return None;
    }
    let ghost digits = text@.skip(start as int);
    proof {
        assert(text@.drop_first() =~= text@.skip(1));
        assert(text@.skip(0) =~= text@);
        assert(number_in(text@) == digits_value(digits));
        assert(digits.take(0) =~= seq![]);
    }
    let mut total: u64 = 0;
    let mut i: usize = start;
    while i < chars.len()
        invariant
            chars@ == text@,
            start <= i <= chars@.len(),
            digits == text@.skip(start as int),
            number_in(text@) == digits_value(digits),
            digits_value(digits.take(i - start)) == Some(total as nat),
            total <= max,
        decreases chars@.len() - i,
    {
        let c = chars[i];
        proof {
            let next = digits.take(i + 1 - start);
            assert(next.drop_last() =~= digits.take(i - start));
            assert(next.last() == c);
            if digits_value(digits) is Some {
                lemma_digits_grow(digits, i + 1 - start);
            }
        }
        if c < '0' || c > '9' {
            return None;
        }
        let digit: u64 = (c as u32 - 48) as u64;
        match total.checked_mul(10) {
            None => return None,
            Some(shifted) => match shifted.checked_add(digit) {
                None => return None,
                Some(sum) => {
                    if sum > max {
                        return None;
                    }
                    total = sum;
                },
            },
        }
        i += 1;
    }
    assert(digits.take(i - start) =~= digits);
    Some(total)
}

/// A variable's value without the white space around it; a blank one counts as not set.
pub fn non_empty_var(value: Option<&str>) -> (set: Option<String>)
    ensures
        opt_view(set) == set_value(opt_str_view(value)),
{
    match value {
        Some(text) => {
            if is_blank(text) {
                None
            } else {
                Some(trim(text).to_owned())
            }
        },
        None => None,
    }
}

fn var_or(value: Option<&str>, fallback: &str) -> (text: String)
    ensures
        text@ == value_or(opt_str_view(value), fallback@),
{
    match non_empty_var(value) {
        Some(text) => text,
        None => fallback.to_owned(),
    }
}

/// A variable's value as a number, or `default` where it is not set, blank or no number.
pub fn parsed_var(value: Option<&str>, default: usize) -> (number: usize)
    ensures
        number == number_or(opt_str_view(value), usize::MAX as int, default as int),
{
    match non_empty_var(value) {
        Some(text) => match parse_number(text.as_str(), usize::MAX as u64) {
            Some(n) => n as usize,
            None => default,
        },
        None => default,
    }
}

/// As [`parsed_var`], falling back to `default` on zero too.
pub fn parsed_var_nonzero(value: Option<&str>, default: usize) -> (number: usize)
    ensures
        number == positive_or(opt_str_view(value), usize::MAX as int, default as int),
{
    let number: usize = parsed_var(value, default);
    if number == 0 {
        default
    } else {
        number
    }
}

/// A variable's value as a number of seconds, or `default` where it is not set, no number or
/// zero.
fn seconds_or(value: Option<&str>, default: u64) -> (seconds: u64)
    ensures
        seconds == positive_or(opt_str_view(value), u64::MAX as int, default as int),
{
    match non_empty_var(value) {
        Some(text) => match parse_number(text.as_str(), u64::MAX) {
            Some(n) => if n == 0 {
                default
            } else {
                n
            },
            None => default,
        },
        None => default,
    }
}

/// What a yes-or-no value means; any other value means nothing.
pub open spec fn truth_of(value: Option<Seq<char>>) -> Option<bool> {
    match set_value(value) {
        Some(text) => {
            let word = lowered(text);
            if word == "1"@ || word == "true"@ || word == "yes"@ || word == "on"@ {
                Some(true)
            } else if word == "0"@ || word == "false"@ || word == "no"@ || word == "off"@ {
                Some(false)
            } else {
                None
            }
        },
        None => None,
    }
}

/// What a yes-or-no value means; any other value means nothing.
pub fn parse_bool_var(value: Option<&str>) -> (truth: Option<bool>)
    ensures
        truth == truth_of(opt_str_view(value)),
{
    match non_empty_var(value) {
        Some(text) => {
            let word = lowercase(text.as_str());
            let word = word.as_str();
            if same_text(word, "1") || same_text(word, "true") || same_text(word, "yes")
                || same_text(word, "on") {
                Some(true)
            } else if same_text(word, "0") || same_text(word, "false") || same_text(word, "no")
                || same_text(word, "off") {
                Some(false)
            } else {
                None
            }
        },
        None => None,
    }
}

/// Whether a model's name marks it as a reasoning model, in any case and anywhere in the name.
pub open spec fn is_reasoning_model(model: Seq<char>) -> bool {
    occurs_in(lowered(model), REASONING_KEYWORD@)
}

/// Whether a model's name marks it as a reasoning model.
pub fn names_reasoning_model(model: &str) -> (is: bool)
    ensures
        is == is_reasoning_model(model@),
{
    let low = lowercase(model);
    contains(low.as_str(), REASONING_KEYWORD)
}

/// Model name.
pub fn model(value: Option<&str>) -> (name: String)
    ensures
        name@ == value_or(opt_str_view(value), DEFAULT_MODEL@),
{
    var_or(value, DEFAULT_MODEL)
}

/// Max concurrency.
pub fn max_concurrency(value: Option<&str>) -> (n: usize)
    ensures
        n == positive_or(
            opt_str_view(value),
            usize::MAX as int,
            DEFAULT_MAX_CONCURRENCY as int,
        ),
        n > 0,
{
    parsed_var_nonzero(value, DEFAULT_MAX_CONCURRENCY)
}

/// Forced structured-output mode, as it is written; inferred from the model name where it is
/// not set.
pub fn structured_mode_override(value: Option<&str>) -> (mode: Option<String>)
    ensures
        opt_view(mode) == set_value(opt_str_view(value)),
{
    non_empty_var(value)
}

/// Whether the model accepts a `tool_choice` constraint: as the value has it, else as the
/// model's name does.
pub fn model_supports_tool_choice(value: Option<&str>, model: &str) -> (supports: bool)
    ensures
        supports == match truth_of(opt_str_view(value)) {
            Some(forced) => forced,
            None => !is_reasoning_model(model@),
        },
{
    match parse_bool_var(value) {
        Some(forced) => forced,
        None => infer_tool_choice_support(model),
    }
}

/// Whether the model accepts a `tool_choice` constraint, by its name alone.
pub fn infer_tool_choice_support(model: &str) -> (supports: bool)
    ensures
        supports == !is_reasoning_model(model@),
{
    !names_reasoning_model(model)
}

/// Rounds of tool execution allowed before the model must answer from what it has; zero
/// disables tools.
pub fn max_tool_rounds(value: Option<&str>) -> (n: usize)
    ensures
        n == number_or(opt_str_view(value), usize::MAX as int, DEFAULT_MAX_TOOL_ROUNDS as int),
{
    parsed_var(value, DEFAULT_MAX_TOOL_ROUNDS)
}

/// Max attempts for a retryable request; zero disables retrying.
pub fn max_retries(value: Option<&str>) -> (n: usize)
    ensures
        n == number_or(opt_str_view(value), usize::MAX as int, DEFAULT_MAX_RETRIES as int),
{
    parsed_var(value, DEFAULT_MAX_RETRIES)
}

/// Path to the file that declares MCP servers.
pub fn mcp_config_path(value: Option<&str>) -> (path: String)
    ensures
        path@ == value_or(opt_str_view(value), DEFAULT_MCP_CONFIG_PATH@),
{
    var_or(value, DEFAULT_MCP_CONFIG_PATH)
}

/// Address the HTTP agent server binds to.
pub fn http_addr(value: Option<&str>) -> (addr: String)
    ensures
        addr@ == value_or(opt_str_view(value), DEFAULT_HTTP_ADDR@),
{
    var_or(value, DEFAULT_HTTP_ADDR)
}

/// Path to the tenant config file.
pub fn tenants_config_path(value: Option<&str>) -> (path: String)
    ensures
        path@ == value_or(opt_str_view(value), DEFAULT_TENANTS_CONFIG_PATH@),
{
    var_or(value, DEFAULT_TENANTS_CONFIG_PATH)
}

/// Idle timeout of sessions, in seconds.
pub fn session_ttl(value: Option<&str>) -> (seconds: u64)
    ensures
        seconds == positive_or(
            opt_str_view(value),
            u64::MAX as int,
            DEFAULT_SESSION_TTL_SECS as int,
        ),
        seconds > 0,
{
    seconds_or(value, DEFAULT_SESSION_TTL_SECS)
}

/// How long a response is cached against its key, in seconds.
pub fn idempotency_ttl(value: Option<&str>) -> (seconds: u64)
    ensures
        seconds == positive_or(
            opt_str_view(value),
            u64::MAX as int,
            DEFAULT_IDEMPOTENCY_TTL_SECS as int,
        ),
        seconds > 0,
{
    seconds_or(value, DEFAULT_IDEMPOTENCY_TTL_SECS)
}

/// How long an approval is waited for, in seconds.
pub fn approval_timeout(value: Option<&str>) -> (seconds: u64)
    ensures
        seconds == positive_or(
            opt_str_view(value),
            u64::MAX as int,
            DEFAULT_APPROVAL_TIMEOUT_SECS as int,
        ),
        seconds > 0,
{
    seconds_or(value, DEFAULT_APPROVAL_TIMEOUT_SECS)
}

/// Soft token budget for conversation history.
pub fn max_history_tokens(value: Option<&str>) -> (n: usize)
    ensures
        n == positive_or(
            opt_str_view(value),
            usize::MAX as int,
            DEFAULT_MAX_HISTORY_TOKENS as int,
        ),
        n > 0,
{
    parsed_var_nonzero(value, DEFAULT_MAX_HISTORY_TOKENS)
}

/// Tavily API key.
pub fn tavily_api_key(value: Option<&str>) -> (key: Option<String>)
    ensures
        opt_view(key) == set_value(opt_str_view(value)),
{
    non_empty_var(value)
}

/// Hugging Face read token.
pub fn hf_token(value: Option<&str>) -> (token: Option<String>)
    ensures
        opt_view(token) == set_value(opt_str_view(value)),
{
    non_empty_var(value)
}

/// Tavily search depth.
pub fn tavily_search_depth(value: Option<&str>) -> (depth: String)
    ensures
        depth@ == value_or(opt_str_view(value), DEFAULT_TAVILY_SEARCH_DEPTH@),
{
    var_or(value, DEFAULT_TAVILY_SEARCH_DEPTH)
}

/// Embedding model.
pub fn embed_model(value: Option<&str>) -> (name: Option<String>)
    ensures
        opt_view(name) == set_value(opt_str_view(value)),
{
    non_empty_var(value)
}

/// Base URL of the embeddings API; the chat API's where it is not set.
pub fn embed_base_url(value: Option<&str>) -> (url: Option<String>)
    ensures
        opt_view(url) == set_value(opt_str_view(value)),
{
    non_empty_var(value)
}

/// API key of the embeddings API; the chat API's where it is not set.
pub fn embed_api_key(value: Option<&str>) -> (key: Option<String>)
    ensures
        opt_view(key) == set_value(opt_str_view(value)),
{
    non_empty_var(value)
}

/// How much is logged.
#[derive(Debug, Clone, Copy, PartialEq, Eq, Structural)]
pub enum LogLevel {
    Error,
    Warn,
    Info,
    Debug,
    Trace,
}

/// The log level that a text names, by its name in any case or by its number.
pub open spec fn level_of(text: Seq<char>) -> Option<LogLevel> {
    let word = lowered(text);
    if number_in(text) == Some(1nat) || word == "error"@ {
        Some(LogLevel::Error)
    } else if number_in(text) == Some(2nat) || word == "warn"@ {
        Some(LogLevel::Warn)
    } else if number_in(text) == Some(3nat) || word == "info"@ {
        Some(LogLevel::Info)
    } else if number_in(text) == Some(4nat) || word == "debug"@ {
        Some(LogLevel::Debug)
    } else if number_in(text) == Some(5nat) || word == "trace"@ {
        Some(LogLevel::Trace)
    } else {
        None
    }
}

/// `tracing::Level`'s `FromStr`: the level whose name the text is, in any case, or whose number
/// from one to five it writes.
#[verifier::external_body]
fn parse_level(text: &str) -> (level: Option<LogLevel>)
    ensures
        level == level_of(text@),
{
    match text.parse::<tracing::Level>() {
        Ok(tracing::Level::ERROR) => Some(LogLevel::Error),
        Ok(tracing::Level::WARN) => Some(LogLevel::Warn),
        Ok(tracing::Level::INFO) => Some(LogLevel::Info),
        Ok(tracing::Level::DEBUG) => Some(LogLevel::Debug),
        Ok(tracing::Level::TRACE) => Some(LogLevel::Trace),
        Err(_) => None,
    }
}

/// Log level; `INFO` where it is not set or names none.
pub fn log_level(value: Option<&str>) -> (level: LogLevel)
    ensures
        level == match set_value(opt_str_view(value)) {
            Some(text) => match level_of(text) {
                Some(named) => named,
                None => LogLevel::Info,
            },
            None => LogLevel::Info,
        },
{
    match non_empty_var(value) {
        Some(text) => match parse_level(text.as_str()) {
            Some(named) => named,
            None => LogLevel::Info,
        },
        None => LogLevel::Info,
    }
}

/// A value is taken as it is written, the white space around it aside; one that is nothing else
/// counts as not set, and then the fallback holds.
pub proof fn a_value_is_taken_as_written(text: Seq<char>, fallback: Seq<char>)
    ensures
        value_or(Some(text), fallback) == if trimmed(text).len() > 0 {
            trimmed(text)
        } else {
            fallback
        },
        value_or(None, fallback) == fallback,
        set_value(Some(text)) is Some == (trimmed(text).len() > 0),
        set_value(Some(text)) is Some ==> set_value(Some(text)) == Some(trimmed(text)),
{
    lemma_blank_iff_trimmed_empty(text);
}

proof fn lemma_digits_read(n: nat)
    ensures
        digits_value(decimal(n)) == Some(n),
    decreases n,
{
    decimals_read_back(n);
    let written = decimal(n);
    if n < 10 {
        reveal_with_fuel(digits_value, 2);
        assert(written.drop_last() =~= seq![]);
        assert(written.last() == digit(n));
    } else {
        lemma_digits_read(n / 10);
        assert(written.drop_last() =~= decimal(n / 10));
        assert(written.last() == digit(n % 10));
    }
}

proof fn lemma_no_digit(s: Seq<char>, at: int)
    requires
        0 <= at < s.len(),
        !('0' <= s[at] <= '9'),
    ensures
        digits_value(s) is None,
    decreases s.len(),
{
    if at < s.len() - 1 {
        lemma_no_digit(s.drop_last(), at);
    }
}

/// A number reads as it is written, with or without a plus sign; a text with any other character in
/// it is no number.
pub proof fn a_number_reads_as_written(n: nat, s: Seq<char>, at: int)
    ensures
        number_in(decimal(n)) == Some(n),
        number_in(seq!['+'] + decimal(n)) == Some(n),
        1 <= at < s.len() && !('0' <= s[at] <= '9') ==> number_in(s) is None,
        s.len() > 0 && s[0] != '+' && !('0' <= s[0] <= '9') ==> number_in(s) is None,
        s.len() == 0 ==> number_in(s) is None,
{
    lemma_digits_read(n);
    decimals_read_back(n);
    assert('0' <= decimal(n)[0] <= '9');
    assert((seq!['+'] + decimal(n)).drop_first() =~= decimal(n));
    if 1 <= at < s.len() && !('0' <= s[at] <= '9') {
        lemma_no_digit(s, at);
        assert(s.drop_first()[at - 1] == s[at]);
        lemma_no_digit(s.drop_first(), at - 1);
    }
    if s.len() > 0 && s[0] != '+' && !('0' <= s[0] <= '9') {
        lemma_no_digit(s, 0);
    }
}

/// A setting is the number that was written, where it is one that can be held; otherwise the
/// fallback holds, and so it does for a zero where that makes no sense.
pub proof fn a_written_number_is_the_setting(
    text: Seq<char>,
    n: nat,
    max: int,
    fallback: int,
)
    requires
        trimmed(text) == decimal(n),
        0 <= max,
    ensures
        number_or(Some(text), max, fallback) == if n <= max {
            n as int
        } else {
            fallback
        },
        positive_or(Some(text), max, fallback) == if 0 < n <= max {
            n as int
        } else {
            fallback
        },
        number_or(None, max, fallback) == fallback,
        positive_or(None, max, fallback) == fallback,
{
    decimals_read_back(n);
    a_number_reads_as_written(n, seq![], 0);
    lemma_blank_iff_trimmed_empty(text);
}

/// A yes-or-no setting is what its word says, in any case; any other word says nothing.
pub proof fn a_truth_is_what_its_word_says(value: Option<Seq<char>>)
    ensures
        match truth_of(value) {
            Some(true) => value matches Some(text) && seq!["1"@, "true"@, "yes"@, "on"@].contains(
                lowered(trimmed(text)),
            ),
            Some(false) => value matches Some(text) && seq!["0"@, "false"@, "no"@, "off"@].contains(
                lowered(trimmed(text)),
            ),
            None => value matches Some(text) ==> !seq![
                "1"@,
                "true"@,
                "yes"@,
                "on"@,
                "0"@,
                "false"@,
                "no"@,
                "off"@,
            ].contains(lowered(trimmed(text))),
        },
{
    let yes = seq!["1"@, "true"@, "yes"@, "on"@];
    let no = seq!["0"@, "false"@, "no"@, "off"@];
    let all = seq!["1"@, "true"@, "yes"@, "on"@, "0"@, "false"@, "no"@, "off"@];
    assert(yes[0] == "1"@ && yes[1] == "true"@ && yes[2] == "yes"@ && yes[3] == "on"@);
    assert(no[0] == "0"@ && no[1] == "false"@ && no[2] == "no"@ && no[3] == "off"@);
    match value {
        Some(text) => {
            lemma_blank_iff_trimmed_empty(text);
            if blank(text) && all.contains(lowered(trimmed(text))) {
                reveal_strlit("1");
                reveal_strlit("true");
                reveal_strlit("yes");
                reveal_strlit("on");
                reveal_strlit("0");
                reveal_strlit("false");
                reveal_strlit("no");
                reveal_strlit("off");
                assert(lowered(trimmed(text)).len() == 0);
                let i = choose|i: int| 0 <= i < all.len() && all[i] == lowered(trimmed(text));
                assert(all[i].len() > 0);
            }
        },
        None => {},
    }
}

/// A model is known by its name, in any case and wherever the keyword stands in it.
pub proof fn a_model_is_known_by_its_name(
    before: Seq<char>,
    keyword: Seq<char>,
    after: Seq<char>,
)
    requires
        lowered(keyword) == "deepseek"@,
    ensures
        is_reasoning_model(before + keyword + after),
{
    let name = before + keyword + after;
    let low = lowered(name);
    let at = before.len() as int;
    lower_case_changes_only_capitals(keyword);
    assert(low.subrange(at, at + "deepseek"@.len()) =~= lowered(keyword));
    assert(occurs_at(low, "deepseek"@, at));
}

/// A setting is read as the number that its value writes, and as its default where that is none.
pub proof fn a_setting_is_read_as_written(
    value: &str,
    default: usize,
    number: usize,
    positive: usize,
    n: nat,
)
    requires
        call_ensures(parsed_var, (Some(value), default), number),
        call_ensures(parsed_var_nonzero, (Some(value), default), positive),
        trimmed(value@) == decimal(n),
    ensures
        number == if n <= usize::MAX {
            n as int
        } else {
            default as int
        },
        positive == if 0 < n <= usize::MAX {
            n as int
        } else {
            default as int
        },
{
    a_written_number_is_the_setting(value@, n, usize::MAX as int, default as int);
}

} // verus!
