//! Token accounting shared by every stage of the context optimizer.
//!
//! One tokenizer, `cl100k_base`, whatever model is configured: the budget is a soft one. The
//! count covers the instructions and a framing constant per message, so it errs high rather
//! than low.

use vstd::prelude::*;

use vstd::utf8::encode_utf8;

use crate::agent::{ContentItem, LlmRequest};
use crate::json::{json_text, Json};
use crate::text::{chars_of, is_white, is_whitespace};

verus! {

/// Rough framing cost of one message (role, delimiters) in the chat wire format.
pub const PER_MESSAGE_OVERHEAD: usize = 4;

/// How many `cl100k_base` tokens a text is encoded in.
pub uninterp spec fn token_count(text: Seq<char>) -> nat;

/// How many bytes a text takes in UTF-8.
pub open spec fn byte_len(text: Seq<char>) -> nat {
    encode_utf8(text).len()
}

/// A character takes at most four bytes.
pub proof fn lemma_byte_len_bound(text: Seq<char>)
    ensures
        byte_len(text) <= 4 * text.len(),
    decreases text.len(),
{
    if text.len() > 0 {
        lemma_byte_len_bound(text.drop_first());
    }
}

/// The longest run of white space within a line that the tokenizer can take.
pub const MAX_BLANK_RUN: usize = 999_998;

/// Whether a character is white space that ends no line.
pub open spec fn is_inline_white(c: char) -> bool {
    is_white(c) && c != '\n' && c != '\r'
}

/// How much white space within the line stands right before position `at`.
pub open spec fn blank_run(s: Seq<char>, at: int) -> nat
    decreases at,
{
    if at <= 0 || !is_inline_white(s[at - 1]) {
        0
    } else {
        1 + blank_run(s, at - 1)
    }
}

/// Whether the tokenizer can encode a text: no character that is not white space stands behind
/// too long a run of white space within its line.
pub open spec fn encodable(s: Seq<char>) -> bool {
    forall|at: int|
        0 <= at < s.len() && !is_white(#[trigger] s[at]) ==> blank_run(s, at) <= MAX_BLANK_RUN
}

proof fn lemma_blank_run_bound(s: Seq<char>, at: int)
    requires
        0 <= at,
    ensures
        blank_run(s, at) <= at,
    decreases at,
{
    if at > 0 {
        lemma_blank_run_bound(s, at - 1);
    }
}

/// A text no longer than the longest run can be encoded, whatever it holds.
pub proof fn short_texts_are_encodable(s: Seq<char>)
    requires
        s.len() <= MAX_BLANK_RUN,
    ensures
        encodable(s),
{
    assert forall|at: int| 0 <= at < s.len() && !is_white(#[trigger] s[at]) implies blank_run(
        s,
        at,
    ) <= MAX_BLANK_RUN by {
        lemma_blank_run_bound(s, at);
    }
}

/// Whether the tokenizer can encode a text.
pub fn can_encode(text: &str) -> (can: bool)
    ensures
        can == encodable(text@),
{
    let chars = chars_of(text);
    let mut run: usize = 0;
    let mut i: usize = 0;
    while i < chars.len()
        invariant
            i <= chars@.len(),
            chars@ == text@,
            run == blank_run(text@, i as int),
            run <= i,
            forall|at: int|
                0 <= at < i && !is_white(#[trigger] text@[at]) ==> blank_run(text@, at)
                    <= MAX_BLANK_RUN,
        decreases chars@.len() - i,
    {
        let c = chars[i];
        assert(text@[i as int] == c);
        if is_whitespace(c) {
            if c == '\n' || c == '\r' {
                run = 0;
            } else {
                run = run + 1;
            }
        } else {
            if run > MAX_BLANK_RUN {
                return false;
            }
            run = 0;
        }
        i += 1;
    }
    true
}

/// `CoreBPE::encode_ordinary` of `tiktoken_rs`, on its shared `cl100k_base` tokenizer: how
/// many tokens the text is encoded in.
///
/// The count is a function of the text alone. The text is split into non-empty pieces and
/// each piece into tokens of at least one byte, so there are at most as many tokens as bytes.
/// Its pattern matcher notes each character of a run of white space within a line, and has room
/// for a million notes, two of which are taken: the call panics where a run is longer and
/// something other than white space stands behind it.
#[verifier::external_body]
fn count_tokens(text: &str) -> (n: usize)
    requires
        encodable(text@),
    ensures
        n == token_count(text@),
        n <= byte_len(text@),
{
    tiktoken_rs::cl100k_base_singleton().encode_ordinary(text).len()
}

/// Whether the tokenizer can encode one item's text.
pub open spec fn item_encodable(item: ContentItem) -> bool {
    match item {
        ContentItem::Message { content, .. } => encodable(content@),
        ContentItem::ToolCall { name, arguments, .. } => encodable(name@) && encodable(
            json_text(arguments),
        ),
        ContentItem::ToolResult { content, .. } => encodable(content@),
    }
}

/// Whether the tokenizer can encode every item of a conversation.
pub open spec fn all_encodable(items: Seq<ContentItem>) -> bool {
    forall|i: int| 0 <= i < items.len() ==> item_encodable(#[trigger] items[i])
}

/// Whether the tokenizer can encode every instruction.
pub open spec fn instructions_encodable(instructions: Seq<String>) -> bool {
    forall|i: int| 0 <= i < instructions.len() ==> encodable((#[trigger] instructions[i])@)
}

/// Whether the tokenizer can encode a whole request.
pub open spec fn request_encodable(request: LlmRequest) -> bool {
    instructions_encodable(request.instructions@) && all_encodable(request.contents@)
}

/// How many tokens one item's text is encoded in, framing aside.
pub open spec fn item_tokens(item: ContentItem) -> nat {
    match item {
        ContentItem::Message { content, .. } => token_count(content@),
        ContentItem::ToolCall { name, arguments, .. } => token_count(name@) + token_count(
            json_text(arguments),
        ),
        ContentItem::ToolResult { content, .. } => token_count(content@),
    }
}

/// How many bytes one item's text takes, framing aside.
pub open spec fn item_bytes(item: ContentItem) -> nat {
    match item {
        ContentItem::Message { content, .. } => byte_len(content@),
        ContentItem::ToolCall { name, arguments, .. } => byte_len(name@) + byte_len(
            json_text(arguments),
        ),
        ContentItem::ToolResult { content, .. } => byte_len(content@),
    }
}

/// What one item costs in the request, framing counted.
pub open spec fn cost_of(item: ContentItem) -> nat {
    PER_MESSAGE_OVERHEAD as nat + item_tokens(item)
}

/// What one item costs at most, by its bytes.
pub open spec fn bound_of(item: ContentItem) -> nat {
    PER_MESSAGE_OVERHEAD as nat + item_bytes(item)
}

/// What a conversation costs.
pub open spec fn contents_cost(items: Seq<ContentItem>) -> nat
    decreases items.len(),
{
    if items.len() == 0 {
        0
    } else {
        contents_cost(items.drop_last()) + cost_of(items.last())
    }
}

/// What a conversation costs at most, by its bytes.
pub open spec fn contents_bound(items: Seq<ContentItem>) -> nat
    decreases items.len(),
{
    if items.len() == 0 {
        0
    } else {
        contents_bound(items.drop_last()) + bound_of(items.last())
    }
}

/// What the instructions cost.
pub open spec fn fixed_cost(instructions: Seq<String>) -> nat
    decreases instructions.len(),
{
    if instructions.len() == 0 {
        0
    } else {
        fixed_cost(instructions.drop_last()) + PER_MESSAGE_OVERHEAD as nat + token_count(
            instructions.last()@,
        )
    }
}

/// What the instructions cost at most, by their bytes.
pub open spec fn fixed_bound(instructions: Seq<String>) -> nat
    decreases instructions.len(),
{
    if instructions.len() == 0 {
        0
    } else {
        fixed_bound(instructions.drop_last()) + PER_MESSAGE_OVERHEAD as nat + byte_len(
            instructions.last()@,
        )
    }
}

/// What a whole request costs.
pub open spec fn request_cost(request: LlmRequest) -> nat {
    fixed_cost(request.instructions@) + contents_cost(request.contents@)
}

/// What a whole request costs at most, by its bytes.
pub open spec fn request_bound(request: LlmRequest) -> nat {
    fixed_bound(request.instructions@) + contents_bound(request.contents@)
}

/// The sum of some costs.
pub open spec fn total(costs: Seq<usize>) -> nat
    decreases costs.len(),
{
    if costs.len() == 0 {
        0
    } else {
        total(costs.drop_last()) + costs.last() as nat
    }
}

/// Whether `costs[i]` is what `items[i]` costs, for every item.
pub open spec fn costs_match(costs: Seq<usize>, items: Seq<ContentItem>) -> bool {
    &&& costs.len() == items.len()
    &&& forall|i: int| 0 <= i < items.len() ==> #[trigger] costs[i] == cost_of(items[i])
}

/// Whether `index` is among `indices`.
pub open spec fn lists(indices: Seq<usize>, index: int) -> bool {
    exists|k: int| 0 <= k < indices.len() && #[trigger] indices[k] == index
}

/// What each item of a conversation costs, in order.
pub open spec fn costs_of(items: Seq<ContentItem>) -> Seq<usize> {
    items.map_values(|item: ContentItem| cost_of(item) as usize)
}

/// Whether what an item costs can be counted: its byte bound in a `usize`, and its text by the
/// tokenizer.
pub open spec fn fits(item: ContentItem) -> bool {
    bound_of(item) <= usize::MAX && item_encodable(item)
}

/// Whether what each item costs can be counted.
pub open spec fn each_fits(items: Seq<ContentItem>) -> bool {
    forall|i: int| 0 <= i < items.len() ==> fits(#[trigger] items[i])
}

/// Matching costs add up to what the conversation costs.
pub proof fn matching_costs_sum_to_the_conversation(costs: Seq<usize>, items: Seq<ContentItem>)
    requires
        costs_match(costs, items),
    ensures
        total(costs) == contents_cost(items),
    decreases items.len(),
{
    if items.len() > 0 {
        let i = items.len() - 1;
        assert(costs[i] == cost_of(items[i]));
        assert(costs_match(costs.drop_last(), items.drop_last())) by {
            assert forall|k: int| 0 <= k < items.len() - 1 implies #[trigger] costs.drop_last()[k]
                == cost_of(items.drop_last()[k]) by {
                assert(costs[k] == cost_of(items[k]));
            }
        }
        matching_costs_sum_to_the_conversation(costs.drop_last(), items.drop_last());
    }
}

/// A conversation costs exactly the sum of its two halves, wherever it is split.
pub proof fn conversation_cost_is_additive(left: Seq<ContentItem>, right: Seq<ContentItem>)
    ensures
        contents_cost(left + right) == contents_cost(left) + contents_cost(right),
    decreases right.len(),
{
    if right.len() == 0 {
        assert(left + right =~= left);
    } else {
        assert((left + right).drop_last() =~= left + right.drop_last());
        conversation_cost_is_additive(left, right.drop_last());
    }
}

/// Costs add up over a concatenation.
pub proof fn lemma_total_append(left: Seq<usize>, right: Seq<usize>)
    ensures
        total(left + right) == total(left) + total(right),
    decreases right.len(),
{
    if right.len() == 0 {
        assert(left + right =~= left);
    } else {
        assert((left + right).drop_last() =~= left + right.drop_last());
        lemma_total_append(left, right.drop_last());
    }
}

proof fn lemma_total_bounded(costs: Seq<usize>)
    ensures
        total(costs) <= costs.len() * (usize::MAX as int),
    decreases costs.len(),
{
    if costs.len() > 0 {
        lemma_total_bounded(costs.drop_last());
        assert(costs.len() * (usize::MAX as int) == (costs.len() - 1) * (usize::MAX as int) + (
        usize::MAX as int)) by (nonlinear_arith);
    }
}

/// No vector of costs adds up to more than a `u128` can hold.
pub proof fn lemma_total_fits(costs: Seq<usize>)
    requires
        costs.len() <= usize::MAX,
    ensures
        total(costs) <= 0xffff_ffff_ffff_ffff * 0xffff_ffff_ffff_ffff,
{
    lemma_total_bounded(costs);
    assert(costs.len() * (usize::MAX as int) <= 0xffff_ffff_ffff_ffff * 0xffff_ffff_ffff_ffff)
        by (nonlinear_arith)
        requires
            costs.len() <= 0xffff_ffff_ffff_ffff,
            0 <= usize::MAX as int <= 0xffff_ffff_ffff_ffff,
    ;
}

/// The exact sum of some costs, too wide to overflow.
pub(crate) fn wide_total(costs: &[usize]) -> (sum: u128)
    ensures
        sum == total(costs@),
{
    let mut sum: u128 = 0;
    let mut i: usize = 0;
    assert(costs@.take(0) =~= seq![]);
    while i < costs.len()
        invariant
            i <= costs@.len(),
            sum == total(costs@.take(i as int)),
        decreases costs@.len() - i,
    {
        proof {
            let next = costs@.take(i + 1);
            assert(next.drop_last() =~= costs@.take(i as int));
            lemma_total_fits(next);
        }
        sum = sum + costs[i] as u128;
        i += 1;
    }
    assert(costs@.take(i as int) =~= costs@);
    sum
}

/// How many tokens one item's text is encoded in, framing aside.
fn item_text(item: &ContentItem) -> (n: usize)
    requires
        item_bytes(*item) <= usize::MAX,
        item_encodable(*item),
    ensures
        n == item_tokens(*item),
        n <= item_bytes(*item),
{
    match item {
        ContentItem::Message { content, .. } => count_tokens(content.as_str()),
        ContentItem::ToolCall { name, arguments, .. } => {
            let text = arguments.to_text();
            count_tokens(name.as_str()) + count_tokens(text.as_str())
        },
        ContentItem::ToolResult { content, .. } => count_tokens(content.as_str()),
    }
}

/// What one item costs in the request, framing counted: never more than its byte bound.
pub fn item_cost(item: &ContentItem) -> (cost: usize)
    requires
        fits(*item),
    ensures
        cost == cost_of(*item),
        cost <= bound_of(*item),
{
    PER_MESSAGE_OVERHEAD + item_text(item)
}

/// A cheap upper bound on [`item_cost`]: every token encodes at least one byte, so an item's
/// byte length can only exceed its token count.
pub fn item_cost_upper_bound(item: &ContentItem) -> (bound: usize)
    requires
        bound_of(*item) <= usize::MAX,
    ensures
        bound == bound_of(*item),
{
    let text: usize = match item {
        ContentItem::Message { content, .. } => content.as_str().as_bytes().len(),
        ContentItem::ToolCall { name, arguments, .. } => name.as_str().as_bytes().len() + json_len(
            arguments,
        ),
        ContentItem::ToolResult { content, .. } => content.as_str().as_bytes().len(),
    };
    PER_MESSAGE_OVERHEAD + text
}

/// Serialized byte length of a JSON value.
pub fn json_len(value: &Json) -> (len: usize)
    ensures
        len == byte_len(json_text(*value)),
{
    value.to_text().as_str().as_bytes().len()
}

/// [`item_cost_upper_bound`], where it can be counted.
pub fn checked_item_bound(item: &ContentItem) -> (bound: Option<usize>)
    ensures
        match bound {
            Some(b) => b == bound_of(*item),
            None => bound_of(*item) > usize::MAX,
        },
{
    let text: Option<usize> = match item {
        ContentItem::Message { content, .. } => Some(content.as_str().as_bytes().len()),
        ContentItem::ToolCall { name, arguments, .. } => name.as_str().as_bytes().len().checked_add(
            json_len(arguments),
        ),
        ContentItem::ToolResult { content, .. } => Some(content.as_str().as_bytes().len()),
    };
    match text {
        Some(bytes) => match bytes.checked_add(PER_MESSAGE_OVERHEAD) {
            Some(_) => Some(item_cost_upper_bound(item)),
            None => None,
        },
        None => None,
    }
}

proof fn lemma_contents_bound_covers(items: Seq<ContentItem>, n: int)
    requires
        0 <= n <= items.len(),
    ensures
        contents_bound(items.take(n)) <= contents_bound(items),
        forall|i: int| 0 <= i < n ==> bound_of(#[trigger] items[i]) <= contents_bound(items),
    decreases items.len(),
{
    if n == items.len() {
        assert(items.take(n) =~= items);
        if n > 0 {
            let front = items.drop_last();
            lemma_contents_bound_covers(front, n - 1);
            assert forall|i: int| 0 <= i < n implies bound_of(#[trigger] items[i])
                <= contents_bound(items) by {
                if i < n - 1 {
                    assert(front[i] == items[i]);
                }
            }
        }
    } else {
        let front = items.drop_last();
        lemma_contents_bound_covers(front, n);
        assert(front.take(n) =~= items.take(n));
        assert forall|i: int| 0 <= i < n implies bound_of(#[trigger] items[i])
            <= contents_bound(items) by {
            assert(front[i] == items[i]);
        }
    }
}

proof fn lemma_fixed_bound_covers(instructions: Seq<String>, n: int)
    requires
        0 <= n <= instructions.len(),
    ensures
        fixed_bound(instructions.take(n)) <= fixed_bound(instructions),
    decreases instructions.len(),
{
    if n == instructions.len() {
        assert(instructions.take(n) =~= instructions);
    } else {
        lemma_fixed_bound_covers(instructions.drop_last(), n);
        assert(instructions.drop_last().take(n) =~= instructions.take(n));
    }
}

/// A conversation whose bound can be counted, and that can be encoded, holds only items that
/// can be counted each.
pub proof fn countable_conversation_has_countable_items(items: Seq<ContentItem>)
    requires
        contents_bound(items) <= usize::MAX,
        all_encodable(items),
    ensures
        each_fits(items),
{
    lemma_contents_bound_covers(items, items.len() as int);
}

/// [`item_cost_upper_bound`] summed over a conversation.
pub fn contents_cost_upper_bound(items: &[ContentItem]) -> (bound: usize)
    requires
        contents_bound(items@) <= usize::MAX,
    ensures
        bound == contents_bound(items@),
{
    let mut sum: usize = 0;
    let mut i: usize = 0;
    assert(items@.take(0) =~= seq![]);
    while i < items.len()
        invariant
            i <= items@.len(),
            contents_bound(items@) <= usize::MAX,
            sum == contents_bound(items@.take(i as int)),
        decreases items@.len() - i,
    {
        proof {
            lemma_contents_bound_covers(items@, i + 1);
            assert(items@.take(i + 1).drop_last() =~= items@.take(i as int));
            assert(bound_of(items@[i as int]) <= usize::MAX);
        }
        sum = sum + item_cost_upper_bound(&items[i]);
        i += 1;
    }
    assert(items@.take(i as int) =~= items@);
    sum
}

/// Byte bound of the instructions.
fn instructions_upper_bound(instructions: &Vec<String>) -> (bound: usize)
    requires
        fixed_bound(instructions@) <= usize::MAX,
    ensures
        bound == fixed_bound(instructions@),
{
    let mut sum: usize = 0;
    let mut i: usize = 0;
    assert(instructions@.take(0) =~= seq![]);
    while i < instructions.len()
        invariant
            i <= instructions@.len(),
            fixed_bound(instructions@) <= usize::MAX,
            sum == fixed_bound(instructions@.take(i as int)),
        decreases instructions@.len() - i,
    {
        proof {
            lemma_fixed_bound_covers(instructions@, i + 1);
            assert(instructions@.take(i + 1).drop_last() =~= instructions@.take(i as int));
        }
        sum = sum + PER_MESSAGE_OVERHEAD + instructions[i].as_str().as_bytes().len();
        i += 1;
    }
    assert(instructions@.take(i as int) =~= instructions@);
    sum
}

/// [`item_cost_upper_bound`] summed over a whole request, instructions included: answers
/// whether a request is definitely within budget without tokenizing anything.
pub fn request_cost_upper_bound(request: &LlmRequest) -> (bound: usize)
    requires
        request_bound(*request) <= usize::MAX,
    ensures
        bound == request_bound(*request),
{
    instructions_upper_bound(&request.instructions) + contents_cost_upper_bound(&request.contents)
}

/// Whether [`contents_cost_upper_bound`] can be counted.
fn contents_countable(items: &[ContentItem]) -> (countable: bool)
    ensures
        countable == (contents_bound(items@) <= usize::MAX),
{
    let mut sum: usize = 0;
    let mut i: usize = 0;
    assert(items@.take(0) =~= seq![]);
    while i < items.len()
        invariant
            i <= items@.len(),
            sum == contents_bound(items@.take(i as int)),
        decreases items@.len() - i,
    {
        proof {
            lemma_contents_bound_covers(items@, i + 1);
            assert(items@.take(i + 1).drop_last() =~= items@.take(i as int));
        }
        match checked_item_bound(&items[i]) {
            Some(bound) => match sum.checked_add(bound) {
                Some(next) => {
                    sum = next;
                },
                None => return false,
            },
            None => return false,
        }
        i += 1;
    }
    assert(items@.take(i as int) =~= items@);
    true
}

/// Whether the byte bound of the instructions can be counted.
fn instructions_countable(instructions: &Vec<String>) -> (countable: bool)
    ensures
        countable == (fixed_bound(instructions@) <= usize::MAX),
{
    let mut sum: usize = 0;
    let mut i: usize = 0;
    assert(instructions@.take(0) =~= seq![]);
    while i < instructions.len()
        invariant
            i <= instructions@.len(),
            sum == fixed_bound(instructions@.take(i as int)),
        decreases instructions@.len() - i,
    {
        proof {
            lemma_fixed_bound_covers(instructions@, i + 1);
            assert(instructions@.take(i + 1).drop_last() =~= instructions@.take(i as int));
        }
        match sum.checked_add(PER_MESSAGE_OVERHEAD) {
            Some(with_overhead) => match with_overhead.checked_add(
                instructions[i].as_str().as_bytes().len(),
            ) {
                Some(next) => {
                    sum = next;
                },
                None => return false,
            },
            None => return false,
        }
        i += 1;
    }
    assert(instructions@.take(i as int) =~= instructions@);
    true
}

/// [`contents_cost_upper_bound`], where it can be counted.
pub fn checked_contents_bound(items: &[ContentItem]) -> (bound: Option<usize>)
    ensures
        match bound {
            Some(b) => b == contents_bound(items@),
            None => contents_bound(items@) > usize::MAX,
        },
{
    if contents_countable(items) {
        Some(contents_cost_upper_bound(items))
    } else {
        None
    }
}

/// Whether the tokenizer can encode one item's text.
pub fn can_encode_item(item: &ContentItem) -> (can: bool)
    ensures
        can == item_encodable(*item),
{
    match item {
        ContentItem::Message { content, .. } => can_encode(content.as_str()),
        ContentItem::ToolCall { name, arguments, .. } => {
            let text = arguments.to_text();
            can_encode(name.as_str()) && can_encode(text.as_str())
        },
        ContentItem::ToolResult { content, .. } => can_encode(content.as_str()),
    }
}

/// Whether the tokenizer can encode a whole request.
pub fn can_encode_request(request: &LlmRequest) -> (can: bool)
    ensures
        can == request_encodable(*request),
{
    let mut i: usize = 0;
    while i < request.instructions.len()
        invariant
            i <= request.instructions@.len(),
            forall|k: int|
                0 <= k < i ==> encodable((#[trigger] request.instructions@[k])@),
        decreases request.instructions@.len() - i,
    {
        if !can_encode(request.instructions[i].as_str()) {
            assert(!encodable(request.instructions@[i as int]@));
            return false;
        }
        i += 1;
    }
    let mut i: usize = 0;
    while i < request.contents.len()
        invariant
            instructions_encodable(request.instructions@),
            i <= request.contents@.len(),
            forall|k: int| 0 <= k < i ==> item_encodable(#[trigger] request.contents@[k]),
        decreases request.contents@.len() - i,
    {
        if !can_encode_item(&request.contents[i]) {
            assert(!item_encodable(request.contents@[i as int]));
            return false;
        }
        i += 1;
    }
    true
}

/// Whether what each item costs can be counted.
pub fn items_countable(items: &[ContentItem]) -> (countable: bool)
    ensures
        countable == each_fits(items@),
{
    let mut i: usize = 0;
    while i < items.len()
        invariant
            i <= items@.len(),
            forall|k: int| 0 <= k < i ==> fits(#[trigger] items@[k]),
        decreases items@.len() - i,
    {
        if checked_item_bound(&items[i]).is_none() || !can_encode_item(&items[i]) {
            assert(!fits(items@[i as int]));
            return false;
        }
        i += 1;
    }
    true
}

/// [`request_cost_upper_bound`], where it can be counted.
pub fn checked_request_bound(request: &LlmRequest) -> (bound: Option<usize>)
    ensures
        match bound {
            Some(b) => b == request_bound(*request),
            None => request_bound(*request) > usize::MAX,
        },
{
    if !contents_countable(&request.contents) || !instructions_countable(&request.instructions) {
        return None;
    }
    let fixed: usize = instructions_upper_bound(&request.instructions);
    let contents: usize = contents_cost_upper_bound(&request.contents);
    match fixed.checked_add(contents) {
        Some(_) => Some(request_cost_upper_bound(request)),
        None => None,
    }
}

/// What the instructions cost: the part of a request that trimming its conversation cannot
/// reduce.
pub fn count_fixed(request: &LlmRequest) -> (cost: usize)
    requires
        fixed_bound(request.instructions@) <= usize::MAX,
        instructions_encodable(request.instructions@),
    ensures
        cost == fixed_cost(request.instructions@),
        cost <= fixed_bound(request.instructions@),
{
    let instructions = &request.instructions;
    let mut sum: usize = 0;
    let mut i: usize = 0;
    assert(instructions@.take(0) =~= seq![]);
    while i < instructions.len()
        invariant
            i <= instructions@.len(),
            fixed_bound(instructions@) <= usize::MAX,
            instructions_encodable(instructions@),
            sum == fixed_cost(instructions@.take(i as int)),
            sum <= fixed_bound(instructions@.take(i as int)),
        decreases instructions@.len() - i,
    {
        proof {
            lemma_fixed_bound_covers(instructions@, i + 1);
            assert(instructions@.take(i + 1).drop_last() =~= instructions@.take(i as int));
        }
        sum = sum + (PER_MESSAGE_OVERHEAD + count_tokens(instructions[i].as_str()));
        i += 1;
    }
    assert(instructions@.take(i as int) =~= instructions@);
    sum
}

/// What the conversation itself costs.
pub fn count_contents(items: &[ContentItem]) -> (cost: usize)
    requires
        contents_bound(items@) <= usize::MAX,
        all_encodable(items@),
    ensures
        cost == contents_cost(items@),
        cost <= contents_bound(items@),
{
    let mut sum: usize = 0;
    let mut i: usize = 0;
    assert(items@.take(0) =~= seq![]);
    while i < items.len()
        invariant
            i <= items@.len(),
            contents_bound(items@) <= usize::MAX,
            all_encodable(items@),
            sum == contents_cost(items@.take(i as int)),
            sum <= contents_bound(items@.take(i as int)),
        decreases items@.len() - i,
    {
        proof {
            lemma_contents_bound_covers(items@, i + 1);
            assert(items@.take(i + 1).drop_last() =~= items@.take(i as int));
            assert(fits(items@[i as int]));
        }
        sum = sum + item_cost(&items[i]);
        i += 1;
    }
    assert(items@.take(i as int) =~= items@);
    sum
}

/// What each item of a conversation costs, in order.
pub fn item_costs(items: &[ContentItem]) -> (costs: Vec<usize>)
    requires
        each_fits(items@),
    ensures
        costs_match(costs@, items@),
{
    let mut costs: Vec<usize> = Vec::new();
    let mut i: usize = 0;
    while i < items.len()
        invariant
            i <= items@.len(),
            each_fits(items@),
            costs@.len() == i,
            forall|k: int| 0 <= k < i ==> #[trigger] costs@[k] == cost_of(items@[k]),
        decreases items@.len() - i,
    {
        assert(fits(items@[i as int]));
        costs.push(item_cost(&items[i]));
        i += 1;
    }
    costs
}

/// Token count of the request as it will be sent: the instructions and the conversation.
pub fn count_request(request: &LlmRequest) -> (cost: usize)
    requires
        request_bound(*request) <= usize::MAX,
        request_encodable(*request),
    ensures
        cost == request_cost(*request),
        cost <= request_bound(*request),
{
    count_fixed(request) + count_contents(&request.contents)
}

/// [`count_request`], where the request can be counted.
pub fn checked_count_request(request: &LlmRequest) -> (cost: Option<usize>)
    ensures
        match cost {
            Some(c) => c == request_cost(*request) && c <= request_bound(*request)
                && request_encodable(*request),
            None => request_bound(*request) > usize::MAX || !request_encodable(*request),
        },
{
    match checked_request_bound(request) {
        Some(_) => {
            if can_encode_request(request) {
                Some(count_request(request))
            } else {
                None
            }
        },
        None => None,
    }
}

/// Per-item token costs of one request, kept in step with it while it is edited.
#[derive(Debug)]
pub struct Ledger {
    fixed: usize,
    items: Vec<usize>,
}

impl Ledger {
    /// What the instructions cost.
    pub closed spec fn fixed_part(&self) -> usize {
        self.fixed
    }

    /// What each item costs, in order.
    pub closed spec fn costs(&self) -> Seq<usize> {
        self.items@
    }

    /// What the whole request costs by this ledger.
    pub open spec fn sum(&self) -> nat {
        self.fixed_part() as nat + total(self.costs())
    }

    /// Whether the ledger says what `request` costs, part by part.
    pub open spec fn describes(&self, request: LlmRequest) -> bool {
        &&& self.fixed_part() == fixed_cost(request.instructions@)
        &&& costs_match(self.costs(), request.contents@)
    }

    /// Tokenize `request` once and record what each part costs.
    pub fn new(request: &LlmRequest) -> (ledger: Self)
        requires
            fixed_bound(request.instructions@) <= usize::MAX,
            instructions_encodable(request.instructions@),
            each_fits(request.contents@),
        ensures
            ledger.describes(*request),
            ledger.fixed_part() <= fixed_bound(request.instructions@),
    {
        Ledger { fixed: count_fixed(request), items: item_costs(&request.contents) }
    }

    /// What the whole request currently costs.
    pub fn total(&self) -> (cost: usize)
        requires
            self.sum() <= usize::MAX,
        ensures
            cost == self.sum(),
    {
        let items: u128 = wide_total(&self.items);
        self.fixed + items as usize
    }

    /// Whether the whole request currently costs more than `limit`.
    pub fn exceeds(&self, limit: usize) -> (over: bool)
        ensures
            over == (self.sum() > limit),
    {
        let items: u128 = wide_total(&self.items);
        if self.fixed > limit {
            return true;
        }
        items > (limit - self.fixed) as u128
    }

    /// What the parts that trimming the conversation cannot reduce cost.
    pub fn fixed(&self) -> (cost: usize)
        ensures
            cost == self.fixed_part(),
    {
        self.fixed
    }

    /// Per-item costs, parallel to the request's contents, for a stage that drops a range of
    /// both.
    pub fn contents_mut(&mut self) -> (items: &mut Vec<usize>)
        ensures
            items@ == old(self).costs(),
            final(self).costs() == final(items)@,
            final(self).fixed_part() == old(self).fixed_part(),
    {
        &mut self.items
    }

    /// Tokenize again only the items at `changed`, for a stage that rewrote them in place. An
    /// index that is out of range is ignored.
    pub fn refresh(&mut self, contents: &[ContentItem], changed: &[usize])
        requires
            forall|k: int|
                0 <= k < changed@.len() && (#[trigger] changed@[k]) < contents@.len() ==> fits(
                    contents@[changed@[k] as int],
                ),
        ensures
            final(self).fixed_part() == old(self).fixed_part(),
            final(self).costs().len() == old(self).costs().len(),
            forall|i: int|
                0 <= i < old(self).costs().len() ==> #[trigger] final(self).costs()[i] == if i
                    < contents@.len() && lists(changed@, i) {
                    cost_of(contents@[i]) as int
                } else {
                    old(self).costs()[i] as int
                },
    {
        let mut k: usize = 0;
        while k < changed.len()
            invariant
                k <= changed@.len(),
                self.fixed_part() == old(self).fixed_part(),
                self.costs().len() == old(self).costs().len(),
                forall|j: int|
                    0 <= j < changed@.len() && (#[trigger] changed@[j]) < contents@.len()
                        ==> fits(contents@[changed@[j] as int]),
                forall|i: int|
                    0 <= i < old(self).costs().len() ==> #[trigger] self.costs()[i] == if i
                        < contents@.len() && lists(changed@.take(k as int), i) {
                        cost_of(contents@[i]) as int
                    } else {
                        old(self).costs()[i] as int
                    },
            decreases changed@.len() - k,
        {
            let index: usize = changed[k];
            let ghost before = self.costs();
            if index < contents.len() && index < self.items.len() {
                self.items.set(index, item_cost(&contents[index]));
            }
            proof {
                let seen = changed@.take(k as int);
                let next = changed@.take(k + 1);
                assert(next =~= seen.push(index));
                assert forall|i: int| 0 <= i < old(self).costs().len() implies #[trigger] self.costs()[i]
                    == if i < contents@.len() && lists(next, i) {
                    cost_of(contents@[i]) as int
                } else {
                    old(self).costs()[i] as int
                } by {
                    assert(before[i] == if i < contents@.len() && lists(seen, i) {
                        cost_of(contents@[i]) as int
                    } else {
                        old(self).costs()[i] as int
                    });
                    if lists(seen, i) {
                        let j = choose|j: int| 0 <= j < seen.len() && seen[j] == i;
                        assert(next[j] == i);
                    }
                    if i == index {
                        assert(next[k as int] == i);
                    } else if lists(next, i) {
                        let j = choose|j: int| 0 <= j < next.len() && next[j] == i;
                        assert(seen[j] == i);
                    }
                }
            }
            k += 1;
        }
        assert(changed@.take(k as int) =~= changed@);
    }

    /// Discard everything and tokenize `request` again, for a stage whose edits moved or
    /// removed items.
    pub fn rebuild(&mut self, request: &LlmRequest)
        requires
            fixed_bound(request.instructions@) <= usize::MAX,
            instructions_encodable(request.instructions@),
            each_fits(request.contents@),
        ensures
            final(self).describes(*request),
            final(self).fixed_part() <= fixed_bound(request.instructions@),
    {
        self.fixed = count_fixed(request);
        self.items = item_costs(&request.contents);
    }
}

/// A ledger that describes a request adds up to what the request costs.
pub proof fn ledger_total_is_the_request_cost(ledger: Ledger, request: LlmRequest)
    requires
        ledger.describes(request),
    ensures
        ledger.sum() == request_cost(request),
{
    matching_costs_sum_to_the_conversation(ledger.costs(), request.contents@);
}

/// An item costs four tokens of framing and those of all its texts: what was said or answered, or
/// the name and the arguments of a call.
pub proof fn an_item_costs_all_its_texts(item: ContentItem)
    ensures
        cost_of(item) == 4 + match item {
            ContentItem::Message { content, .. } => token_count(content@),
            ContentItem::ToolCall { name, arguments, .. } => token_count(name@) + token_count(
                json_text(arguments),
            ),
            ContentItem::ToolResult { content, .. } => token_count(content@),
        },
        bound_of(item) == 4 + match item {
            ContentItem::Message { content, .. } => byte_len(content@),
            ContentItem::ToolCall { name, arguments, .. } => byte_len(name@) + byte_len(
                json_text(arguments),
            ),
            ContentItem::ToolResult { content, .. } => byte_len(content@),
        },
{
}

/// A request costs what every instruction and every item in it costs, one by one: adding one adds
/// exactly its own cost.
pub proof fn a_request_costs_all_it_holds(
    request: LlmRequest,
    longer: LlmRequest,
    instruction: String,
    item: ContentItem,
)
    ensures
        request.instructions@.len() == 0 && request.contents@.len() == 0 ==> request_cost(request)
            == 0 && request_bound(request) == 0,
        longer.contents@ == request.contents@.push(item) && longer.instructions@
            == request.instructions@ ==> request_cost(longer) == request_cost(request) + cost_of(
            item,
        ) && request_bound(longer) == request_bound(request) + bound_of(item),
        longer.instructions@ == request.instructions@.push(instruction) && longer.contents@
            == request.contents@ ==> request_cost(longer) == request_cost(request) + 4
            + token_count(instruction@) && request_bound(longer) == request_bound(request) + 4
            + byte_len(instruction@),
{
    assert(request.contents@.push(item).drop_last() =~= request.contents@);
    assert(request.instructions@.push(instruction).drop_last() =~= request.instructions@);
}

/// Some costs add up one by one, in whatever order they stand.
pub proof fn costs_add_up(costs: Seq<usize>, cost: usize, at: int)
    requires
        0 <= at <= costs.len(),
    ensures
        total(Seq::<usize>::empty()) == 0,
        total(costs.insert(at, cost)) == total(costs) + cost,
{
    let left = costs.take(at);
    let right = costs.skip(at);
    assert(costs =~= left + right);
    assert(costs.insert(at, cost) =~= left.push(cost) + right);
    assert(left.push(cost).drop_last() =~= left);
    lemma_total_append(left, right);
    lemma_total_append(left.push(cost), right);
}

} // verus!
