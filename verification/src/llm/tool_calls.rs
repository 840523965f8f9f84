//! Putting together tool calls that arrive in fragments.
//!
//! A streamed call is split: its first fragment carries the id and the function's name, later
//! ones only more of the arguments. The index is the one thing every fragment has.

use vstd::prelude::*;

use crate::llm::client::ToolCallRequest;
use crate::text::{blank, decimal, decimal_text, is_blank, opt_view};

verus! {

/// Arguments of a call for which none were streamed.
pub const EMPTY_ARGUMENTS: &'static str = "{}";

/// The function part of a fragment.
#[derive(Debug, PartialEq, Eq)]
pub struct FunctionFragment {
    pub name: Option<String>,
    pub arguments: Option<String>,
}

/// A fragment of a tool call.
#[derive(Debug, PartialEq, Eq)]
pub struct ToolCallFragment {
    pub index: u32,
    pub id: Option<String>,
    pub function: Option<FunctionFragment>,
}

/// A tool call that is still being put together.
#[derive(Debug, PartialEq, Eq)]
struct Partial {
    index: u32,
    id: Option<String>,
    name: Option<String>,
    arguments: String,
}

/// What is known of a call so far.
#[verifier::ext_equal]
pub struct Pieces {
    pub id: Option<Seq<char>>,
    pub name: Option<Seq<char>>,
    pub arguments: Seq<char>,
}

/// Nothing known yet.
pub open spec fn no_pieces() -> Pieces {
    Pieces { id: None, name: None, arguments: seq![] }
}

/// A text that is not empty replaces what was known; some providers repeat an id or a name as
/// an empty one.
pub open spec fn updated(known: Option<Seq<char>>, given: Option<Seq<char>>) -> Option<Seq<char>> {
    match given {
        Some(text) if text.len() > 0 => Some(text),
        _ => known,
    }
}

/// What is known of a call after one more fragment of it.
pub open spec fn extended(known: Pieces, fragment: ToolCallFragment) -> Pieces {
    Pieces {
        id: updated(known.id, opt_view(fragment.id)),
        name: match fragment.function {
            Some(function) => updated(known.name, opt_view(function.name)),
            None => known.name,
        },
        arguments: match fragment.function {
            Some(function) => match function.arguments {
                Some(more) => known.arguments + more@,
                None => known.arguments,
            },
            None => known.arguments,
        },
    }
}

/// The calls known after one more fragment.
pub open spec fn merged(calls: Map<u32, Pieces>, fragment: ToolCallFragment) -> Map<u32, Pieces> {
    let known = if calls.dom().contains(fragment.index) {
        calls[fragment.index]
    } else {
        no_pieces()
    };
    calls.insert(fragment.index, extended(known, fragment))
}

/// The calls known after some fragments.
pub open spec fn merged_all(
    calls: Map<u32, Pieces>,
    fragments: Seq<ToolCallFragment>,
) -> Map<u32, Pieces>
    decreases fragments.len(),
{
    if fragments.len() == 0 {
        calls
    } else {
        merged(merged_all(calls, fragments.drop_last()), fragments.last())
    }
}

/// Fragments may come in any number of chunks: how they are grouped changes nothing.
pub proof fn chunking_does_not_matter(
    calls: Map<u32, Pieces>,
    first: Seq<ToolCallFragment>,
    second: Seq<ToolCallFragment>,
)
    ensures
        merged_all(calls, first + second) == merged_all(merged_all(calls, first), second),
    decreases second.len(),
{
    if second.len() == 0 {
        assert(first + second =~= first);
    } else {
        assert((first + second).drop_last() =~= first + second.drop_last());
        chunking_does_not_matter(calls, first, second.drop_last());
    }
}

/// Fragments of different calls may be interleaved: two neighbours that belong to different
/// calls can be swapped.
pub proof fn interleaving_does_not_matter(
    calls: Map<u32, Pieces>,
    a: ToolCallFragment,
    b: ToolCallFragment,
)
    requires
        a.index != b.index,
    ensures
        merged(merged(calls, a), b) == merged(merged(calls, b), a),
{
    assert(merged(merged(calls, a), b) =~= merged(merged(calls, b), a));
}

impl Partial {
    spec fn pieces(&self) -> Pieces {
        Pieces {
            id: opt_view(self.id),
            name: opt_view(self.name),
            arguments: self.arguments@,
        }
    }
}

/// Accumulates fragments of tool calls.
#[derive(Debug, PartialEq, Eq)]
pub struct ToolCallAccumulator {
    calls: Vec<Partial>,
}

/// Why a call cannot be put together.
#[derive(Debug, PartialEq, Eq)]
pub enum IncompleteCall {
    /// The call at this index has no id.
    MissingId(u32),
    /// The call with this id has no function name.
    MissingName(String),
}

impl IncompleteCall {
    /// What is said of it.
    pub fn message(&self) -> (text: String)
        ensures
            text@ == match *self {
                IncompleteCall::MissingId(index) => "streamed tool call at index "@ + decimal(
                    index as nat,
                ) + " has no id"@,
                IncompleteCall::MissingName(id) => "streamed tool call `"@ + id@
                    + "` has no function name"@,
            },
    {
        match self {
            IncompleteCall::MissingId(index) => {
                let mut text = "streamed tool call at index ".to_owned();
                text.append(decimal_text(*index as u64).as_str());
                text.append(" has no id");
                text
            },
            IncompleteCall::MissingName(id) => {
                let mut text = "streamed tool call `".to_owned();
                text.append(id.as_str());
                text.append("` has no function name");
                text
            },
        }
    }
}

/// Whether `call` is the complete call that `pieces` make.
pub open spec fn completes(pieces: Pieces, call: ToolCallRequest) -> bool {
    call matches ToolCallRequest::Function { id, name, arguments } && pieces.id == Some(id@)
        && pieces.name == Some(name@) && arguments@ == if blank(pieces.arguments) {
        EMPTY_ARGUMENTS@
    } else {
        pieces.arguments
    }
}

/// Whether `why` is what `pieces` lack.
pub open spec fn lacks(index: u32, pieces: Pieces, why: IncompleteCall) -> bool {
    match pieces.id {
        None => why == IncompleteCall::MissingId(index),
        Some(id) => pieces.name is None && (why matches IncompleteCall::MissingName(said) && said@
            == id),
    }
}

/// Whether numbers are in increasing order.
pub open spec fn increasing(numbers: Seq<u32>) -> bool {
    forall|i: int, j: int|
        0 <= i < j < numbers.len() ==> #[trigger] numbers[i] < #[trigger] numbers[j]
}

/// Whether `indices` are those of `calls`, in increasing order.
pub open spec fn lists_indices(calls: Map<u32, Pieces>, indices: Seq<u32>) -> bool {
    &&& increasing(indices)
    &&& forall|index: u32| #[trigger] calls.dom().contains(index) <==> indices.contains(index)
}

impl Default for ToolCallAccumulator {
    fn default() -> (accumulator: Self)
        ensures
            accumulator.wf(),
            accumulator.known() == Map::<u32, Pieces>::empty(),
    {
        ToolCallAccumulator::new()
    }
}

impl ToolCallAccumulator {
    /// The calls known so far, by index.
    pub closed spec fn known(&self) -> Map<u32, Pieces> {
        Map::new(
            |index: u32| exists|i: int| 0 <= i < self.calls@.len() && self.calls@[i].index == index,
            |index: u32|
                self.calls@[choose|i: int|
                    0 <= i < self.calls@.len() && self.calls@[i].index == index].pieces(),
        )
    }

    spec fn indices(&self) -> Seq<u32> {
        self.calls@.map_values(|p: Partial| p.index)
    }

    /// The calls are held in the order of their indices.
    pub closed spec fn wf(&self) -> bool {
        increasing(self.indices())
    }

    proof fn lemma_known_at(&self, i: int)
        requires
            self.wf(),
            0 <= i < self.calls@.len(),
        ensures
            self.known().dom().contains(self.calls@[i].index),
            self.known()[self.calls@[i].index] == self.calls@[i].pieces(),
    {
        let index = self.calls@[i].index;
        let k = choose|k: int| 0 <= k < self.calls@.len() && self.calls@[k].index == index;
        assert(0 <= k < self.calls@.len() && self.calls@[k].index == index);
        assert(self.indices()[i] == index);
        assert(self.indices()[k] == index);
        if k < i {
            assert(self.indices()[k] < self.indices()[i]);
        } else if i < k {
            assert(self.indices()[i] < self.indices()[k]);
        }
    }

    /// An accumulator that knows of no call.
    pub fn new() -> (accumulator: Self)
        ensures
            accumulator.wf(),
            accumulator.known() == Map::<u32, Pieces>::empty(),
    {
        let accumulator = ToolCallAccumulator { calls: Vec::new() };
        assert(accumulator.known() =~= Map::<u32, Pieces>::empty());
        accumulator
    }

    /// Merge the fragments of a chunk.
    pub fn push(&mut self, fragments: &Vec<ToolCallFragment>)
        requires
            old(self).wf(),
        ensures
            final(self).wf(),
            final(self).known() == merged_all(old(self).known(), fragments@),
    {
        let mut i: usize = 0;
        assert(fragments@.take(0) =~= seq![]);
        while i < fragments.len()
            invariant
                i <= fragments@.len(),
                self.wf(),
                self.known() == merged_all(old(self).known(), fragments@.take(i as int)),
            decreases fragments@.len() - i,
        {
            self.push_one(&fragments[i]);
            assert(fragments@.take(i + 1).drop_last() =~= fragments@.take(i as int));
            i += 1;
        }
        assert(fragments@.take(i as int) =~= fragments@);
    }

    /// Where the call with `index` stands, or would stand.
    fn place(&self, index: u32) -> (at: usize)
        requires
            self.wf(),
        ensures
            at <= self.calls@.len(),
            forall|k: int| 0 <= k < at ==> (#[trigger] self.calls@[k]).index < index,
            forall|k: int| at <= k < self.calls@.len() ==> (#[trigger] self.calls@[k]).index >= index,
    {
        let mut at: usize = 0;
        while at < self.calls.len() && self.calls[at].index < index
            invariant
                at <= self.calls@.len(),
                forall|k: int| 0 <= k < at ==> (#[trigger] self.calls@[k]).index < index,
            decreases self.calls@.len() - at,
        {
            at += 1;
        }
        proof {
            assert forall|k: int| at <= k < self.calls@.len() implies (#[trigger] self.calls@[k]).index
                >= index by {
                assert(self.indices()[k] == self.calls@[k].index);
                assert(self.indices()[at as int] == self.calls@[at as int].index);
                if at < k {
                    assert(self.indices()[at as int] < self.indices()[k]);
                }
            }
        }
        at
    }

    fn push_one(&mut self, fragment: &ToolCallFragment)
        requires
            old(self).wf(),
        ensures
            final(self).wf(),
            final(self).known() == merged(old(self).known(), *fragment),
    {
        let index: u32 = fragment.index;
        let at: usize = self.place(index);
        let present = at < self.calls.len() && self.calls[at].index == index;
        let ghost before = self.calls@;
        let mut partial = if present {
            proof {
                self.lemma_known_at(at as int);
            }
            self.calls.remove(at)
        } else {
            proof {
                if self.known().dom().contains(index) {
                    let k = choose|k: int| 0 <= k < self.calls@.len() && self.calls@[k].index
                        == index;
                    assert(self.calls@[k].index == index);
                    assert(self.indices()[k] == index);
                    if k > at {
                        assert(self.indices()[at as int] < self.indices()[k]);
                        assert(self.indices()[at as int] == self.calls@[at as int].index);
                    }
                }
            }
            Partial { index, id: None, name: None, arguments: String::new() }
        };
        let ghost kept = self.calls@;
        let ghost start = partial.pieces();
        assert(start =~= if old(self).known().dom().contains(index) {
            old(self).known()[index]
        } else {
            no_pieces()
        });
        match &fragment.id {
            Some(id) => {
                if !id.as_str().is_empty() {
                    partial.id = Some(id.clone());
                }
            },
            None => {},
        }
        match &fragment.function {
            Some(function) => {
                match &function.name {
                    Some(name) => {
                        if !name.as_str().is_empty() {
                            partial.name = Some(name.clone());
                        }
                    },
                    None => {},
                }
                match &function.arguments {
                    Some(more) => partial.arguments.append(more.as_str()),
                    None => {},
                }
            },
            None => {},
        }
        assert(partial.pieces() =~= extended(start, *fragment));
        let ghost grown = partial;
        self.calls.insert(at, partial);
        proof {
            let after = self.calls@;
            assert(after =~= kept.insert(at as int, grown));
            let shift: int = if present {
                0
            } else {
                1
            };
            assert forall|i: int| 0 <= i < after.len() implies #[trigger] after[i] == if i < at {
                before[i]
            } else if i == at {
                grown
            } else {
                before[i - shift]
            } by {}
            assert forall|k: int| at + 1 - shift <= k < before.len() implies index < (
            #[trigger] before[k]).index by {
                assert(old(self).indices()[k] == before[k].index);
                assert(old(self).indices()[at as int] == before[at as int].index);
                if at < k {
                    assert(old(self).indices()[at as int] < old(self).indices()[k]);
                }
            }
            assert forall|i: int, j: int| 0 <= i < j < self.indices().len() implies (
            #[trigger] self.indices()[i]) < (#[trigger] self.indices()[j]) by {
                assert(self.indices()[i] == after[i].index);
                assert(self.indices()[j] == after[j].index);
                let a = if i < at {
                    i
                } else {
                    i - shift
                };
                let b = if j < at {
                    j
                } else {
                    j - shift
                };
                if i != at && j != at {
                    assert(old(self).indices()[a] < old(self).indices()[b]);
                    assert(old(self).indices()[a] == before[a].index);
                    assert(old(self).indices()[b] == before[b].index);
                }
            }
            let target = merged(old(self).known(), *fragment);
            assert forall|k: u32| #[trigger] self.known().dom().contains(k) implies target.dom().contains(
                k,
            ) && self.known()[k] == target[k] by {
                let i = choose|i: int| 0 <= i < after.len() && after[i].index == k;
                assert(after[i].index == k);
                self.lemma_known_at(i);
                if i < at {
                    old(self).lemma_known_at(i);
                } else if i > at {
                    old(self).lemma_known_at(i - shift);
                }
            }
            assert forall|k: u32| #[trigger] target.dom().contains(k) implies self.known().dom().contains(
                k,
            ) by {
                if k == index {
                    assert(after[at as int].index == k);
                    self.lemma_known_at(at as int);
                } else {
                    let i = choose|i: int| 0 <= i < before.len() && before[i].index == k;
                    assert(before[i].index == k);
                    if i < at {
                        assert(after[i] == before[i]);
                        self.lemma_known_at(i);
                    } else {
                        assert(after[i + shift] == before[i]);
                        self.lemma_known_at(i + shift);
                    }
                }
            }
            assert(self.known() =~= target);
        }
    }

    /// Whether no call is known.
    pub fn is_empty(&self) -> (empty: bool)
        ensures
            empty == (self.known() == Map::<u32, Pieces>::empty()),
    {
        proof {
            if self.calls@.len() == 0 {
                assert(self.known() =~= Map::<u32, Pieces>::empty());
            } else {
                let index = self.calls@[0].index;
                assert(self.known().dom().contains(index)) by {
                    assert(0 <= 0 < self.calls@.len() && self.calls@[0].index == index);
                }
            }
        }
        self.calls.len() == 0
    }
}

impl ToolCallAccumulator {
    /// Turn the fragments into complete calls, in the order of their indices.
    ///
    /// Fails on the first call that never received an id or a name: it cannot be executed, and
    /// leaving it out would leave it unanswered.
    pub fn finish(self) -> (finished: Result<Vec<ToolCallRequest>, IncompleteCall>)
        requires
            self.wf(),
        ensures
            exists|indices: Seq<u32>| #[trigger]
                lists_indices(self.known(), indices) && match finished {
                    Ok(calls) => calls@.len() == indices.len() && forall|i: int|
                        0 <= i < indices.len() ==> completes(
                            self.known()[indices[i]],
                            #[trigger] calls@[i],
                        ),
                    Err(why) => exists|i: int|
                        {
                            &&& 0 <= i < indices.len()
                            &&& #[trigger] lacks(indices[i], self.known()[indices[i]], why)
                            &&& forall|k: int|
                                0 <= k < i ==> (#[trigger] self.known()[indices[k]]).id is Some
                                    && self.known()[indices[k]].name is Some
                        },
                },
    {
        let ghost this = self;
        let ghost all = self.calls@;
        let ghost indices = self.indices();
        proof {
            assert forall|index: u32| #[trigger] this.known().dom().contains(index)
                <==> indices.contains(index) by {
                if this.known().dom().contains(index) {
                    let i = choose|i: int| 0 <= i < all.len() && all[i].index == index;
                    assert(indices[i] == index);
                }
                if indices.contains(index) {
                    let i = choose|i: int| 0 <= i < indices.len() && indices[i] == index;
                    assert(all[i].index == index);
                    this.lemma_known_at(i);
                }
            }
            assert(lists_indices(this.known(), indices));
        }
        let mut rest = self.calls;
        let mut calls: Vec<ToolCallRequest> = Vec::new();
        assert(all.skip(0) =~= all);
        while rest.len() > 0
            invariant
                this == self,
                this.wf(),
                all == this.calls@,
                indices == this.indices(),
                lists_indices(this.known(), indices),
                calls@.len() <= all.len(),
                rest@ == all.skip(calls@.len() as int),
                forall|i: int|
                    0 <= i < calls@.len() ==> completes(
                        this.known()[indices[i]],
                        #[trigger] calls@[i],
                    ),
            decreases rest@.len(),
        {
            let ghost at = calls@.len() as int;
            let partial = rest.remove(0);
            let index: u32 = partial.index;
            proof {
                assert(partial == all[at]);
                assert(indices[at] == index);
                this.lemma_known_at(at);
                assert(rest@ =~= all.skip(at + 1));
                assert forall|k: int| 0 <= k < at implies (
                #[trigger] this.known()[indices[k]]).id is Some
                    && this.known()[indices[k]].name is Some by {
                    assert(completes(this.known()[indices[k]], calls@[k]));
                }
            }
            let id = match partial.id {
                Some(id) => id,
                None => {
                    let why = IncompleteCall::MissingId(index);
                    assert(lacks(indices[at], this.known()[indices[at]], why));
                    return Err(why);
                },
            };
            let name = match partial.name {
                Some(name) => name,
                None => {
                    let why = IncompleteCall::MissingName(id);
                    assert(lacks(indices[at], this.known()[indices[at]], why));
                    return Err(why);
                },
            };
            let arguments = if is_blank(partial.arguments.as_str()) {
                EMPTY_ARGUMENTS.to_owned()
            } else {
                partial.arguments
            };
            calls.push(ToolCallRequest::Function { id, name, arguments });
        }
        Ok(calls)
    }
}

/// The arguments that some fragments bring for the call at `index`, put end to end.
pub open spec fn arguments_for(fragments: Seq<ToolCallFragment>, index: u32) -> Seq<char>
    decreases fragments.len(),
{
    if fragments.len() == 0 {
        seq![]
    } else {
        let before = arguments_for(fragments.drop_last(), index);
        match fragments.last().function {
            Some(function) if fragments.last().index == index => match function.arguments {
                Some(more) => before + more@,
                None => before,
            },
            _ => before,
        }
    }
}

/// The id that a fragment brings for the call at `index`, unless it is empty.
pub open spec fn id_in(fragment: ToolCallFragment, index: u32) -> Option<Seq<char>> {
    match fragment.id {
        Some(id) if fragment.index == index && id@.len() > 0 => Some(id@),
        _ => None,
    }
}

/// The name that a fragment brings for the call at `index`, unless it is empty.
pub open spec fn name_in(fragment: ToolCallFragment, index: u32) -> Option<Seq<char>> {
    match fragment.function {
        Some(function) => match function.name {
            Some(name) if fragment.index == index && name@.len() > 0 => Some(name@),
            _ => None,
        },
        None => None,
    }
}

/// The last id that some fragments bring for the call at `index`.
pub open spec fn last_id(fragments: Seq<ToolCallFragment>, index: u32) -> Option<Seq<char>>
    decreases fragments.len(),
{
    if fragments.len() == 0 {
        None
    } else if id_in(fragments.last(), index) is Some {
        id_in(fragments.last(), index)
    } else {
        last_id(fragments.drop_last(), index)
    }
}

/// The last name that some fragments bring for the call at `index`.
pub open spec fn last_name(fragments: Seq<ToolCallFragment>, index: u32) -> Option<Seq<char>>
    decreases fragments.len(),
{
    if fragments.len() == 0 {
        None
    } else if name_in(fragments.last(), index) is Some {
        name_in(fragments.last(), index)
    } else {
        last_name(fragments.drop_last(), index)
    }
}

/// A call is what its fragments bring, whatever stands between them: it is known once one has come,
/// its arguments are theirs put end to end, and its id and its name are the last that were not
/// empty.
pub proof fn a_call_is_the_sum_of_its_fragments(fragments: Seq<ToolCallFragment>, index: u32)
    ensures
        ({
            let calls = merged_all(Map::<u32, Pieces>::empty(), fragments);
            &&& calls.dom().contains(index) == exists|i: int|
                0 <= i < fragments.len() && (#[trigger] fragments[i]).index == index
            &&& calls.dom().contains(index) ==> {
                &&& calls[index].arguments == arguments_for(fragments, index)
                &&& calls[index].id == last_id(fragments, index)
                &&& calls[index].name == last_name(fragments, index)
            }
            &&& !calls.dom().contains(index) ==> arguments_for(fragments, index).len() == 0
                && last_id(fragments, index) is None && last_name(fragments, index) is None
        }),
    decreases fragments.len(),
{
    if fragments.len() > 0 {
        let front = fragments.drop_last();
        let last = fragments.last();
        let n = fragments.len() - 1;
        a_call_is_the_sum_of_its_fragments(front, index);
        let before = merged_all(Map::<u32, Pieces>::empty(), front);
        let calls = merged_all(Map::<u32, Pieces>::empty(), fragments);
        assert(calls == merged(before, last));
        assert(fragments[n] == last);
        if exists|i: int| 0 <= i < front.len() && (#[trigger] front[i]).index == index {
            let i = choose|i: int| 0 <= i < front.len() && (#[trigger] front[i]).index == index;
            assert(fragments[i].index == index);
        }
        if exists|i: int| 0 <= i < fragments.len() && (#[trigger] fragments[i]).index == index {
            let i = choose|i: int|
                0 <= i < fragments.len() && (#[trigger] fragments[i]).index == index;
            if i < n {
                assert(front[i].index == index);
            }
        }
        if last.index == index {
            if !before.dom().contains(index) {
                assert(arguments_for(front, index) =~= seq![]);
            }
            assert(calls[index].arguments =~= arguments_for(fragments, index));
        }
    }
}

/// A complete call is asked for by its id and its name, with its arguments as they came; only
/// where nothing but white space came does it get an empty object.
pub proof fn a_complete_call_keeps_its_arguments(pieces: Pieces, call: ToolCallRequest)
    requires
        completes(pieces, call),
    ensures
        call matches ToolCallRequest::Function { id, name, arguments } && pieces.id == Some(id@)
            && pieces.name == Some(name@) && (!blank(pieces.arguments) ==> arguments@
            == pieces.arguments) && (blank(pieces.arguments) ==> arguments@ == seq!['{', '}']),
{
    reveal_strlit("{}");
    assert("{}"@ =~= seq!['{', '}']);
}

} // verus!
