//! Streaming completions: what is forwarded of a stream, and what follows when it ends.

use vstd::prelude::*;

use crate::llm::client::ToolCallRequest;
use crate::llm::tool_calls::{
    chunking_does_not_matter, completes, lacks, lists_indices, merged_all, IncompleteCall, Pieces,
    ToolCallAccumulator,
    ToolCallFragment,
};
use crate::llm::tool_loop::ToolLoop;
use crate::text::opt_view;

verus! {

/// What one chunk of a stream carries for its first choice.
#[derive(Debug, PartialEq, Eq)]
pub struct StreamDelta {
    pub content: Option<String>,
    pub tool_calls: Option<Vec<ToolCallFragment>>,
}

/// One stream as far as it has been read.
pub struct StreamRound {
    accumulator: ToolCallAccumulator,
    assistant_text: String,
}

/// What follows when a stream ends.
#[derive(Debug, PartialEq, Eq)]
pub enum StreamEnd {
    /// The answer is complete.
    Done,
    /// These tools are to be run, their results appended behind what was said, and a new stream
    /// opened.
    RunTools { tool_calls: Vec<ToolCallRequest>, said: String },
    /// A call came in incomplete.
    Failed(IncompleteCall),
}

/// What is forwarded of a chunk: its text, unless it is empty.
pub open spec fn forwarded(content: Option<Seq<char>>) -> Option<Seq<char>> {
    match content {
        Some(text) if text.len() > 0 => Some(text),
        _ => None,
    }
}

/// A text as the reader sees it: nothing, where there is none.
pub open spec fn shown(text: Option<Seq<char>>) -> Seq<char> {
    match text {
        Some(found) => found,
        None => seq![],
    }
}

/// The text that a chunk carries; none, where it carries no text or no choice.
pub open spec fn content_of(delta: Option<StreamDelta>) -> Seq<char> {
    match delta {
        Some(d) => shown(opt_view(d.content)),
        None => seq![],
    }
}

/// The fragments that a chunk carries.
pub open spec fn fragments_of(delta: Option<StreamDelta>) -> Seq<ToolCallFragment> {
    match delta {
        Some(d) => match d.tool_calls {
            Some(fragments) => fragments@,
            None => seq![],
        },
        None => seq![],
    }
}

/// The texts that some chunks carry, put end to end.
pub open spec fn all_content(deltas: Seq<Option<StreamDelta>>) -> Seq<char>
    decreases deltas.len(),
{
    if deltas.len() == 0 {
        seq![]
    } else {
        all_content(deltas.drop_last()) + content_of(deltas.last())
    }
}

/// The fragments that some chunks carry, in order.
pub open spec fn all_fragments(deltas: Seq<Option<StreamDelta>>) -> Seq<ToolCallFragment>
    decreases deltas.len(),
{
    if deltas.len() == 0 {
        seq![]
    } else {
        all_fragments(deltas.drop_last()) + fragments_of(deltas.last())
    }
}

/// What was forwarded, put end to end.
pub open spec fn all_shown(texts: Seq<Option<Seq<char>>>) -> Seq<char>
    decreases texts.len(),
{
    if texts.len() == 0 {
        seq![]
    } else {
        all_shown(texts.drop_last()) + shown(texts.last())
    }
}

/// No text and no fragment is lost in a stream: after any number of chunks, what was forwarded, put
/// end to end, and what is remembered as said are all that the chunks carried, and the calls are
/// those that all their fragments make.
pub proof fn nothing_is_lost_in_a_stream(
    states: Seq<StreamRound>,
    deltas: Seq<Option<StreamDelta>>,
    texts: Seq<Option<Seq<char>>>,
)
    requires
        states.len() == deltas.len() + 1,
        texts.len() == deltas.len(),
        forall|i: int|
            0 <= i < deltas.len() ==> states[i].takes_in(
                #[trigger] deltas[i],
                texts[i],
                states[i + 1],
            ),
    ensures
        all_shown(texts) == all_content(deltas),
        states.last().said() == states[0].said() + all_content(deltas),
        states.last().calls() == merged_all(states[0].calls(), all_fragments(deltas)),
    decreases deltas.len(),
{
    if deltas.len() == 0 {
        assert(states[0].said() + all_content(deltas) =~= states[0].said());
    } else {
        let n = deltas.len() - 1;
        let before = states.drop_last();
        let front = deltas.drop_last();
        let said = texts.drop_last();
        assert forall|i: int| 0 <= i < front.len() implies before[i].takes_in(
            #[trigger] front[i],
            said[i],
            before[i + 1],
        ) by {
            assert(states[i].takes_in(deltas[i], texts[i], states[i + 1]));
        }
        nothing_is_lost_in_a_stream(before, front, said);
        assert(states[n].takes_in(deltas[n], texts[n], states[n + 1]));
        assert(shown(texts[n]) =~= content_of(deltas[n]));
        assert(states.last().said() =~= states[0].said() + all_content(deltas));
        let more = fragments_of(deltas[n]);
        chunking_does_not_matter(states[0].calls(), all_fragments(front), more);
        assert(merged_all(states[n].calls(), seq![]) == states[n].calls());
    }
}

/// Whether a stream that brought `calls` and forwarded `said` leads a loop from `before` to
/// `after` by `end`. The first call by its index that lacks something is the one that is
/// reported.
pub open spec fn ends(
    calls: Map<u32, Pieces>,
    said: Seq<char>,
    before: ToolLoop,
    after: ToolLoop,
    end: StreamEnd,
) -> bool {
    &&& after.same_loop(before)
    &&& if calls == Map::<u32, Pieces>::empty() || !before.allows_tools() {
        end == StreamEnd::Done && after.rounds() == before.rounds()
    } else {
        &&& after.rounds() == before.rounds() + 1
        &&& exists|indices: Seq<u32>| #[trigger]
            lists_indices(calls, indices) && match end {
                StreamEnd::Done => false,
                StreamEnd::RunTools { tool_calls, said: narrated } => narrated@ == said
                    && tool_calls@.len() == indices.len() && forall|i: int|
                    0 <= i < indices.len() ==> completes(
                        calls[indices[i]],
                        #[trigger] tool_calls@[i],
                    ),
                StreamEnd::Failed(why) => exists|i: int|
                    {
                        &&& 0 <= i < indices.len()
                        &&& #[trigger] lacks(indices[i], calls[indices[i]], why)
                        &&& forall|k: int|
                            0 <= k < i ==> (#[trigger] calls[indices[k]]).id is Some
                                && calls[indices[k]].name is Some
                    },
            }
    }
}

/// Whether each stream leads from one state to the next, and another one was opened only after
/// tools were run.
pub open spec fn streams(
    states: Seq<ToolLoop>,
    calls: Seq<Map<u32, Pieces>>,
    said: Seq<Seq<char>>,
    stream_ends: Seq<StreamEnd>,
) -> bool {
    &&& states.len() == stream_ends.len() + 1
    &&& calls.len() == stream_ends.len()
    &&& said.len() == stream_ends.len()
    &&& forall|i: int|
        0 <= i < stream_ends.len() ==> ends(
            calls[i],
            said[i],
            states[i],
            states[i + 1],
            #[trigger] stream_ends[i],
        )
    &&& forall|i: int| 0 <= i < stream_ends.len() - 1 ==> (#[trigger] stream_ends[i]) is RunTools
}

proof fn lemma_streams(
    states: Seq<ToolLoop>,
    calls: Seq<Map<u32, Pieces>>,
    said: Seq<Seq<char>>,
    stream_ends: Seq<StreamEnd>,
    n: int,
)
    requires
        states[0].wf(),
        streams(states, calls, said, stream_ends),
        0 <= n < stream_ends.len(),
    ensures
        states[n].same_loop(states[0]),
        states[n].rounds() == states[0].rounds() + n,
        states[n].rounds() <= states[0].limit(),
    decreases n,
{
    if n > 0 {
        lemma_streams(states, calls, said, stream_ends, n - 1);
        assert(stream_ends[n - 1] is RunTools);
        assert(ends(calls[n - 1], said[n - 1], states[n - 1], states[n], stream_ends[n - 1]));
    }
}

/// Whatever a model streams, no more streams are opened than rounds are left and one, and the
/// last of these runs no tools.
pub proof fn streaming_always_finishes(
    states: Seq<ToolLoop>,
    calls: Seq<Map<u32, Pieces>>,
    said: Seq<Seq<char>>,
    stream_ends: Seq<StreamEnd>,
)
    requires
        states.len() > 0,
        states[0].wf(),
        streams(states, calls, said, stream_ends),
    ensures
        ({
            let left = states[0].limit() - states[0].rounds();
            &&& stream_ends.len() <= left + 1
            &&& stream_ends.len() == left + 1 ==> stream_ends.last() is Done
        }),
        states.last().wf(),
        states.last().same_loop(states[0]),
{
    if stream_ends.len() > 0 {
        let n = stream_ends.len() - 1;
        lemma_streams(states, calls, said, stream_ends, n);
        assert(ends(calls[n], said[n], states[n], states[n + 1], stream_ends[n]));
    }
}

impl StreamRound {
    /// Everything that has been forwarded, in order.
    pub closed spec fn said(&self) -> Seq<char> {
        self.assistant_text@
    }

    /// The tool calls known so far.
    pub closed spec fn calls(&self) -> Map<u32, Pieces> {
        self.accumulator.known()
    }

    /// The calls are in order.
    pub closed spec fn wf(&self) -> bool {
        self.accumulator.wf()
    }

    /// Whether one chunk leads from this state to `next`, with `text` forwarded of it.
    pub open spec fn takes_in(
        &self,
        delta: Option<StreamDelta>,
        text: Option<Seq<char>>,
        next: StreamRound,
    ) -> bool {
        match delta {
            None => text is None && next.said() == self.said() && next.calls() == self.calls(),
            Some(d) => {
                &&& text == forwarded(opt_view(d.content))
                &&& next.said() == match forwarded(opt_view(d.content)) {
                    Some(more) => self.said() + more,
                    None => self.said(),
                }
                &&& next.calls() == match d.tool_calls {
                    Some(fragments) => merged_all(self.calls(), fragments@),
                    None => self.calls(),
                }
            },
        }
    }

    /// A stream of which nothing has been read.
    pub fn new() -> (round: Self)
        ensures
            round.wf(),
            round.said().len() == 0,
            round.calls() == Map::<u32, Pieces>::empty(),
    {
        StreamRound { accumulator: ToolCallAccumulator::new(), assistant_text: String::new() }
    }

    /// Take in one chunk, and say what of it is to be forwarded. A chunk without a choice
    /// carries nothing.
    pub fn on_chunk(&mut self, delta: Option<StreamDelta>) -> (text: Option<String>)
        requires
            old(self).wf(),
        ensures
            final(self).wf(),
            old(self).takes_in(delta, opt_view(text), *final(self)),
            shown(opt_view(text)) == content_of(delta),
            text matches Some(more) ==> more@.len() > 0,
    {
        let delta = match delta {
            Some(delta) => delta,
            None => return None,
        };
        match &delta.tool_calls {
            Some(fragments) => self.accumulator.push(fragments),
            None => {},
        }
        match delta.content {
            Some(text) => {
                if text.as_str().is_empty() {
                    None
                } else {
                    self.assistant_text.append(text.as_str());
                    Some(text)
                }
            },
            None => None,
        }
    }

    /// Decide what follows when the stream has ended. Without tool calls the answer is
    /// complete; so it is when tools were called after they had been forbidden, since the text
    /// has been forwarded already.
    pub fn finish(self, state: &mut ToolLoop) -> (end: StreamEnd)
        requires
            self.wf(),
            old(state).wf(),
        ensures
            final(state).wf(),
            ends(self.calls(), self.said(), *old(state), *final(state), end),
    {
        if self.accumulator.is_empty() {
            return StreamEnd::Done;
        }
        if !state.tools_allowed() {
            return StreamEnd::Done;
        }
        state.spend_round();
        match self.accumulator.finish() {
            Ok(tool_calls) => StreamEnd::RunTools { tool_calls, said: self.assistant_text },
            Err(why) => StreamEnd::Failed(why),
        }
    }
}

/// A stream that brought calls while rounds were left is never the end: its calls are run, as many
/// as it brought, or the one that is incomplete is reported. Without calls it is.
pub proof fn a_stream_that_calls_tools_goes_on(
    calls: Map<u32, Pieces>,
    said: Seq<char>,
    before: ToolLoop,
    after: ToolLoop,
    end: StreamEnd,
)
    requires
        ends(calls, said, before, after, end),
    ensures
        calls != Map::<u32, Pieces>::empty() && before.rounds() < before.limit() ==> !(end is Done)
            && after.rounds() == before.rounds() + 1,
        calls == Map::<u32, Pieces>::empty() || before.rounds() >= before.limit() ==> end is Done,
        end matches StreamEnd::RunTools { said: narrated, tool_calls } ==> narrated@ == said
            && forall|index: u32| #[trigger]
            calls.dom().contains(index) ==> exists|i: int|
                0 <= i < tool_calls@.len() && #[trigger] completes(calls[index], tool_calls@[i]),
{
    match end {
        StreamEnd::RunTools { tool_calls, .. } => {
            let indices = choose|indices: Seq<u32>| #[trigger]
                lists_indices(calls, indices) && tool_calls@.len() == indices.len() && forall|
                    i: int,
                |
                    0 <= i < indices.len() ==> completes(
                        calls[indices[i]],
                        #[trigger] tool_calls@[i],
                    );
            assert forall|index: u32| #[trigger] calls.dom().contains(index) implies exists|i: int|
                0 <= i < tool_calls@.len() && #[trigger] completes(calls[index], tool_calls@[i]) by {
                let i = choose|i: int| 0 <= i < indices.len() && indices[i] == index;
                assert(completes(calls[indices[i]], tool_calls@[i]));
            }
        },
        _ => {},
    }
}

} // verus!
