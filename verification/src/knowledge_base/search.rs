//! Picking the passages nearest to a question.
//!
//! Embedding the texts and measuring how alike two vectors are is the caller's part; it hands
//! each similarity over as the bits of an `f32`.

use vstd::prelude::*;

verus! {

/// A passage that was found, with its similarity to the question.
#[derive(Debug, PartialEq, Eq)]
pub struct SearchHit {
    pub text: String,
    /// The bits of the `f32`.
    pub similarity: u32,
}

/// What a search comes to before anything is embedded.
#[derive(Debug, PartialEq, Eq)]
pub enum SearchPlan {
    /// Nothing is found, whatever the embeddings would be.
    NoHits,
    /// The question and the passages are to be embedded with this model.
    Embed { model: String },
}

/// A search that needs a model to embed with, where none is configured.
#[derive(Debug, Clone, Copy, PartialEq, Eq, Structural)]
pub struct EmbedModelNotSet;

impl EmbedModelNotSet {
    /// What is said of it.
    pub fn message(&self) -> (text: String)
        ensures
            text@ == "EMBED_MODEL is not set"@,
    {
        "EMBED_MODEL is not set".to_owned()
    }
}

/// What a search comes to. Without passages, or where none is asked for, no model is needed.
pub fn plan_search(chunks: &Vec<String>, top_k: usize, embed_model: Option<String>) -> (plan: Result<
    SearchPlan,
    EmbedModelNotSet,
>)
    ensures
        plan == if chunks@.len() == 0 || top_k == 0 {
            Ok(SearchPlan::NoHits)
        } else {
            match embed_model {
                Some(model) => Ok(SearchPlan::Embed { model }),
                None => Err(EmbedModelNotSet),
            }
        },
{
    if chunks.len() == 0 || top_k == 0 {
        return Ok(SearchPlan::NoHits);
    }
    match embed_model {
        Some(model) => Ok(SearchPlan::Embed { model }),
        None => Err(EmbedModelNotSet),
    }
}

/// Where an `f32` stands in the total order of floating-point numbers, by its bits: those
/// without the sign rise with their bits, those with it fall.
pub open spec fn place(bits: u32) -> int {
    if bits < 0x8000_0000 {
        bits as int
    } else {
        0x7fff_ffff - bits
    }
}

/// Whether passage `a` is ranked before passage `b`: it is more alike to the question, or as
/// alike and earlier.
pub open spec fn outranks(similarities: Seq<u32>, a: int, b: int) -> bool {
    ||| place(similarities[a]) > place(similarities[b])
    ||| place(similarities[a]) == place(similarities[b]) && a < b
}

/// Whether a position is among the picked ones.
pub open spec fn picked(picks: Seq<usize>, x: int) -> bool {
    exists|j: int| 0 <= j < picks.len() && #[trigger] picks[j] == x
}

/// Whether `picks` are the `top_k` best of the first `n` passages, the best one first.
pub open spec fn is_ranking(picks: Seq<usize>, similarities: Seq<u32>, n: int, top_k: int) -> bool {
    &&& picks.len() == if n <= top_k {
        n
    } else {
        top_k
    }
    &&& forall|j: int| 0 <= j < picks.len() ==> (#[trigger] picks[j]) < n
    &&& forall|i: int, j: int|
        0 <= i < j < picks.len() ==> outranks(
            similarities,
            (#[trigger] picks[i]) as int,
            (#[trigger] picks[j]) as int,
        )
    &&& forall|x: int, j: int|
        0 <= x < n && !#[trigger] picked(picks, x) && 0 <= j < picks.len() ==> outranks(
            similarities,
            (#[trigger] picks[j]) as int,
            x,
        )
    &&& n <= top_k ==> forall|x: int| 0 <= x < n ==> #[trigger] picked(picks, x)
}

fn place_of(bits: u32) -> (key: i64)
    ensures
        key == place(bits),
{
    if bits < 0x8000_0000 {
        bits as i64
    } else {
        0x7fff_ffffi64 - bits as i64
    }
}

fn enter(picks: &mut Vec<usize>, similarities: &Vec<u32>, n: usize, top_k: usize)
    requires
        n < similarities@.len(),
        is_ranking(old(picks)@, similarities@, n as int, top_k as int),
    ensures
        is_ranking(final(picks)@, similarities@, n + 1, top_k as int),
{
    let ghost before = picks@;
    let ghost sims = similarities@;
    let key: i64 = place_of(similarities[n]);
    let mut at: usize = picks.len();
    while at > 0 && place_of(similarities[picks[at - 1]]) < key
        invariant
            n < similarities@.len(),
            sims == similarities@,
            picks@ == before,
            at <= before.len(),
            key == place(sims[n as int]),
            is_ranking(before, sims, n as int, top_k as int),
            forall|j: int|
                at <= j < before.len() ==> outranks(sims, n as int, #[trigger] before[j] as int),
        decreases at,
    {
        at -= 1;
    }
    proof {
        assert forall|j: int| 0 <= j < at implies outranks(
            sims,
            #[trigger] before[j] as int,
            n as int,
        ) by {
            if j < at - 1 {
                assert(outranks(sims, before[j] as int, before[at - 1] as int));
            }
        }
    }
    if at >= top_k {
        proof {
            assert forall|x: int, j: int|
                0 <= x < n + 1 && !#[trigger] picked(before, x) && 0 <= j
                    < before.len() implies outranks(sims, (#[trigger] before[j]) as int, x) by {}
        }
        return;
    }
    picks.insert(at, n);
    let ghost full = picks@;
    proof {
        assert(full == before.insert(at as int, n));
        assert forall|i: int, j: int| 0 <= i < j < full.len() implies outranks(
            sims,
            (#[trigger] full[i]) as int,
            (#[trigger] full[j]) as int,
        ) by {
            let old_i = if i > at {
                i - 1
            } else {
                i
            };
            let old_j = if j > at {
                j - 1
            } else {
                j
            };
            if i != at {
                assert(full[i] == before[old_i]);
            }
            if j != at {
                assert(full[j] == before[old_j]);
            }
        }
        assert forall|j: int| 0 <= j < full.len() implies (#[trigger] full[j]) < n + 1 by {
            if j < at {
                assert(full[j] == before[j]);
            } else if j > at {
                assert(full[j] == before[j - 1]);
            }
        }
        assert forall|x: int| #[trigger] picked(full, x) == (x == n || picked(before, x)) by {
            if x == n {
                assert(full[at as int] == n);
            } else if picked(before, x) {
                let j = choose|j: int| 0 <= j < before.len() && #[trigger] before[j] == x;
                if j < at {
                    assert(full[j] == x);
                } else {
                    assert(full[j + 1] == x);
                }
            } else if picked(full, x) {
                let j = choose|j: int| 0 <= j < full.len() && #[trigger] full[j] == x;
                if j < at {
                    assert(before[j] == x);
                } else {
                    assert(before[j - 1] == x);
                }
            }
        }
        assert forall|x: int, j: int|
            0 <= x < n + 1 && !#[trigger] picked(full, x) && 0 <= j < full.len() implies outranks(
            sims,
            (#[trigger] full[j]) as int,
            x,
        ) by {
            assert(x < n && !picked(before, x));
            if j < at {
                assert(full[j] == before[j]);
            } else if j > at {
                assert(full[j] == before[j - 1]);
            } else {
                assert(before.len() == top_k);
                assert(outranks(sims, n as int, before[at as int] as int));
                assert(outranks(sims, before[at as int] as int, x));
            }
        }
    }
    if picks.len() > top_k {
        picks.pop();
        proof {
            let after = picks@;
            let last = full.last() as int;
            assert(after =~= full.drop_last());
            assert forall|x: int, j: int|
                0 <= x < n + 1 && !#[trigger] picked(after, x) && 0 <= j
                    < after.len() implies outranks(sims, (#[trigger] after[j]) as int, x) by {
                assert(after[j] == full[j]);
                if x != last {
                    if picked(full, x) {
                        let k = choose|k: int| 0 <= k < full.len() && #[trigger] full[k] == x;
                        assert(after[k] == x);
                    }
                } else {
                    assert(full[full.len() - 1] == x);
                }
            }
        }
    }
}

/// The positions of the `top_k` most similar passages, the most similar first; of equally
/// similar ones the earlier is preferred.
pub fn rank(similarities: &Vec<u32>, top_k: usize) -> (picks: Vec<usize>)
    ensures
        is_ranking(picks@, similarities@, similarities@.len() as int, top_k as int),
{
    let mut picks: Vec<usize> = Vec::new();
    let mut n: usize = 0;
    while n < similarities.len()
        invariant
            n <= similarities@.len(),
            is_ranking(picks@, similarities@, n as int, top_k as int),
        decreases similarities@.len() - n,
    {
        enter(&mut picks, similarities, n, top_k);
        n += 1;
    }
    picks
}

/// What was found: the `top_k` passages most similar to the question, the most similar first.
pub fn search_hits(chunks: &Vec<String>, similarities: &Vec<u32>, top_k: usize) -> (hits: Vec<
    SearchHit,
>)
    requires
        similarities@.len() == chunks@.len(),
    ensures
        exists|picks: Seq<usize>| #[trigger]
            is_ranking(picks, similarities@, chunks@.len() as int, top_k as int) && hits@.len()
                == picks.len() && forall|j: int|
                0 <= j < picks.len() ==> (#[trigger] hits@[j]).text@ == chunks@[picks[j] as int]@
                    && hits@[j].similarity == similarities@[picks[j] as int],
{
    let picks = rank(similarities, top_k);
    let mut hits: Vec<SearchHit> = Vec::new();
    let mut j: usize = 0;
    while j < picks.len()
        invariant
            j <= picks@.len(),
            similarities@.len() == chunks@.len(),
            is_ranking(picks@, similarities@, chunks@.len() as int, top_k as int),
            hits@.len() == j,
            forall|i: int|
                0 <= i < j ==> (#[trigger] hits@[i]).text@ == chunks@[picks@[i] as int]@
                    && hits@[i].similarity == similarities@[picks@[i] as int],
        decreases picks@.len() - j,
    {
        let at: usize = picks[j];
        hits.push(SearchHit { text: chunks[at].clone(), similarity: similarities[at] });
        j += 1;
    }
    hits
}

/// There is one ranking: passages are found in the same order whatever way they are looked for.
pub proof fn a_ranking_is_unique(
    left: Seq<usize>,
    right: Seq<usize>,
    similarities: Seq<u32>,
    n: int,
    top_k: int,
)
    requires
        0 <= n <= similarities.len(),
        0 <= top_k,
        is_ranking(left, similarities, n, top_k),
        is_ranking(right, similarities, n, top_k),
    ensures
        left == right,
{
    assert forall|i: int| 0 <= i < left.len() implies left[i] == right[i] by {
        lemma_same_rank(left, right, similarities, n, top_k, i);
    }
    assert(left =~= right);
}

proof fn lemma_same_rank(
    left: Seq<usize>,
    right: Seq<usize>,
    similarities: Seq<u32>,
    n: int,
    top_k: int,
    i: int,
)
    requires
        0 <= n <= similarities.len(),
        0 <= top_k,
        is_ranking(left, similarities, n, top_k),
        is_ranking(right, similarities, n, top_k),
        0 <= i < left.len(),
    ensures
        left[i] == right[i],
    decreases i,
{
    assert forall|j: int| 0 <= j < i implies left[j] == right[j] by {
        lemma_same_rank(left, right, similarities, n, top_k, j);
    }
    if left[i] != right[i] {
        lemma_not_after(left, right, similarities, n, top_k, i);
        lemma_not_after(right, left, similarities, n, top_k, i);
    }
}

proof fn lemma_not_after(
    left: Seq<usize>,
    right: Seq<usize>,
    similarities: Seq<u32>,
    n: int,
    top_k: int,
    i: int,
)
    requires
        is_ranking(left, similarities, n, top_k),
        is_ranking(right, similarities, n, top_k),
        0 <= i < left.len(),
        forall|j: int| 0 <= j < i ==> left[j] == right[j],
        left[i] != right[i],
    ensures
        outranks(similarities, right[i] as int, left[i] as int),
{
    let x = left[i] as int;
    if picked(right, x) {
        let k = choose|k: int| 0 <= k < right.len() && #[trigger] right[k] == x;
        if k < i {
            assert(left[k] == right[k]);
            assert(outranks(similarities, left[k] as int, left[i] as int));
        }
        assert(k > i);
    }
}

/// The order of similarities is that of the numbers they stand for: of two without a sign the one
/// with the larger bits is the larger, of two with one the smaller, and any without a sign is above
/// any with one.
pub proof fn similarities_are_ordered_as_numbers(a: u32, b: u32)
    ensures
        a < b < 0x8000_0000 ==> place(a) < place(b),
        0x8000_0000 <= a < b ==> place(b) < place(a),
        a < 0x8000_0000 <= b ==> place(b) < place(a),
        a != b ==> place(a) != place(b),
{
}

/// A ranking puts the more similar passage first, and leaves out none that is more similar than one
/// it holds; of equally similar ones it prefers the earlier.
pub proof fn the_most_similar_passages_are_picked(
    picks: Seq<usize>,
    similarities: Seq<u32>,
    n: int,
    top_k: int,
    a: int,
    b: int,
)
    requires
        is_ranking(picks, similarities, n, top_k),
        0 <= n <= similarities.len(),
        0 <= a < n,
        0 <= b < picks.len(),
        place(similarities[a]) > place(similarities[picks[b] as int]) || (place(similarities[a])
            == place(similarities[picks[b] as int]) && a < picks[b]),
    ensures
        exists|i: int| 0 <= i < b && #[trigger] picks[i] == a,
{
    if !picked(picks, a) {
        assert(outranks(similarities, picks[b] as int, a));
    } else {
        let i = choose|i: int| 0 <= i < picks.len() && #[trigger] picks[i] == a;
        if b < i {
            assert(outranks(similarities, picks[b] as int, picks[i] as int));
        }
    }
}

/// The hits are the best there are: as many as asked for or as there are passages, the most similar
/// first, each a passage with its own similarity, and no passage left out is more similar than one
/// of them.
pub proof fn the_best_passages_are_found(
    chunks: &Vec<String>,
    similarities: &Vec<u32>,
    top_k: usize,
    hits: Vec<SearchHit>,
    j: int,
)
    requires
        similarities@.len() == chunks@.len(),
        call_ensures(search_hits, (chunks, similarities, top_k), hits),
        0 <= j < hits@.len(),
    ensures
        hits@.len() == if chunks@.len() <= top_k {
            chunks@.len() as int
        } else {
            top_k as int
        },
        exists|a: int|
            0 <= a < chunks@.len() && (#[trigger] chunks@[a])@ == hits@[j].text@ && similarities@[a]
                == hits@[j].similarity,
        forall|i: int|
            0 <= i < j ==> place((#[trigger] hits@[i]).similarity) >= place(hits@[j].similarity),
        forall|a: int|
            0 <= a < chunks@.len() && place(#[trigger] similarities@[a]) > place(
                hits@[j].similarity,
            ) ==> exists|i: int| 0 <= i < j && (#[trigger] hits@[i]).text@ == chunks@[a]@,
{
    let n = chunks@.len() as int;
    let picks = choose|picks: Seq<usize>| #[trigger]
        is_ranking(picks, similarities@, n, top_k as int) && hits@.len() == picks.len() && forall|
            j: int,
        |
            0 <= j < picks.len() ==> (#[trigger] hits@[j]).text@ == chunks@[picks[j] as int]@
                && hits@[j].similarity == similarities@[picks[j] as int];
    assert(picks[j] < n);
    assert(chunks@[picks[j] as int]@ == hits@[j].text@);
    assert forall|i: int| 0 <= i < j implies place((#[trigger] hits@[i]).similarity) >= place(
        hits@[j].similarity,
    ) by {
        assert(outranks(similarities@, picks[i] as int, picks[j] as int));
    }
    assert forall|a: int|
        0 <= a < n && place(#[trigger] similarities@[a]) > place(
            hits@[j].similarity,
        ) implies exists|i: int| 0 <= i < j && (#[trigger] hits@[i]).text@ == chunks@[a]@ by {
        the_most_similar_passages_are_picked(picks, similarities@, n, top_k as int, a, j);
        let i = choose|i: int| 0 <= i < j && #[trigger] picks[i] == a;
        assert(hits@[i].text@ == chunks@[picks[i] as int]@);
    }
}

/// Nothing is found without a search only where there is nothing to search or nothing is asked for;
/// otherwise the configured model is what embeds.
pub proof fn a_search_needs_a_model(
    chunks: &Vec<String>,
    top_k: usize,
    embed_model: Option<String>,
    plan: Result<SearchPlan, EmbedModelNotSet>,
)
    requires
        call_ensures(plan_search, (chunks, top_k, embed_model), plan),
    ensures
        plan == Ok::<SearchPlan, EmbedModelNotSet>(SearchPlan::NoHits) <==> chunks@.len() == 0
            || top_k == 0,
        plan is Err <==> chunks@.len() > 0 && top_k > 0 && embed_model is None,
        plan matches Ok(SearchPlan::Embed { model }) ==> embed_model == Some(model),
{
}

} // verus!
