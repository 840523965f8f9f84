//! Asking for embeddings in batches, and putting the replies in order.

use vstd::prelude::*;

use crate::text::{decimal, decimal_text};

verus! {

/// The most inputs one embeddings request carries.
pub const MAX_BATCH_SIZE: usize = 2048;

/// Where batch `i` of `total` inputs starts and ends.
pub open spec fn batch(total: nat, i: int) -> (int, int) {
    let start = i * MAX_BATCH_SIZE;
    let end = start + MAX_BATCH_SIZE;
    (start, if end <= total {
        end
    } else {
        total as int
    })
}

/// How many batches `total` inputs make.
pub open spec fn batch_count(total: nat) -> int {
    (total + MAX_BATCH_SIZE - 1) / MAX_BATCH_SIZE as int
}

/// The ranges of inputs to ask for, one request each, in order: full batches, and the rest.
/// There is none for no inputs.
pub fn batches(total: usize) -> (ranges: Vec<(usize, usize)>)
    ensures
        ranges@.len() == batch_count(total as nat),
        forall|i: int|
            0 <= i < ranges@.len() ==> {
                &&& (#[trigger] ranges@[i]).0 == batch(total as nat, i).0
                &&& ranges@[i].1 == batch(total as nat, i).1
            },
{
    let mut ranges: Vec<(usize, usize)> = Vec::new();
    let mut start: usize = 0;
    while start < total
        invariant
            start <= total,
            start < total ==> start == ranges@.len() * MAX_BATCH_SIZE,
            start == total ==> ranges@.len() == batch_count(total as nat),
            forall|i: int|
                0 <= i < ranges@.len() ==> {
                    &&& (#[trigger] ranges@[i]).0 == batch(total as nat, i).0
                    &&& ranges@[i].1 == batch(total as nat, i).1
                },
        decreases total - start,
    {
        let end: usize = if total - start <= MAX_BATCH_SIZE {
            total
        } else {
            start + MAX_BATCH_SIZE
        };
        ranges.push((start, end));
        start = end;
    }
    ranges
}

/// Every input is in exactly one batch, none is larger than allowed, and none is empty.
pub proof fn batches_partition_the_inputs(total: nat, at: int)
    requires
        0 <= at < total,
    ensures
        ({
            let i = at / MAX_BATCH_SIZE as int;
            &&& 0 <= i < batch_count(total)
            &&& batch(total, i).0 <= at < batch(total, i).1
        }),
        forall|i: int|
            0 <= i < batch_count(total) ==> {
                let (start, end) = #[trigger] batch(total, i);
                &&& 0 < end - start <= MAX_BATCH_SIZE
                &&& (start <= at < end ==> i == at / MAX_BATCH_SIZE as int)
            },
{
}

/// A reply that does not hold one vector for each input.
#[derive(Debug, Clone, Copy, PartialEq, Eq, Structural)]
pub struct CountMismatch {
    pub vectors: usize,
    pub inputs: usize,
}

impl CountMismatch {
    /// What is said of it.
    pub fn message(&self) -> (text: String)
        ensures
            text@ == "embedding API returned "@ + decimal(self.vectors as nat) + " vectors for "@
                + decimal(self.inputs as nat) + " inputs"@,
    {
        let vectors = decimal_text(self.vectors as u64);
        let inputs = decimal_text(self.inputs as u64);
        let mut text = "embedding API returned ".to_owned();
        text.append(vectors.as_str());
        text.append(" vectors for ");
        text.append(inputs.as_str());
        text.append(" inputs");
        text
    }
}

/// Whether the vectors stand by rising index.
pub open spec fn by_index<V>(data: Seq<(u32, V)>) -> bool {
    forall|i: int, j: int| 0 <= i < j < data.len() ==> (#[trigger] data[i]).0 <= (#[trigger] data[j]).0
}

/// Picks the vectors with one index.
pub open spec fn has_index<V>(index: u32) -> spec_fn((u32, V)) -> bool {
    |entry: (u32, V)| entry.0 == index
}

/// The vectors with one index, in order.
pub open spec fn with_index<V>(data: Seq<(u32, V)>, index: u32) -> Seq<(u32, V)> {
    data.filter(has_index(index))
}

/// Whether `sorted` holds what `data` does by rising index, vectors with one index in the order
/// they came.
pub open spec fn sorted_from<V>(sorted: Seq<(u32, V)>, data: Seq<(u32, V)>) -> bool {
    &&& by_index(sorted)
    &&& sorted.len() == data.len()
    &&& forall|index: u32| #[trigger] with_index(sorted, index) == with_index(data, index)
}

/// The vectors alone.
pub open spec fn vectors_of<V>(data: Seq<(u32, V)>) -> Seq<V> {
    data.map_values(|entry: (u32, V)| entry.1)
}

proof fn lemma_other_index<V>(data: Seq<(u32, V)>, index: u32)
    requires
        forall|i: int| 0 <= i < data.len() ==> (#[trigger] data[i]).0 != index,
    ensures
        with_index(data, index) == Seq::<(u32, V)>::empty(),
    decreases data.len(),
{
    reveal(Seq::filter);
    if data.len() > 0 {
        lemma_other_index(data.drop_last(), index);
    }
}

proof fn lemma_insert_keeps_order<V>(sorted: Seq<(u32, V)>, at: int, entry: (u32, V), index: u32)
    requires
        0 <= at <= sorted.len(),
        forall|i: int| at <= i < sorted.len() ==> (#[trigger] sorted[i]).0 > entry.0,
    ensures
        with_index(sorted.insert(at, entry), index) == with_index(sorted.push(entry), index),
{
    let front = sorted.take(at);
    let back = sorted.skip(at);
    let pick = has_index::<V>(index);
    assert(sorted.insert(at, entry) =~= front.push(entry) + back);
    assert(sorted.push(entry) =~= (front + back).push(entry));
    Seq::filter_distributes_over_add(front.push(entry), back, pick);
    Seq::filter_distributes_over_add(front, back, pick);
    reveal(Seq::filter);
    assert(front.push(entry).drop_last() =~= front);
    assert((front + back).push(entry).drop_last() =~= front + back);
    if entry.0 == index {
        lemma_other_index(back, index);
        assert(front.filter(pick).push(entry) + Seq::<(u32, V)>::empty() =~= (front.filter(pick)
            + Seq::<(u32, V)>::empty()).push(entry));
    }
}

proof fn lemma_first_with_index<V>(data: Seq<(u32, V)>)
    requires
        data.len() > 0,
    ensures
        with_index(data, data[0].0) == seq![data[0]] + with_index(data.drop_first(), data[0].0),
        forall|index: u32|
            index != data[0].0 ==> #[trigger] with_index(data, index) == with_index(
                data.drop_first(),
                index,
            ),
{
    let first = seq![data[0]];
    let rest = data.drop_first();
    assert(data =~= first + rest);
    assert forall|index: u32| #[trigger]
        with_index(data, index) == with_index(first, index) + with_index(rest, index) by {
        Seq::filter_distributes_over_add(first, rest, has_index::<V>(index));
    }
    assert forall|index: u32| #[trigger]
        with_index(first, index) == if index == data[0].0 {
            first
        } else {
            Seq::<(u32, V)>::empty()
        } by {
        reveal(Seq::filter);
        assert(first.drop_last() =~= Seq::<(u32, V)>::empty());
        assert(first.drop_last().filter(has_index::<V>(index)) =~= Seq::<(u32, V)>::empty());
        assert(with_index(first, index) =~= if index == data[0].0 {
            first
        } else {
            Seq::<(u32, V)>::empty()
        });
    }
    assert forall|index: u32| index != data[0].0 implies #[trigger] with_index(data, index)
        == with_index(rest, index) by {
        assert(with_index(first, index) + with_index(rest, index) =~= with_index(rest, index));
    }
}

proof fn lemma_has_first<V>(data: Seq<(u32, V)>, index: u32)
    requires
        by_index(data),
        with_index(data, index).len() > 0,
    ensures
        data.len() > 0,
        data[0].0 <= index,
{
    if data.len() == 0 || data[0].0 > index {
        assert forall|i: int| 0 <= i < data.len() implies (#[trigger] data[i]).0 != index by {
            if i > 0 {
                assert(data[0].0 <= data[i].0);
            }
        }
        lemma_other_index(data, index);
    }
}

/// There is one order to put a reply in.
pub proof fn replies_have_one_order<V>(
    left: Seq<(u32, V)>,
    right: Seq<(u32, V)>,
    data: Seq<(u32, V)>,
)
    requires
        sorted_from(left, data),
        sorted_from(right, data),
    ensures
        left == right,
{
    assert forall|index: u32| #[trigger] with_index(left, index) == with_index(right, index) by {
        assert(with_index(left, index) == with_index(data, index));
        assert(with_index(right, index) == with_index(data, index));
    }
    lemma_one_order(left, right);
}

proof fn lemma_one_order<V>(left: Seq<(u32, V)>, right: Seq<(u32, V)>)
    requires
        by_index(left),
        by_index(right),
        left.len() == right.len(),
        forall|index: u32| #[trigger] with_index(left, index) == with_index(right, index),
    ensures
        left == right,
    decreases left.len(),
{
    if left.len() > 0 {
        let (a, b) = (left[0].0, right[0].0);
        lemma_first_with_index(left);
        lemma_first_with_index(right);
        assert(with_index(left, a) == with_index(right, a));
        assert(with_index(left, b) == with_index(right, b));
        lemma_has_first(right, a);
        lemma_has_first(left, b);
        assert(with_index(left, a)[0] == left[0]);
        assert(with_index(right, a)[0] == right[0]);
        let (rest_left, rest_right) = (left.drop_first(), right.drop_first());
        assert forall|index: u32| #[trigger]
            with_index(rest_left, index) == with_index(rest_right, index) by {
            assert(with_index(left, index) == with_index(right, index));
            if index == a {
                assert(with_index(left, a).drop_first() =~= with_index(rest_left, a));
                assert(with_index(right, a).drop_first() =~= with_index(rest_right, a));
            }
        }
        assert(by_index(rest_left)) by {
            assert forall|i: int, j: int| 0 <= i < j < rest_left.len() implies (
            #[trigger] rest_left[i]).0 <= (#[trigger] rest_left[j]).0 by {
                assert(left[i + 1].0 <= left[j + 1].0);
            }
        }
        assert(by_index(rest_right)) by {
            assert forall|i: int, j: int| 0 <= i < j < rest_right.len() implies (
            #[trigger] rest_right[i]).0 <= (#[trigger] rest_right[j]).0 by {
                assert(right[i + 1].0 <= right[j + 1].0);
            }
        }
        lemma_one_order(rest_left, rest_right);
        assert(left =~= seq![left[0]] + rest_left);
        assert(right =~= seq![right[0]] + rest_right);
    } else {
        assert(left =~= right);
    }
}

fn sort_by_index<V>(data: Vec<(u32, V)>) -> (sorted: Vec<(u32, V)>)
    ensures
        sorted_from(sorted@, data@),
{
    let ghost given = data@;
    let mut left = data;
    let mut sorted: Vec<(u32, V)> = Vec::new();
    let mut done: usize = 0;
    let total: usize = left.len();
    assert(given.take(0) =~= sorted@);
    assert(left@ =~= given.skip(0));
    while done < total
        invariant
            done <= total == given.len(),
            left@ == given.skip(done as int),
            sorted_from(sorted@, given.take(done as int)),
        decreases total - done,
    {
        let entry = left.remove(0);
        let mut at: usize = sorted.len();
        while at > 0 && sorted[at - 1].0 > entry.0
            invariant
                at <= sorted@.len(),
                forall|i: int| at <= i < sorted@.len() ==> (#[trigger] sorted@[i]).0 > entry.0,
            decreases at,
        {
            at -= 1;
        }
        let ghost before = sorted@;
        proof {
            assert(entry == given[done as int]);
            assert(given.take(done + 1) =~= given.take(done as int).push(entry));
            assert forall|index: u32| #[trigger]
                with_index(before.insert(at as int, entry), index) == with_index(
                    given.take(done + 1),
                    index,
                ) by {
                lemma_insert_keeps_order(before, at as int, entry, index);
                assert(with_index(before, index) == with_index(given.take(done as int), index));
                reveal(Seq::filter);
                assert(before.push(entry).drop_last() =~= before);
                assert(given.take(done as int).push(entry).drop_last() =~= given.take(done as int));
            }
        }
        sorted.insert(at, entry);
        assert(left@ =~= given.skip(done + 1));
        done += 1;
    }
    assert(given.take(done as int) =~= given);
    sorted
}

/// Put a batch's reply in the order of its inputs. A reply with too few or too many vectors is
/// refused: matching them to their inputs by position would be off for all that follow.
pub fn order_batch<V>(data: Vec<(u32, V)>, inputs: usize) -> (ordered: Result<Vec<V>, CountMismatch>)
    ensures
        match ordered {
            Ok(vectors) => data@.len() == inputs && exists|sorted: Seq<(u32, V)>|
                #[trigger] sorted_from(sorted, data@) && vectors@ == vectors_of(sorted),
            Err(mismatch) => data@.len() != inputs && mismatch == (CountMismatch {
                vectors: data.len(),
                inputs,
            }),
        },
{
    let vectors: usize = data.len();
    if vectors != inputs {
        return Err(CountMismatch { vectors, inputs });
    }
    let mut sorted = sort_by_index(data);
    let ghost all = sorted@;
    let mut ordered: Vec<V> = Vec::new();
    let mut i: usize = 0;
    assert(sorted@ =~= all.skip(0));
    while i < inputs
        invariant
            i <= inputs == all.len(),
            sorted@ == all.skip(i as int),
            ordered@ =~= vectors_of(all.take(i as int)),
        decreases inputs - i,
    {
        let entry = sorted.remove(0);
        ordered.push(entry.1);
        assert(sorted@ =~= all.skip(i + 1));
        i += 1;
    }
    assert(all.take(i as int) =~= all);
    Ok(ordered)
}

/// A reply that holds no vector at all.
#[derive(Debug, Clone, Copy, PartialEq, Eq, Structural)]
pub struct NoVectors;

impl NoVectors {
    /// What is said of it.
    pub fn message(&self) -> (text: String)
        ensures
            text@ == "embedding API returned no vectors"@,
    {
        "embedding API returned no vectors".to_owned()
    }
}

/// The vector of the one text that was asked about.
pub fn single<V>(vectors: Vec<V>) -> (vector: Result<V, NoVectors>)
    ensures
        match vector {
            Ok(v) => vectors@.len() > 0 && v == vectors@.last(),
            Err(_) => vectors@.len() == 0,
        },
{
    let mut vectors = vectors;
    match vectors.pop() {
        Some(vector) => Ok(vector),
        None => Err(NoVectors),
    }
}

/// Putting a reply in order loses no vector and adds none: it holds each as often as it came, and
/// by rising index.
pub proof fn ordering_loses_no_vector<V>(
    sorted: Seq<(u32, V)>,
    data: Seq<(u32, V)>,
    entry: (u32, V),
)
    requires
        sorted_from(sorted, data),
    ensures
        sorted.len() == data.len(),
        sorted.contains(entry) == data.contains(entry),
        forall|i: int, j: int|
            0 <= i < j < sorted.len() ==> (#[trigger] sorted[i]).0 <= (#[trigger] sorted[j]).0,
{
    lemma_has(sorted, entry);
    lemma_has(data, entry);
    assert(with_index(sorted, entry.0) == with_index(data, entry.0));
}

proof fn lemma_has<V>(data: Seq<(u32, V)>, entry: (u32, V))
    ensures
        with_index(data, entry.0).contains(entry) == data.contains(entry),
    decreases data.len(),
{
    reveal(Seq::filter);
    let picked = with_index(data, entry.0);
    if data.len() > 0 {
        let front = data.drop_last();
        let last = data.last();
        lemma_has(front, entry);
        let before = with_index(front, entry.0);
        if before.contains(entry) {
            let i = choose|i: int| 0 <= i < before.len() && before[i] == entry;
            assert(picked[i] == entry);
        }
        if front.contains(entry) {
            let i = choose|i: int| 0 <= i < front.len() && front[i] == entry;
            assert(data[i] == entry);
        }
        if last == entry {
            assert(data[data.len() - 1] == entry);
            assert(picked[before.len() as int] == entry);
        }
        if data.contains(entry) && last != entry {
            let i = choose|i: int| 0 <= i < data.len() && data[i] == entry;
            assert(front[i] == entry);
        }
        if picked.contains(entry) {
            let i = choose|i: int| 0 <= i < picked.len() && picked[i] == entry;
            if i < before.len() {
                assert(before[i] == entry);
            }
        }
    }
}

} // verus!
