//! Cutting a text into passages.

use vstd::prelude::*;

use crate::text::{blank, chars_of, cut, is_blank, is_white, occurs_at, text_of, views};

verus! {

/// The passages of a text: `size` characters each, the last one perhaps fewer, each repeating
/// the last `overlap` characters of the one before. Blank ones are left out.
pub open spec fn passages(s: Seq<char>, size: nat, overlap: nat) -> Seq<Seq<char>>
    decreases s.len(),
    when overlap < size
{
    if s.len() == 0 {
        seq![]
    } else {
        let first = cut(s, size);
        let rest = if s.len() <= size {
            seq![]
        } else {
            passages(s.skip(size - overlap), size, overlap)
        };
        if blank(first) {
            rest
        } else {
            seq![first] + rest
        }
    }
}

/// Cut a text into passages of `size` characters that share `overlap` characters with the next.
pub fn fixed_length_chunking(text: &str, size: usize, overlap: usize) -> (chunks: Vec<String>)
    requires
        overlap < size,
    ensures
        views(chunks@) == passages(text@, size as nat, overlap as nat),
{
    let chars = chars_of(text);
    let mut chunks: Vec<String> = Vec::new();
    let mut start: usize = 0;
    let mut done = chars.len() == 0;
    assert(chars@.skip(0) =~= chars@);
    assert(views(chunks@) =~= seq![]);
    while !done
        invariant
            overlap < size,
            start <= chars@.len(),
            !done ==> start < chars@.len(),
            passages(chars@, size as nat, overlap as nat) == views(chunks@) + if done {
                seq![]
            } else {
                passages(chars@.skip(start as int), size as nat, overlap as nat)
            },
        decreases chars@.len() - start + if done {
            0int
        } else {
            1
        },
    {
        let left: usize = chars.len() - start;
        let end: usize = if left <= size {
            chars.len()
        } else {
            start + size
        };
        let piece = text_of(vstd::slice::slice_subrange(chars.as_slice(), start, end));
        let ghost before = views(chunks@);
        let ghost tail = chars@.skip(start as int);
        assert(piece@ =~= cut(tail, size as nat));
        let empty = is_blank(piece.as_str());
        let ghost said = piece@;
        if !empty {
            chunks.push(piece);
            assert(views(chunks@) =~= before.push(said));
        }
        if left <= size {
            done = true;
            proof {
                let rest: Seq<Seq<char>> = seq![];
                assert(before + (seq![said] + rest) =~= before.push(said));
                assert(before + rest =~= before);
                assert(views(chunks@) + rest =~= views(chunks@));
            }
        } else {
            proof {
                let rest = passages(tail.skip(size - overlap), size as nat, overlap as nat);
                assert(tail.skip(size - overlap) =~= chars@.skip(start + size - overlap));
                assert(before + (seq![said] + rest) =~= before.push(said) + rest);
            }
            start = start + (size - overlap);
        }
    }
    assert(views(chunks@) + seq![] =~= views(chunks@));
    chunks
}

/// A passage is a part of the text, not blank and not longer than asked for.
pub proof fn passages_come_from_the_text(s: Seq<char>, size: nat, overlap: nat)
    requires
        overlap < size,
    ensures
        forall|k: int|
            0 <= k < passages(s, size, overlap).len() ==> {
                let passage = #[trigger] passages(s, size, overlap)[k];
                &&& !blank(passage)
                &&& passage.len() <= size
                &&& exists|at: int| occurs_at(s, passage, at)
            },
    decreases s.len(),
{
    if s.len() > 0 {
        let first = cut(s, size);
        let step = size - overlap;
        let rest = if s.len() <= size {
            seq![]
        } else {
            passages(s.skip(step), size, overlap)
        };
        if s.len() > size {
            passages_come_from_the_text(s.skip(step), size, overlap);
        }
        let all = passages(s, size, overlap);
        assert forall|k: int| 0 <= k < all.len() implies {
            let passage = #[trigger] all[k];
            &&& !blank(passage)
            &&& passage.len() <= size
            &&& exists|at: int| occurs_at(s, passage, at)
        } by {
            let shift: int = if blank(first) {
                0
            } else {
                1
            };
            if k < shift {
                assert(s.subrange(0, first.len() as int) =~= first);
                assert(occurs_at(s, first, 0));
            } else {
                let passage = rest[k - shift];
                assert(all[k] == passage);
                let at = choose|at: int| occurs_at(s.skip(step), passage, at);
                assert(s.subrange(step + at, step + at + passage.len()) =~= s.skip(step).subrange(
                    at,
                    at + passage.len(),
                ));
                assert(occurs_at(s, passage, step + at));
            }
        }
    }
}

/// Whether some passage covers position `i` of the text.
pub open spec fn covered(s: Seq<char>, parts: Seq<Seq<char>>, i: int) -> bool {
    exists|k: int, at: int|
        0 <= k < parts.len() && #[trigger] occurs_at(s, parts[k], at) && at <= i < at
            + parts[k].len()
}

/// Nothing but white space is lost: every other character of the text stands in a passage.
pub proof fn passages_cover_the_text(s: Seq<char>, size: nat, overlap: nat, i: int)
    requires
        overlap < size,
        0 <= i < s.len(),
        !is_white(s[i]),
    ensures
        covered(s, passages(s, size, overlap), i),
    decreases s.len(),
{
    let first = cut(s, size);
    let step = size - overlap;
    let all = passages(s, size, overlap);
    if i < size {
        assert(first[i] == s[i]);
        assert(!blank(first));
        assert(s.subrange(0, first.len() as int) =~= first);
        assert(all[0] == first);
        assert(occurs_at(s, all[0], 0));
    } else {
        let tail = s.skip(step);
        passages_cover_the_text(tail, size, overlap, i - step);
        let rest = passages(tail, size, overlap);
        let (k, at) = choose|k: int, at: int|
            0 <= k < rest.len() && #[trigger] occurs_at(tail, rest[k], at) && at <= i - step < at
                + rest[k].len();
        let shift: int = if blank(first) {
            0
        } else {
            1
        };
        assert(all[k + shift] == rest[k]);
        assert(s.subrange(step + at, step + at + rest[k].len()) =~= tail.subrange(
            at,
            at + rest[k].len(),
        ));
        assert(occurs_at(s, all[k + shift], step + at));
    }
}

/// In a text without white space every passage but the last is full, and the next one starts with
/// the last `overlap` characters of it; the first opens the text and the last ends it.
pub proof fn passages_overlap(s: Seq<char>, size: nat, overlap: nat, k: int)
    requires
        overlap < size,
        s.len() > 0,
        forall|i: int| 0 <= i < s.len() ==> !is_white(#[trigger] s[i]),
        0 <= k < passages(s, size, overlap).len() - 1,
    ensures
        ({
            let all = passages(s, size, overlap);
            &&& all[k].len() == size
            &&& all[k].skip(size - overlap) == all[k + 1].take(overlap as int)
        }),
    decreases s.len(),
{
    let first = cut(s, size);
    let all = passages(s, size, overlap);
    assert(first[0] == s[0]);
    assert(!blank(first));
    if s.len() > size {
        let tail = s.skip(size - overlap);
        let rest = passages(tail, size, overlap);
        assert forall|i: int| 0 <= i < tail.len() implies !is_white(#[trigger] tail[i]) by {
            assert(tail[i] == s[i + (size - overlap)]);
        }
        assert(all =~= seq![first] + rest);
        if k > 0 {
            assert(all[k] == rest[k - 1] && all[k + 1] == rest[k]);
            passages_overlap(tail, size, overlap, k - 1);
        } else {
            let second = cut(tail, size);
            assert(second[0] == tail[0]);
            assert(!blank(second));
            assert(rest[0] == second);
            assert(first.skip(size - overlap) =~= second.take(overlap as int));
        }
    } else {
        assert(all =~= seq![first]);
    }
}

/// A text without white space opens with its first passage and ends with its last.
pub proof fn passages_reach_both_ends(s: Seq<char>, size: nat, overlap: nat)
    requires
        overlap < size,
        s.len() > 0,
        forall|i: int| 0 <= i < s.len() ==> !is_white(#[trigger] s[i]),
    ensures
        ({
            let all = passages(s, size, overlap);
            &&& all.len() > 0
            &&& all[0].is_prefix_of(s)
            &&& all.last().len() <= s.len()
            &&& all.last() == s.skip(s.len() - all.last().len())
        }),
    decreases s.len(),
{
    let first = cut(s, size);
    let all = passages(s, size, overlap);
    assert(first[0] == s[0]);
    assert(!blank(first));
    if s.len() > size {
        let tail = s.skip(size - overlap);
        let rest = passages(tail, size, overlap);
        assert forall|i: int| 0 <= i < tail.len() implies !is_white(#[trigger] tail[i]) by {
            assert(tail[i] == s[i + (size - overlap)]);
        }
        passages_reach_both_ends(tail, size, overlap);
        assert(all =~= seq![first] + rest);
        assert(all.last() == rest.last());
        assert(s.skip(s.len() - all.last().len()) =~= tail.skip(tail.len() - rest.last().len()));
    } else {
        assert(all =~= seq![first]);
        assert(s.skip(0) =~= s);
    }
}

/// The passages that a text is cut into come from it, none longer than asked for, and hold all of
/// it but white space.
pub proof fn a_text_is_cut_without_loss(
    text: &str,
    size: usize,
    overlap: usize,
    chunks: Vec<String>,
    i: int,
    k: int,
)
    requires
        overlap < size,
        call_ensures(fixed_length_chunking, (text, size, overlap), chunks),
    ensures
        0 <= k < chunks@.len() ==> chunks@[k]@.len() <= size && !blank(chunks@[k]@) && exists|at: int|
            occurs_at(text@, chunks@[k]@, at),
        0 <= i < text@.len() && !is_white(text@[i]) ==> covered(text@, views(chunks@), i),
{
    passages_come_from_the_text(text@, size as nat, overlap as nat);
    if 0 <= i < text@.len() && !is_white(text@[i]) {
        passages_cover_the_text(text@, size as nat, overlap as nat, i);
    }
    if 0 <= k < chunks@.len() {
        assert(views(chunks@)[k] == chunks@[k]@);
        assert(passages(text@, size as nat, overlap as nat)[k] == chunks@[k]@);
    }
}

} // verus!
