//! Small tables of texts: names with a value each.

use vstd::prelude::*;

use crate::text::{
    lemma_precedes_irreflexive, lemma_precedes_total, lemma_precedes_transitive, precedes,
    same_text, stands_before,
};

verus! {

/// What a table of pairs maps each name to; of two pairs with one name the later counts.
pub open spec fn table(pairs: Seq<(String, String)>) -> Map<Seq<char>, Seq<char>>
    decreases pairs.len(),
{
    if pairs.len() == 0 {
        Map::empty()
    } else {
        table(pairs.drop_last()).insert(pairs.last().0@, pairs.last().1@)
    }
}

/// The value under `name`.
pub fn lookup<'a>(pairs: &'a Vec<(String, String)>, name: &str) -> (value: Option<&'a str>)
    ensures
        match value {
            Some(v) => table(pairs@).dom().contains(name@) && table(pairs@)[name@] == v@,
            None => !table(pairs@).dom().contains(name@),
        },
{
    let mut i: usize = pairs.len();
    assert(pairs@.take(i as int) =~= pairs@);
    while i > 0
        invariant
            i <= pairs@.len(),
            table(pairs@).dom().contains(name@) == table(pairs@.take(i as int)).dom().contains(
                name@,
            ),
            table(pairs@).dom().contains(name@) ==> table(pairs@)[name@] == table(
                pairs@.take(i as int),
            )[name@],
        decreases i,
    {
        i -= 1;
        assert(pairs@.take(i + 1).drop_last() =~= pairs@.take(i as int));
        if same_text(pairs[i].0.as_str(), name) {
            return Some(pairs[i].1.as_str());
        }
    }
    None
}

/// Whether pairs stand in the order of their names, each name once.
pub open spec fn in_name_order<V>(pairs: Seq<(String, V)>) -> bool {
    forall|i: int, j: int|
        0 <= i < j < pairs.len() ==> precedes((#[trigger] pairs[i]).0@, (#[trigger] pairs[j]).0@)
}

/// The value that stands under `name`; of two the later counts.
pub open spec fn value_under<V>(pairs: Seq<(String, V)>, name: Seq<char>) -> Option<V>
    decreases pairs.len(),
{
    if pairs.len() == 0 {
        None
    } else if pairs.last().0@ == name {
        Some(pairs.last().1)
    } else {
        value_under(pairs.drop_last(), name)
    }
}

/// Whether `after` is `before` with `value` under `name`, and nothing else changed.
pub open spec fn holds_also<V>(
    before: Seq<(String, V)>,
    after: Seq<(String, V)>,
    name: Seq<char>,
    value: V,
) -> bool {
    &&& value_under(after, name) == Some(value)
    &&& forall|other: Seq<char>|
        other != name ==> #[trigger] value_under(after, other) == value_under(before, other)
}

/// What stands under a name stands in one of the pairs.
pub proof fn lemma_value_under<V>(pairs: Seq<(String, V)>, name: Seq<char>)
    ensures
        match value_under(pairs, name) {
            Some(value) => exists|i: int|
                0 <= i < pairs.len() && (#[trigger] pairs[i]).0@ == name && pairs[i].1 == value,
            None => forall|i: int| 0 <= i < pairs.len() ==> (#[trigger] pairs[i]).0@ != name,
        },
    decreases pairs.len(),
{
    if pairs.len() > 0 {
        let front = pairs.drop_last();
        if pairs.last().0@ == name {
            assert(pairs[pairs.len() - 1].0@ == name);
        } else {
            lemma_value_under(front, name);
            match value_under(front, name) {
                Some(value) => {
                    let i = choose|i: int|
                        0 <= i < front.len() && (#[trigger] front[i]).0@ == name && front[i].1
                            == value;
                    assert(pairs[i].0@ == name && pairs[i].1 == value);
                },
                None => {
                    assert forall|i: int| 0 <= i < pairs.len() implies (#[trigger] pairs[i]).0@
                        != name by {
                        if i < front.len() {
                            assert(front[i].0@ != name);
                        }
                    }
                },
            }
        }
    }
}

/// In name order, what stands under the name of a pair is the pair's value.
pub proof fn lemma_value_at<V>(pairs: Seq<(String, V)>, at: int)
    requires
        in_name_order(pairs),
        0 <= at < pairs.len(),
    ensures
        value_under(pairs, pairs[at].0@) == Some(pairs[at].1),
{
    let name = pairs[at].0@;
    lemma_value_under(pairs, name);
    match value_under(pairs, name) {
        Some(value) => {
            let i = choose|i: int|
                0 <= i < pairs.len() && (#[trigger] pairs[i]).0@ == name && pairs[i].1 == value;
            lemma_precedes_irreflexive(name);
            assert(i == at);
        },
        None => {
            assert(pairs[at].0@ != name);
        },
    }
}

proof fn lemma_table_holds(pairs: Seq<(String, String)>, name: Seq<char>)
    ensures
        table(pairs).dom().contains(name) == (value_under(pairs, name) is Some),
        value_under(pairs, name) matches Some(value) ==> table(pairs)[name] == value@,
    decreases pairs.len(),
{
    if pairs.len() > 0 {
        lemma_table_holds(pairs.drop_last(), name);
    }
}

/// Where `name` stands, or would stand.
fn place<V>(pairs: &Vec<(String, V)>, name: &str) -> (at: usize)
    requires
        in_name_order(pairs@),
    ensures
        at <= pairs@.len(),
        forall|i: int| 0 <= i < at ==> precedes((#[trigger] pairs@[i]).0@, name@),
        forall|i: int| at <= i < pairs@.len() ==> !precedes((#[trigger] pairs@[i]).0@, name@),
{
    let mut at: usize = 0;
    while at < pairs.len() && stands_before(pairs[at].0.as_str(), name)
        invariant
            at <= pairs@.len(),
            forall|i: int| 0 <= i < at ==> precedes((#[trigger] pairs@[i]).0@, name@),
        decreases pairs@.len() - at,
    {
        at += 1;
    }
    proof {
        assert forall|i: int| at <= i < pairs@.len() implies !precedes(
            (#[trigger] pairs@[i]).0@,
            name@,
        ) by {
            if i > at && precedes(pairs@[i].0@, name@) {
                assert(precedes(pairs@[at as int].0@, pairs@[i].0@));
                lemma_precedes_transitive(pairs@[at as int].0@, pairs@[i].0@, name@);
            }
        }
    }
    at
}

proof fn lemma_entered<V>(
    before: Seq<(String, V)>,
    after: Seq<(String, V)>,
    at: int,
    gap: int,
    name: String,
    value: V,
)
    requires
        in_name_order(before),
        0 <= at <= before.len(),
        gap == 0 || gap == 1,
        gap == 1 ==> at < before.len() && before[at].0@ == name@,
        after.len() == before.len() + 1 - gap,
        forall|i: int| 0 <= i < at ==> #[trigger] after[i] == before[i],
        after[at] == (name, value),
        forall|i: int| at < i < after.len() ==> #[trigger] after[i] == before[i - 1 + gap],
        forall|i: int| 0 <= i < at ==> precedes((#[trigger] before[i]).0@, name@),
        forall|i: int| at + gap <= i < before.len() ==> precedes(name@, (#[trigger] before[i]).0@),
    ensures
        in_name_order(after),
        holds_also(before, after, name@, value),
{
    assert forall|i: int, j: int| 0 <= i < j < after.len() implies precedes(
        (#[trigger] after[i]).0@,
        (#[trigger] after[j]).0@,
    ) by {
        let a = if i < at {
            i
        } else {
            i - 1 + gap
        };
        let b = if j < at {
            j
        } else {
            j - 1 + gap
        };
        if i == at {
            assert(precedes(name@, before[b].0@));
        } else if j == at {
            assert(precedes(before[a].0@, name@));
        } else {
            assert(after[i] == before[a]);
            assert(after[j] == before[b]);
            assert(precedes(before[a].0@, before[b].0@));
        }
    }
    lemma_value_at(after, at);
    assert forall|other: Seq<char>| other != name@ implies #[trigger] value_under(after, other)
        == value_under(before, other) by {
        lemma_value_under(before, other);
        lemma_value_under(after, other);
        match value_under(before, other) {
            Some(held) => {
                let i = choose|i: int|
                    0 <= i < before.len() && (#[trigger] before[i]).0@ == other && before[i].1
                        == held;
                let moved = if i < at {
                    i
                } else {
                    i + 1 - gap
                };
                assert(after[moved] == before[i]);
                lemma_value_at(after, moved);
            },
            None => {
                match value_under(after, other) {
                    Some(held) => {
                        let i = choose|i: int|
                            0 <= i < after.len() && (#[trigger] after[i]).0@ == other
                                && after[i].1 == held;
                        let origin = if i < at {
                            i
                        } else {
                            i - 1 + gap
                        };
                        assert(after[i] == before[origin]);
                    },
                    None => {},
                }
            },
        }
    }
}

/// Put `value` under `name`, in place of what stood there, and keep the order of the names.
pub fn enter<V>(pairs: &mut Vec<(String, V)>, name: String, value: V)
    requires
        in_name_order(old(pairs)@),
    ensures
        in_name_order(final(pairs)@),
        holds_also(old(pairs)@, final(pairs)@, name@, value),
{
    let at: usize = place(pairs, name.as_str());
    let present = at < pairs.len() && same_text(pairs[at].0.as_str(), name.as_str());
    let ghost before = pairs@;
    proof {
        let gap: int = if present {
            1
        } else {
            0
        };
        assert forall|i: int| at + gap <= i < before.len() implies precedes(
            name@,
            (#[trigger] before[i]).0@,
        ) by {
            lemma_precedes_total(before[i].0@, name@);
            if before[i].0@ == name@ && i > at {
                assert(precedes(before[at as int].0@, before[i].0@));
            }
        }
    }
    if present {
        let _ = pairs.remove(at);
    }
    let ghost said = name;
    let ghost given = value;
    pairs.insert(at, (name, value));
    proof {
        lemma_entered(
            before,
            pairs@,
            at as int,
            if present {
                1
            } else {
                0
            },
            said,
            given,
        );
    }
}

/// Put `value` under `name`, in place of what stood there, and keep the order of the names.
pub fn put(pairs: &mut Vec<(String, String)>, name: String, value: String)
    requires
        in_name_order(old(pairs)@),
    ensures
        in_name_order(final(pairs)@),
        table(final(pairs)@) == table(old(pairs)@).insert(name@, value@),
{
    let ghost before = pairs@;
    let ghost said = name@;
    let ghost given = value;
    enter(pairs, name, value);
    proof {
        let expected = table(before).insert(said, given@);
        assert forall|other: Seq<char>| (#[trigger] table(pairs@).dom().contains(other)
            <==> expected.dom().contains(other)) && (table(pairs@).dom().contains(other) ==> table(
            pairs@,
        )[other] == expected[other]) by {
            lemma_table_holds(pairs@, other);
            lemma_table_holds(before, other);
            if other != said {
                assert(value_under(pairs@, other) == value_under(before, other));
            }
        }
        assert(table(pairs@).dom() =~= expected.dom());
        assert(table(pairs@) =~= expected);
    }
}

/// One order and one set of names: two such lists that hold the same under every name have the
/// same names in the same places.
pub proof fn name_order_is_unique<V>(left: Seq<(String, V)>, right: Seq<(String, V)>)
    requires
        in_name_order(left),
        in_name_order(right),
        forall|name: Seq<char>| #[trigger] value_under(left, name) == value_under(right, name),
    ensures
        left.len() == right.len(),
        forall|i: int|
            0 <= i < left.len() ==> (#[trigger] left[i]).0@ == right[i].0@ && left[i].1
                == right[i].1,
    decreases left.len(),
{
    if left.len() > 0 && right.len() > 0 {
        let a = left.last().0@;
        let b = right.last().0@;
        let m = left.len() - 1;
        let n = right.len() - 1;
        lemma_value_at(left, m);
        lemma_value_at(right, n);
        lemma_value_under(right, a);
        lemma_value_under(left, b);
        lemma_precedes_total(a, b);
        assert(value_under(right, a) == value_under(left, a));
        assert(value_under(left, b) == value_under(right, b));
        let i = choose|i: int| 0 <= i < right.len() && (#[trigger] right[i]).0@ == a;
        let j = choose|j: int| 0 <= j < left.len() && (#[trigger] left[j]).0@ == b;
        if a != b {
            assert(i < n && j < m);
            assert(precedes(right[i].0@, right[n].0@));
            assert(precedes(left[j].0@, left[m].0@));
            lemma_precedes_transitive(a, b, a);
            lemma_precedes_irreflexive(a);
        }
        let front = left.drop_last();
        let back = right.drop_last();
        assert forall|name: Seq<char>| #[trigger] value_under(front, name) == value_under(
            back,
            name,
        ) by {
            assert(value_under(left, name) == value_under(right, name));
            if name == a {
                lemma_value_under(front, name);
                lemma_value_under(back, name);
                lemma_precedes_irreflexive(a);
                assert forall|k: int| 0 <= k < front.len() implies (#[trigger] front[k]).0@
                    != a by {
                    assert(precedes(left[k].0@, left[m].0@));
                }
                assert forall|k: int| 0 <= k < back.len() implies (#[trigger] back[k]).0@ != a by {
                    assert(precedes(right[k].0@, right[n].0@));
                }
            }
        }
        name_order_is_unique(front, back);
        assert forall|k: int| 0 <= k < left.len() implies (#[trigger] left[k]).0@ == right[k].0@
            && left[k].1 == right[k].1 by {
            if k < m {
                assert(front[k].0@ == back[k].0@ && front[k].1 == back[k].1);
            }
        }
    } else if left.len() > 0 {
        lemma_value_at(left, 0);
        assert(value_under(right, left[0].0@) is None);
    } else if right.len() > 0 {
        lemma_value_at(right, 0);
        assert(value_under(left, right[0].0@) is None);
    }
}

} // verus!
