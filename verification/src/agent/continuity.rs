//! What is remembered about a conversation from one run to the next.

use vstd::prelude::*;

use crate::text::same_text;

verus! {

/// A bounded cache from conversation to value. Past its capacity the least recently used
/// entry is forgotten.
pub struct ContinuityCache<V> {
    capacity: usize,
    entries: Vec<(String, V)>,
}

/// The position of the entry for `key`.
pub open spec fn position<V>(entries: Seq<(Seq<char>, V)>, key: Seq<char>) -> Option<int>
    decreases entries.len(),
{
    if entries.len() == 0 {
        None
    } else if entries.last().0 == key {
        Some(entries.len() - 1)
    } else {
        position(entries.drop_last(), key)
    }
}

/// The value held for `key`.
pub open spec fn value_for<V>(entries: Seq<(Seq<char>, V)>, key: Seq<char>) -> Option<V> {
    match position(entries, key) {
        Some(at) => Some(entries[at].1),
        None => None,
    }
}

/// The entries without the one for `key`.
pub open spec fn forgotten<V>(entries: Seq<(Seq<char>, V)>, key: Seq<char>) -> Seq<
    (Seq<char>, V),
> {
    match position(entries, key) {
        Some(at) => entries.remove(at),
        None => entries,
    }
}

/// The entries with the one for `key` made the most recently used.
pub open spec fn touched<V>(entries: Seq<(Seq<char>, V)>, key: Seq<char>) -> Seq<(Seq<char>, V)> {
    match position(entries, key) {
        Some(at) => entries.remove(at).push(entries[at]),
        None => entries,
    }
}

/// The entries with `value` held for `key` as the most recently used, and the least recently
/// used one forgotten where that makes one too many.
pub open spec fn stored<V>(
    entries: Seq<(Seq<char>, V)>,
    capacity: nat,
    key: Seq<char>,
    value: V,
) -> Seq<(Seq<char>, V)> {
    let all = forgotten(entries, key).push((key, value));
    if all.len() > capacity {
        all.drop_first()
    } else {
        all
    }
}

/// Whether no two entries are for one key.
pub open spec fn distinct_keys<V>(entries: Seq<(Seq<char>, V)>) -> bool {
    forall|i: int, j: int|
        0 <= i < j < entries.len() ==> (#[trigger] entries[i]).0 != (#[trigger] entries[j]).0
}

/// How many entries have been used more recently than the one for `key`.
pub open spec fn age<V>(entries: Seq<(Seq<char>, V)>, key: Seq<char>) -> Option<int> {
    match position(entries, key) {
        Some(at) => Some(entries.len() - 1 - at),
        None => None,
    }
}

proof fn lemma_position<V>(entries: Seq<(Seq<char>, V)>, key: Seq<char>)
    ensures
        match position(entries, key) {
            Some(at) => 0 <= at < entries.len() && entries[at].0 == key && forall|k: int|
                at < k < entries.len() ==> (#[trigger] entries[k]).0 != key,
            None => forall|k: int|
                0 <= k < entries.len() ==> (#[trigger] entries[k]).0 != key,
        },
    decreases entries.len(),
{
    if entries.len() > 0 && entries.last().0 != key {
        lemma_position(entries.drop_last(), key);
        assert forall|k: int| 0 <= k < entries.len() - 1 implies entries.drop_last()[k]
            == #[trigger] entries[k] by {}
    }
}

proof fn lemma_is_position<V>(entries: Seq<(Seq<char>, V)>, key: Seq<char>, at: int)
    requires
        0 <= at < entries.len(),
        entries[at].0 == key,
        distinct_keys(entries),
    ensures
        position(entries, key) == Some(at),
{
    lemma_position(entries, key);
}

/// What was stored is what is found, in a cache that can hold anything at all.
pub proof fn stored_value_is_found<V>(
    entries: Seq<(Seq<char>, V)>,
    capacity: nat,
    key: Seq<char>,
    value: V,
)
    requires
        distinct_keys(entries),
        capacity > 0,
        entries.len() <= capacity,
    ensures
        value_for(stored(entries, capacity, key, value), key) == Some(value),
        age(stored(entries, capacity, key, value), key) == Some(0int),
        distinct_keys(stored(entries, capacity, key, value)),
        stored(entries, capacity, key, value).len() <= capacity,
{
    lemma_position(entries, key);
    let kept = forgotten(entries, key);
    assert(distinct_keys(kept));
    assert forall|i: int| 0 <= i < kept.len() implies (#[trigger] kept[i]).0 != key by {
        match position(entries, key) {
            Some(at) => {
                if i < at {
                    assert(kept[i] == entries[i]);
                } else {
                    assert(kept[i] == entries[i + 1]);
                }
            },
            None => {},
        }
    }
    let after = stored(entries, capacity, key, value);
    lemma_is_position(after, key, after.len() - 1);
}

/// Storing for one conversation never changes what another one reads: its value stays, or is
/// forgotten, and it is forgotten only as the least recently used of a full cache.
pub proof fn storing_leaves_other_conversations_alone<V>(
    entries: Seq<(Seq<char>, V)>,
    capacity: nat,
    key: Seq<char>,
    value: V,
    other: Seq<char>,
)
    requires
        distinct_keys(entries),
        entries.len() <= capacity,
        other != key,
    ensures
        ({
            let after = stored(entries, capacity, key, value);
            &&& value_for(after, other) is None || value_for(after, other) == value_for(
                entries,
                other,
            )
            &&& match age(entries, other) {
                Some(old_age) => old_age + 1 < capacity ==> value_for(after, other) == value_for(
                    entries,
                    other,
                ) && match age(after, other) {
                    Some(new_age) => new_age <= old_age + 1,
                    None => false,
                },
                None => true,
            }
        }),
{
    let after = stored(entries, capacity, key, value);
    lemma_position(entries, key);
    lemma_position(entries, other);
    lemma_position(after, other);
    let kept = forgotten(entries, key);
    let all = kept.push((key, value));
    let gap = all.len() - after.len();
    assert(distinct_keys(after)) by {
        if capacity > 0 {
            stored_value_is_found(entries, capacity, key, value);
        } else {
            assert(entries =~= seq![]);
            assert(after =~= seq![]);
        }
    }
    match position(entries, other) {
        Some(at) => {
            let moved = match position(entries, key) {
                Some(removed) if removed < at => at - 1,
                _ => at,
            };
            assert(all[moved] == entries[at]);
            if moved >= gap {
                assert(after[moved - gap] == entries[at]);
                lemma_is_position(after, other, moved - gap);
            } else {
                assert(gap == 1 && moved == 0);
                match position(after, other) {
                    Some(found) => {
                        assert(after[found] == all[found + 1]);
                        if found + 1 < kept.len() {
                            let origin = match position(entries, key) {
                                Some(removed) if removed <= found + 1 => found + 2,
                                _ => found + 1,
                            };
                            assert(entries[origin].0 == other);
                        }
                    },
                    None => {},
                }
            }
        },
        None => {
            match position(after, other) {
                Some(found) => {
                    assert(after[found] == all[found + gap]);
                    if found + gap < kept.len() {
                        let origin = match position(entries, key) {
                            Some(removed) if removed <= found + gap => found + gap + 1,
                            _ => found + gap,
                        };
                        assert(entries[origin].0 == other);
                    }
                },
                None => {},
            }
        },
    }
}

/// Reading an entry changes no value and makes it the most recently used.
pub proof fn reading_refreshes<V>(
    entries: Seq<(Seq<char>, V)>,
    key: Seq<char>,
    other: Seq<char>,
)
    requires
        distinct_keys(entries),
    ensures
        value_for(touched(entries, key), other) == value_for(entries, other),
        age(entries, key) is Some ==> age(touched(entries, key), key) == Some(0int),
        distinct_keys(touched(entries, key)),
        touched(entries, key).len() == entries.len(),
{
    let after = touched(entries, key);
    lemma_position(entries, key);
    lemma_position(entries, other);
    match position(entries, key) {
        Some(at) => {
            assert forall|i: int| 0 <= i < after.len() implies #[trigger] after[i] == entries[if i
                < at {
                i
            } else if i == after.len() - 1 {
                at
            } else {
                i + 1
            }] by {}
            assert(distinct_keys(after));
            lemma_is_position(after, key, after.len() - 1);
            match position(entries, other) {
                Some(found) => {
                    let moved = if found < at {
                        found
                    } else if found == at {
                        after.len() - 1
                    } else {
                        found - 1
                    };
                    assert(after[moved] == entries[found]);
                    lemma_is_position(after, other, moved);
                },
                None => {
                    lemma_position(after, other);
                },
            }
        },
        None => {},
    }
}

/// Whether `key` has an entry and only conversations among `others` were used after it.
pub open spec fn used_lately<V>(
    entries: Seq<(Seq<char>, V)>,
    key: Seq<char>,
    others: Set<Seq<char>>,
) -> bool {
    position(entries, key) matches Some(at) && forall|i: int|
        at < i < entries.len() ==> others.contains((#[trigger] entries[i]).0)
}

/// Reading any of `others`, or the conversation itself, leaves its entry in use.
pub proof fn reading_keeps_an_entry<V>(
    entries: Seq<(Seq<char>, V)>,
    key: Seq<char>,
    others: Set<Seq<char>>,
    read: Seq<char>,
)
    requires
        distinct_keys(entries),
        used_lately(entries, key, others),
        read == key || others.contains(read),
    ensures
        used_lately(touched(entries, read), key, others),
        value_for(touched(entries, read), key) == value_for(entries, key),
{
    reading_refreshes(entries, read, key);
    lemma_position(entries, read);
    lemma_position(entries, key);
    let after = touched(entries, read);
    lemma_position(after, key);
    match (position(entries, read), position(after, key)) {
        (Some(from), Some(at)) => {
            let was = position(entries, key)->Some_0;
            assert forall|i: int| 0 <= i < after.len() implies #[trigger] after[i] == entries[if i
                < from {
                i
            } else if i == after.len() - 1 {
                from
            } else {
                i + 1
            }] by {}
            assert forall|i: int| at < i < after.len() implies others.contains(
                (#[trigger] after[i]).0,
            ) by {
                if i < after.len() - 1 {
                    let origin = if i < from {
                        i
                    } else {
                        i + 1
                    };
                    let home = if at < from {
                        at
                    } else {
                        at + 1
                    };
                    assert(after[at] == entries[home]);
                    assert(home == was);
                    assert(after[i] == entries[origin]);
                    assert(origin > was);
                }
            }
        },
        _ => {},
    }
}

proof fn lemma_distinct_keys_fit<V>(entries: Seq<(Seq<char>, V)>, among: Set<Seq<char>>)
    requires
        distinct_keys(entries),
        among.finite(),
        forall|i: int| 0 <= i < entries.len() ==> among.contains((#[trigger] entries[i]).0),
    ensures
        entries.len() <= among.len(),
{
    let keys = entries.map_values(|entry: (Seq<char>, V)| entry.0);
    assert(keys.no_duplicates()) by {
        assert forall|i: int, j: int| 0 <= i < keys.len() && 0 <= j < keys.len() && i != j implies
            keys[i] != keys[j] by {
            if i < j {
                assert(entries[i].0 != entries[j].0);
            } else {
                assert(entries[j].0 != entries[i].0);
            }
        }
    }
    keys.unique_seq_to_set();
    assert(keys.to_set().subset_of(among)) by {
        assert forall|key: Seq<char>| #[trigger] keys.to_set().contains(key) implies among.contains(
            key,
        ) by {
            let i = choose|i: int| 0 <= i < keys.len() && keys[i] == key;
            assert(entries[i].0 == key);
        }
    }
    vstd::set_lib::lemma_len_subset(keys.to_set(), among);
}

/// Storing for other conversations never pushes out an entry while fewer of them are used than
/// the cache has room for.
pub proof fn storing_keeps_an_entry<V>(
    entries: Seq<(Seq<char>, V)>,
    capacity: nat,
    key: Seq<char>,
    others: Set<Seq<char>>,
    other: Seq<char>,
    value: V,
)
    requires
        distinct_keys(entries),
        entries.len() <= capacity,
        used_lately(entries, key, others),
        others.contains(other),
        other != key,
        others.finite(),
        others.len() < capacity,
    ensures
        used_lately(stored(entries, capacity, other, value), key, others),
        value_for(stored(entries, capacity, other, value), key) == value_for(entries, key),
{
    let after = stored(entries, capacity, other, value);
    stored_value_is_found(entries, capacity, other, value);
    lemma_position(entries, key);
    lemma_position(entries, other);
    let kept = forgotten(entries, other);
    let all = kept.push((other, value));
    let gap = all.len() - after.len();
    let was = position(entries, key)->Some_0;
    let at = match position(entries, other) {
        Some(removed) if removed < was => was - 1,
        _ => was,
    };
    assert(all[at] == entries[was]);
    assert forall|i: int| at < i < all.len() implies others.contains((#[trigger] all[i]).0) by {
        if i < kept.len() {
            let origin = match position(entries, other) {
                Some(removed) if removed <= i => i + 1,
                _ => i,
            };
            assert(all[i] == entries[origin]);
            assert(origin > was);
        }
    }
    if at < gap {
        assert(at == 0 && after =~= all.skip(1));
        assert forall|i: int| 0 <= i < after.len() implies others.contains(
            (#[trigger] after[i]).0,
        ) by {
            assert(after[i] == all[i + 1]);
        }
        lemma_distinct_keys_fit(after, others);
    }
    assert(after[at - gap] == entries[was]);
    lemma_is_position(after, key, at - gap);
    assert forall|i: int| at - gap < i < after.len() implies others.contains(
        (#[trigger] after[i]).0,
    ) by {
        assert(after[i] == all[i + gap]);
    }
}

proof fn lemma_store_after_forgetting<V>(
    entries: Seq<(Seq<char>, V)>,
    capacity: nat,
    key: Seq<char>,
    value: V,
)
    requires
        distinct_keys(entries),
    ensures
        stored(forgotten(entries, key), capacity, key, value) == stored(
            entries,
            capacity,
            key,
            value,
        ),
{
    let kept = forgotten(entries, key);
    lemma_position(entries, key);
    lemma_position(kept, key);
    match position(kept, key) {
        Some(found) => {
            match position(entries, key) {
                Some(at) => {
                    if found < at {
                        assert(kept[found] == entries[found]);
                    } else {
                        assert(kept[found] == entries[found + 1]);
                    }
                },
                None => {},
            }
        },
        None => {},
    }
}

impl<V> ContinuityCache<V> {
    /// The entries, the least recently used first.
    pub closed spec fn contents(&self) -> Seq<(Seq<char>, V)> {
        self.entries@.map_values(|entry: (String, V)| (entry.0@, entry.1))
    }

    /// How many entries the cache holds at most.
    pub closed spec fn limit(&self) -> nat {
        self.capacity as nat
    }

    /// One entry per key, and no more entries than the limit.
    pub open spec fn wf(&self) -> bool {
        &&& distinct_keys(self.contents())
        &&& self.contents().len() <= self.limit()
    }

    /// An empty cache for at most `capacity` entries.
    pub fn new(capacity: usize) -> (cache: Self)
        ensures
            cache.wf(),
            cache.contents().len() == 0,
            cache.limit() == capacity,
    {
        ContinuityCache { capacity, entries: Vec::new() }
    }

    /// How many entries are held.
    pub fn len(&self) -> (n: usize)
        ensures
            n == self.contents().len(),
    {
        self.entries.len()
    }

    fn find(&self, key: &str) -> (found: Option<usize>)
        ensures
            match found {
                Some(at) => position(self.contents(), key@) == Some(at as int) && at
                    < self.entries@.len(),
                None => position(self.contents(), key@) is None,
            },
    {
        let mut i: usize = self.entries.len();
        assert(self.contents().take(i as int) =~= self.contents());
        while i > 0
            invariant
                i <= self.entries@.len() == self.contents().len(),
                position(self.contents(), key@) == position(self.contents().take(i as int), key@),
            decreases i,
        {
            i -= 1;
            assert(self.contents().take(i + 1).drop_last() =~= self.contents().take(i as int));
            if same_text(self.entries[i].0.as_str(), key) {
                return Some(i);
            }
        }
        None
    }

    /// The value held for `key`, which becomes the most recently used.
    pub fn get(&mut self, key: &str) -> (value: Option<&V>)
        requires
            old(self).wf(),
        ensures
            final(self).wf(),
            final(self).limit() == old(self).limit(),
            final(self).contents() == touched(old(self).contents(), key@),
            match value {
                Some(v) => value_for(old(self).contents(), key@) == Some(*v),
                None => value_for(old(self).contents(), key@) is None,
            },
    {
        proof {
            reading_refreshes(self.contents(), key@, key@);
            lemma_position(self.contents(), key@);
        }
        match self.find(key) {
            Some(at) => {
                let entry = self.entries.remove(at);
                self.entries.push(entry);
                assert(self.contents() =~= touched(old(self).contents(), key@));
                let last: usize = self.entries.len() - 1;
                Some(&self.entries[last].1)
            },
            None => None,
        }
    }

    /// Remove and return the value held for `key`.
    pub fn take(&mut self, key: &str) -> (value: Option<V>)
        requires
            old(self).wf(),
        ensures
            final(self).wf(),
            final(self).limit() == old(self).limit(),
            final(self).contents() == forgotten(old(self).contents(), key@),
            value == value_for(old(self).contents(), key@),
    {
        proof {
            lemma_position(self.contents(), key@);
        }
        match self.find(key) {
            Some(at) => {
                let entry = self.entries.remove(at);
                assert(self.contents() =~= forgotten(old(self).contents(), key@));
                Some(entry.1)
            },
            None => None,
        }
    }

    /// Hold `value` for `key` in place of anything held before, as the most recently used.
    pub fn put(&mut self, key: String, value: V)
        requires
            old(self).wf(),
        ensures
            final(self).wf(),
            final(self).limit() == old(self).limit(),
            final(self).contents() == stored(
                old(self).contents(),
                old(self).limit(),
                key@,
                value,
            ),
    {
        proof {
            if self.limit() > 0 {
                stored_value_is_found(self.contents(), self.limit(), key@, value);
            }
        }
        let _ = self.take(key.as_str());
        let ghost kept = self.contents();
        self.entries.push((key, value));
        assert(self.contents() =~= kept.push((key@, value)));
        if self.entries.len() > self.capacity {
            let ghost all = self.contents();
            let _ = self.entries.remove(0);
            assert(self.contents() =~= all.drop_first());
        }
    }

    /// Hold for `key`, as the most recently used, `value` where nothing was held, and what
    /// `merge` makes of the held value and `value` otherwise.
    pub fn put_with<F: FnOnce(V, V) -> V>(&mut self, key: String, value: V, merge: F)
        requires
            old(self).wf(),
            value_for(old(self).contents(), key@) matches Some(held) ==> call_requires(
                merge,
                (held, value),
            ),
        ensures
            final(self).wf(),
            final(self).limit() == old(self).limit(),
            match value_for(old(self).contents(), key@) {
                Some(held) => exists|merged: V| #[trigger]
                    call_ensures(merge, (held, value), merged) && final(self).contents() == stored(
                        old(self).contents(),
                        old(self).limit(),
                        key@,
                        merged,
                    ),
                None => final(self).contents() == stored(
                    old(self).contents(),
                    old(self).limit(),
                    key@,
                    value,
                ),
            },
    {
        let ghost before = self.contents();
        match self.take(key.as_str()) {
            Some(held) => {
                let merged = merge(held, value);
                proof {
                    lemma_store_after_forgetting(before, self.limit(), key@, merged);
                }
                self.put(key, merged);
            },
            None => {
                self.put(key, value);
            },
        }
    }
}

} // verus!
