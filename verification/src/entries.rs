//! Ordered lists of named values: the members of an object, the entries of a
//! flat map. A name is found at its first place; a new name goes to the end.

use crate::value::{Json, Value};
use vstd::prelude::*;

verus! {

/// The model of a list of named values.
pub open spec fn entries_view(entries: Seq<(String, Value)>) -> Seq<(Seq<char>, Json)> {
    Seq::new(entries.len(), |i: int| (entries[i].0@, entries[i].1@))
}

/// The first place of `key` in `entries`, or their length if it has none.
pub open spec fn index_of(entries: Seq<(Seq<char>, Json)>, key: Seq<char>) -> int
    decreases entries.len(),
{
    if entries.len() == 0 {
        0
    } else {
        let i = index_of(entries.drop_last(), key);
        if i < entries.len() - 1 {
            i
        } else if entries.last().0 == key {
            entries.len() - 1
        } else {
            entries.len() as int
        }
    }
}

/// Whether some entry is named `key`.
pub open spec fn has_key(entries: Seq<(Seq<char>, Json)>, key: Seq<char>) -> bool {
    index_of(entries, key) < entries.len()
}

/// The value of the first entry named `key`.
pub open spec fn lookup(entries: Seq<(Seq<char>, Json)>, key: Seq<char>) -> Option<Json> {
    if has_key(entries, key) {
        Some(entries[index_of(entries, key)].1)
    } else {
        None
    }
}

/// `entries` with `key` set to `value`: in place where the key is present,
/// at the end where it is new.
pub open spec fn upsert(entries: Seq<(Seq<char>, Json)>, key: Seq<char>, value: Json) -> Seq<
    (Seq<char>, Json),
> {
    if has_key(entries, key) {
        entries.update(index_of(entries, key), (key, value))
    } else {
        entries.push((key, value))
    }
}

/// `acc` after setting each of `entries` in turn, the first one first.
pub open spec fn upsert_all(
    acc: Seq<(Seq<char>, Json)>,
    entries: Seq<(Seq<char>, Json)>,
) -> Seq<(Seq<char>, Json)>
    decreases entries.len(),
{
    if entries.len() == 0 {
        acc
    } else {
        upsert(upsert_all(acc, entries.drop_last()), entries.last().0, entries.last().1)
    }
}

/// No two entries share a name.
pub open spec fn distinct_keys(entries: Seq<(Seq<char>, Json)>) -> bool {
    forall|i: int, j: int|
        0 <= i < j < entries.len() ==> (#[trigger] entries[i]).0 != (#[trigger] entries[j]).0
}

/// `holds` of every entry.
pub open spec fn all_entries(
    entries: Seq<(Seq<char>, Json)>,
    holds: spec_fn((Seq<char>, Json)) -> bool,
) -> bool {
    forall|e: int| 0 <= e < entries.len() ==> holds(#[trigger] entries[e])
}

/// The names of `entries`, in order.
pub open spec fn keys_of(entries: Seq<(Seq<char>, Json)>) -> Seq<Seq<char>> {
    Seq::new(entries.len(), |i: int| entries[i].0)
}

/// What `index_of` finds: the key stands there, and nowhere before.
pub proof fn lemma_index_of(entries: Seq<(Seq<char>, Json)>, key: Seq<char>)
    ensures
        0 <= index_of(entries, key) <= entries.len(),
        has_key(entries, key) ==> entries[index_of(entries, key)].0 == key,
        forall|j: int| 0 <= j < index_of(entries, key) ==> (#[trigger] entries[j]).0 != key,
    decreases entries.len(),
{
    if entries.len() > 0 {
        lemma_index_of(entries.drop_last(), key);
        assert forall|j: int| 0 <= j < index_of(entries, key) implies (#[trigger] entries[j]).0
            != key by {
            if j < entries.len() - 1 {
                assert(entries.drop_last()[j] == entries[j]);
            }
        }
    }
}

/// A place that holds the key, with none before it, is the one `index_of`
/// finds; so is the length, where no place holds the key.
pub proof fn lemma_index_of_is(entries: Seq<(Seq<char>, Json)>, key: Seq<char>, at: int)
    requires
        0 <= at <= entries.len(),
        at < entries.len() ==> entries[at].0 == key,
        forall|j: int| 0 <= j < at ==> (#[trigger] entries[j]).0 != key,
    ensures
        index_of(entries, key) == at,
{
    lemma_index_of(entries, key);
}

/// Setting a key keeps the length or adds one, keeps the names before it
/// and their values, and puts the value at the key's place.
pub proof fn lemma_upsert(entries: Seq<(Seq<char>, Json)>, key: Seq<char>, value: Json)
    ensures
        index_of(upsert(entries, key, value), key) == index_of(entries, key),
        has_key(upsert(entries, key, value), key),
        lookup(upsert(entries, key, value), key) == Some(value),
        forall|other: Seq<char>|
            other != key ==> #[trigger] index_of(upsert(entries, key, value), other) == if has_key(
                entries,
                other,
            ) {
                index_of(entries, other)
            } else {
                upsert(entries, key, value).len() as int
            },
        forall|other: Seq<char>|
            other != key ==> #[trigger] lookup(upsert(entries, key, value), other) == lookup(
                entries,
                other,
            ),
        distinct_keys(entries) ==> distinct_keys(upsert(entries, key, value)),
{
    let after = upsert(entries, key, value);
    let at = index_of(entries, key);
    lemma_index_of(entries, key);
    lemma_index_of_is(after, key, at);
    assert forall|other: Seq<char>| other != key implies #[trigger] index_of(after, other)
        == if has_key(entries, other) {
        index_of(entries, other)
    } else {
        after.len() as int
    } by {
        lemma_index_of(entries, other);
        let place = index_of(entries, other);
        if has_key(entries, other) {
            lemma_index_of_is(after, other, place);
        } else {
            lemma_index_of_is(after, other, after.len() as int);
        }
    }
    assert forall|other: Seq<char>| other != key implies #[trigger] lookup(after, other) == lookup(
        entries,
        other,
    ) by {
        lemma_index_of(entries, other);
        assert(index_of(after, other) == if has_key(entries, other) {
            index_of(entries, other)
        } else {
            after.len() as int
        });
    }
}

/// Setting a key twice is setting it to the second value.
pub proof fn lemma_upsert_twice(
    entries: Seq<(Seq<char>, Json)>,
    key: Seq<char>,
    first: Json,
    second: Json,
)
    ensures
        upsert(upsert(entries, key, first), key, second) == upsert(entries, key, second),
{
    lemma_upsert(entries, key, first);
    lemma_index_of(entries, key);
    assert(upsert(upsert(entries, key, first), key, second) =~= upsert(entries, key, second));
}

/// Setting one list and then another is setting the two in a row.
pub proof fn lemma_upsert_all_concat(
    acc: Seq<(Seq<char>, Json)>,
    first: Seq<(Seq<char>, Json)>,
    second: Seq<(Seq<char>, Json)>,
)
    ensures
        upsert_all(acc, first + second) == upsert_all(upsert_all(acc, first), second),
    decreases second.len(),
{
    if second.len() == 0 {
        assert(first + second =~= first);
    } else {
        lemma_upsert_all_concat(acc, first, second.drop_last());
        assert((first + second).drop_last() =~= first + second.drop_last());
        assert((first + second).last() == second.last());
    }
}

/// Setting a single entry.
pub proof fn lemma_upsert_all_one(acc: Seq<(Seq<char>, Json)>, key: Seq<char>, value: Json)
    ensures
        upsert_all(acc, seq![(key, value)]) == upsert(acc, key, value),
{
    assert(seq![(key, value)].drop_last() =~= Seq::empty());
    assert(upsert_all(acc, Seq::empty()) == acc);
}

/// Setting entries keeps names distinct.
pub proof fn lemma_upsert_all_distinct(
    acc: Seq<(Seq<char>, Json)>,
    entries: Seq<(Seq<char>, Json)>,
)
    requires
        distinct_keys(acc),
    ensures
        distinct_keys(upsert_all(acc, entries)),
    decreases entries.len(),
{
    if entries.len() > 0 {
        lemma_upsert_all_distinct(acc, entries.drop_last());
        lemma_upsert(upsert_all(acc, entries.drop_last()), entries.last().0, entries.last().1);
    }
}

/// Entries with distinct names, set one by one into an empty list, give the
/// same entries again.
pub proof fn lemma_upsert_all_of_distinct(entries: Seq<(Seq<char>, Json)>)
    requires
        distinct_keys(entries),
    ensures
        upsert_all(Seq::empty(), entries) == entries,
    decreases entries.len(),
{
    if entries.len() > 0 {
        let shorter = entries.drop_last();
        lemma_upsert_all_of_distinct(shorter);
        assert forall|j: int| 0 <= j < shorter.len() implies (#[trigger] shorter[j]).0
            != entries.last().0 by {
            assert(shorter[j] == entries[j]);
        }
        lemma_index_of_is(shorter, entries.last().0, shorter.len() as int);
        assert(shorter.push(entries.last()) =~= entries);
    }
}

/// What `upsert` holds afterwards: the entry put, or an entry from before.
pub proof fn lemma_upsert_entries(entries: Seq<(Seq<char>, Json)>, key: Seq<char>, value: Json)
    ensures
        upsert(entries, key, value).len() >= 1,
        forall|i: int|
            0 <= i < upsert(entries, key, value).len() ==> {
                let entry = #[trigger] upsert(entries, key, value)[i];
                entry == (key, value) || (0 <= i < entries.len() && entry == entries[i])
            },
{
    lemma_index_of(entries, key);
}

/// What holds of every entry before and of every entry set holds of every
/// entry afterwards.
pub proof fn lemma_upsert_all_keeps(
    acc: Seq<(Seq<char>, Json)>,
    entries: Seq<(Seq<char>, Json)>,
    holds: spec_fn((Seq<char>, Json)) -> bool,
)
    requires
        all_entries(acc, holds),
        all_entries(entries, holds),
    ensures
        all_entries(upsert_all(acc, entries), holds),
    decreases entries.len(),
{
    if entries.len() > 0 {
        let shorter = entries.drop_last();
        assert forall|e: int| 0 <= e < shorter.len() implies holds(#[trigger] shorter[e]) by {
            assert(shorter[e] == entries[e]);
        }
        lemma_upsert_all_keeps(acc, shorter, holds);
        let before = upsert_all(acc, shorter);
        let last = entries[entries.len() - 1];
        assert(holds(last));
        lemma_upsert_entries(before, last.0, last.1);
        let after = upsert(before, last.0, last.1);
        assert forall|e: int| 0 <= e < after.len() implies holds(#[trigger] after[e]) by {
            if after[e] != (last.0, last.1) {
                assert(after[e] == before[e]);
            }
        }
    }
}

/// The first place of `key` among `entries`, or their length.
pub fn find_entry(entries: &Vec<(String, Value)>, key: &String) -> (at: usize)
    ensures
        at == index_of(entries_view(entries@), key@),
        at <= entries.len(),
{
    let mut i: usize = 0;
    while i < entries.len()
        invariant
            i <= entries.len(),
            forall|j: int| 0 <= j < i ==> (#[trigger] entries_view(entries@)[j]).0 != key@,
        decreases entries.len() - i,
    {
        if entries[i].0 == *key {
            proof {
                lemma_index_of_is(entries_view(entries@), key@, i as int);
            }
            return i;
        }
        i += 1;
    }
    proof {
        lemma_index_of_is(entries_view(entries@), key@, i as int);
    }
    i
}

/// Sets `key` to `value` among `entries`.
pub fn put_entry(entries: &mut Vec<(String, Value)>, key: String, value: Value)
    ensures
        entries_view(final(entries)@) == upsert(entries_view(old(entries)@), key@, value@),
{
    let at = find_entry(entries, &key);
    if at < entries.len() {
        entries.set(at, (key, value));
    } else {
        entries.push((key, value));
    }
    proof {
        assert(entries_view(entries@) =~= upsert(entries_view(old(entries)@), key@, value@));
    }
}

} // verus!
