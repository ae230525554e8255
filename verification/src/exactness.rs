//! Only the values that `round_trips` describes come back from their flat
//! map.

use crate::entries::{
    all_entries, distinct_keys, has_key, index_of, lemma_index_of, lemma_upsert,
    lemma_upsert_all_keeps, lemma_upsert_entries, lookup, upsert,
};
use crate::flat::{flatten, leaves, member_leaves};
use crate::path::{
    dot, dot_free, lemma_segments_dot_free, lemma_segments_nonempty, nested_key, segments,
};
use crate::roundtrip::{dot_free_path, first_leaves, lemma_round_trip, plain, round_trips};
use crate::tree::{build, child_at, empty_object, insert_path, members_of, unflatten};
use crate::value::Json;
use vstd::prelude::*;

verus! {

/// The names of the members of `node` differ and hold no dot, and every
/// member is plain.
pub open spec fn tidy(node: Json) -> bool {
    &&& distinct_keys(members_of(node))
    &&& forall|i: int|
        0 <= i < members_of(node).len() ==> dot_free((#[trigger] members_of(node)[i]).0)
            && plain(members_of(node)[i].1)
}

/// Under the empty name `node` has no object.
pub open spec fn no_object_under_empty_name(node: Json) -> bool {
    match lookup(members_of(node), Seq::empty()) {
        Some(member) => !(member is Object),
        None => true,
    }
}

/// The key begins with a dot.
pub open spec fn leading_dot(key: Seq<char>) -> bool {
    key.len() > 0 && key[0] == dot()
}

/// The entries whose value is no object.
pub open spec fn no_object() -> spec_fn((Seq<char>, Json)) -> bool {
    |entry: (Seq<char>, Json)| !(entry.1 is Object)
}

/// The entries whose key does not begin with a dot.
pub open spec fn no_leading_dot() -> spec_fn((Seq<char>, Json)) -> bool {
    |entry: (Seq<char>, Json)| !leading_dot(entry.0)
}

/// A plain value is tidy.
proof fn lemma_plain_is_tidy(value: Json)
    requires
        plain(value),
    ensures
        tidy(value),
{
}

/// Putting a plain leaf into a tidy value, along names without a dot, gives
/// a plain object.
proof fn lemma_insert_keeps_tidy(node: Json, path: Seq<Seq<char>>, leaf: Json)
    requires
        tidy(node),
        path.len() >= 1,
        dot_free_path(path),
        plain(leaf),
    ensures
        plain(insert_path(node, path, leaf)),
        insert_path(node, path, leaf) is Object,
    decreases path.len(),
{
    let around = members_of(node);
    let first = path[0];
    let put = if path.len() == 1 {
        leaf
    } else {
        insert_path(child_at(node, first), path.drop_first(), leaf)
    };
    if path.len() > 1 {
        let child = child_at(node, first);
        lemma_index_of(around, first);
        if has_key(around, first) {
            assert(plain(around[index_of(around, first)].1));
            lemma_plain_is_tidy(child);
        }
        let rest = path.drop_first();
        assert forall|i: int| 0 <= i < rest.len() implies dot_free(#[trigger] rest[i]) by {
            assert(rest[i] == path[i + 1]);
        }
        lemma_insert_keeps_tidy(child, rest, leaf);
    }
    let after = upsert(around, first, put);
    assert(insert_path(node, path, leaf) == Json::Object(after));
    lemma_upsert(around, first, put);
    lemma_upsert_entries(around, first, put);
    assert forall|i: int| 0 <= i < after.len() implies dot_free((#[trigger] after[i]).0) && plain(
        after[i].1,
    ) by {
        if after[i] != (first, put) {
            assert(after[i] == around[i]);
        }
    }
}

/// Building from leaves keeps a tidy value tidy.
proof fn lemma_build_keeps_tidy(acc: Json, entries: Seq<(Seq<char>, Json)>)
    requires
        tidy(acc),
        acc is Object,
        all_entries(entries, no_object()),
    ensures
        tidy(build(acc, entries)),
        build(acc, entries) is Object,
    decreases entries.len(),
{
    if entries.len() > 0 {
        let shorter = entries.drop_last();
        assert forall|e: int| 0 <= e < shorter.len() implies no_object()(
            #[trigger] shorter[e],
        ) by {
            assert(shorter[e] == entries[e]);
        }
        lemma_build_keeps_tidy(acc, shorter);
        let key = entries.last().0;
        assert(no_object()(entries[entries.len() - 1]));
        lemma_segments_nonempty(key);
        lemma_segments_dot_free(key);
        lemma_insert_keeps_tidy(build(acc, shorter), segments(key), entries.last().1);
        lemma_plain_is_tidy(build(acc, entries));
    }
}

/// The first segment of a key that is not empty and does not begin with a
/// dot is not empty.
proof fn lemma_first_segment(key: Seq<char>)
    requires
        key.len() > 0,
        !leading_dot(key),
    ensures
        segments(key).len() >= 1,
        segments(key)[0].len() > 0,
    decreases key.len(),
{
    let shorter = key.drop_last();
    lemma_segments_nonempty(shorter);
    if key.len() == 1 {
        assert(shorter =~= Seq::empty());
        assert(segments(shorter) =~= seq![Seq::<char>::empty()]);
        assert(key.last() == key[0]);
    } else {
        assert(shorter[0] == key[0]);
        lemma_first_segment(shorter);
    }
}

/// Putting a leaf at the path of a key without a leading dot puts no object
/// under the empty name.
proof fn lemma_insert_keeps_empty_name(node: Json, key: Seq<char>, leaf: Json)
    requires
        no_object_under_empty_name(node),
        !(leaf is Object),
        !leading_dot(key),
    ensures
        no_object_under_empty_name(insert_path(node, segments(key), leaf)),
{
    let path = segments(key);
    let around = members_of(node);
    let empty = Seq::<char>::empty();
    lemma_segments_nonempty(key);
    if key.len() > 0 {
        lemma_first_segment(key);
    } else {
        assert(path =~= seq![empty]);
    }
    let put = if path.len() == 1 {
        leaf
    } else {
        insert_path(child_at(node, path[0]), path.drop_first(), leaf)
    };
    assert(insert_path(node, path, leaf) == Json::Object(upsert(around, path[0], put)));
    lemma_upsert(around, path[0], put);
    if path[0] != empty {
        assert(lookup(upsert(around, path[0], put), empty) == lookup(around, empty));
    }
}

/// Building from leaves puts no object under the empty name.
proof fn lemma_build_keeps_empty_name(acc: Json, entries: Seq<(Seq<char>, Json)>)
    requires
        no_object_under_empty_name(acc),
        all_entries(entries, no_object()),
        all_entries(entries, no_leading_dot()),
    ensures
        no_object_under_empty_name(build(acc, entries)),
    decreases entries.len(),
{
    if entries.len() > 0 {
        let shorter = entries.drop_last();
        assert forall|e: int| 0 <= e < shorter.len() implies no_object()(#[trigger] shorter[e])
            && no_leading_dot()(shorter[e]) by {
            assert(shorter[e] == entries[e]);
        }
        lemma_build_keeps_empty_name(acc, shorter);
        assert(no_object()(entries[entries.len() - 1]));
        assert(no_leading_dot()(entries[entries.len() - 1]));
        lemma_insert_keeps_empty_name(build(acc, shorter), entries.last().0, entries.last().1);
    }
}

/// No name anywhere in `value` holds a dot.
pub open spec fn names_dot_free(value: Json) -> bool
    decreases value,
{
    match value {
        Json::Object(members) => forall|i: int|
            0 <= i < members.len() ==> dot_free((#[trigger] members[i]).0) && names_dot_free(
                members[i].1,
            ),
        _ => true,
    }
}

/// In a plain value no name holds a dot.
proof fn lemma_plain_names(value: Json)
    requires
        plain(value),
    ensures
        names_dot_free(value),
    decreases value,
{
    match value {
        Json::Object(members) => {
            assert forall|i: int| 0 <= i < members.len() implies dot_free(
                (#[trigger] members[i]).0,
            ) && names_dot_free(members[i].1) by {
                assert(decreases_to!(value => value->Object_0));
                assert(decreases_to!(members => members[i]));
                assert(decreases_to!(members[i] => members[i].1));
                lemma_plain_names(members[i].1);
            }
        },
        _ => {},
    }
}

/// No leaf is an object; and no key of a leaf begins with a dot, where no
/// name holds a dot and the prefix does not begin with one.
proof fn lemma_leaves(value: Json, count: nat, prefix: Seq<char>)
    requires
        value is Object ==> count <= value->Object_0.len(),
    ensures
        all_entries(first_leaves(value, count, prefix), no_object()),
        names_dot_free(value) && !leading_dot(prefix) ==> all_entries(
            first_leaves(value, count, prefix),
            no_leading_dot(),
        ),
    decreases value, count,
{
    match value {
        Json::Object(members) => {
            let now = members.take(count as int);
            if count > 0 {
                let before = members.take(count - 1);
                let name = members[count - 1].0;
                let member = members[count - 1].1;
                let key = nested_key(prefix, name);
                assert(now.drop_last() =~= before);
                assert(now.last() == members[count - 1]);
                lemma_leaves(value, (count - 1) as nat, prefix);
                if names_dot_free(value) && !leading_dot(prefix) {
                    assert(dot_free(members[count - 1].0));
                    assert(!leading_dot(key)) by {
                        if prefix.len() > 0 {
                            assert(key[0] == prefix[0]);
                        } else if name.len() > 0 {
                            assert(name[0] != dot());
                        }
                    }
                }
                assert(decreases_to!(value => value->Object_0));
                assert(decreases_to!(members => members[count - 1]));
                assert(decreases_to!(members[count - 1] => members[count - 1].1));
                let below = leaves(member, key);
                if member is Object {
                    let inner = member->Object_0;
                    lemma_leaves(member, inner.len(), key);
                    assert(inner.take(inner.len() as int) =~= inner);
                } else {
                    lemma_leaves(member, 0, key);
                }
                let old_leaves = member_leaves(before, prefix);
                let all = old_leaves + below;
                assert(first_leaves(value, count, prefix) == all);
                assert forall|e: int| 0 <= e < all.len() implies no_object()(#[trigger] all[e]) by {
                    if e < old_leaves.len() {
                        assert(all[e] == old_leaves[e]);
                    } else {
                        assert(all[e] == below[e - old_leaves.len()]);
                    }
                }
                if names_dot_free(value) && !leading_dot(prefix) {
                    assert forall|e: int| 0 <= e < all.len() implies no_leading_dot()(
                        #[trigger] all[e],
                    ) by {
                        if e < old_leaves.len() {
                            assert(all[e] == old_leaves[e]);
                        } else {
                            assert(all[e] == below[e - old_leaves.len()]);
                        }
                    }
                }
            } else {
                assert(now =~= Seq::empty());
            }
        },
        _ => {},
    }
}

/// The leaves below a whole value.
pub proof fn lemma_all_leaves(value: Json, prefix: Seq<char>)
    ensures
        all_entries(leaves(value, prefix), no_object()),
        names_dot_free(value) && !leading_dot(prefix) ==> all_entries(
            leaves(value, prefix),
            no_leading_dot(),
        ),
{
    match value {
        Json::Object(members) => {
            lemma_leaves(value, members.len(), prefix);
            assert(members.take(members.len() as int) =~= members);
        },
        _ => {
            lemma_leaves(value, 0, prefix);
        },
    }
}

/// A value comes back from its flat map exactly if `round_trips` holds of
/// it.
pub proof fn lemma_round_trip_exactly(value: Json)
    ensures
        unflatten(flatten(value)) == value <==> round_trips(value),
{
    if round_trips(value) {
        lemma_round_trip(value);
    }
    if unflatten(flatten(value)) == value {
        let empty = Seq::<char>::empty();
        let none = Seq::<(Seq<char>, Json)>::empty();
        let found = leaves(value, empty);
        lemma_all_leaves(value, empty);
        lemma_upsert_all_keeps(none, found, no_object());
        lemma_build_keeps_tidy(empty_object(), flatten(value));
        assert(value is Object);
        assert(tidy(value));
        let members = value->Object_0;
        assert(members_of(value) == members);
        assert(names_dot_free(value)) by {
            assert forall|i: int| 0 <= i < members.len() implies dot_free(
                (#[trigger] members[i]).0,
            ) && names_dot_free(members[i].1) by {
                lemma_plain_names(members[i].1);
            }
        }
        lemma_upsert_all_keeps(none, found, no_leading_dot());
        assert(lookup(none, empty) is None);
        lemma_build_keeps_empty_name(empty_object(), flatten(value));
        assert forall|i: int| 0 <= i < members.len() implies {
            let member = #[trigger] members_of(value)[i];
            member.0.len() == 0 ==> !(member.1 is Object)
        } by {
            let member = members[i];
            if member.0.len() == 0 {
                assert(member.0 =~= empty);
                lemma_index_of(members, empty);
                let at = index_of(members, empty);
                if at < i {
                    assert(members[at].0 != members[i].0);
                }
                assert(at == i);
            }
        }
    }
}

} // verus!
