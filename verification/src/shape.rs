//! The result has the shape of the target.

use crate::entries::lemma_upsert_all_keeps;
use crate::exactness::{lemma_all_leaves, no_object};
use crate::flat::{flatten, leaves, member_leaves};
use crate::matching::{assigned, assignment, lemma_first_max};
use crate::path::{dot_free, nested_key};
use crate::roundtrip::{lemma_round_trip, plain, round_trips};
use crate::transform::{decisions, shapeshifted, well_shaped};
use crate::tree::members_of;
use crate::value::Json;
use vstd::prelude::*;

verus! {

/// The number of leaves below `value`.
pub open spec fn leaf_count(value: Json) -> nat
    decreases value,
{
    match value {
        Json::Object(members) => member_leaf_count(members),
        _ => 1,
    }
}

/// The number of leaves below the members of an object.
pub open spec fn member_leaf_count(members: Seq<(Seq<char>, Json)>) -> nat
    decreases members,
{
    if members.len() == 0 {
        0
    } else {
        member_leaf_count(members.drop_last()) + leaf_count(members.last().1)
    }
}

/// `value` with its leaves replaced, in the order of the walk, by the first
/// of `fresh`.
pub open spec fn refill(value: Json, fresh: Seq<Json>) -> Json
    decreases value,
{
    match value {
        Json::Object(members) => Json::Object(refill_members(members, fresh)),
        _ => fresh[0],
    }
}

/// The members of an object with the leaves below them replaced by the
/// first of `fresh`.
pub open spec fn refill_members(members: Seq<(Seq<char>, Json)>, fresh: Seq<Json>) -> Seq<
    (Seq<char>, Json),
>
    decreases members,
{
    if members.len() == 0 {
        Seq::empty()
    } else {
        refill_members(members.drop_last(), fresh).push(
            (
                members.last().0,
                refill(members.last().1, fresh.skip(member_leaf_count(members.drop_last()) as int)),
            ),
        )
    }
}

/// The entries with their values replaced, one for one, by `fresh`.
pub open spec fn with_values(entries: Seq<(Seq<char>, Json)>, fresh: Seq<Json>) -> Seq<
    (Seq<char>, Json),
> {
    Seq::new(entries.len(), |i: int| (entries[i].0, fresh[i]))
}

/// What each target leaf is filled with: the value of the source leaf it
/// was matched to, or null.
pub open spec fn decided(sources: Seq<(Seq<char>, Json)>, matches: Seq<Option<usize>>) -> Seq<
    Json,
> {
    Seq::new(
        matches.len(),
        |t: int|
            match matches[t] {
                Some(source) => sources[source as int].1,
                None => Json::Null,
            },
    )
}

/// None of the first `count` values is an object.
pub open spec fn no_objects(fresh: Seq<Json>, count: nat) -> bool {
    &&& count <= fresh.len()
    &&& forall|i: int| 0 <= i < count ==> !(#[trigger] fresh[i] is Object)
}

/// What `refill` does to the members of an object: it keeps their number
/// and names, and refills each with the values that follow those of the
/// members before it.
proof fn lemma_refill_members(members: Seq<(Seq<char>, Json)>, fresh: Seq<Json>)
    ensures
        refill_members(members, fresh).len() == members.len(),
        forall|i: int|
            0 <= i < members.len() ==> (#[trigger] refill_members(members, fresh)[i]) == (
                members[i].0,
                refill(members[i].1, fresh.skip(member_leaf_count(members.take(i)) as int)),
            ),
    decreases members.len(),
{
    if members.len() > 0 {
        let before = members.drop_last();
        lemma_refill_members(before, fresh);
        assert forall|i: int| 0 <= i < members.len() implies (#[trigger] refill_members(
            members,
            fresh,
        )[i]) == (
            members[i].0,
            refill(members[i].1, fresh.skip(member_leaf_count(members.take(i)) as int)),
        ) by {
            if i < before.len() {
                assert(before[i] == members[i]);
                assert(before.take(i) =~= members.take(i));
            } else {
                assert(members.take(i) =~= before);
            }
        }
    }
}

/// The leaves below some of the members are no more than those below all.
proof fn lemma_member_leaf_count(members: Seq<(Seq<char>, Json)>, count: int)
    requires
        0 <= count <= members.len(),
    ensures
        member_leaf_count(members.take(count)) <= member_leaf_count(members),
        count < members.len() ==> member_leaf_count(members.take(count)) + leaf_count(
            members[count].1,
        ) <= member_leaf_count(members),
    decreases members.len(),
{
    if count == members.len() {
        assert(members.take(count) =~= members);
    } else {
        let before = members.drop_last();
        assert(before.take(count) =~= members.take(count));
        lemma_member_leaf_count(before, count);
        if count < before.len() {
            assert(before[count] == members[count]);
        } else {
            assert(before.take(count) =~= before);
        }
    }
}

/// The leaves of a refilled value are the leaves of the value with the
/// fresh values in place of the old ones, where no fresh value is an
/// object.
proof fn lemma_leaves_of_refilled(value: Json, count: nat, fresh: Seq<Json>, prefix: Seq<char>)
    requires
        value is Object ==> count <= value->Object_0.len(),
        value is Object ==> no_objects(
            fresh,
            member_leaf_count(value->Object_0.take(count as int)),
        ),
        !(value is Object) ==> no_objects(fresh, 1),
    ensures
        value is Object ==> {
            let members = value->Object_0.take(count as int);
            &&& member_leaves(members, prefix).len() == member_leaf_count(members)
            &&& member_leaves(refill_members(members, fresh), prefix) == with_values(
                member_leaves(members, prefix),
                fresh,
            )
        },
        !(value is Object) ==> {
            &&& leaves(value, prefix).len() == 1
            &&& leaves(refill(value, fresh), prefix) == with_values(leaves(value, prefix), fresh)
        },
    decreases value, count,
{
    match value {
        Json::Object(all) => {
            let members = all.take(count as int);
            if count > 0 {
                let before = all.take(count - 1);
                let name = all[count - 1].0;
                let member = all[count - 1].1;
                let key = nested_key(prefix, name);
                let used = member_leaf_count(before);
                let rest = fresh.skip(used as int);
                assert(members.drop_last() =~= before);
                assert(members.last() == all[count - 1]);
                assert(member_leaf_count(members) == used + leaf_count(member));
                lemma_leaves_of_refilled(value, (count - 1) as nat, fresh, prefix);
                assert(decreases_to!(value => value->Object_0));
                assert(decreases_to!(all => all[count - 1]));
                assert(decreases_to!(all[count - 1] => all[count - 1].1));
                assert forall|i: int| 0 <= i < leaf_count(member) implies !(
                #[trigger] rest[i] is Object) by {
                    assert(rest[i] == fresh[used + i]);
                }
                if member is Object {
                    let inner = member->Object_0;
                    assert(inner.take(inner.len() as int) =~= inner);
                    lemma_leaves_of_refilled(member, inner.len(), rest, key);
                } else {
                    lemma_leaves_of_refilled(member, 0, rest, key);
                }
                let refilled = refill_members(members, fresh);
                assert(refilled.drop_last() =~= refill_members(before, fresh));
                assert(refilled.last() == (name, refill(member, rest)));
                let old_leaves = member_leaves(before, prefix);
                let new_leaves = leaves(member, key);
                assert(member_leaves(refilled, prefix) == member_leaves(
                    refilled.drop_last(),
                    prefix,
                ) + leaves(refilled.last().1, nested_key(prefix, refilled.last().0)));
                assert(member_leaves(refill_members(before, fresh), prefix) == with_values(
                    old_leaves,
                    fresh,
                ));
                assert(leaves(refill(member, rest), key) == with_values(new_leaves, rest));
                assert(member_leaves(refilled, prefix) == with_values(old_leaves, fresh)
                    + with_values(new_leaves, rest));
                assert(with_values(old_leaves, fresh) + with_values(new_leaves, rest)
                    =~= with_values(old_leaves + new_leaves, fresh));
            } else {
                assert(members =~= Seq::empty());
                assert(with_values(Seq::empty(), fresh) =~= Seq::empty());
            }
        },
        _ => {
            assert(leaves(fresh[0], prefix) =~= with_values(leaves(value, prefix), fresh));
        },
    }
}

/// The leaves of a whole refilled value.
proof fn lemma_leaves_of_refilled_value(value: Json, fresh: Seq<Json>, prefix: Seq<char>)
    requires
        no_objects(fresh, leaf_count(value)),
    ensures
        leaves(value, prefix).len() == leaf_count(value),
        leaves(refill(value, fresh), prefix) == with_values(leaves(value, prefix), fresh),
{
    match value {
        Json::Object(members) => {
            assert(members.take(members.len() as int) =~= members);
            lemma_leaves_of_refilled(value, members.len(), fresh, prefix);
        },
        _ => {
            lemma_leaves_of_refilled(value, 0, fresh, prefix);
        },
    }
}

/// A plain value stays plain when its leaves are replaced by values that
/// are no objects; and it stays an object, or none.
proof fn lemma_refilled_plain(value: Json, fresh: Seq<Json>)
    requires
        plain(value),
        no_objects(fresh, leaf_count(value)),
    ensures
        plain(refill(value, fresh)),
        refill(value, fresh) is Object <==> value is Object,
    decreases value,
{
    match value {
        Json::Object(members) => {
            let refilled = refill_members(members, fresh);
            lemma_refill_members(members, fresh);
            assert forall|i: int| 0 <= i < refilled.len() implies dot_free(
                (#[trigger] refilled[i]).0,
            ) && plain(refilled[i].1) by {
                let used = member_leaf_count(members.take(i));
                let rest = fresh.skip(used as int);
                lemma_member_leaf_count(members, i);
                assert forall|j: int| 0 <= j < leaf_count(members[i].1) implies !(
                #[trigger] rest[j] is Object) by {
                    assert(rest[j] == fresh[used + j]);
                }
                assert(decreases_to!(value => value->Object_0));
                assert(decreases_to!(members => members[i]));
                assert(decreases_to!(members[i] => members[i].1));
                lemma_refilled_plain(members[i].1, rest);
            }
            assert forall|a: int, b: int| 0 <= a < b < refilled.len() implies (
            #[trigger] refilled[a]).0 != (#[trigger] refilled[b]).0 by {
                assert(members[a].0 != members[b].0);
            }
        },
        _ => {},
    }
}

/// Where the target is a value that comes back from its flat map, the
/// result is the target with every leaf replaced by what was decided for
/// it: the result has the shape of the target.
pub proof fn lemma_result_has_target_shape(
    source: Json,
    target: Json,
    table: Seq<Seq<i64>>,
    threshold: i64,
)
    requires
        round_trips(target),
        well_shaped(table, flatten(target).len(), flatten(source).len()),
    ensures
        shapeshifted(source, target, table, threshold) == refill(
            target,
            decided(flatten(source), assignment(table, threshold)),
        ),
        flatten(shapeshifted(source, target, table, threshold)) == decisions(
            flatten(target),
            flatten(source),
            assignment(table, threshold),
        ),
{
    let empty = Seq::<char>::empty();
    let sources = flatten(source);
    let targets = flatten(target);
    let matches = assignment(table, threshold);
    let fresh = decided(sources, matches);
    let members = target->Object_0;
    lemma_round_trip(target);
    lemma_all_leaves(source, empty);
    lemma_upsert_all_keeps(Seq::empty(), leaves(source, empty), no_object());
    lemma_leaves_count(target, empty);
    assert forall|t: int| 0 <= t < fresh.len() implies !(#[trigger] fresh[t] is Object) by {
        match assigned(table, threshold, t) {
            Some(at) => {
                lemma_first_max(table[t]);
                assert(no_object()(sources[at as int]));
            },
            None => {},
        }
    }
    assert(no_objects(fresh, leaf_count(target)));
    lemma_leaves_of_refilled_value(target, fresh, empty);
    let filled = refill(target, fresh);
    assert(decisions(targets, sources, matches) =~= with_values(targets, fresh));
    assert(members_of(target) == members);
    assert(round_trips(filled)) by {
        let refilled = refill_members(members, fresh);
        lemma_refill_members(members, fresh);
        assert(members_of(filled) == refilled);
        assert forall|i: int| 0 <= i < refilled.len() implies {
            let member = #[trigger] members_of(filled)[i];
            &&& dot_free(member.0)
            &&& plain(member.1)
            &&& member.0.len() == 0 ==> !(member.1 is Object)
        } by {
            let used = member_leaf_count(members.take(i));
            let rest = fresh.skip(used as int);
            lemma_member_leaf_count(members, i);
            assert(members_of(target)[i] == members[i]);
            assert forall|j: int| 0 <= j < leaf_count(members[i].1) implies !(
            #[trigger] rest[j] is Object) by {
                assert(rest[j] == fresh[used + j]);
            }
            lemma_refilled_plain(members[i].1, rest);
        }
        assert forall|a: int, b: int| 0 <= a < b < refilled.len() implies (
        #[trigger] refilled[a]).0 != (#[trigger] refilled[b]).0 by {
            assert(members[a].0 != members[b].0);
        }
    }
    lemma_round_trip(filled);
}

/// A value has as many leaves as `leaf_count` says, under any prefix.
proof fn lemma_leaves_count(value: Json, prefix: Seq<char>)
    ensures
        leaves(value, prefix).len() == leaf_count(value),
    decreases value,
{
    match value {
        Json::Object(members) => {
            lemma_member_leaves_count(members, prefix);
        },
        _ => {},
    }
}

/// The members of an object have as many leaves as `member_leaf_count`
/// says, under any prefix.
proof fn lemma_member_leaves_count(members: Seq<(Seq<char>, Json)>, prefix: Seq<char>)
    ensures
        member_leaves(members, prefix).len() == member_leaf_count(members),
    decreases members,
{
    if members.len() > 0 {
        lemma_member_leaves_count(members.drop_last(), prefix);
        lemma_leaves_count(members.last().1, nested_key(prefix, members.last().0));
    }
}

} // verus!
