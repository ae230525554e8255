//! Flattening and building again gives the value back.

use crate::entries::{
    distinct_keys, has_key, lemma_index_of_is, lemma_upsert, lemma_upsert_all_of_distinct,
    lemma_upsert_twice, lookup, upsert,
};
use crate::flat::{flatten, leaves, member_leaves};
use crate::path::{
    dot, dot_free, joined, lemma_segments_of_joined, lemma_segments_of_name, nested_key, segments,
};
use crate::tree::{build, child_at, empty_object, insert_path, members_of, unflatten};
use crate::value::Json;
use vstd::prelude::*;

verus! {

/// What a nested part must be like to come back: an object has members,
/// their names differ, none holds a dot, and every member is like that too.
pub open spec fn plain(value: Json) -> bool
    decreases value,
{
    match value {
        Json::Object(members) => {
            &&& members.len() > 0
            &&& distinct_keys(members)
            &&& forall|i: int|
                0 <= i < members.len() ==> dot_free((#[trigger] members[i]).0) && plain(
                    members[i].1,
                )
        },
        _ => true,
    }
}

/// The values that come back from their flat map: objects whose members are
/// plain, have names that differ and hold no dot, and, under the empty name,
/// are no objects. The object without members is one of them.
pub open spec fn round_trips(value: Json) -> bool {
    &&& value is Object
    &&& distinct_keys(members_of(value))
    &&& forall|i: int|
        0 <= i < members_of(value).len() ==> {
            let member = #[trigger] members_of(value)[i];
            &&& dot_free(member.0)
            &&& plain(member.1)
            &&& member.0.len() == 0 ==> !(member.1 is Object)
        }
}

/// Whether nothing stands at `path` in `node` yet: on the way a member is
/// missing, or is no object.
pub open spec fn vacant(node: Json, path: Seq<Seq<char>>) -> bool
    decreases path.len(),
{
    if path.len() == 0 {
        false
    } else {
        match lookup(members_of(node), path[0]) {
            None => true,
            Some(child) => path.len() > 1 && vacant(child, path.drop_first()),
        }
    }
}

/// Below a vacant place the next place is vacant.
proof fn lemma_vacant_child(node: Json, path: Seq<Seq<char>>)
    requires
        path.len() > 1,
        vacant(node, path),
    ensures
        vacant(child_at(node, path[0]), path.drop_first()),
{
    assert(lookup(Seq::<(Seq<char>, Json)>::empty(), path[1]) is None);
}

/// A vacant place stays vacant one name further down.
proof fn lemma_vacant_below(node: Json, path: Seq<Seq<char>>, name: Seq<char>)
    requires
        vacant(node, path),
    ensures
        vacant(node, path.push(name)),
    decreases path.len(),
{
    let longer = path.push(name);
    assert(longer[0] == path[0]);
    if path.len() > 1 {
        lemma_vacant_child(node, path);
        lemma_vacant_below(child_at(node, path[0]), path.drop_first(), name);
        assert(longer.drop_first() =~= path.drop_first().push(name));
    }
}

/// Putting a value one name below a vacant place puts an object of that one
/// member at the place.
proof fn lemma_first_member(node: Json, path: Seq<Seq<char>>, name: Seq<char>, value: Json)
    requires
        vacant(node, path),
    ensures
        insert_path(node, path.push(name), value) == insert_path(
            node,
            path,
            Json::Object(seq![(name, value)]),
        ),
    decreases path.len(),
{
    let longer = path.push(name);
    assert(longer[0] == path[0]);
    assert(longer.drop_first() =~= path.drop_first().push(name));
    if path.len() == 1 {
        assert(longer.drop_first() =~= seq![name]);
        assert(seq![name][0] == name);
        assert(upsert(Seq::empty(), name, value) =~= seq![(name, value)]);
        assert(insert_path(empty_object(), seq![name], value) == Json::Object(
            seq![(name, value)],
        ));
        assert(child_at(node, path[0]) == empty_object());
    } else {
        lemma_vacant_child(node, path);
        lemma_first_member(child_at(node, path[0]), path.drop_first(), name, value);
    }
}

/// Putting a value under a new name below an object just put at `path`
/// appends a member to that object.
proof fn lemma_next_member(
    node: Json,
    path: Seq<Seq<char>>,
    members: Seq<(Seq<char>, Json)>,
    name: Seq<char>,
    value: Json,
)
    requires
        path.len() >= 1,
        !has_key(members, name),
    ensures
        insert_path(insert_path(node, path, Json::Object(members)), path.push(name), value)
            == insert_path(node, path, Json::Object(members.push((name, value)))),
    decreases path.len(),
{
    let longer = path.push(name);
    let first = path[0];
    let around = members_of(node);
    assert(longer[0] == first);
    assert(longer.drop_first() =~= path.drop_first().push(name));
    if path.len() == 1 {
        let put = Json::Object(members);
        let grown = Json::Object(members.push((name, value)));
        let once = insert_path(node, path, put);
        assert(once == Json::Object(upsert(around, first, put)));
        lemma_upsert(around, first, put);
        lemma_upsert_twice(around, first, put, grown);
        assert(longer.drop_first() =~= seq![name]);
        assert(seq![name][0] == name);
        assert(child_at(once, first) == put);
        assert(insert_path(put, seq![name], value) == grown);
        assert(insert_path(once, longer, value) == Json::Object(
            upsert(members_of(once), first, grown),
        ));
    } else {
        let child = child_at(node, first);
        let rest = path.drop_first();
        let put = insert_path(child, rest, Json::Object(members));
        let grown = insert_path(child, rest, Json::Object(members.push((name, value))));
        let once = insert_path(node, path, Json::Object(members));
        assert(once == Json::Object(upsert(around, first, put)));
        lemma_upsert(around, first, put);
        lemma_next_member(child, rest, members, name, value);
        lemma_upsert_twice(around, first, put, grown);
        assert(child_at(once, first) == put);
        assert(insert_path(put, rest.push(name), value) == grown);
        assert(insert_path(once, longer, value) == Json::Object(
            upsert(members_of(once), first, grown),
        ));
    }
}

/// Below an object just put at `path`, the place of a new name is vacant.
proof fn lemma_vacant_after(
    node: Json,
    path: Seq<Seq<char>>,
    members: Seq<(Seq<char>, Json)>,
    name: Seq<char>,
)
    requires
        path.len() >= 1,
        !has_key(members, name),
    ensures
        vacant(insert_path(node, path, Json::Object(members)), path.push(name)),
    decreases path.len(),
{
    let longer = path.push(name);
    let first = path[0];
    let around = members_of(node);
    assert(longer[0] == first);
    assert(longer.drop_first() =~= path.drop_first().push(name));
    if path.len() == 1 {
        let put = Json::Object(members);
        let once = insert_path(node, path, put);
        assert(once == Json::Object(upsert(around, first, put)));
        lemma_upsert(around, first, put);
        assert(longer.drop_first() =~= seq![name]);
        assert(seq![name][0] == name);
        assert(vacant(put, seq![name]));
        assert(lookup(members_of(once), first) == Some(put));
    } else {
        let child = child_at(node, first);
        let rest = path.drop_first();
        let put = insert_path(child, rest, Json::Object(members));
        let once = insert_path(node, path, Json::Object(members));
        assert(once == Json::Object(upsert(around, first, put)));
        lemma_upsert(around, first, put);
        lemma_vacant_after(child, rest, members, name);
        assert(lookup(members_of(once), first) == Some(put));
    }
}

/// Building from one list and then from another is building from the two in
/// a row.
proof fn lemma_build_concat(
    acc: Json,
    first: Seq<(Seq<char>, Json)>,
    second: Seq<(Seq<char>, Json)>,
)
    ensures
        build(acc, first + second) == build(build(acc, first), second),
    decreases second.len(),
{
    if second.len() == 0 {
        assert(first + second =~= first);
    } else {
        lemma_build_concat(acc, first, second.drop_last());
        assert((first + second).drop_last() =~= first + second.drop_last());
        assert((first + second).last() == second.last());
    }
}

/// Building from a single entry.
proof fn lemma_build_one(acc: Json, key: Seq<char>, value: Json)
    ensures
        build(acc, seq![(key, value)]) == insert_path(acc, segments(key), value),
{
    let one = seq![(key, value)];
    assert(one.drop_last() =~= Seq::empty());
    assert(build(acc, one.drop_last()) == acc);
    assert(one.last() == (key, value));
}

/// No name on `path` holds a dot.
pub open spec fn dot_free_path(path: Seq<Seq<char>>) -> bool {
    forall|i: int| 0 <= i < path.len() ==> dot_free(#[trigger] path[i])
}

/// The key of a member is the joined form of its path, below a path whose
/// joined form is not empty.
proof fn lemma_nested_key(path: Seq<Seq<char>>, name: Seq<char>)
    requires
        path.len() == 0 || joined(path).len() > 0,
        dot_free_path(path),
        dot_free(name),
    ensures
        nested_key(joined(path), name) == joined(path.push(name)),
        path.len() > 0 ==> joined(path.push(name)).len() > 0,
        dot_free_path(path.push(name)),
{
    let longer = path.push(name);
    assert(longer.drop_last() =~= path);
    assert(longer.last() == name);
    if path.len() == 0 {
        assert(longer[0] == name);
    }
    assert forall|i: int| 0 <= i < longer.len() implies dot_free(#[trigger] longer[i]) by {
        if i < path.len() {
            assert(longer[i] == path[i]);
        }
    }
}

/// A name that differs from the first `count` names of `members` is none of
/// them.
proof fn lemma_new_name(members: Seq<(Seq<char>, Json)>, count: int)
    requires
        distinct_keys(members),
        0 <= count < members.len(),
    ensures
        !has_key(members.take(count), members[count].0),
{
    let before = members.take(count);
    assert forall|j: int| 0 <= j < before.len() implies (#[trigger] before[j]).0
        != members[count].0 by {
        assert(before[j] == members[j]);
    }
    lemma_index_of_is(before, members[count].0, before.len() as int);
}

/// The first `count` members of an object; the value itself where it is no
/// object.
pub open spec fn first_members(value: Json, count: nat) -> Json {
    match value {
        Json::Object(members) => Json::Object(members.take(count as int)),
        _ => value,
    }
}

/// The leaves below the first `count` members of an object that sits at
/// `prefix`; the one leaf where the value is no object.
pub open spec fn first_leaves(value: Json, count: nat, prefix: Seq<char>) -> Seq<
    (Seq<char>, Json),
> {
    match value {
        Json::Object(members) => member_leaves(members.take(count as int), prefix),
        _ => leaves(value, prefix),
    }
}

/// Building from the leaves below the first members of a plain value, with
/// their keys below `path`, puts these members at `path`, where that place
/// was vacant.
proof fn lemma_build_members(root: Json, path: Seq<Seq<char>>, part: Json, count: nat)
    requires
        path.len() >= 1,
        joined(path).len() > 0,
        dot_free_path(path),
        plain(part),
        vacant(root, path),
        part is Object ==> 1 <= count <= part->Object_0.len(),
    ensures
        build(root, first_leaves(part, count, joined(path))) == insert_path(
            root,
            path,
            first_members(part, count),
        ),
    decreases part, count,
{
    let key = joined(path);
    match part {
        Json::Object(members) => {
            let before = members.take(count - 1);
            let now = members.take(count as int);
            let name = members[count - 1].0;
            let value = members[count - 1].1;
            let below = path.push(name);
            let so_far = build(root, member_leaves(before, key));
            assert(now.drop_last() =~= before);
            assert(now.last() == members[count - 1]);
            assert(before.push((name, value)) =~= now);
            lemma_nested_key(path, name);
            lemma_build_concat(root, member_leaves(before, key), leaves(value, joined(below)));
            lemma_new_name(members, count - 1);
            if count == 1 {
                assert(before =~= Seq::empty());
                assert(so_far == root);
                lemma_vacant_below(root, path, name);
                lemma_first_member(root, path, name, value);
                assert(seq![(name, value)] =~= now);
            } else {
                lemma_build_members(root, path, part, (count - 1) as nat);
                lemma_vacant_after(root, path, before, name);
                lemma_next_member(root, path, before, name, value);
            }
            assert(decreases_to!(part => part->Object_0));
            assert(decreases_to!(members => members[count - 1]));
            assert(decreases_to!(members[count - 1] => members[count - 1].1));
            lemma_build_part(so_far, below, value);
        },
        _ => {
            lemma_build_one(root, key, part);
            lemma_segments_of_joined(path);
        },
    }
}

/// Building from the leaves below a plain value, with their keys below
/// `path`, puts the value at `path`, where that place was vacant.
proof fn lemma_build_part(root: Json, path: Seq<Seq<char>>, part: Json)
    requires
        path.len() >= 1,
        joined(path).len() > 0,
        dot_free_path(path),
        plain(part),
        vacant(root, path),
    ensures
        build(root, leaves(part, joined(path))) == insert_path(root, path, part),
    decreases part, part->Object_0.len() + 1,
{
    match part {
        Json::Object(members) => {
            lemma_build_members(root, path, part, members.len());
            assert(members.take(members.len() as int) =~= members);
        },
        _ => {
            lemma_build_members(root, path, part, 0);
        },
    }
}

/// Building from the leaves below the first members of a value that comes
/// back gives an object of these members.
proof fn lemma_build_root(members: Seq<(Seq<char>, Json)>, count: nat)
    requires
        round_trips(Json::Object(members)),
        count <= members.len(),
    ensures
        build(empty_object(), member_leaves(members.take(count as int), Seq::empty()))
            == Json::Object(members.take(count as int)),
    decreases count,
{
    let now = members.take(count as int);
    if count == 0 {
        assert(now =~= Seq::empty());
    } else {
        let before = members.take(count - 1);
        let member = members[count - 1];
        let name = member.0;
        let value = member.1;
        let so_far = Json::Object(before);
        assert(members_of(Json::Object(members)) == members);
        assert(now.drop_last() =~= before);
        assert(now.last() == member);
        assert(before.push((name, value)) =~= now);
        lemma_build_root(members, (count - 1) as nat);
        lemma_build_concat(
            empty_object(),
            member_leaves(before, Seq::empty()),
            leaves(value, name),
        );
        lemma_new_name(members, count - 1);
        lemma_segments_of_name(name);
        assert(seq![name][0] == name);
        assert(insert_path(so_far, seq![name], value) == Json::Object(now));
        if value is Object {
            assert(joined(seq![name]) == name);
            assert(vacant(so_far, seq![name]));
            lemma_build_part(so_far, seq![name], value);
        } else {
            lemma_build_one(so_far, name, value);
        }
    }
}

/// A value that comes back is what the keys and leaves below it spell.
proof fn lemma_unflatten_leaves(value: Json)
    requires
        round_trips(value),
    ensures
        unflatten(leaves(value, Seq::empty())) == value,
{
    let members = value->Object_0;
    lemma_build_root(members, members.len());
    assert(members.take(members.len() as int) =~= members);
}

/// Whether `key` lies at `path` or below it: its segments begin with the
/// names of `path`.
pub open spec fn below(key: Seq<char>, path: Seq<Seq<char>>) -> bool {
    &&& segments(key).len() >= path.len()
    &&& segments(key).take(path.len() as int) == path
}

/// Whether every key of `entries` lies below one of the first `count`
/// members of an object at `path`.
pub open spec fn below_members(
    entries: Seq<(Seq<char>, Json)>,
    path: Seq<Seq<char>>,
    members: Seq<(Seq<char>, Json)>,
    count: nat,
) -> bool {
    forall|e: int|
        0 <= e < entries.len() ==> exists|i: int|
            0 <= i < count && below((#[trigger] entries[e]).0, path.push(members[i].0))
}

/// A key below a member of an object lies below the object.
proof fn lemma_below_shorter(key: Seq<char>, path: Seq<Seq<char>>, name: Seq<char>)
    requires
        below(key, path.push(name)),
    ensures
        below(key, path),
        segments(key)[path.len() as int] == name,
{
    let longer = path.push(name);
    let parts = segments(key);
    assert(parts.take(longer.len() as int)[path.len() as int] == longer[path.len() as int]);
    assert(parts.take(path.len() as int) =~= parts.take(longer.len() as int).take(
        path.len() as int,
    ));
    assert(longer.take(path.len() as int) =~= path);
}

/// The keys of the leaves below the first members of an object differ, and
/// each lies below one of these members. This holds at the root of a value
/// that comes back, and of a plain object further down.
proof fn lemma_keys_of_members(path: Seq<Seq<char>>, part: Json, count: nat)
    requires
        part is Object,
        count <= part->Object_0.len(),
        dot_free_path(path),
        path.len() == 0 ==> round_trips(part),
        path.len() > 0 ==> plain(part) && joined(path).len() > 0,
    ensures
        distinct_keys(first_leaves(part, count, joined(path))),
        below_members(first_leaves(part, count, joined(path)), path, part->Object_0, count),
    decreases part, count,
{
    let key = joined(path);
    let members = part->Object_0;
    let now = members.take(count as int);
    assert(members_of(part) == members);
    if count > 0 {
        let before = members.take(count - 1);
        let name = members[count - 1].0;
        let value = members[count - 1].1;
        let deeper = path.push(name);
        let old_leaves = member_leaves(before, key);
        let new_leaves = leaves(value, joined(deeper));
        let all = old_leaves + new_leaves;
        assert(now.drop_last() =~= before);
        assert(now.last() == members[count - 1]);
        lemma_nested_key(path, name);
        assert(member_leaves(now, key) == all);
        lemma_keys_of_members(path, part, (count - 1) as nat);
        assert(decreases_to!(part => part->Object_0));
        assert(decreases_to!(members => members[count - 1]));
        assert(decreases_to!(members[count - 1] => members[count - 1].1));
        if path.len() == 0 {
            assert(deeper[0] == name);
            assert(joined(deeper) == name);
        }
        lemma_keys_of_part(deeper, value);
        assert forall|e: int| 0 <= e < all.len() implies exists|i: int|
            0 <= i < count && below((#[trigger] all[e]).0, path.push(members[i].0)) by {
            if e < old_leaves.len() {
                assert(all[e] == old_leaves[e]);
                let i = choose|i: int|
                    0 <= i < count - 1 && below(old_leaves[e].0, path.push(members[i].0));
                assert(0 <= i < count && below(all[e].0, path.push(members[i].0)));
            } else {
                assert(all[e] == new_leaves[e - old_leaves.len()]);
                assert(below(all[e].0, path.push(members[count - 1].0)));
            }
        }
        assert forall|a: int, b: int| 0 <= a < b < all.len() implies (#[trigger] all[a]).0 != (
        #[trigger] all[b]).0 by {
            if b < old_leaves.len() {
                assert(all[a] == old_leaves[a]);
                assert(all[b] == old_leaves[b]);
            } else if a >= old_leaves.len() {
                assert(all[a] == new_leaves[a - old_leaves.len()]);
                assert(all[b] == new_leaves[b - old_leaves.len()]);
            } else {
                assert(all[a] == old_leaves[a]);
                assert(all[b] == new_leaves[b - old_leaves.len()]);
                let i = choose|i: int|
                    0 <= i < count - 1 && below(old_leaves[a].0, path.push(members[i].0));
                lemma_below_shorter(all[a].0, path, members[i].0);
                lemma_below_shorter(all[b].0, path, name);
                assert(members[i].0 != members[count - 1].0);
            }
        }
    } else {
        assert(now =~= Seq::empty());
    }
}

/// The keys of the leaves below a plain value whose own key spells `path`
/// differ, and each lies at `path` or below it.
proof fn lemma_keys_of_part(path: Seq<Seq<char>>, part: Json)
    requires
        path.len() >= 1,
        joined(path).len() > 0 || !(part is Object),
        dot_free_path(path),
        plain(part),
    ensures
        distinct_keys(leaves(part, joined(path))),
        forall|e: int|
            0 <= e < leaves(part, joined(path)).len() ==> below(
                (#[trigger] leaves(part, joined(path))[e]).0,
                path,
            ),
    decreases part, part->Object_0.len() + 1,
{
    let all = leaves(part, joined(path));
    match part {
        Json::Object(members) => {
            lemma_keys_of_members(path, part, members.len());
            assert(members.take(members.len() as int) =~= members);
            assert forall|e: int| 0 <= e < all.len() implies below((#[trigger] all[e]).0, path) by {
                let i = choose|i: int|
                    0 <= i < members.len() && below(all[e].0, path.push(members[i].0));
                lemma_below_shorter(all[e].0, path, members[i].0);
            }
        },
        _ => {
            lemma_segments_of_joined(path);
            assert(segments(joined(path)).take(path.len() as int) =~= path);
        },
    }
}

/// Flattening a value and building from its flat map gives the value back,
/// for the values that `round_trips` describes. Others do not come back: a
/// value that is no object, a nested object without members, names that
/// hold a dot or occur twice in one object, an object under the empty name
/// at the root.
pub proof fn lemma_round_trip(value: Json)
    requires
        round_trips(value),
    ensures
        flatten(value) == leaves(value, Seq::empty()),
        unflatten(flatten(value)) == value,
{
    let members = value->Object_0;
    let empty = Seq::<Seq<char>>::empty();
    assert(joined(empty) == Seq::<char>::empty());
    lemma_keys_of_members(empty, value, members.len());
    assert(members.take(members.len() as int) =~= members);
    lemma_upsert_all_of_distinct(leaves(value, Seq::empty()));
    lemma_unflatten_leaves(value);
}

} // verus!
