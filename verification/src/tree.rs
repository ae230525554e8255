//! Building a nested value from dotted keys.

use crate::entries::{entries_view, find_entry, lemma_index_of, lookup, put_entry, upsert};
use crate::path::{lemma_segments_nonempty, segments, split_key, texts};
use crate::value::{Json, Value};
use crate::wellformed::{lemma_insert_well_formed, well_formed};
use vstd::prelude::*;

verus! {

/// The members of an object; none for any other value.
pub open spec fn members_of(node: Json) -> Seq<(Seq<char>, Json)> {
    match node {
        Json::Object(members) => members,
        _ => Seq::empty(),
    }
}

/// The object without members.
pub open spec fn empty_object() -> Json {
    Json::Object(Seq::empty())
}

/// The member of `node` that a path goes on through: the member of that
/// name, or an empty object where there is none.
pub open spec fn child_at(node: Json, name: Seq<char>) -> Json {
    match lookup(members_of(node), name) {
        Some(child) => child,
        None => empty_object(),
    }
}

/// `node` with `leaf` put at `path`. Every node on the way is an object
/// afterwards: a missing one is created, and a value that is no object is
/// replaced by an empty object before the path goes on through it. A member
/// that exists keeps its place; what was there before is overwritten.
pub open spec fn insert_path(node: Json, path: Seq<Seq<char>>, leaf: Json) -> Json
    decreases path.len(),
{
    let members = members_of(node);
    if path.len() == 0 {
        node
    } else if path.len() == 1 {
        Json::Object(upsert(members, path[0], leaf))
    } else {
        let child = child_at(node, path[0]);
        Json::Object(upsert(members, path[0], insert_path(child, path.drop_first(), leaf)))
    }
}

/// `acc` after putting each entry at the path that its key spells, the first
/// entry first.
pub open spec fn build(acc: Json, entries: Seq<(Seq<char>, Json)>) -> Json
    decreases entries.len(),
{
    if entries.len() == 0 {
        acc
    } else {
        insert_path(build(acc, entries.drop_last()), segments(entries.last().0), entries.last().1)
    }
}

/// The nested value that a list of dotted keys and leaves spells. Where two
/// keys claim one place, the later entry wins.
pub open spec fn unflatten(entries: Seq<(Seq<char>, Json)>) -> Json {
    build(empty_object(), entries)
}

/// The view of an object is the view of its members.
pub proof fn lemma_object_view(members: Vec<(String, Value)>)
    ensures
        Value::Object(members)@ == Json::Object(entries_view(members@)),
{
    let whole = Value::Object(members)@;
    assert(whole is Object);
    assert(whole->Object_0.len() == members@.len());
    assert forall|i: int| 0 <= i < members@.len() implies whole->Object_0[i] == entries_view(
        members@,
    )[i] by {
        assert(whole->Object_0[i] == (members@[i].0@, members@[i].1@));
    }
    assert(whole->Object_0 =~= entries_view(members@));
}

/// Whether `node` is an object.
pub fn is_object(node: &Value) -> (yes: bool)
    ensures
        yes == (node@ is Object),
{
    match node {
        Value::Object(_) => true,
        _ => false,
    }
}

/// Puts `new_value` into `node` at the path that `parts` spell from `from`
/// on.
fn insert_at(node: &mut Value, parts: &Vec<String>, from: usize, new_value: Value)
    requires
        from < parts.len(),
    ensures
        final(node)@ == insert_path(old(node)@, texts(parts@).skip(from as int), new_value@),
    decreases parts.len() - from,
{
    let ghost path = texts(parts@).skip(from as int);
    let ghost before = members_of(old(node)@);
    if !is_object(node) {
        let none: Vec<(String, Value)> = Vec::new();
        proof {
            lemma_object_view(none);
            assert(entries_view(none@) =~= before);
        }
        *node = Value::Object(none);
    }
    assert(node@ == Json::Object(before));
    match node {
        Value::Object(members) => {
            proof {
                lemma_object_view(*members);
            }
            assert(entries_view(members@) == before);
            let at = find_entry(members, &parts[from]);
            assert(path[0] == parts@[from as int]@);
            if from + 1 == parts.len() {
                put_entry(members, parts[from].clone(), new_value);
                proof {
                    lemma_object_view(*members);
                }
            } else {
                if at == members.len() {
                    let none: Vec<(String, Value)> = Vec::new();
                    proof {
                        lemma_object_view(none);
                        assert(entries_view(none@) =~= Seq::empty());
                    }
                    members.push((parts[from].clone(), Value::Object(none)));
                }
                let ghost middle = entries_view(members@);
                let ghost child = child_at(old(node)@, path[0]);
                proof {
                    lemma_index_of(before, path[0]);
                    assert(middle[at as int] == (path[0], child));
                    assert(path.drop_first() =~= texts(parts@).skip(from + 1));
                }
                insert_at(&mut members[at].1, parts, from + 1, new_value);
                proof {
                    lemma_object_view(*members);
                    assert(entries_view(members@) =~= upsert(
                        before,
                        path[0],
                        insert_path(child, path.drop_first(), new_value@),
                    ));
                }
            }
        },
        _ => {},
    }
}

/// Puts `new_value` into `value` at the path that `key` spells.
pub fn insert_nested(value: &mut Value, key: &str, new_value: Value)
    ensures
        final(value)@ == insert_path(old(value)@, segments(key@), new_value@),
        well_formed(old(value)@) && well_formed(new_value@) ==> well_formed(final(value)@),
{
    let parts = split_key(key);
    proof {
        lemma_segments_nonempty(key@);
        assert(texts(parts@).skip(0) =~= texts(parts@));
        if well_formed(value@) && well_formed(new_value@) {
            lemma_insert_well_formed(value@, segments(key@), new_value@);
        }
    }
    insert_at(value, &parts, 0, new_value);
}

} // verus!
