//! Values in which every object is a mapping: no object has two members of
//! one name.

use crate::entries::{
    all_entries, distinct_keys, entries_view, find_entry, has_key, index_of, lemma_index_of,
    lemma_upsert, lemma_upsert_all_keeps, lemma_upsert_entries, upsert,
};
use crate::flat::{flatten, leaves, member_leaves};
use crate::matching::{assigned, assignment, lemma_first_max};
use crate::path::{nested_key, segments};
use crate::transform::{decisions, shapeshifted, well_shaped};
use crate::tree::{
    build, child_at, empty_object, insert_path, lemma_object_view, members_of,
};
use crate::value::{Json, Value};
use vstd::prelude::*;

verus! {

/// Whether no object in `value`, however deep, has two members of one name.
pub open spec fn well_formed(value: Json) -> bool
    decreases value,
{
    match value {
        Json::Object(members) => {
            &&& distinct_keys(members)
            &&& forall|i: int| 0 <= i < members.len() ==> well_formed((#[trigger] members[i]).1)
        },
        Json::Array(items) => forall|i: int|
            0 <= i < items.len() ==> well_formed(#[trigger] items[i]),
        _ => true,
    }
}

/// The entries whose value is well formed.
pub open spec fn well_formed_value() -> spec_fn((Seq<char>, Json)) -> bool {
    |entry: (Seq<char>, Json)| well_formed(entry.1)
}

/// Putting a well-formed leaf into a well-formed value gives a well-formed
/// value.
pub proof fn lemma_insert_well_formed(node: Json, path: Seq<Seq<char>>, leaf: Json)
    requires
        well_formed(node),
        well_formed(leaf),
    ensures
        well_formed(insert_path(node, path, leaf)),
    decreases path.len(),
{
    if path.len() > 0 {
        let around = members_of(node);
        let first = path[0];
        let put = if path.len() == 1 {
            leaf
        } else {
            insert_path(child_at(node, first), path.drop_first(), leaf)
        };
        if path.len() > 1 {
            lemma_index_of(around, first);
            if has_key(around, first) {
                assert(well_formed(around[index_of(around, first)].1));
            }
            lemma_insert_well_formed(child_at(node, first), path.drop_first(), leaf);
        }
        let after = upsert(around, first, put);
        assert(insert_path(node, path, leaf) == Json::Object(after));
        lemma_upsert(around, first, put);
        lemma_upsert_entries(around, first, put);
        assert forall|i: int| 0 <= i < after.len() implies well_formed((#[trigger] after[i]).1) by {
            if after[i] != (first, put) {
                assert(after[i] == around[i]);
            }
        }
    }
}

/// Building from well-formed leaves keeps a value well formed.
pub proof fn lemma_build_well_formed(acc: Json, entries: Seq<(Seq<char>, Json)>)
    requires
        well_formed(acc),
        all_entries(entries, well_formed_value()),
    ensures
        well_formed(build(acc, entries)),
    decreases entries.len(),
{
    if entries.len() > 0 {
        let shorter = entries.drop_last();
        assert forall|e: int| 0 <= e < shorter.len() implies well_formed_value()(
            #[trigger] shorter[e],
        ) by {
            assert(shorter[e] == entries[e]);
        }
        lemma_build_well_formed(acc, shorter);
        assert(well_formed_value()(entries[entries.len() - 1]));
        lemma_insert_well_formed(
            build(acc, shorter),
            segments(entries.last().0),
            entries.last().1,
        );
    }
}

/// The leaves below the members of a well-formed object are well formed.
pub proof fn lemma_member_leaves_well_formed(
    members: Seq<(Seq<char>, Json)>,
    prefix: Seq<char>,
)
    requires
        forall|i: int| 0 <= i < members.len() ==> well_formed((#[trigger] members[i]).1),
    ensures
        all_entries(member_leaves(members, prefix), well_formed_value()),
    decreases members,
{
    if members.len() > 0 {
        let before = members.drop_last();
        let last = members[members.len() - 1];
        assert forall|i: int| 0 <= i < before.len() implies well_formed(
            (#[trigger] before[i]).1,
        ) by {
            assert(before[i] == members[i]);
        }
        lemma_member_leaves_well_formed(before, prefix);
        lemma_leaves_well_formed(last.1, nested_key(prefix, last.0));
        let old_leaves = member_leaves(before, prefix);
        let new_leaves = leaves(last.1, nested_key(prefix, last.0));
        let all = old_leaves + new_leaves;
        assert forall|e: int| 0 <= e < all.len() implies well_formed_value()(#[trigger] all[e]) by {
            if e < old_leaves.len() {
                assert(all[e] == old_leaves[e]);
            } else {
                assert(all[e] == new_leaves[e - old_leaves.len()]);
            }
        }
    }
}

/// The leaves below a well-formed value are well formed.
pub proof fn lemma_leaves_well_formed(value: Json, prefix: Seq<char>)
    requires
        well_formed(value),
    ensures
        all_entries(leaves(value, prefix), well_formed_value()),
    decreases value,
{
    match value {
        Json::Object(members) => {
            lemma_member_leaves_well_formed(members, prefix);
        },
        _ => {},
    }
}

/// What a well-formed source is turned into is well formed.
pub proof fn lemma_shapeshifted_well_formed(
    source: Json,
    target: Json,
    table: Seq<Seq<i64>>,
    threshold: i64,
)
    requires
        well_formed(source),
        well_shaped(table, flatten(target).len(), flatten(source).len()),
    ensures
        well_formed(shapeshifted(source, target, table, threshold)),
{
    let sources = flatten(source);
    let targets = flatten(target);
    let filled = decisions(targets, sources, assignment(table, threshold));
    lemma_leaves_well_formed(source, Seq::empty());
    lemma_upsert_all_keeps(Seq::empty(), leaves(source, Seq::empty()), well_formed_value());
    assert forall|t: int| 0 <= t < filled.len() implies well_formed_value()(
        #[trigger] filled[t],
    ) by {
        match assigned(table, threshold, t) {
            Some(at) => {
                lemma_first_max(table[t]);
                assert(well_formed_value()(sources[at as int]));
            },
            None => {},
        }
    }
    lemma_build_well_formed(empty_object(), filled);
}

impl Value {
    /// Whether no object in the value has two members of one name.
    pub fn is_well_formed(&self) -> (yes: bool)
        ensures
            yes == well_formed(self@),
        decreases self,
    {
        match self {
            Value::Array(items) => {
                let mut i: usize = 0;
                while i < items.len()
                    invariant
                        *self == Value::Array(*items),
                        i <= items.len(),
                        forall|j: int| 0 <= j < i ==> well_formed(#[trigger] self@->Array_0[j]),
                    decreases items.len() - i,
                {
                    assert(decreases_to!(*self => self->Array_0));
                    assert(decreases_to!(*items => items[i as int]));
                    if !items[i].is_well_formed() {
                        assert(!well_formed(self@->Array_0[i as int]));
                        return false;
                    }
                    i += 1;
                }
                true
            },
            Value::Object(members) => {
                proof {
                    lemma_object_view(*members);
                }
                let ghost all = entries_view(members@);
                let mut i: usize = 0;
                while i < members.len()
                    invariant
                        *self == Value::Object(*members),
                        self@ == Json::Object(all),
                        all == entries_view(members@),
                        i <= members.len(),
                        forall|j: int| 0 <= j < i ==> well_formed((#[trigger] all[j]).1),
                        forall|a: int, b: int|
                            0 <= a < b < i ==> (#[trigger] all[a]).0 != (#[trigger] all[b]).0,
                    decreases members.len() - i,
                {
                    assert(decreases_to!(*self => self->Object_0));
                    assert(decreases_to!(*members => members[i as int]));
                    assert(decreases_to!(members[i as int] => members[i as int].1));
                    if !members[i].1.is_well_formed() {
                        assert(!well_formed(all[i as int].1));
                        return false;
                    }
                    let first = find_entry(members, &members[i].0);
                    proof {
                        lemma_index_of(all, all[i as int].0);
                    }
                    if first < i {
                        assert(all[first as int].0 == all[i as int].0);
                        return false;
                    }
                    i += 1;
                }
                true
            },
            _ => true,
        }
    }
}

} // verus!
