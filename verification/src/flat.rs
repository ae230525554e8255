//! Flat maps: the leaves of a nested value, each under its dotted key.

use crate::engine::Shapeshift;
use crate::entries::{
    all_entries, distinct_keys, entries_view, find_entry, keys_of, lemma_upsert,
    lemma_upsert_all_concat, lemma_upsert_all_distinct, lemma_upsert_all_keeps,
    lemma_upsert_all_one, lookup, put_entry, upsert, upsert_all,
};
use crate::path::{join_key, nested_key, texts};
use crate::tree::{build, empty_object, insert_nested, lemma_object_view, unflatten};
use crate::value::{Json, Value};
use crate::wellformed::{
    lemma_build_well_formed, lemma_leaves_well_formed, well_formed, well_formed_value,
};
use vstd::prelude::*;

verus! {

/// The leaves below `value`, each with its dotted key, in the order of a
/// walk that goes through the members of every object in their own order.
/// A value that is no object is one leaf, under `prefix`; an array is never
/// entered.
pub open spec fn leaves(value: Json, prefix: Seq<char>) -> Seq<(Seq<char>, Json)>
    decreases value,
{
    match value {
        Json::Object(members) => member_leaves(members, prefix),
        _ => seq![(prefix, value)],
    }
}

/// The leaves below the members of an object that sits at `prefix`.
pub open spec fn member_leaves(members: Seq<(Seq<char>, Json)>, prefix: Seq<char>) -> Seq<
    (Seq<char>, Json),
>
    decreases members,
{
    if members.len() == 0 {
        Seq::empty()
    } else {
        member_leaves(members.drop_last(), prefix) + leaves(
            members.last().1,
            nested_key(prefix, members.last().0),
        )
    }
}

/// The flat map of `value`: its leaves set one by one, so that of two leaves
/// with one key the first fixes the place and the last the value.
pub open spec fn flatten(value: Json) -> Seq<(Seq<char>, Json)> {
    upsert_all(Seq::empty(), leaves(value, Seq::empty()))
}

/// The keys of a flat map differ.
pub proof fn lemma_flatten_distinct(value: Json)
    ensures
        distinct_keys(flatten(value)),
{
    lemma_upsert_all_distinct(Seq::empty(), leaves(value, Seq::empty()));
}

/// An ordered map from dotted keys to leaves. No key occurs twice; entries
/// stay in the order in which their keys first came.
#[derive(Debug)]
pub struct FlatMap {
    entries: Vec<(String, Value)>,
}

impl View for FlatMap {
    type V = Seq<(Seq<char>, Json)>;

    closed spec fn view(&self) -> Seq<(Seq<char>, Json)> {
        entries_view(self.entries@)
    }
}

impl FlatMap {
    #[verifier::type_invariant]
    spec fn well_formed(&self) -> bool {
        distinct_keys(entries_view(self.entries@))
    }

    /// A map without entries.
    pub fn new() -> (map: FlatMap)
        ensures
            map@ == Seq::<(Seq<char>, Json)>::empty(),
    {
        let map = FlatMap { entries: Vec::new() };
        assert(map@ =~= Seq::empty());
        map
    }

    /// The number of entries.
    pub fn len(&self) -> (n: usize)
        ensures
            n == self@.len(),
            distinct_keys(self@),
    {
        proof {
            use_type_invariant(self);
        }
        self.entries.len()
    }

    /// Sets `key` to `value`: in place where the key is present, at the end
    /// where it is new.
    pub fn insert(&mut self, key: String, value: Value)
        ensures
            final(self)@ == upsert(old(self)@, key@, value@),
    {
        proof {
            use_type_invariant(&*self);
            lemma_upsert(self@, key@, value@);
        }
        let mut entries: Vec<(String, Value)> = Vec::new();
        assert(entries_view(entries@) =~= Seq::empty());
        std::mem::swap(&mut self.entries, &mut entries);
        put_entry(&mut entries, key, value);
        std::mem::swap(&mut self.entries, &mut entries);
    }

    /// The value under `key`.
    pub fn get(&self, key: &String) -> (found: Option<&Value>)
        ensures
            match found {
                Some(value) => lookup(self@, key@) == Some(value@),
                None => lookup(self@, key@) is None,
            },
    {
        let at = find_entry(&self.entries, key);
        if at < self.entries.len() {
            Some(&self.entries[at].1)
        } else {
            None
        }
    }

    /// The entry at place `at`.
    pub(crate) fn at(&self, at: usize) -> (pair: (&String, &Value))
        requires
            at < self@.len(),
        ensures
            pair.0@ == self@[at as int].0,
            pair.1@ == self@[at as int].1,
    {
        (&self.entries[at].0, &self.entries[at].1)
    }

    /// The entry at place `at`, if there is one.
    pub fn entry(&self, at: usize) -> (found: Option<(&String, &Value)>)
        ensures
            match found {
                Some(pair) => at < self@.len() && pair.0@ == self@[at as int].0 && pair.1@
                    == self@[at as int].1,
                None => at >= self@.len(),
            },
    {
        if at < self.entries.len() {
            Some((&self.entries[at].0, &self.entries[at].1))
        } else {
            None
        }
    }

    /// The keys, in order.
    pub fn keys(&self) -> (keys: Vec<String>)
        ensures
            texts(keys@) == keys_of(self@),
            distinct_keys(self@),
    {
        proof {
            use_type_invariant(self);
        }
        let mut keys: Vec<String> = Vec::new();
        let mut i: usize = 0;
        while i < self.entries.len()
            invariant
                i <= self.entries.len(),
                keys.len() == i,
                forall|j: int| 0 <= j < i ==> keys@[j]@ == self.entries@[j].0@,
            decreases self.entries.len() - i,
        {
            keys.push(self.entries[i].0.clone());
            i += 1;
        }
        assert(texts(keys@) =~= keys_of(self@));
        keys
    }
}

impl Shapeshift {
    /// The flat map of `obj`.
    pub fn flatten_object(&self, obj: &Value) -> (flat_map: FlatMap)
        ensures
            flat_map@ == flatten(obj@),
            distinct_keys(flat_map@),
            well_formed(obj@) ==> all_entries(flat_map@, well_formed_value()),
    {
        let mut flat_map = FlatMap::new();
        proof {
            if well_formed(obj@) {
                lemma_leaves_well_formed(obj@, Seq::empty());
                lemma_upsert_all_keeps(
                    Seq::empty(),
                    leaves(obj@, Seq::empty()),
                    well_formed_value(),
                );
            }
        }
        self.flatten_recursive(obj, String::new(), &mut flat_map);
        proof {
            use_type_invariant(&flat_map);
        }
        flat_map
    }

    /// Sets the leaves below `obj` in `flat_map`, with `prefix` as the key
    /// of `obj` itself.
    pub fn flatten_recursive(&self, obj: &Value, prefix: String, flat_map: &mut FlatMap)
        ensures
            final(flat_map)@ == upsert_all(old(flat_map)@, leaves(obj@, prefix@)),
        decreases obj,
    {
        match obj {
            Value::Object(members) => {
                proof {
                    lemma_object_view(*members);
                }
                let ghost start = flat_map@;
                let ghost all = entries_view(members@);
                let mut i: usize = 0;
                assert(all.take(0) =~= Seq::empty());
                while i < members.len()
                    invariant
                        *obj == Value::Object(*members),
                        all == entries_view(members@),
                        i <= members.len(),
                        flat_map@ == upsert_all(start, member_leaves(all.take(i as int), prefix@)),
                    decreases members.len() - i,
                {
                    let key = join_key(prefix.as_str(), members[i].0.as_str());
                    proof {
                        assert(decreases_to!(*obj => obj->Object_0));
                        assert(decreases_to!(*members => members[i as int]));
                        assert(decreases_to!(members[i as int] => members[i as int].1));
                        assert(all.take(i + 1).drop_last() =~= all.take(i as int));
                        assert(all.take(i + 1).last() == all[i as int]);
                        lemma_upsert_all_concat(
                            start,
                            member_leaves(all.take(i as int), prefix@),
                            leaves(all[i as int].1, key@),
                        );
                    }
                    self.flatten_recursive(&members[i].1, key, flat_map);
                    i += 1;
                }
                assert(all.take(i as int) =~= all);
            },
            _ => {
                proof {
                    lemma_upsert_all_one(flat_map@, prefix@, obj@);
                }
                flat_map.insert(prefix, obj.clone());
            },
        }
    }

    /// The nested value that `flat_obj` spells. Where two keys claim one
    /// place, the later entry wins.
    pub fn unflatten_object(&self, flat_obj: &FlatMap) -> (value: Value)
        ensures
            value@ == unflatten(flat_obj@),
            all_entries(flat_obj@, well_formed_value()) ==> well_formed(value@),
    {
        proof {
            if all_entries(flat_obj@, well_formed_value()) {
                lemma_build_well_formed(empty_object(), flat_obj@);
            }
        }
        let none: Vec<(String, Value)> = Vec::new();
        proof {
            lemma_object_view(none);
            assert(entries_view(none@) =~= Seq::empty());
        }
        let mut value = Value::Object(none);
        let mut i: usize = 0;
        assert(flat_obj@.take(0) =~= Seq::empty());
        while i < flat_obj.entries.len()
            invariant
                i <= flat_obj.entries.len(),
                value@ == build(empty_object(), flat_obj@.take(i as int)),
            decreases flat_obj.entries.len() - i,
        {
            proof {
                assert(flat_obj@.take(i + 1).drop_last() =~= flat_obj@.take(i as int));
                assert(flat_obj@.take(i + 1).last() == flat_obj@[i as int]);
            }
            insert_nested(
                &mut value,
                flat_obj.entries[i].0.as_str(),
                flat_obj.entries[i].1.clone(),
            );
            i += 1;
        }
        assert(flat_obj@.take(i as int) =~= flat_obj@);
        value
    }
}

} // verus!
