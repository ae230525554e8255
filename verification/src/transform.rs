//! The transformation itself: flatten, match, rebuild.

use crate::engine::Shapeshift;
use crate::entries::{entries_view, keys_of};
use crate::flat::flatten;
use crate::matching::{assigned, assignment, closest_match, lemma_first_max, table_view};
use crate::path::texts;
use crate::roundtrip::round_trips;
use crate::shape::{decided, lemma_result_has_target_shape, refill};
use crate::tree::{build, empty_object, insert_nested, lemma_object_view, unflatten};
use crate::value::{Json, Value};
use crate::wellformed::{lemma_shapeshifted_well_formed, well_formed};
use vstd::prelude::*;

verus! {

/// Why a transformation was refused.
#[derive(Debug, PartialEq, Eq)]
pub enum ShapeshiftError {
    /// The table of similarities does not have one row for each target key
    /// with one number for each source key in it.
    SimilarityShape,
}

/// A transformed value and how it came about.
#[derive(Debug)]
pub struct Shapeshifted {
    /// The value in the shape of the target.
    pub result: Value,
    /// The dotted keys of the source's leaves, in order.
    pub source_keys: Vec<String>,
    /// The dotted keys of the target's leaves, in order.
    pub target_keys: Vec<String>,
    /// For each target key the place of the source key it was filled from.
    pub matches: Vec<Option<usize>>,
}

/// Whether `table` has `targets` rows of `sources` numbers each.
pub open spec fn well_shaped(table: Seq<Seq<i64>>, targets: nat, sources: nat) -> bool {
    &&& table.len() == targets
    &&& forall|t: int| 0 <= t < table.len() ==> (#[trigger] table[t]).len() == sources
}

/// What each target leaf is filled with: under the target's key the value of
/// the source leaf it was matched to, or null where it was matched to none.
pub open spec fn decisions(
    targets: Seq<(Seq<char>, Json)>,
    sources: Seq<(Seq<char>, Json)>,
    matches: Seq<Option<usize>>,
) -> Seq<(Seq<char>, Json)> {
    Seq::new(
        targets.len(),
        |t: int|
            (
                targets[t].0,
                match matches[t] {
                    Some(source) => sources[source as int].1,
                    None => Json::Null,
                },
            ),
    )
}

/// The transformed value: the decisions for the target's leaves, built up
/// into a nested value again.
pub open spec fn shapeshifted(
    source: Json,
    target: Json,
    table: Seq<Seq<i64>>,
    threshold: i64,
) -> Json {
    unflatten(decisions(flatten(target), flatten(source), assignment(table, threshold)))
}

impl ShapeshiftError {
    /// The error in words.
    pub fn message(&self) -> (text: String)
        ensures
            text@ == "the similarities do not fit the keys of source and target"@,
    {
        match self {
            ShapeshiftError::SimilarityShape => String::from_str(
                "the similarities do not fit the keys of source and target",
            ),
        }
    }
}

impl Shapeshift {
    /// Fills the shape of `target_obj` with the values of `source_obj`.
    ///
    /// Row `t` of `similarities` holds the similarity of the `t`-th target
    /// key to each source key, both in the order of the flat maps. The call
    /// is refused where the table has another shape, and only there. Each
    /// target leaf gets the value of the source leaf it is matched to, or
    /// null; the result is built from these leaves under the target's keys,
    /// and has the target's shape where the target comes back from its own
    /// flat map.
    pub fn shapeshift(
        &self,
        source_obj: Value,
        target_obj: Value,
        similarities: &Vec<Vec<i64>>,
    ) -> (outcome: Result<Shapeshifted, ShapeshiftError>)
        ensures
            outcome is Ok <==> well_shaped(
                table_view(similarities@),
                flatten(target_obj@).len(),
                flatten(source_obj@).len(),
            ),
            match outcome {
                Ok(done) => {
                    &&& done.result@ == shapeshifted(
                        source_obj@,
                        target_obj@,
                        table_view(similarities@),
                        self.threshold(),
                    )
                    &&& texts(done.source_keys@) == keys_of(flatten(source_obj@))
                    &&& texts(done.target_keys@) == keys_of(flatten(target_obj@))
                    &&& done.matches@ == assignment(table_view(similarities@), self.threshold())
                    &&& forall|a: int, b: int|
                        0 <= a < b < done.matches@.len() && done.matches@[a] is Some
                            ==> done.matches@[a] != done.matches@[b]
                    &&& well_formed(source_obj@) ==> well_formed(done.result@)
                    &&& round_trips(target_obj@) ==> done.result@ == refill(
                        target_obj@,
                        decided(flatten(source_obj@), done.matches@),
                    )
                },
                Err(error) => error == ShapeshiftError::SimilarityShape,
            },
    {
        let flat_source = self.flatten_object(&source_obj);
        let flat_target = self.flatten_object(&target_obj);
        let ghost table = table_view(similarities@);
        let ghost threshold = self.threshold();
        if similarities.len() != flat_target.len() {
            return Err(ShapeshiftError::SimilarityShape);
        }
        let mut t: usize = 0;
        while t < similarities.len()
            invariant
                t <= similarities.len(),
                table == table_view(similarities@),
                flat_source@ == flatten(source_obj@),
                flat_target@ == flatten(target_obj@),
                forall|e: int| 0 <= e < t ==> (#[trigger] table[e]).len() == flat_source@.len(),
            decreases similarities.len() - t,
        {
            if similarities[t].len() != flat_source.len() {
                assert(table[t as int].len() != flat_source@.len());
                return Err(ShapeshiftError::SimilarityShape);
            }
            t += 1;
        }
        let source_keys = flat_source.keys();
        let target_keys = flat_target.keys();
        let matches = self.match_targets(similarities);
        let ghost filled = decisions(flat_target@, flat_source@, matches@);
        let none: Vec<(String, Value)> = Vec::new();
        proof {
            lemma_object_view(none);
            assert(entries_view(none@) =~= Seq::empty());
            assert(filled.take(0) =~= Seq::empty());
        }
        let mut transformed = Value::Object(none);
        t = 0;
        while t < matches.len()
            invariant
                t <= matches.len(),
                matches@.len() == flat_target@.len(),
                table == table_view(similarities@),
                threshold == self.threshold(),
                well_shaped(table, flat_target@.len(), flat_source@.len()),
                matches@ == assignment(table, threshold),
                filled == decisions(flat_target@, flat_source@, matches@),
                transformed@ == build(empty_object(), filled.take(t as int)),
            decreases matches.len() - t,
        {
            let target = flat_target.at(t);
            let value = match matches[t] {
                Some(source) => {
                    proof {
                        assert(assigned(table, threshold, t as int) == Some(source));
                        assert(closest_match(table[t as int], threshold) == Some(source));
                        lemma_first_max(table[t as int]);
                    }
                    flat_source.at(source).1.clone()
                },
                None => Value::Null,
            };
            proof {
                assert(filled.take(t + 1).drop_last() =~= filled.take(t as int));
                assert(filled.take(t + 1).last() == filled[t as int]);
            }
            insert_nested(&mut transformed, target.0.as_str(), value);
            t += 1;
        }
        proof {
            assert(filled.take(t as int) =~= filled);
            if well_formed(source_obj@) {
                lemma_shapeshifted_well_formed(source_obj@, target_obj@, table, threshold);
            }
            if round_trips(target_obj@) {
                lemma_result_has_target_shape(source_obj@, target_obj@, table, threshold);
            }
        }
        Ok(Shapeshifted { result: transformed, source_keys, target_keys, matches })
    }
}

} // verus!
