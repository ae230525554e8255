//! What holds of every matching.

use crate::matching::{assigned, assignment, claimed_before, closest_match, lemma_first_max};
use crate::transform::decisions;
use crate::value::Json;
use vstd::prelude::*;

verus! {

/// Raising the threshold never changes the closest match of one row; it
/// can only take the match away.
pub proof fn lemma_closest_match_monotone(row: Seq<i64>, low: i64, high: i64)
    requires
        low <= high,
    ensures
        closest_match(row, high) is Some ==> closest_match(row, low) == closest_match(row, high),
{
}

/// Whether raising the threshold from `low` to `high` frees a source for
/// `target`: at `high` the target gets a source that, at `low`, an earlier
/// target claims.
pub open spec fn freed_between(table: Seq<Seq<i64>>, low: i64, high: i64, target: int) -> bool {
    &&& assigned(table, high, target) is Some
    &&& claimed_before(table, low, target, assigned(table, high, target)->0)
}

/// Raising the threshold creates no match: what a target gets at the higher
/// threshold it gets at the lower one too, unless the rise freed its source
/// from an earlier target.
pub proof fn lemma_threshold_monotone(table: Seq<Seq<i64>>, low: i64, high: i64, target: int)
    requires
        low <= high,
        !freed_between(table, low, high, target),
    ensures
        assigned(table, high, target) is Some ==> assigned(table, low, target) == assigned(
            table,
            high,
            target,
        ),
{
    if assigned(table, high, target) is Some {
        lemma_closest_match_monotone(table[target], low, high);
    }
}

/// Where the rise frees a source for a target, the target is matched at the
/// higher threshold and not at the lower one: these are the only cases in
/// which a match is new.
pub proof fn lemma_threshold_frees(table: Seq<Seq<i64>>, low: i64, high: i64, target: int)
    requires
        low <= high,
        freed_between(table, low, high, target),
    ensures
        assigned(table, high, target) is Some,
        assigned(table, low, target) is None,
        exists|earlier: int|
            0 <= earlier < target && #[trigger] closest_match(table[earlier], low) == assigned(
                table,
                high,
                target,
            ) && closest_match(table[earlier], high) is None,
{
    let source = assigned(table, high, target)->0;
    lemma_closest_match_monotone(table[target], low, high);
    let earlier = choose|earlier: int|
        0 <= earlier < target && #[trigger] closest_match(table[earlier], low) == Some(source);
    lemma_closest_match_monotone(table[earlier], low, high);
    if closest_match(table[earlier], high) is Some {
        assert(closest_match(table[earlier], high) == Some(source));
        assert(claimed_before(table, high, target, source));
    }
}

/// `table` with the rows of two targets exchanged.
pub open spec fn exchanged(table: Seq<Seq<i64>>, one: int, other: int) -> Seq<Seq<i64>> {
    table.update(one, table[other]).update(other, table[one])
}

/// Of two targets with the same closest match, which no target before them
/// claims, the earlier one gets the source and the later one nothing; with
/// their rows exchanged it is the other way round.
pub proof fn lemma_earlier_target_wins(
    table: Seq<Seq<i64>>,
    threshold: i64,
    first: int,
    second: int,
    source: usize,
)
    requires
        0 <= first < second < table.len(),
        closest_match(table[first], threshold) == Some(source),
        closest_match(table[second], threshold) == Some(source),
        !claimed_before(table, threshold, first, source),
    ensures
        assigned(table, threshold, first) == Some(source),
        assigned(table, threshold, second) is None,
        assigned(exchanged(table, first, second), threshold, first) == Some(source),
        assigned(exchanged(table, first, second), threshold, second) is None,
{
    let turned = exchanged(table, first, second);
    assert(claimed_before(table, threshold, second, source));
    assert(turned[first] == table[second]);
    assert(turned[second] == table[first]);
    assert(claimed_before(turned, threshold, second, source));
    if claimed_before(turned, threshold, first, source) {
        let earlier = choose|earlier: int|
            0 <= earlier < first && #[trigger] closest_match(turned[earlier], threshold) == Some(
                source,
            );
        assert(turned[earlier] == table[earlier]);
        assert(closest_match(table[earlier], threshold) == Some(source));
    }
}

/// A target none of whose similarities reaches the threshold gets nothing;
/// so does a target without any similarity, where the source has no leaf.
pub proof fn lemma_below_threshold_unmatched(table: Seq<Seq<i64>>, threshold: i64, target: int)
    requires
        forall|j: int| 0 <= j < table[target].len() ==> table[target][j] < threshold,
    ensures
        assigned(table, threshold, target) is None,
{
    if table[target].len() > 0 {
        lemma_first_max(table[target]);
    }
}

/// The targets, each filled with null.
pub open spec fn nulled(targets: Seq<(Seq<char>, Json)>) -> Seq<(Seq<char>, Json)> {
    Seq::new(targets.len(), |t: int| (targets[t].0, Json::Null))
}

/// Where no similarity reaches the threshold, every target leaf is filled
/// with null.
pub proof fn lemma_all_below_threshold_all_null(
    targets: Seq<(Seq<char>, Json)>,
    sources: Seq<(Seq<char>, Json)>,
    table: Seq<Seq<i64>>,
    threshold: i64,
)
    requires
        table.len() == targets.len(),
        forall|t: int, j: int|
            0 <= t < table.len() && 0 <= j < table[t].len() ==> #[trigger] table[t][j]
                < threshold,
    ensures
        decisions(targets, sources, assignment(table, threshold)) == nulled(targets),
{
    assert forall|t: int| 0 <= t < targets.len() implies decisions(
        targets,
        sources,
        assignment(table, threshold),
    )[t] == nulled(targets)[t] by {
        lemma_below_threshold_unmatched(table, threshold, t);
    }
    assert(decisions(targets, sources, assignment(table, threshold)) =~= nulled(targets));
}

} // verus!
