//! Greedy matching of target keys to source keys by similarity.

use crate::engine::Shapeshift;
use vstd::prelude::*;

verus! {

/// `at` is the place of the greatest number of `row`, the first such place
/// where several hold it.
pub open spec fn is_first_max(row: Seq<i64>, at: int) -> bool {
    &&& 0 <= at < row.len()
    &&& forall|j: int| 0 <= j < row.len() ==> row[j] <= row[at]
    &&& forall|j: int| 0 <= j < at ==> row[j] < row[at]
}

/// The place of the first greatest number of `row`; 0 for an empty row.
pub open spec fn first_max(row: Seq<i64>) -> int
    decreases row.len(),
{
    if row.len() <= 1 {
        0
    } else {
        let before = first_max(row.drop_last());
        if row.last() > row[before] {
            row.len() - 1
        } else {
            before
        }
    }
}

/// The closest match in a row of similarities: the place of the first
/// greatest one, if that one reaches `threshold`.
pub open spec fn closest_match(row: Seq<i64>, threshold: i64) -> Option<usize> {
    if row.len() > 0 && row[first_max(row)] >= threshold {
        Some(first_max(row) as usize)
    } else {
        None
    }
}

/// Whether some target before `target` has `source` as its closest match.
///
/// Row `t` of `table` holds the similarities of target `t` to each source.
pub open spec fn claimed_before(
    table: Seq<Seq<i64>>,
    threshold: i64,
    target: int,
    source: usize,
) -> bool {
    exists|earlier: int|
        0 <= earlier < target && #[trigger] closest_match(table[earlier], threshold) == Some(
            source,
        )
}

/// The source that target `target` gets: its closest match, unless an
/// earlier target has the same closest match. A target whose closest match
/// is taken gets none; it does not fall back on its next best.
pub open spec fn assigned(table: Seq<Seq<i64>>, threshold: i64, target: int) -> Option<usize> {
    match closest_match(table[target], threshold) {
        Some(source) => if claimed_before(table, threshold, target, source) {
            None
        } else {
            Some(source)
        },
        None => None,
    }
}

/// What every target gets, in the order of the targets.
pub open spec fn assignment(table: Seq<Seq<i64>>, threshold: i64) -> Seq<Option<usize>> {
    Seq::new(table.len(), |target: int| assigned(table, threshold, target))
}

/// The rows of a table of similarities.
pub open spec fn table_view(similarities: Seq<Vec<i64>>) -> Seq<Seq<i64>> {
    Seq::new(similarities.len(), |t: int| similarities[t]@)
}

/// A row that is not empty has a first greatest number, at `first_max`.
pub proof fn lemma_first_max(row: Seq<i64>)
    requires
        row.len() > 0,
    ensures
        is_first_max(row, first_max(row)),
    decreases row.len(),
{
    if row.len() > 1 {
        lemma_first_max(row.drop_last());
        let before = first_max(row.drop_last());
        assert(row.drop_last()[before] == row[before]);
        let best = first_max(row);
        assert forall|j: int| 0 <= j < row.len() implies #[trigger] row[j] <= row[best] by {
            if j < row.len() - 1 {
                assert(row.drop_last()[j] == row[j]);
            }
        }
        assert forall|j: int| 0 <= j < best implies #[trigger] row[j] < row[best] by {
            if j < row.len() - 1 {
                assert(row.drop_last()[j] == row[j]);
            }
        }
    }
}

/// A row has one first greatest number only.
pub proof fn lemma_first_max_is(row: Seq<i64>, at: int)
    requires
        is_first_max(row, at),
    ensures
        first_max(row) == at,
{
    lemma_first_max(row);
}

/// Where a target has `source` as its closest match, that target or an
/// earlier one gets `source`.
pub proof fn lemma_first_claim(table: Seq<Seq<i64>>, threshold: i64, target: int, source: usize)
    requires
        0 <= target,
        closest_match(table[target], threshold) == Some(source),
    ensures
        exists|winner: int|
            0 <= winner <= target && #[trigger] assigned(table, threshold, winner) == Some(
                source,
            ),
    decreases target,
{
    if claimed_before(table, threshold, target, source) {
        let earlier = choose|earlier: int|
            0 <= earlier < target && #[trigger] closest_match(table[earlier], threshold) == Some(
                source,
            );
        lemma_first_claim(table, threshold, earlier, source);
        let winner = choose|winner: int|
            0 <= winner <= earlier && #[trigger] assigned(table, threshold, winner) == Some(
                source,
            );
        assert(0 <= winner <= target && assigned(table, threshold, winner) == Some(source));
    } else {
        assert(assigned(table, threshold, target) == Some(source));
    }
}

/// A source is taken exactly when an earlier target got it: the matching is
/// the greedy one, which goes through the targets in order and keeps a set
/// of the sources given away.
pub proof fn lemma_claimed_is_given(
    table: Seq<Seq<i64>>,
    threshold: i64,
    target: int,
    source: usize,
)
    ensures
        claimed_before(table, threshold, target, source) <==> exists|earlier: int|
            0 <= earlier < target && #[trigger] assigned(table, threshold, earlier) == Some(
                source,
            ),
{
    if claimed_before(table, threshold, target, source) {
        let earlier = choose|earlier: int|
            0 <= earlier < target && #[trigger] closest_match(table[earlier], threshold) == Some(
                source,
            );
        lemma_first_claim(table, threshold, earlier, source);
        let winner = choose|winner: int|
            0 <= winner <= earlier && #[trigger] assigned(table, threshold, winner) == Some(
                source,
            );
        assert(0 <= winner < target && assigned(table, threshold, winner) == Some(source));
    }
    if exists|earlier: int|
        0 <= earlier < target && #[trigger] assigned(table, threshold, earlier) == Some(source) {
        let earlier = choose|earlier: int|
            0 <= earlier < target && #[trigger] assigned(table, threshold, earlier) == Some(
                source,
            );
        assert(closest_match(table[earlier], threshold) == Some(source));
    }
}

impl Shapeshift {
    /// The place of the source closest to one target, given the target's
    /// similarities to all sources: the first greatest similarity, if it
    /// reaches the threshold.
    pub fn find_closest_match(&self, similarities: &Vec<i64>) -> (found: Option<usize>)
        ensures
            found == closest_match(similarities@, self.threshold()),
            match found {
                Some(at) => is_first_max(similarities@, at as int) && similarities@[at as int]
                    >= self.threshold(),
                None => forall|j: int|
                    0 <= j < similarities@.len() ==> similarities@[j] < self.threshold(),
            },
    {
        if similarities.len() == 0 {
            return None;
        }
        let mut best: usize = 0;
        let mut i: usize = 1;
        while i < similarities.len()
            invariant
                1 <= i <= similarities.len(),
                0 <= best < i,
                forall|j: int| 0 <= j < i ==> similarities@[j] <= similarities@[best as int],
                forall|j: int| 0 <= j < best ==> similarities@[j] < similarities@[best as int],
            decreases similarities.len() - i,
        {
            if similarities[i] > similarities[best] {
                best = i;
            }
            i += 1;
        }
        proof {
            lemma_first_max_is(similarities@, best as int);
        }
        if similarities[best] >= self.similarity_threshold() {
            Some(best)
        } else {
            None
        }
    }

    /// What every target gets, given each target's similarities to all
    /// sources. No source goes to two targets.
    pub fn match_targets(&self, similarities: &Vec<Vec<i64>>) -> (matches: Vec<Option<usize>>)
        ensures
            matches@ == assignment(table_view(similarities@), self.threshold()),
            forall|a: int, b: int|
                0 <= a < b < matches@.len() && matches@[a] is Some ==> matches@[a] != matches@[b],
    {
        let ghost table = table_view(similarities@);
        let ghost threshold = self.threshold();
        let mut width: usize = 0;
        let mut t: usize = 0;
        while t < similarities.len()
            invariant
                t <= similarities.len(),
                forall|e: int| 0 <= e < t ==> similarities@[e]@.len() <= width,
            decreases similarities.len() - t,
        {
            if similarities[t].len() > width {
                width = similarities[t].len();
            }
            t += 1;
        }
        let mut used: Vec<bool> = Vec::new();
        let mut s: usize = 0;
        while s < width
            invariant
                s <= width,
                used@.len() == s,
                forall|j: int| 0 <= j < s ==> !used@[j],
            decreases width - s,
        {
            used.push(false);
            s += 1;
        }
        let mut matches: Vec<Option<usize>> = Vec::new();
        t = 0;
        while t < similarities.len()
            invariant
                t <= similarities.len(),
                table == table_view(similarities@),
                threshold == self.threshold(),
                forall|e: int| 0 <= e < similarities@.len() ==> similarities@[e]@.len() <= width,
                used@.len() == width,
                matches@.len() == t,
                forall|e: int| 0 <= e < t ==> matches@[e] == assigned(table, threshold, e),
                forall|j: int|
                    0 <= j < width ==> (#[trigger] used@[j] <==> claimed_before(
                        table,
                        threshold,
                        t as int,
                        j as usize,
                    )),
            decreases similarities.len() - t,
        {
            let found = self.find_closest_match(&similarities[t]);
            let ghost used_before = used@;
            assert(table[t as int] == similarities@[t as int]@);
            let given = match found {
                Some(source) => {
                    if used[source] {
                        None
                    } else {
                        used.set(source, true);
                        Some(source)
                    }
                },
                None => None,
            };
            assert(given == assigned(table, threshold, t as int));
            matches.push(given);
            proof {
                assert forall|j: int| 0 <= j < width implies (#[trigger] used@[j]
                    <==> claimed_before(table, threshold, t + 1, j as usize)) by {
                    if used_before[j] {
                        let e = choose|e: int|
                            0 <= e < t && #[trigger] closest_match(table[e], threshold) == Some(
                                j as usize,
                            );
                        assert(0 <= e < t + 1 && closest_match(table[e], threshold) == Some(
                            j as usize,
                        ));
                    } else if used@[j] {
                        assert(closest_match(table[t as int], threshold) == Some(j as usize));
                    }
                    if claimed_before(table, threshold, t + 1, j as usize) {
                        let e = choose|e: int|
                            0 <= e < t + 1 && #[trigger] closest_match(table[e], threshold)
                                == Some(j as usize);
                        if e < t {
                            assert(claimed_before(table, threshold, t as int, j as usize));
                        }
                    }
                }
            }
            t += 1;
        }
        proof {
            assert(matches@ =~= assignment(table, threshold));
            assert forall|a: int, b: int|
                0 <= a < b < matches@.len() && matches@[a] is Some implies matches@[a]
                != matches@[b] by {
                lemma_assignment_injective(table, threshold, a, b);
            }
        }
        matches
    }
}

/// No source goes to two targets.
pub proof fn lemma_assignment_injective(
    table: Seq<Seq<i64>>,
    threshold: i64,
    one: int,
    other: int,
)
    requires
        0 <= one < table.len(),
        0 <= other < table.len(),
        one != other,
        assigned(table, threshold, one) is Some,
    ensures
        assigned(table, threshold, one) != assigned(table, threshold, other),
{
    let source = assigned(table, threshold, one)->0;
    if assigned(table, threshold, other) == Some(source) {
        assert(closest_match(table[one], threshold) == Some(source));
        assert(closest_match(table[other], threshold) == Some(source));
    }
}

} // verus!
