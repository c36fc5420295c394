//! What holds of every run.

use vstd::prelude::*;
use crate::dispatch::{Outcome, lemma_walk_determined, single_valued};
use crate::finding::{aggregate, lemma_aggregate, total};
use crate::identity::{Artifact, short_name_of};
use crate::tree::{Node, preorder};
use crate::error::{WalkError, error_views};
use crate::walker::{
    Observed,
    Report,
    RunView,
    is_traversal,
    observable,
    run_over,
    taken_up,
    walks,
};

verus! {

/// One of `artifacts` has a tree of the unit `unit`.
pub open spec fn has_unit(artifacts: Seq<Artifact>, unit: usize) -> bool {
    exists|j: int|
        0 <= j < artifacts.len() && (#[trigger] artifacts[j]).ast is Some && artifacts[j].ast->0.id
            == unit
}

/// The run `run` claims the unit of `artifact`: the artifact has a tree, and
/// no artifact before it had one of the same unit.
pub open spec fn claims(run: RunView, artifact: Artifact) -> bool {
    match artifact.ast {
        Some(tree) => !run.visited.contains(tree.id),
        None => false,
    }
}

/// How often the run over `artifacts` claims the unit `unit`.
pub open spec fn times_claimed(
    artifacts: Seq<Artifact>,
    map: Map<Seq<char>, Seq<usize>>,
    seen: Seq<Observed>,
    unit: usize,
) -> nat
    decreases artifacts.len(),
{
    if artifacts.len() == 0 || seen.len() != artifacts.len() {
        0
    } else {
        let before = run_over(artifacts.drop_last(), map, seen.drop_last());
        let earlier = times_claimed(artifacts.drop_last(), map, seen.drop_last(), unit);
        if claims(before, artifacts.last()) && artifacts.last().ast->0.id == unit {
            earlier + 1
        } else {
            earlier
        }
    }
}

/// How often the run over `artifacts` walks a tree of the unit `unit`, that
/// is, how often the detectors are offered the nodes of that unit.
pub open spec fn times_walked(
    artifacts: Seq<Artifact>,
    map: Map<Seq<char>, Seq<usize>>,
    seen: Seq<Observed>,
    unit: usize,
) -> nat
    decreases artifacts.len(),
{
    if artifacts.len() == 0 || seen.len() != artifacts.len() {
        0
    } else {
        let before = run_over(artifacts.drop_last(), map, seen.drop_last());
        let earlier = times_walked(artifacts.drop_last(), map, seen.drop_last(), unit);
        if walks(before, artifacts.last(), seen.last()) && artifacts.last().ast->0.id == unit {
            earlier + 1
        } else {
            earlier
        }
    }
}

/// The number of findings that the detectors gave on the walks of the run
/// over `artifacts`.
pub open spec fn emitted(
    artifacts: Seq<Artifact>,
    map: Map<Seq<char>, Seq<usize>>,
    seen: Seq<Observed>,
) -> nat
    decreases artifacts.len(),
{
    if artifacts.len() == 0 || seen.len() != artifacts.len() {
        0
    } else {
        let before = run_over(artifacts.drop_last(), map, seen.drop_last());
        let earlier = emitted(artifacts.drop_last(), map, seen.drop_last());
        if walks(before, artifacts.last(), seen.last()) {
            earlier + seen.last().found.len()
        } else {
            earlier
        }
    }
}

proof fn lemma_push_fresh(units: Seq<usize>, unit: usize)
    requires
        units.no_duplicates(),
        !units.contains(unit),
    ensures
        units.push(unit).no_duplicates(),
        forall|other: usize|
            #[trigger] units.push(unit).contains(other) <==> (other == unit || units.contains(
                other,
            )),
{
    let longer = units.push(unit);
    assert forall|a: int, b: int| 0 <= a < longer.len() && 0 <= b < longer.len() && a
        != b implies longer[a] != longer[b] by {
        if a < units.len() {
            assert(units.contains(units[a]));
        }
        if b < units.len() {
            assert(units.contains(units[b]));
        }
    }
    assert forall|other: usize| #[trigger]
        longer.contains(other) <==> (other == unit || units.contains(other)) by {
        if longer.contains(other) {
            let k = choose|k: int| 0 <= k < longer.len() && longer[k] == other;
            if k < units.len() {
                assert(units[k] == other);
            }
        }
        if other == unit {
            assert(longer[units.len() as int] == other);
        }
        if units.contains(other) {
            let k = choose|k: int| 0 <= k < units.len() && units[k] == other;
            assert(longer[k] == other);
        }
    }
}

proof fn lemma_has_unit_step(artifacts: Seq<Artifact>, unit: usize)
    requires
        artifacts.len() > 0,
    ensures
        has_unit(artifacts, unit) <==> (has_unit(artifacts.drop_last(), unit) || (
        artifacts.last().ast is Some && artifacts.last().ast->0.id == unit)),
{
    let front = artifacts.drop_last();
    if has_unit(artifacts, unit) {
        let j = choose|j: int|
            0 <= j < artifacts.len() && (#[trigger] artifacts[j]).ast is Some
                && artifacts[j].ast->0.id == unit;
        if j < front.len() {
            assert(front[j] == artifacts[j]);
        }
    }
    if has_unit(front, unit) {
        let j = choose|j: int|
            0 <= j < front.len() && (#[trigger] front[j]).ast is Some && front[j].ast->0.id
                == unit;
        assert(artifacts[j] == front[j]);
    }
    if artifacts.last().ast is Some && artifacts.last().ast->0.id == unit {
        assert(artifacts[artifacts.len() - 1].ast is Some);
    }
}

/// A run claims each unit once: the ids it has claimed are those of the
/// trees among its artifacts, and none of them stands twice.
pub proof fn lemma_visited(
    artifacts: Seq<Artifact>,
    map: Map<Seq<char>, Seq<usize>>,
    seen: Seq<Observed>,
)
    requires
        seen.len() == artifacts.len(),
    ensures
        run_over(artifacts, map, seen).visited.no_duplicates(),
        forall|unit: usize| #[trigger]
            run_over(artifacts, map, seen).visited.contains(unit) <==> has_unit(artifacts, unit),
    decreases artifacts.len(),
{
    let run = run_over(artifacts, map, seen);
    if artifacts.len() == 0 {
        assert forall|unit: usize| #[trigger]
            run.visited.contains(unit) <==> has_unit(artifacts, unit) by {}
    } else {
        let front = artifacts.drop_last();
        let before = run_over(front, map, seen.drop_last());
        lemma_visited(front, map, seen.drop_last());
        let last = artifacts.last();
        if last.ast is Some && !before.visited.contains(last.ast->0.id) {
            lemma_push_fresh(before.visited, last.ast->0.id);
            assert(run.visited == before.visited.push(last.ast->0.id));
        } else {
            assert(run.visited == before.visited);
        }
        assert forall|unit: usize| #[trigger]
            run.visited.contains(unit) <==> has_unit(artifacts, unit) by {
            lemma_has_unit_step(artifacts, unit);
            assert(before.visited.contains(unit) <==> has_unit(front, unit));
        }
    }
}

/// However many artifacts share a unit, the run claims the unit once, and so
/// walks its tree at most once: the detectors are not offered the nodes of a
/// unit a second time. A unit that no artifact has is never claimed.
pub proof fn lemma_unit_walked_once(
    artifacts: Seq<Artifact>,
    map: Map<Seq<char>, Seq<usize>>,
    seen: Seq<Observed>,
    unit: usize,
)
    requires
        seen.len() == artifacts.len(),
    ensures
        times_claimed(artifacts, map, seen, unit) == if has_unit(artifacts, unit) {
            1nat
        } else {
            0nat
        },
        times_walked(artifacts, map, seen, unit) <= times_claimed(artifacts, map, seen, unit),
    decreases artifacts.len(),
{
    if artifacts.len() > 0 {
        let front = artifacts.drop_last();
        lemma_unit_walked_once(front, map, seen.drop_last(), unit);
        lemma_visited(front, map, seen.drop_last());
        lemma_has_unit_step(artifacts, unit);
        let before = run_over(front, map, seen.drop_last());
        assert(before.visited.contains(unit) <==> has_unit(front, unit));
    } else {
        assert(!has_unit(artifacts, unit));
    }
}

/// A unit is walked exactly once if the source path of its first artifact is
/// text and the path of that artifact's tree gives a short name: the artifact
/// at `first` is the first with a tree of its unit, so the run walks that
/// tree, and no other of that unit.
pub proof fn lemma_first_artifact_walked(
    artifacts: Seq<Artifact>,
    map: Map<Seq<char>, Seq<usize>>,
    seen: Seq<Observed>,
    first: int,
)
    requires
        seen.len() == artifacts.len(),
        0 <= first < artifacts.len(),
        artifacts[first].ast is Some,
        forall|j: int|
            0 <= j < first && (#[trigger] artifacts[j]).ast is Some ==> artifacts[j].ast->0.id
                != artifacts[first].ast->0.id,
        artifacts[first].identity.source_is_text,
        short_name_of(seen[first].file_name) is Some,
    ensures
        times_walked(artifacts, map, seen, artifacts[first].ast->0.id) == 1,
    decreases artifacts.len(),
{
    let unit = artifacts[first].ast->0.id;
    let front = artifacts.drop_last();
    let before = run_over(front, map, seen.drop_last());
    lemma_unit_walked_once(artifacts, map, seen, unit);
    assert(has_unit(artifacts, unit));
    if first == artifacts.len() - 1 {
        lemma_visited(front, map, seen.drop_last());
        assert(!has_unit(front, unit)) by {
            if has_unit(front, unit) {
                let j = choose|j: int|
                    0 <= j < front.len() && (#[trigger] front[j]).ast is Some
                        && front[j].ast->0.id == unit;
                assert(artifacts[j] == front[j]);
            }
        }
        assert(walks(before, artifacts.last(), seen.last()));
    } else {
        assert(front[first] == artifacts[first]);
        assert(seen.drop_last()[first] == seen[first]);
        assert forall|j: int| 0 <= j < first && (#[trigger] front[j]).ast is Some implies front[j].ast->0.id
            != front[first].ast->0.id by {
            assert(front[j] == artifacts[j]);
        }
        lemma_first_artifact_walked(front, map, seen.drop_last(), first);
    }
}

/// An artifact whose unit an earlier artifact had is passed over: taking it
/// up adds one to the count of those passed over and changes nothing else.
/// So what is found in a unit is filed under the name of its first artifact
/// alone.
pub proof fn lemma_later_artifact_passed_over(
    artifacts: Seq<Artifact>,
    map: Map<Seq<char>, Seq<usize>>,
    seen: Seq<Observed>,
    first: int,
    later: int,
)
    requires
        seen.len() == artifacts.len(),
        0 <= first < later < artifacts.len(),
        artifacts[first].ast is Some,
        artifacts[later].ast is Some,
        artifacts[first].ast->0.id == artifacts[later].ast->0.id,
    ensures
        run_over(artifacts.take(later + 1), map, seen.take(later + 1)) == (RunView {
            skipped: run_over(artifacts.take(later), map, seen.take(later)).skipped + 1,
            ..run_over(artifacts.take(later), map, seen.take(later))
        }),
{
    let front = artifacts.take(later);
    let upto = artifacts.take(later + 1);
    assert(upto.drop_last() =~= front);
    assert(seen.take(later + 1).drop_last() =~= seen.take(later));
    assert(upto.last() == artifacts[later]);
    lemma_visited(front, map, seen.take(later));
    assert(has_unit(front, artifacts[later].ast->0.id)) by {
        assert(front[first] == artifacts[first]);
    }
}

/// No finding is lost: the groups of a run hold as many findings as the
/// detectors gave on its walks.
pub proof fn lemma_no_finding_lost(
    artifacts: Seq<Artifact>,
    map: Map<Seq<char>, Seq<usize>>,
    seen: Seq<Observed>,
)
    requires
        seen.len() == artifacts.len(),
    ensures
        run_over(artifacts, map, seen).log.len() == emitted(artifacts, map, seen),
        total(aggregate(run_over(artifacts, map, seen).log)) == emitted(artifacts, map, seen),
    decreases artifacts.len(),
{
    if artifacts.len() > 0 {
        lemma_no_finding_lost(artifacts.drop_last(), map, seen.drop_last());
    }
    lemma_aggregate(run_over(artifacts, map, seen).log);
}

/// The line tables decide the positions of the findings and nothing else of
/// them. Under another source map, and so under one that lacks a file, the
/// run claims the same units, walks the same trees and files the same
/// findings under the same names, in the same order.
pub proof fn lemma_line_tables_place_only(
    artifacts: Seq<Artifact>,
    map: Map<Seq<char>, Seq<usize>>,
    other: Map<Seq<char>, Seq<usize>>,
    seen: Seq<Observed>,
)
    requires
        seen.len() == artifacts.len(),
    ensures
        run_over(artifacts, map, seen).visited == run_over(artifacts, other, seen).visited,
        run_over(artifacts, map, seen).skipped == run_over(artifacts, other, seen).skipped,
        run_over(artifacts, map, seen).completed == run_over(artifacts, other, seen).completed,
        run_over(artifacts, map, seen).log.len() == run_over(artifacts, other, seen).log.len(),
        forall|k: int|
            0 <= k < run_over(artifacts, map, seen).log.len() ==> {
                &&& (#[trigger] run_over(artifacts, map, seen).log[k]).finding == run_over(
                    artifacts,
                    other,
                    seen,
                ).log[k].finding
                &&& run_over(artifacts, map, seen).log[k].file == run_over(
                    artifacts,
                    other,
                    seen,
                ).log[k].file
            },
    decreases artifacts.len(),
{
    if artifacts.len() > 0 {
        lemma_line_tables_place_only(artifacts.drop_last(), map, other, seen.drop_last());
    }
}

/// A finding of a file that the source map lacks is filed without a
/// position, and the file's artifact is walked all the same.
pub proof fn lemma_missing_table(
    run: RunView,
    artifact: Artifact,
    map: Map<Seq<char>, Seq<usize>>,
    seen: Observed,
)
    requires
        walks(run, artifact, seen),
        !map.dom().contains(artifact.identity.source@),
    ensures
        taken_up(run, artifact, map, seen).log.len() == run.log.len() + seen.found.len(),
        forall|k: int|
            run.log.len() <= k < run.log.len() + seen.found.len() ==> {
                &&& (#[trigger] taken_up(run, artifact, map, seen).log[k]).finding
                    == seen.found[k - run.log.len()]
                &&& taken_up(run, artifact, map, seen).log[k].position is None
            },
        forall|k: int|
            0 <= k < run.log.len() ==> #[trigger] taken_up(run, artifact, map, seen).log[k]
                == run.log[k],
{
}

/// Every detector has one answer for each node of every tree.
pub open spec fn single_valued_on<F: Fn(&Node) -> Outcome>(
    detectors: Seq<F>,
    artifacts: Seq<Artifact>,
) -> bool {
    forall|i: int|
        0 <= i < artifacts.len() && (#[trigger] artifacts[i]).ast is Some ==> single_valued(
            detectors,
            preorder(artifacts[i].ast->0.root),
        )
}

/// A run has one outcome: where each detector has one answer for each node,
/// two runs over the same artifacts with the same file names, the same
/// detectors and the same source map come to the same, in the same order.
pub proof fn lemma_run_determined<F: Fn(&Node) -> Outcome>(
    detectors: Seq<F>,
    artifacts: Seq<Artifact>,
    map: Map<Seq<char>, Seq<usize>>,
    names: Seq<Option<Seq<char>>>,
    seen: Seq<Observed>,
    again: Seq<Observed>,
)
    requires
        single_valued_on(detectors, artifacts),
        observable(detectors, artifacts, map, names, seen),
        observable(detectors, artifacts, map, names, again),
    ensures
        run_over(artifacts, map, seen) == run_over(artifacts, map, again),
    decreases artifacts.len(),
{
    if artifacts.len() > 0 {
        let front = artifacts.drop_last();
        assert forall|i: int| 0 <= i < front.len() && (#[trigger] front[i]).ast is Some implies single_valued(
            detectors,
            preorder(front[i].ast->0.root),
        ) by {
            assert(artifacts[i] == front[i]);
        }
        lemma_run_determined(detectors, front, map, names, seen.drop_last(), again.drop_last());
        let before = run_over(front, map, seen.drop_last());
        let last = artifacts.last();
        assert(seen.last().file_name == again.last().file_name);
        if walks(before, last, seen.last()) {
            assert(artifacts[artifacts.len() - 1].ast is Some);
            lemma_walk_determined(
                detectors,
                preorder(last.ast->0.root),
                seen.last().found,
                seen.last().failure,
                again.last().found,
                again.last().failure,
            );
        }
    }
}

/// Two results say the same: both are reports, with the same groups of the
/// same findings in the same order, the same errors, the same units and the
/// same counts; or both are the same errors alone.
pub open spec fn same_results(
    first: Result<Report, Vec<WalkError>>,
    second: Result<Report, Vec<WalkError>>,
) -> bool {
    match (first, second) {
        (Ok(one), Ok(other)) => {
            &&& one.findings@ == other.findings@
            &&& error_views(one.errors@) == error_views(other.errors@)
            &&& one.visited@ == other.visited@
            &&& one.skipped == other.skipped
            &&& one.completed == other.completed
        },
        (Err(one), Err(other)) => error_views(one@) == error_views(other@),
        _ => false,
    }
}

/// A traversal is reproducible: where each detector has one answer for each
/// node, whatever two traversals of the same walker return says the same. A
/// traversal leaves the walker as it was, so this holds of a second call
/// after a first.
pub proof fn lemma_traverse_reproducible<F: Fn(&Node) -> Outcome>(
    detectors: Seq<F>,
    artifacts: Seq<Artifact>,
    map: Map<Seq<char>, Seq<usize>>,
    names: Seq<Option<Seq<char>>>,
    first: Result<Report, Vec<WalkError>>,
    second: Result<Report, Vec<WalkError>>,
)
    requires
        single_valued_on(detectors, artifacts),
        exists|seen: Seq<Observed>| is_traversal(detectors, artifacts, map, names, first, seen),
        exists|seen: Seq<Observed>| is_traversal(detectors, artifacts, map, names, second, seen),
    ensures
        same_results(first, second),
{
    let seen = choose|seen: Seq<Observed>|
        is_traversal(detectors, artifacts, map, names, first, seen);
    let again = choose|seen: Seq<Observed>|
        is_traversal(detectors, artifacts, map, names, second, seen);
    lemma_run_determined(detectors, artifacts, map, names, seen, again);
}

} // verus!
