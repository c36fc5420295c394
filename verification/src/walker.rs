//! The run over all artifacts: each unit is walked once, what the detectors
//! find is gathered by detector, and what goes wrong with one artifact is put
//! down without ending the run.

use vstd::prelude::*;
use crate::dedup::Deduplicator;
use crate::dispatch::{
    Failure,
    FailureView,
    Outcome,
    accepts_all,
    failure_view,
    traverse_unit,
    walked,
};
use crate::error::{WalkError, WalkErrorView, error_views};
use crate::finding::{
    Aggregator,
    AllFindings,
    FindingView,
    GroupView,
    MetaFindingView,
    aggregate,
    attached_all,
    finding_views,
    lemma_recorded_all,
    recorded_all,
};
use crate::identity::{
    Artifact,
    Information,
    artifact_identifier,
    identifier_of,
    part_of_path,
    path_file_name,
    short_name_of,
    text_of,
};
use crate::position::{LineTable, SourceMap};
use crate::tree::{Node, SyntaxTree, preorder};

verus! {

/// What a run goes by for one artifact besides the artifact itself: the file
/// name of the path of its tree, and what the detectors found on the walk
/// over its tree and how that walk ended. What the detectors found counts
/// only for an artifact whose tree is walked.
pub struct Observed {
    pub file_name: Option<Seq<char>>,
    pub found: Seq<FindingView>,
    pub failure: Option<FailureView>,
}

/// How far a run has come.
pub struct RunView {
    /// The findings, in the order in which they were recorded.
    pub log: Seq<MetaFindingView>,
    /// The errors, in the order of the artifacts they are about.
    pub errors: Seq<WalkErrorView>,
    /// The ids of the units that were claimed, in the order of their first
    /// artifacts.
    pub visited: Seq<usize>,
    /// The number of artifacts that were passed over because their unit had
    /// been claimed before.
    pub skipped: nat,
    /// The number of units that were walked to the end.
    pub completed: nat,
}

/// What a run returns.
#[derive(Debug, PartialEq, Eq)]
pub struct Report {
    pub findings: AllFindings,
    pub errors: Vec<WalkError>,
    pub visited: Vec<usize>,
    pub skipped: usize,
    pub completed: usize,
}

/// A run before its first artifact.
pub open spec fn idle() -> RunView {
    RunView {
        log: Seq::empty(),
        errors: Seq::empty(),
        visited: Seq::empty(),
        skipped: 0,
        completed: 0,
    }
}

/// The line starts that `map` has under `path`, if it has any.
pub open spec fn table_of(map: Map<Seq<char>, Seq<usize>>, path: Seq<char>) -> Option<
    Seq<usize>,
> {
    if map.dom().contains(path) {
        Some(map[path])
    } else {
        None
    }
}

/// The line starts of a line table that may be missing.
pub open spec fn lines_view(lines: Option<&LineTable>) -> Option<Seq<usize>> {
    match lines {
        Some(table) => Some(table@),
        None => None,
    }
}

/// The run `run` will walk the tree of `artifact`: the artifact has a tree,
/// its unit is not claimed yet, its source path is text, and the path of the
/// tree gives a short name.
pub open spec fn walks(run: RunView, artifact: Artifact, seen: Observed) -> bool {
    match artifact.ast {
        Some(tree) => !run.visited.contains(tree.id) && artifact.identity.source_is_text
            && short_name_of(seen.file_name) is Some,
        None => false,
    }
}

/// The run after a unit was claimed for `artifact` and walked.
pub open spec fn after_walk(
    run: RunView,
    artifact: Artifact,
    tree: SyntaxTree,
    map: Map<Seq<char>, Seq<usize>>,
    seen: Observed,
) -> RunView {
    let name = identifier_of(artifact.identity);
    let source = artifact.identity.source@;
    let lines = table_of(map, source);
    let file = short_name_of(seen.file_name)->0;
    let first = if lines is None {
        run.errors.push(WalkErrorView::MissingLineTable { artifact: name, path: source })
    } else {
        run.errors
    };
    RunView {
        log: run.log + attached_all(seen.found, file, lines),
        errors: match seen.failure {
            Some(failure) => first.push(
                WalkErrorView::TraversalFailure {
                    artifact: name,
                    node: failure.node,
                    detector: failure.detector,
                    message: failure.message,
                },
            ),
            None => first,
        },
        visited: run.visited.push(tree.id),
        skipped: run.skipped,
        completed: if seen.failure is None {
            run.completed + 1
        } else {
            run.completed
        },
    }
}

/// The run after `artifact` was taken up.
///
/// An artifact without a tree is an error. One whose unit was claimed before
/// is passed over and counted. Otherwise its unit is claimed. If its source
/// path is not text, or if the path of its tree gives no short name, that is
/// an error and the tree is not walked. Else the tree is walked, and each
/// finding is filed under the short name, with its position where the source
/// map has a line table under the artifact's source path. A missing line
/// table is an error, and so is a detector's failure; neither takes away
/// what was found.
pub open spec fn taken_up(
    run: RunView,
    artifact: Artifact,
    map: Map<Seq<char>, Seq<usize>>,
    seen: Observed,
) -> RunView {
    let name = identifier_of(artifact.identity);
    match artifact.ast {
        None => RunView {
            errors: run.errors.push(WalkErrorView::MissingTree { artifact: name }),
            ..run
        },
        Some(tree) => if run.visited.contains(tree.id) {
            RunView { skipped: run.skipped + 1, ..run }
        } else if !artifact.identity.source_is_text {
            RunView {
                errors: run.errors.push(
                    WalkErrorView::MalformedIdentity {
                        artifact: name,
                        path: artifact.identity.source@,
                    },
                ),
                visited: run.visited.push(tree.id),
                ..run
            }
        } else if short_name_of(seen.file_name) is None {
            RunView {
                errors: run.errors.push(
                    WalkErrorView::MalformedIdentity { artifact: name, path: tree.absolute_path@ },
                ),
                visited: run.visited.push(tree.id),
                ..run
            }
        } else {
            after_walk(run, artifact, tree, map, seen)
        },
    }
}

/// The run after each of `artifacts` was taken up in turn.
pub open spec fn run_over(
    artifacts: Seq<Artifact>,
    map: Map<Seq<char>, Seq<usize>>,
    seen: Seq<Observed>,
) -> RunView
    decreases artifacts.len(),
{
    if artifacts.len() == 0 || seen.len() != artifacts.len() {
        idle()
    } else {
        taken_up(
            run_over(artifacts.drop_last(), map, seen.drop_last()),
            artifacts.last(),
            map,
            seen.last(),
        )
    }
}

/// The file name that `names` holds for the artifact at `at`: none, where
/// `names` does not reach so far.
pub open spec fn name_for(names: Seq<Option<Seq<char>>>, at: int) -> Option<Seq<char>> {
    if 0 <= at < names.len() {
        names[at]
    } else {
        None
    }
}

/// The file names of a list, each as text, in its order.
pub open spec fn name_views(names: Seq<Option<String>>) -> Seq<Option<Seq<char>>> {
    Seq::new(names.len(), |i: int| text_of(names[i]))
}

/// `names` holds a name for each of `artifacts`, and each is one that the
/// path of the artifact's tree can have: a part of that path, not empty. An
/// artifact without a tree has no name.
pub open spec fn names_fit(artifacts: Seq<Artifact>, names: Seq<Option<String>>) -> bool {
    &&& names.len() == artifacts.len()
    &&& forall|i: int|
        0 <= i < artifacts.len() ==> match (#[trigger] artifacts[i]).ast {
            Some(tree) => part_of_path(tree.absolute_path@, text_of(names[i])),
            None => names[i] is None,
        }
}

/// `seen` is what a run over `artifacts` with `detectors` and the file names
/// `names` goes by: for every artifact its file name, and for every tree that
/// the run walks, the findings and the end of a walk over that tree.
pub open spec fn observable<F: Fn(&Node) -> Outcome>(
    detectors: Seq<F>,
    artifacts: Seq<Artifact>,
    map: Map<Seq<char>, Seq<usize>>,
    names: Seq<Option<Seq<char>>>,
    seen: Seq<Observed>,
) -> bool
    decreases artifacts.len(),
{
    &&& seen.len() == artifacts.len()
    &&& artifacts.len() > 0 ==> {
        &&& observable(detectors, artifacts.drop_last(), map, names, seen.drop_last())
        &&& seen.last().file_name == name_for(names, artifacts.len() - 1)
        &&& walks(
            run_over(artifacts.drop_last(), map, seen.drop_last()),
            artifacts.last(),
            seen.last(),
        ) ==> walked(
            detectors,
            preorder(artifacts.last().ast->0.root),
            seen.last().found,
            seen.last().failure,
        )
    }
}

/// Every detector accepts every node of every tree.
pub open spec fn accepts_trees<F: Fn(&Node) -> Outcome>(
    detectors: Seq<F>,
    artifacts: Seq<Artifact>,
) -> bool {
    forall|i: int|
        0 <= i < artifacts.len() && (#[trigger] artifacts[i]).ast is Some ==> accepts_all(
            detectors,
            preorder(artifacts[i].ast->0.root),
        )
}

/// `report` says what the run `run` came to.
pub open spec fn reports(report: Report, run: RunView) -> bool {
    &&& report.findings@ == aggregate(run.log)
    &&& error_views(report.errors@) == run.errors
    &&& report.visited@ == run.visited
    &&& report.skipped == run.skipped
    &&& report.completed == run.completed
}

/// A run comes to nothing if there were artifacts and no unit was walked to
/// the end.
pub open spec fn fruitless(artifacts: Seq<Artifact>, run: RunView) -> bool {
    artifacts.len() > 0 && run.completed == 0
}

/// `result` is what a run over `artifacts` returns if it has `seen` from
/// outside: a report, or the errors alone if the run came to nothing.
pub open spec fn is_result(
    result: Result<Report, Vec<WalkError>>,
    artifacts: Seq<Artifact>,
    map: Map<Seq<char>, Seq<usize>>,
    seen: Seq<Observed>,
) -> bool {
    let run = run_over(artifacts, map, seen);
    match result {
        Ok(report) => !fruitless(artifacts, run) && reports(report, run),
        Err(errors) => fruitless(artifacts, run) && error_views(errors@) == run.errors,
    }
}

/// `seen` is what a run with the file names `names` goes by, and `result` is
/// what the run returns on it.
pub open spec fn is_traversal<F: Fn(&Node) -> Outcome>(
    detectors: Seq<F>,
    artifacts: Seq<Artifact>,
    map: Map<Seq<char>, Seq<usize>>,
    names: Seq<Option<Seq<char>>>,
    result: Result<Report, Vec<WalkError>>,
    seen: Seq<Observed>,
) -> bool {
    observable(detectors, artifacts, map, names, seen) && is_result(
        result,
        artifacts,
        map,
        seen,
    )
}

/// The walk over `tree` found `found` and ended as `failure` says, and the
/// groups `after` are the groups `before` with `found` recorded for the file
/// `file`.
pub open spec fn is_visit<F: Fn(&Node) -> Outcome>(
    detectors: Seq<F>,
    tree: SyntaxTree,
    lines: Option<Seq<usize>>,
    file: Seq<char>,
    before: Seq<GroupView>,
    after: Seq<GroupView>,
    failure: Option<FailureView>,
    found: Seq<FindingView>,
) -> bool {
    &&& walked(detectors, preorder(tree.root), found, failure)
    &&& after == recorded_all(before, attached_all(found, file, lines))
}

/// Walks the units of its artifacts with its detectors.
pub struct Walker<F> {
    pub artifact: Vec<Artifact>,
    pub detectors: Vec<F>,
    pub source_map: SourceMap,
    /// For each artifact, in the order of `artifact`, the file name of the
    /// path of its tree, where the path has one. A run names the files of
    /// its findings after these.
    pub file_names: Vec<Option<String>>,
}

impl<F: Fn(&Node) -> Outcome> Walker<F> {
    /// A walker over `artifact`, in the order given, with `detectors`, in
    /// the order in which each node is to be offered to them. The file name
    /// of each tree is taken from the path of that tree.
    pub fn new(
        artifact: Vec<Artifact>,
        detectors: Vec<F>,
        source_map: SourceMap,
    ) -> (walker: Self)
        ensures
            walker.artifact == artifact,
            walker.detectors == detectors,
            walker.source_map == source_map,
            names_fit(artifact@, walker.file_names@),
    {
        let mut file_names: Vec<Option<String>> = Vec::new();
        let mut i: usize = 0;
        while i < artifact.len()
            invariant
                0 <= i <= artifact@.len(),
                names_fit(artifact@.take(i as int), file_names@),
            decreases artifact@.len() - i,
        {
            let ghost before = file_names@;
            let name = match &artifact[i].ast {
                Some(tree) => path_file_name(&tree.absolute_path),
                None => None,
            };
            file_names.push(name);
            proof {
                let upto = artifact@.take(i + 1);
                assert forall|k: int| 0 <= k < upto.len() implies match (#[trigger] upto[k]).ast {
                    Some(tree) => part_of_path(tree.absolute_path@, text_of(file_names@[k])),
                    None => file_names@[k] is None,
                } by {
                    if k < i {
                        assert(artifact@.take(i as int)[k] == upto[k]);
                        assert(file_names@[k] == before[k]);
                    }
                }
            }
            i = i + 1;
        }
        proof {
            assert(artifact@.take(i as int) =~= artifact@);
        }
        Walker { artifact, detectors, source_map, file_names }
    }

    /// Takes up each artifact in turn, as `taken_up` says, each with its file
    /// name from `file_names`, and returns the report of the run, or the
    /// errors alone if there were artifacts and no unit was walked to the
    /// end. The walker is left as it was.
    pub fn traverse(&mut self) -> (result: Result<Report, Vec<WalkError>>)
        requires
            accepts_trees(old(self).detectors@, old(self).artifact@),
        ensures
            *final(self) == *old(self),
            exists|seen: Seq<Observed>|
                is_traversal(
                    old(self).detectors@,
                    old(self).artifact@,
                    old(self).source_map@,
                    name_views(old(self).file_names@),
                    result,
                    seen,
                ),
    {
        let mut findings = Aggregator::new();
        let mut errors: Vec<WalkError> = Vec::new();
        let mut units = Deduplicator::new();
        let mut skipped: usize = 0;
        let mut completed: usize = 0;
        let ghost mut seen: Seq<Observed> = Seq::empty();
        let ghost artifacts = self.artifact@;
        let ghost map = self.source_map@;
        let ghost detectors = self.detectors@;
        let ghost names = name_views(self.file_names@);
        let unnamed: Option<String> = None;
        let mut i: usize = 0;
        proof {
            assert(artifacts.take(0) =~= Seq::<Artifact>::empty());
            assert(error_views(errors@) =~= Seq::<WalkErrorView>::empty());
        }
        while i < self.artifact.len()
            invariant
                *self == *old(self),
                artifacts == self.artifact@,
                map == self.source_map@,
                detectors == self.detectors@,
                names == name_views(self.file_names@),
                unnamed is None,
                accepts_trees(detectors, artifacts),
                0 <= i <= artifacts.len(),
                seen.len() == i,
                observable(detectors, artifacts.take(i as int), map, names, seen),
                findings@ == aggregate(run_over(artifacts.take(i as int), map, seen).log),
                error_views(errors@) == run_over(artifacts.take(i as int), map, seen).errors,
                units@ == run_over(artifacts.take(i as int), map, seen).visited,
                skipped == run_over(artifacts.take(i as int), map, seen).skipped,
                completed == run_over(artifacts.take(i as int), map, seen).completed,
                skipped <= i,
                completed <= i,
            decreases artifacts.len() - i,
        {
            let artifact = &self.artifact[i];
            let ghost run = run_over(artifacts.take(i as int), map, seen);
            let ghost earlier = seen;
            let ghost held = error_views(errors@);
            let file_name = if i < self.file_names.len() {
                &self.file_names[i]
            } else {
                &unnamed
            };
            let ghost mut now = Observed {
                file_name: text_of(*file_name),
                found: Seq::empty(),
                failure: None,
            };
            proof {
                assert(now.file_name == name_for(names, i as int));
            }
            let name = artifact_identifier(&artifact.identity);
            match &artifact.ast {
                None => {
                    errors.push(WalkError::MissingTree { artifact: name });
                    proof {
                        assert(error_views(errors@) =~= held.push(
                            WalkErrorView::MissingTree { artifact: identifier_of(artifact.identity) },
                        ));
                    }
                },
                Some(tree) => {
                    if !units.should_visit(tree.id) {
                        skipped = skipped + 1;
                    } else {
                        units.mark_visited(tree.id);
                        let info = if artifact.identity.source_is_text {
                            artifact.identity.information(file_name)
                        } else {
                            None
                        };
                        match info {
                            None => {
                                let path = if artifact.identity.source_is_text {
                                    tree.absolute_path.clone()
                                } else {
                                    artifact.identity.source.clone()
                                };
                                let ghost shown = path@;
                                errors.push(WalkError::MalformedIdentity { artifact: name, path });
                                proof {
                                    assert(error_views(errors@) =~= held.push(
                                        WalkErrorView::MalformedIdentity {
                                            artifact: identifier_of(artifact.identity),
                                            path: shown,
                                        },
                                    ));
                                }
                            },
                            Some(info) => {
                                let lines = self.source_map.get(&artifact.identity.source);
                                if lines.is_none() {
                                    errors.push(
                                        WalkError::MissingLineTable {
                                            artifact: name.clone(),
                                            path: artifact.identity.source.clone(),
                                        },
                                    );
                                }
                                let ghost first = error_views(errors@);
                                proof {
                                    if lines is None {
                                        assert(first =~= held.push(
                                            WalkErrorView::MissingLineTable {
                                                artifact: identifier_of(artifact.identity),
                                                path: artifact.identity.source@,
                                            },
                                        ));
                                    }
                                    assert(accepts_all(detectors, preorder(tree.root))) by {
                                        assert(artifacts[i as int].ast is Some);
                                    }
                                }
                                let ghost before = findings@;
                                let ghost file = info.name@;
                                let failure = self.visit_source(tree, lines, info, &mut findings);
                                proof {
                                    let found = choose|found: Seq<FindingView>|
                                        is_visit(
                                            detectors,
                                            *tree,
                                            lines_view(lines),
                                            file,
                                            before,
                                            findings@,
                                            failure_view(failure),
                                            found,
                                        );
                                    now =
                                    Observed {
                                        file_name: now.file_name,
                                        found,
                                        failure: failure_view(failure),
                                    };
                                    lemma_recorded_all(
                                        run.log,
                                        attached_all(found, file, lines_view(lines)),
                                    );
                                }
                                match failure {
                                    None => {
                                        completed = completed + 1;
                                    },
                                    Some(stop) => {
                                        errors.push(
                                            WalkError::TraversalFailure {
                                                artifact: name,
                                                node: stop.node,
                                                detector: stop.detector,
                                                message: stop.message,
                                            },
                                        );
                                        proof {
                                            assert(error_views(errors@) =~= first.push(
                                                WalkErrorView::TraversalFailure {
                                                    artifact: identifier_of(artifact.identity),
                                                    node: stop.node,
                                                    detector: stop.detector,
                                                    message: stop.message@,
                                                },
                                            ));
                                        }
                                    },
                                }
                            },
                        }
                    }
                },
            }
            proof {
                seen = earlier.push(now);
                let next = artifacts.take(i + 1);
                assert(next.drop_last() =~= artifacts.take(i as int));
                assert(next.last() == *artifact);
                assert(seen.drop_last() =~= earlier);
                assert(seen.last() == now);
                assert(run_over(next, map, seen) == taken_up(run, *artifact, map, now));
            }
            i = i + 1;
        }
        proof {
            assert(artifacts.take(i as int) =~= artifacts);
        }
        let ghost run = run_over(artifacts, map, seen);
        if self.artifact.len() > 0 && completed == 0 {
            let result = Err(errors);
            proof {
                assert(is_traversal(detectors, artifacts, map, names, result, seen));
            }
            result
        } else {
            let result = Ok(
                Report {
                    findings: findings.finalize(),
                    errors,
                    visited: units.into_visited(),
                    skipped,
                    completed,
                },
            );
            proof {
                assert(is_traversal(detectors, artifacts, map, names, result, seen));
            }
            result
        }
    }

    /// Walks `source` with the detectors and records what they find in
    /// `findings`, under the name in `info`, each finding with the position
    /// of its span where `lines_to_bytes` is there to resolve it. Returns
    /// where the walk stopped, if a detector failed; what was found up to
    /// there is recorded all the same.
    pub fn visit_source(
        &self,
        source: &SyntaxTree,
        lines_to_bytes: Option<&LineTable>,
        info: Information,
        findings: &mut Aggregator,
    ) -> (failure: Option<Failure>)
        requires
            accepts_all(self.detectors@, preorder(source.root)),
        ensures
            exists|found: Seq<FindingView>|
                is_visit(
                    self.detectors@,
                    *source,
                    lines_view(lines_to_bytes),
                    info.name@,
                    old(findings)@,
                    final(findings)@,
                    failure_view(failure),
                    found,
                ),
    {
        let (found, failure) = traverse_unit(&self.detectors, source);
        let ghost raw = finding_views(found@);
        findings.record_all(found, &info.name, lines_to_bytes);
        proof {
            assert(is_visit(
                self.detectors@,
                *source,
                lines_view(lines_to_bytes),
                info.name@,
                old(findings)@,
                findings@,
                failure_view(failure),
                raw,
            ));
        }
        failure
    }
}

} // verus!
