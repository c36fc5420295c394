//! The dispatch of the nodes of a syntax tree to detectors.
//!
//! A detector is a function from a node to the findings it reports there, or
//! to a message that says why it cannot go on. What a detector answers is its
//! own affair; this module fixes which nodes it is asked about and in which
//! order, and what becomes of the answers.

use vstd::prelude::*;
use crate::finding::{Finding, FindingView, finding_views};
use crate::tree::{Node, SyntaxTree, preorder};

verus! {

/// What a detector answers for one node.
pub type Outcome = Result<Vec<Finding>, String>;

/// Where a walk stopped: the node, by its place in document order, the
/// detector, by its place in the registry, and the detector's message.
#[derive(Debug, PartialEq, Eq)]
pub struct Failure {
    pub node: usize,
    pub detector: usize,
    pub message: String,
}

/// A failure with its message as a sequence of characters.
pub struct FailureView {
    pub node: usize,
    pub detector: usize,
    pub message: Seq<char>,
}

impl View for Failure {
    type V = FailureView;

    open spec fn view(&self) -> FailureView {
        FailureView { node: self.node, detector: self.detector, message: self.message@ }
    }
}

/// The failure that a walk returned, if it returned one.
pub open spec fn failure_view(failure: Option<Failure>) -> Option<FailureView> {
    match failure {
        Some(f) => Some(f@),
        None => None,
    }
}

/// The findings of one answer: none, if it is a failure.
pub open spec fn outcome_findings(outcome: Outcome) -> Seq<FindingView> {
    match outcome {
        Ok(found) => finding_views(found@),
        Err(_) => Seq::empty(),
    }
}

/// The findings in a run of answers, answer by answer.
pub open spec fn row_findings(row: Seq<Outcome>) -> Seq<FindingView>
    decreases row.len(),
{
    if row.len() == 0 {
        Seq::empty()
    } else {
        row_findings(row.drop_last()) + outcome_findings(row.last())
    }
}

/// The run of answers ends in a failure.
pub open spec fn row_failed(row: Seq<Outcome>) -> bool {
    row.len() > 0 && row.last() is Err
}

/// `row` is what the detectors answered when `node` was offered to them: the
/// detectors were asked in the order of the registry, each answer is one that
/// its detector gives for `node`, and every detector was asked unless one
/// before it failed.
pub open spec fn is_row<F: Fn(&Node) -> Outcome>(
    detectors: Seq<F>,
    node: Node,
    row: Seq<Outcome>,
) -> bool {
    &&& row.len() <= detectors.len()
    &&& forall|d: int| 0 <= d < row.len() ==> call_ensures(detectors[d], (&node,), #[trigger] row[d])
    &&& forall|d: int| 0 <= d < row.len() - 1 ==> (#[trigger] row[d]) is Ok
    &&& row.len() < detectors.len() ==> row_failed(row)
}

/// The findings of a walk, node by node.
pub open spec fn trace_findings(rows: Seq<Seq<Outcome>>) -> Seq<FindingView>
    decreases rows.len(),
{
    if rows.len() == 0 {
        Seq::empty()
    } else {
        trace_findings(rows.drop_last()) + row_findings(rows.last())
    }
}

/// `rows` is what the detectors answered on a walk over `nodes`: the nodes
/// were offered in order, each to the detectors as `is_row` says, and every
/// node was offered unless a detector failed at one before it.
pub open spec fn is_trace<F: Fn(&Node) -> Outcome>(
    detectors: Seq<F>,
    nodes: Seq<Node>,
    rows: Seq<Seq<Outcome>>,
) -> bool {
    &&& rows.len() <= nodes.len()
    &&& forall|n: int| 0 <= n < rows.len() ==> is_row(detectors, nodes[n], #[trigger] rows[n])
    &&& forall|n: int| 0 <= n < rows.len() - 1 ==> !row_failed(#[trigger] rows[n])
    &&& rows.len() < nodes.len() ==> rows.len() > 0 && row_failed(rows.last())
}

/// Where the walk stopped, if a detector failed.
pub open spec fn trace_failure(rows: Seq<Seq<Outcome>>) -> Option<FailureView> {
    if rows.len() > 0 && row_failed(rows.last()) {
        Some(
            FailureView {
                node: (rows.len() - 1) as usize,
                detector: (rows.last().len() - 1) as usize,
                message: rows.last().last()->Err_0@,
            },
        )
    } else {
        None
    }
}

/// The walk over `nodes` with `detectors` on which the detectors answered
/// `rows` gives the findings `found` and ends as `failure` says.
pub open spec fn is_walk<F: Fn(&Node) -> Outcome>(
    detectors: Seq<F>,
    nodes: Seq<Node>,
    found: Seq<FindingView>,
    failure: Option<FailureView>,
    rows: Seq<Seq<Outcome>>,
) -> bool {
    is_trace(detectors, nodes, rows) && found == trace_findings(rows) && failure == trace_failure(
        rows,
    )
}

/// A walk over `nodes` with `detectors` can give the findings `found` and
/// end as `failure` says.
pub open spec fn walked<F: Fn(&Node) -> Outcome>(
    detectors: Seq<F>,
    nodes: Seq<Node>,
    found: Seq<FindingView>,
    failure: Option<FailureView>,
) -> bool {
    exists|rows: Seq<Seq<Outcome>>| is_walk(detectors, nodes, found, failure, rows)
}

/// Offering `node` to `detectors`, on which they answered `row`, turns the
/// findings `before` into `after` and ends as `failed` says.
pub open spec fn is_offer<F: Fn(&Node) -> Outcome>(
    detectors: Seq<F>,
    node: Node,
    before: Seq<FindingView>,
    after: Seq<FindingView>,
    failed: Option<(usize, String)>,
    row: Seq<Outcome>,
) -> bool {
    &&& is_row(detectors, node, row)
    &&& after == before + row_findings(row)
    &&& match failed {
        Some((d, message)) => row_failed(row) && d == row.len() - 1 && message@
            == row.last()->Err_0@,
        None => !row_failed(row),
    }
}

/// Every detector accepts every one of `nodes`.
pub open spec fn accepts_all<F: Fn(&Node) -> Outcome>(
    detectors: Seq<F>,
    nodes: Seq<Node>,
) -> bool {
    forall|d: int, n: int|
        0 <= d < detectors.len() && 0 <= n < nodes.len() ==> #[trigger] call_requires(
            detectors[d],
            (&nodes[n],),
        )
}

/// What an answer says: the findings, or the message of the failure.
pub open spec fn outcome_view(outcome: Outcome) -> Result<Seq<FindingView>, Seq<char>> {
    match outcome {
        Ok(found) => Ok(finding_views(found@)),
        Err(message) => Err(message@),
    }
}

/// Each detector has one answer for each of `nodes`: whatever it answers for
/// a node says the same.
pub open spec fn single_valued<F: Fn(&Node) -> Outcome>(
    detectors: Seq<F>,
    nodes: Seq<Node>,
) -> bool {
    forall|d: int, n: int, a: Outcome, b: Outcome|
        0 <= d < detectors.len() && 0 <= n < nodes.len() && #[trigger] call_ensures(
            detectors[d],
            (&nodes[n],),
            a,
        ) && #[trigger] call_ensures(detectors[d], (&nodes[n],), b) ==> outcome_view(a)
            == outcome_view(b)
}

/// Two runs of answers say the same, answer by answer.
pub open spec fn same_answers(first: Seq<Outcome>, second: Seq<Outcome>) -> bool {
    &&& first.len() == second.len()
    &&& forall|d: int|
        0 <= d < first.len() ==> outcome_view(#[trigger] first[d]) == outcome_view(second[d])
}

proof fn lemma_rows_agree<F: Fn(&Node) -> Outcome>(
    detectors: Seq<F>,
    nodes: Seq<Node>,
    n: int,
    first: Seq<Outcome>,
    second: Seq<Outcome>,
)
    requires
        single_valued(detectors, nodes),
        0 <= n < nodes.len(),
        is_row(detectors, nodes[n], first),
        is_row(detectors, nodes[n], second),
    ensures
        same_answers(first, second),
{
    assert forall|d: int| 0 <= d < first.len() && d < second.len() implies outcome_view(
        #[trigger] first[d],
    ) == outcome_view(second[d]) by {
        assert(call_ensures(detectors[d], (&nodes[n],), first[d]));
        assert(call_ensures(detectors[d], (&nodes[n],), second[d]));
    }
    if first.len() < second.len() {
        let at = first.len() - 1;
        assert(first[at] is Err);
        assert(second[at] is Ok);
        assert(outcome_view(first[at]) == outcome_view(second[at]));
    }
    if second.len() < first.len() {
        let at = second.len() - 1;
        assert(second[at] is Err);
        assert(first[at] is Ok);
        assert(outcome_view(first[at]) == outcome_view(second[at]));
    }
}

proof fn lemma_same_answers(first: Seq<Outcome>, second: Seq<Outcome>)
    requires
        same_answers(first, second),
    ensures
        row_findings(first) == row_findings(second),
        row_failed(first) == row_failed(second),
        row_failed(first) ==> first.last()->Err_0@ == second.last()->Err_0@,
    decreases first.len(),
{
    if first.len() > 0 {
        let at = first.len() - 1;
        assert(outcome_view(first[at]) == outcome_view(second[at]));
        assert forall|d: int| 0 <= d < first.drop_last().len() implies outcome_view(
            #[trigger] first.drop_last()[d],
        ) == outcome_view(second.drop_last()[d]) by {
            assert(outcome_view(first[d]) == outcome_view(second[d]));
        }
        lemma_same_answers(first.drop_last(), second.drop_last());
    }
}

proof fn lemma_traces_agree<F: Fn(&Node) -> Outcome>(
    detectors: Seq<F>,
    nodes: Seq<Node>,
    first: Seq<Seq<Outcome>>,
    second: Seq<Seq<Outcome>>,
    upto: int,
)
    requires
        single_valued(detectors, nodes),
        is_trace(detectors, nodes, first),
        is_trace(detectors, nodes, second),
        0 <= upto <= first.len(),
        upto <= second.len(),
    ensures
        trace_findings(first.take(upto)) == trace_findings(second.take(upto)),
        forall|n: int| 0 <= n < upto ==> same_answers(#[trigger] first[n], second[n]),
    decreases upto,
{
    if upto > 0 {
        lemma_traces_agree(detectors, nodes, first, second, upto - 1);
        let at = upto - 1;
        lemma_rows_agree(detectors, nodes, at, first[at], second[at]);
        lemma_same_answers(first[at], second[at]);
        assert(first.take(upto).drop_last() =~= first.take(at));
        assert(second.take(upto).drop_last() =~= second.take(at));
        assert(first.take(upto).last() == first[at]);
        assert(second.take(upto).last() == second[at]);
    }
}

/// Where each detector has one answer for each node, a walk has one result:
/// the nodes are offered in a fixed order, so two walks over the same nodes
/// with the same detectors find the same and end the same.
pub proof fn lemma_walk_determined<F: Fn(&Node) -> Outcome>(
    detectors: Seq<F>,
    nodes: Seq<Node>,
    found: Seq<FindingView>,
    failure: Option<FailureView>,
    again: Seq<FindingView>,
    failure_again: Option<FailureView>,
)
    requires
        single_valued(detectors, nodes),
        walked(detectors, nodes, found, failure),
        walked(detectors, nodes, again, failure_again),
    ensures
        found == again,
        failure == failure_again,
{
    let first = choose|rows: Seq<Seq<Outcome>>| is_walk(detectors, nodes, found, failure, rows);
    let second = choose|rows: Seq<Seq<Outcome>>|
        is_walk(detectors, nodes, again, failure_again, rows);
    let least = if first.len() <= second.len() {
        first.len() as int
    } else {
        second.len() as int
    };
    lemma_traces_agree(detectors, nodes, first, second, least);
    if first.len() < second.len() {
        let at = first.len() - 1;
        assert(row_failed(first[at]));
        assert(!row_failed(second[at]));
        lemma_same_answers(first[at], second[at]);
    }
    if second.len() < first.len() {
        let at = second.len() - 1;
        assert(row_failed(second[at]));
        assert(!row_failed(first[at]));
        lemma_same_answers(first[at], second[at]);
    }
    assert(first.take(least) =~= first);
    assert(second.take(least) =~= second);
    if first.len() > 0 {
        lemma_same_answers(first.last(), second.last());
    }
}

/// Offers `node` to each detector in the order of the registry, up to the
/// first that fails, and puts what they find at the end of `found`. Returns
/// the place and message of the detector that failed, if one did.
pub fn offer<F: Fn(&Node) -> Outcome>(
    detectors: &Vec<F>,
    node: &Node,
    found: &mut Vec<Finding>,
) -> (failed: Option<(usize, String)>)
    requires
        forall|d: int| 0 <= d < detectors@.len() ==> call_requires(detectors@[d], (node,)),
    ensures
        exists|row: Seq<Outcome>|
            is_offer(
                detectors@,
                *node,
                finding_views(old(found)@),
                finding_views(final(found)@),
                failed,
                row,
            ),
{
    let ghost before = finding_views(found@);
    let ghost mut row: Seq<Outcome> = Seq::empty();
    let mut d: usize = 0;
    proof {
        assert(before + row_findings(row) =~= before);
    }
    while d < detectors.len()
        invariant
            0 <= d <= detectors@.len(),
            before == finding_views(old(found)@),
            row.len() == d,
            forall|k: int| 0 <= k < d ==> call_ensures(detectors@[k], (node,), #[trigger] row[k]),
            forall|k: int| 0 <= k < d ==> (#[trigger] row[k]) is Ok,
            finding_views(found@) == before + row_findings(row),
            forall|k: int| 0 <= k < detectors@.len() ==> call_requires(detectors@[k], (node,)),
        decreases detectors@.len() - d,
    {
        let detector = &detectors[d];
        let outcome = detector(node);
        let ghost answered = outcome;
        let ghost earlier = row;
        let ghost held = found@;
        proof {
            row = earlier.push(answered);
            assert(row.drop_last() =~= earlier);
        }
        match outcome {
            Ok(more) => {
                let mut more = more;
                let ghost added = more@;
                found.append(&mut more);
                proof {
                    assert(finding_views(found@) =~= finding_views(held) + finding_views(added));
                    assert(finding_views(found@) =~= before + row_findings(row));
                }
            },
            Err(message) => {
                proof {
                    assert(row_findings(row) =~= row_findings(earlier));
                    assert(is_row(detectors@, *node, row));
                    assert(is_offer(
                        detectors@,
                        *node,
                        before,
                        finding_views(found@),
                        Some((d, message)),
                        row,
                    ));
                }
                return Some((d, message));
            },
        }
        d = d + 1;
    }
    proof {
        assert(is_row(detectors@, *node, row));
        assert(is_offer(detectors@, *node, before, finding_views(found@), None, row));
    }
    None
}

/// Walks the whole of `tree` in document order and offers every node to
/// every detector. Returns what they found, in the order in which they found
/// it, and where the walk stopped, if a detector failed: no node after that
/// one is offered, and what was found up to there is kept.
pub fn traverse_unit<F: Fn(&Node) -> Outcome>(
    detectors: &Vec<F>,
    tree: &SyntaxTree,
) -> (result: (Vec<Finding>, Option<Failure>))
    requires
        accepts_all(detectors@, preorder(tree.root)),
    ensures
        walked(detectors@, preorder(tree.root), finding_views(result.0@), failure_view(result.1)),
{
    let nodes = tree.nodes();
    let ghost order = preorder(tree.root);
    let mut found: Vec<Finding> = Vec::new();
    let ghost mut rows: Seq<Seq<Outcome>> = Seq::empty();
    let mut n: usize = 0;
    proof {
        assert(finding_views(found@) =~= trace_findings(rows));
    }
    while n < nodes.len()
        invariant
            0 <= n <= nodes@.len(),
            order == preorder(tree.root),
            crate::tree::targets(nodes@) == order,
            rows.len() == n,
            forall|k: int| 0 <= k < n ==> is_row(detectors@, order[k], #[trigger] rows[k]),
            forall|k: int| 0 <= k < n ==> !row_failed(#[trigger] rows[k]),
            finding_views(found@) == trace_findings(rows),
            accepts_all(detectors@, order),
        decreases nodes@.len() - n,
    {
        let node = nodes[n];
        proof {
            assert(*node == order[n as int]);
            assert forall|d: int| 0 <= d < detectors@.len() implies call_requires(
                detectors@[d],
                (node,),
            ) by {
                assert(call_requires(detectors@[d], (&order[n as int],)));
            }
        }
        let ghost earlier = rows;
        let failed = offer(detectors, node, &mut found);
        proof {
            let row = choose|row: Seq<Outcome>|
                is_offer(
                    detectors@,
                    *node,
                    trace_findings(earlier),
                    finding_views(found@),
                    failed,
                    row,
                );
            rows = earlier.push(row);
            assert(rows.drop_last() =~= earlier);
        }
        match failed {
            Some((detector, message)) => {
                let failure = Failure { node: n, detector, message };
                proof {
                    assert(is_trace(detectors@, order, rows));
                    assert(failure_view(Some(failure)) == trace_failure(rows));
                    assert(is_walk(
                        detectors@,
                        order,
                        finding_views(found@),
                        failure_view(Some(failure)),
                        rows,
                    ));
                }
                return (found, Some(failure));
            },
            None => {},
        }
        n = n + 1;
    }
    proof {
        assert(is_trace(detectors@, order, rows));
        assert(trace_failure(rows) is None);
        assert(is_walk(detectors@, order, finding_views(found@), None, rows));
    }
    (found, None)
}

} // verus!
