//! Findings, and their aggregation by detector.

use vstd::prelude::*;
use crate::position::{LineTable, Position, position_in};
use crate::tree::Span;

verus! {

/// What a detector reports of one place in a source unit.
#[derive(Debug, PartialEq, Eq)]
pub struct Finding {
    /// The identity of the detector that reports it.
    pub detector: String,
    pub message: String,
    /// The bytes of the source that it is about, where it is about any.
    pub span: Option<Span>,
}

/// A finding with its texts as sequences of characters.
pub struct FindingView {
    pub detector: Seq<char>,
    pub message: Seq<char>,
    pub span: Option<Span>,
}

impl View for Finding {
    type V = FindingView;

    open spec fn view(&self) -> FindingView {
        FindingView { detector: self.detector@, message: self.message@, span: self.span }
    }
}

/// A finding with the short name of its file and, where it has a span and
/// the file a line table, the position at which the span starts.
#[derive(Debug, PartialEq, Eq)]
pub struct MetaFinding {
    pub finding: Finding,
    pub file: String,
    pub position: Option<Position>,
}

/// A filed finding with its texts as sequences of characters.
pub struct MetaFindingView {
    pub finding: FindingView,
    pub file: Seq<char>,
    pub position: Option<Position>,
}

impl View for MetaFinding {
    type V = MetaFindingView;

    open spec fn view(&self) -> MetaFindingView {
        MetaFindingView { finding: self.finding@, file: self.file@, position: self.position }
    }
}

/// The findings of one detector, in the order in which they were recorded.
#[derive(Debug, PartialEq, Eq)]
pub struct FindingGroup {
    pub detector: String,
    pub findings: Vec<MetaFinding>,
}

/// A group as a detector and the sequence of its findings.
pub struct GroupView {
    pub detector: Seq<char>,
    pub findings: Seq<MetaFindingView>,
}

impl View for FindingGroup {
    type V = GroupView;

    open spec fn view(&self) -> GroupView {
        GroupView { detector: self.detector@, findings: meta_views(self.findings@) }
    }
}

/// The findings of a list, in its order.
pub open spec fn finding_views(findings: Seq<Finding>) -> Seq<FindingView> {
    Seq::new(findings.len(), |i: int| findings[i]@)
}

/// The filed findings of a list, in its order.
pub open spec fn meta_views(findings: Seq<MetaFinding>) -> Seq<MetaFindingView> {
    Seq::new(findings.len(), |i: int| findings[i]@)
}

/// The groups of a list, in its order.
pub open spec fn group_views(groups: Seq<FindingGroup>) -> Seq<GroupView> {
    Seq::new(groups.len(), |i: int| groups[i]@)
}

/// The finding `finding` as it is filed for the file `file`: with the
/// position of the first byte of its span, if it has a span and `lines` is
/// there to resolve it.
pub open spec fn attached(
    finding: FindingView,
    file: Seq<char>,
    lines: Option<Seq<usize>>,
) -> MetaFindingView {
    MetaFindingView {
        finding,
        file,
        position: match (finding.span, lines) {
            (Some(span), Some(starts)) => Some(position_in(starts, span.start)),
            _ => None,
        },
    }
}

/// Each of `findings` as it is filed for the file `file`, in the same order.
pub open spec fn attached_all(
    findings: Seq<FindingView>,
    file: Seq<char>,
    lines: Option<Seq<usize>>,
) -> Seq<MetaFindingView> {
    Seq::new(findings.len(), |i: int| attached(findings[i], file, lines))
}

/// No two groups are of the same detector.
pub open spec fn distinct_detectors(groups: Seq<GroupView>) -> bool {
    forall|i: int, j: int| 0 <= i < j < groups.len() ==> groups[i].detector != groups[j].detector
}

/// One of the groups is of `detector`.
pub open spec fn has_group(groups: Seq<GroupView>, detector: Seq<char>) -> bool {
    exists|i: int| 0 <= i < groups.len() && groups[i].detector == detector
}

/// The index of the group of `detector`, where there is one.
pub open spec fn group_index(groups: Seq<GroupView>, detector: Seq<char>) -> int {
    choose|i: int| 0 <= i < groups.len() && groups[i].detector == detector
}

/// What `detector` has on record in `groups`: the findings of its group, or
/// nothing if it has no group.
pub open spec fn findings_of(groups: Seq<GroupView>, detector: Seq<char>) -> Seq<
    MetaFindingView,
> {
    if has_group(groups, detector) {
        groups[group_index(groups, detector)].findings
    } else {
        Seq::empty()
    }
}

/// The number of findings in all groups together.
pub open spec fn total(groups: Seq<GroupView>) -> nat
    decreases groups.len(),
{
    if groups.len() == 0 {
        0
    } else {
        total(groups.drop_last()) + groups.last().findings.len()
    }
}

/// The groups after `finding` was recorded: it stands last in the group of
/// its detector, which is a new last group if the detector had none.
pub open spec fn recorded(groups: Seq<GroupView>, finding: MetaFindingView) -> Seq<GroupView> {
    let detector = finding.finding.detector;
    if has_group(groups, detector) {
        let at = group_index(groups, detector);
        groups.update(at, GroupView { detector, findings: groups[at].findings.push(finding) })
    } else {
        groups.push(GroupView { detector, findings: seq![finding] })
    }
}

/// The groups after each of `log` was recorded in turn, starting from none.
pub open spec fn aggregate(log: Seq<MetaFindingView>) -> Seq<GroupView>
    decreases log.len(),
{
    if log.len() == 0 {
        Seq::empty()
    } else {
        recorded(aggregate(log.drop_last()), log.last())
    }
}

/// The groups after each of `more` was recorded in turn, starting from
/// `groups`.
pub open spec fn recorded_all(groups: Seq<GroupView>, more: Seq<MetaFindingView>) -> Seq<
    GroupView,
>
    decreases more.len(),
{
    if more.len() == 0 {
        groups
    } else {
        recorded(recorded_all(groups, more.drop_last()), more.last())
    }
}

/// Those of `log` that `detector` reported, in the order of `log`.
pub open spec fn reported_by(log: Seq<MetaFindingView>, detector: Seq<char>) -> Seq<
    MetaFindingView,
>
    decreases log.len(),
{
    if log.len() == 0 {
        Seq::empty()
    } else if log.last().finding.detector == detector {
        reported_by(log.drop_last(), detector).push(log.last())
    } else {
        reported_by(log.drop_last(), detector)
    }
}

proof fn lemma_total_update(groups: Seq<GroupView>, at: int, group: GroupView)
    requires
        0 <= at < groups.len(),
    ensures
        total(groups.update(at, group)) == total(groups) - groups[at].findings.len()
            + group.findings.len(),
    decreases groups.len(),
{
    let after = groups.update(at, group);
    if at == groups.len() - 1 {
        assert(after.drop_last() =~= groups.drop_last());
    } else {
        assert(after.drop_last() =~= groups.drop_last().update(at, group));
        lemma_total_update(groups.drop_last(), at, group);
    }
}

/// Recording a finding keeps the detectors of the groups distinct, adds one
/// to the number of findings, puts the finding last among those of its
/// detector, and leaves what the other detectors have on record as it was.
pub proof fn lemma_recorded(groups: Seq<GroupView>, finding: MetaFindingView)
    requires
        distinct_detectors(groups),
    ensures
        distinct_detectors(recorded(groups, finding)),
        total(recorded(groups, finding)) == total(groups) + 1,
        findings_of(recorded(groups, finding), finding.finding.detector) == findings_of(
            groups,
            finding.finding.detector,
        ).push(finding),
        forall|other: Seq<char>|
            other != finding.finding.detector ==> #[trigger] findings_of(
                recorded(groups, finding),
                other,
            ) == findings_of(groups, other),
        forall|other: Seq<char>|
            #[trigger] has_group(recorded(groups, finding), other) <==> (other
                == finding.finding.detector || has_group(groups, other)),
{
    let detector = finding.finding.detector;
    let after = recorded(groups, finding);
    let at = if has_group(groups, detector) {
        group_index(groups, detector)
    } else {
        groups.len() as int
    };
    if has_group(groups, detector) {
        lemma_total_update(groups, at, after[at]);
    } else {
        assert(after.drop_last() =~= groups);
    }
    assert(after[at].detector == detector);
    assert forall|k: int| 0 <= k < after.len() implies #[trigger] after[k].detector == (if k
        < groups.len() {
        groups[k].detector
    } else {
        detector
    }) by {}
    assert(distinct_detectors(after));
    assert forall|other: Seq<char>| #[trigger]
        has_group(after, other) <==> (other == detector || has_group(groups, other)) by {
        if has_group(after, other) {
            let k = group_index(after, other);
            if k < groups.len() {
                assert(groups[k].detector == other);
            }
        }
        if has_group(groups, other) {
            let k = group_index(groups, other);
            assert(after[k].detector == other);
        }
    }
    assert(has_group(after, detector));
    assert(group_index(after, detector) == at);
    assert forall|other: Seq<char>| other != detector implies #[trigger] findings_of(
        after,
        other,
    ) == findings_of(groups, other) by {
        if has_group(groups, other) {
            let k = group_index(groups, other);
            assert(after[k].detector == other);
            assert(group_index(after, other) == k);
        }
    }
}

/// However many findings are recorded, none is lost and none is moved: the
/// groups hold as many findings as were recorded, no two groups are of the
/// same detector, and each detector has on record what it reported, in the
/// order in which it reported it.
pub proof fn lemma_aggregate(log: Seq<MetaFindingView>)
    ensures
        distinct_detectors(aggregate(log)),
        total(aggregate(log)) == log.len(),
        forall|detector: Seq<char>| #[trigger]
            findings_of(aggregate(log), detector) == reported_by(log, detector),
    decreases log.len(),
{
    if log.len() > 0 {
        lemma_aggregate(log.drop_last());
        lemma_recorded(aggregate(log.drop_last()), log.last());
    }
}

/// Recording a run of findings one after the other is recording the
/// findings before them and then the run.
pub proof fn lemma_recorded_all(log: Seq<MetaFindingView>, more: Seq<MetaFindingView>)
    ensures
        recorded_all(aggregate(log), more) == aggregate(log + more),
    decreases more.len(),
{
    if more.len() == 0 {
        assert(log + more =~= log);
    } else {
        lemma_recorded_all(log, more.drop_last());
        assert((log + more).drop_last() =~= log + more.drop_last());
        assert((log + more).last() == more.last());
    }
}

/// The finding `finding` as it is filed for the file `file`.
pub fn attach(finding: Finding, file: String, lines: Option<&LineTable>) -> (meta: MetaFinding)
    ensures
        meta@ == attached(
            finding@,
            file@,
            match lines {
                Some(table) => Some(table@),
                None => None,
            },
        ),
{
    let position = match (finding.span, lines) {
        (Some(span), Some(table)) => Some(table.resolve(span.start)),
        _ => None,
    };
    MetaFinding { finding, file, position }
}

/// Collects findings into groups, one group for each detector.
#[derive(Debug)]
pub struct Aggregator {
    groups: Vec<FindingGroup>,
}

impl View for Aggregator {
    type V = Seq<GroupView>;

    closed spec fn view(&self) -> Seq<GroupView> {
        group_views(self.groups@)
    }
}

/// The findings of a run: one group for each detector that reported any, the
/// groups in the order in which the detectors first reported.
#[derive(Debug, PartialEq, Eq)]
pub struct AllFindings {
    pub groups: Vec<FindingGroup>,
}

impl View for AllFindings {
    type V = Seq<GroupView>;

    open spec fn view(&self) -> Seq<GroupView> {
        group_views(self.groups@)
    }
}

impl Aggregator {
    #[verifier::type_invariant]
    closed spec fn well_formed(&self) -> bool {
        distinct_detectors(group_views(self.groups@))
    }

    /// An aggregator that has recorded nothing.
    pub fn new() -> (fresh: Aggregator)
        ensures
            fresh@ == Seq::<GroupView>::empty(),
    {
        let fresh = Aggregator { groups: Vec::new() };
        assert(fresh@ =~= Seq::<GroupView>::empty());
        fresh
    }

    /// Records `finding` for the file `file` at `position`: it is put last in
    /// the group of its detector, which is made if it is not there yet.
    pub fn record(&mut self, finding: Finding, file: String, position: Option<Position>)
        ensures
            final(self)@ == recorded(
                old(self)@,
                MetaFindingView { finding: finding@, file: file@, position },
            ),
            distinct_detectors(old(self)@),
            distinct_detectors(final(self)@),
    {
        let meta = MetaFinding { finding, file, position };
        self.record_meta(meta);
    }

    /// Records a finding that has its file and position.
    pub fn record_meta(&mut self, meta: MetaFinding)
        ensures
            final(self)@ == recorded(old(self)@, meta@),
            distinct_detectors(old(self)@),
            distinct_detectors(final(self)@),
    {
        let mut taken = Aggregator { groups: Vec::new() };
        core::mem::swap(self, &mut taken);
        proof {
            use_type_invariant(&taken);
        }
        let mut groups = taken.groups;
        let ghost before = group_views(groups@);
        let ghost detector = meta.finding.detector@;
        let mut i: usize = 0;
        let mut found: bool = false;
        while i < groups.len() && !found
            invariant
                group_views(groups@) == before,
                0 <= i <= groups@.len(),
                found ==> i < groups@.len() && before[i as int].detector == detector,
                forall|k: int| 0 <= k < i ==> before[k].detector != detector,
                meta.finding.detector@ == detector,
            decreases groups@.len() - i + if found { 0int } else { 1int },
        {
            assert(before[i as int] == groups@[i as int]@);
            if groups[i].detector == meta.finding.detector {
                found = true;
            } else {
                i = i + 1;
            }
        }
        let ghost added = meta@;
        if found {
            let ghost earlier = groups@[i as int].findings@;
            groups[i].findings.push(meta);
            proof {
                assert(before[i as int] == old(self)@[i as int]);
                assert(has_group(before, detector));
                assert(group_index(before, detector) == i);
                assert(meta_views(groups@[i as int].findings@) =~= meta_views(earlier).push(
                    added,
                ));
                assert forall|k: int| 0 <= k < groups@.len() && k != i implies #[trigger] groups@[k]@
                    == before[k] by {}
                assert(group_views(groups@) =~= recorded(before, added));
            }
        } else {
            let group = FindingGroup { detector: meta.finding.detector.clone(), findings: vec![meta] };
            proof {
                assert(!has_group(before, detector));
                assert(group@.findings =~= seq![added]);
            }
            groups.push(group);
            proof {
                assert forall|k: int| 0 <= k < before.len() implies #[trigger] groups@[k]@
                    == before[k] by {}
                assert(group_views(groups@) =~= recorded(before, added));
            }
        }
        proof {
            lemma_recorded(before, added);
        }
        *self = Aggregator { groups };
    }

    /// Records each of `findings` in turn for the file `file`, with the
    /// position of its span where `lines` is there to resolve it.
    pub fn record_all(&mut self, findings: Vec<Finding>, file: &String, lines: Option<&LineTable>)
        ensures
            final(self)@ == recorded_all(
                old(self)@,
                attached_all(
                    finding_views(findings@),
                    file@,
                    match lines {
                        Some(table) => Some(table@),
                        None => None,
                    },
                ),
            ),
            distinct_detectors(final(self)@),
    {
        let ghost start = self@;
        let ghost all = attached_all(
            finding_views(findings@),
            file@,
            match lines {
                Some(table) => Some(table@),
                None => None,
            },
        );
        let ghost total_len = findings@.len();
        // The findings are moved out from the back, so they are turned round
        // first to be recorded from the front.
        let mut rest = findings;
        let mut turned: Vec<Finding> = Vec::new();
        while rest.len() > 0
            invariant
                rest@.len() + turned@.len() == total_len,
                total_len == findings@.len(),
                forall|k: int| 0 <= k < rest@.len() ==> rest@[k] == findings@[k],
                forall|k: int|
                    0 <= k < turned@.len() ==> turned@[k] == findings@[total_len - 1 - k],
            decreases rest@.len(),
        {
            let last = rest.pop();
            match last {
                Some(finding) => {
                    turned.push(finding);
                },
                None => {},
            }
        }
        while turned.len() > 0
            invariant
                turned@.len() <= total_len,
                total_len == findings@.len(),
                forall|k: int|
                    0 <= k < turned@.len() ==> turned@[k] == findings@[total_len - 1 - k],
                all == attached_all(
                    finding_views(findings@),
                    file@,
                    match lines {
                        Some(table) => Some(table@),
                        None => None,
                    },
                ),
                self@ == recorded_all(start, all.take(total_len - turned@.len())),
            decreases turned@.len(),
        {
            let ghost done = total_len - turned@.len();
            let next = turned.pop();
            match next {
                Some(finding) => {
                    assert(finding == findings@[done]);
                    let meta = attach(finding, file.clone(), lines);
                    assert(meta@ == all[done]);
                    self.record_meta(meta);
                    proof {
                        assert(all.take(done + 1).drop_last() =~= all.take(done));
                        assert(all.take(done + 1).last() == all[done]);
                    }
                },
                None => {},
            }
        }
        proof {
            assert(all.take(total_len as int) =~= all);
            use_type_invariant(&*self);
        }
    }

    /// Hands over what was recorded.
    pub fn finalize(self) -> (all: AllFindings)
        ensures
            all@ == self@,
            distinct_detectors(all@),
    {
        proof {
            use_type_invariant(&self);
        }
        AllFindings { groups: self.groups }
    }
}

impl AllFindings {
    /// The number of groups.
    pub fn len(&self) -> (n: usize)
        ensures
            n == self@.len(),
    {
        self.groups.len()
    }

    /// The findings of the first group of `detector`; `None` if there is no
    /// such group.
    pub fn get(&self, detector: &String) -> (found: Option<&Vec<MetaFinding>>)
        ensures
            found is Some <==> has_group(self@, detector@),
            found matches Some(findings) ==> exists|i: int|
                0 <= i < self@.len() && self@[i].detector == detector@ && meta_views(findings@)
                    == self@[i].findings && forall|k: int|
                    0 <= k < i ==> self@[k].detector != detector@,
            distinct_detectors(self@) && found is Some ==> meta_views(found.unwrap()@)
                == findings_of(self@, detector@),
    {
        let mut i: usize = 0;
        while i < self.groups.len()
            invariant
                0 <= i <= self.groups@.len(),
                forall|k: int| 0 <= k < i ==> self@[k].detector != detector@,
            decreases self.groups@.len() - i,
        {
            assert(self@[i as int] == self.groups@[i as int]@);
            if self.groups[i].detector == *detector {
                proof {
                    assert(has_group(self@, detector@));
                    if distinct_detectors(self@) {
                        assert(group_index(self@, detector@) == i);
                    }
                }
                return Some(&self.groups[i].findings);
            }
            i = i + 1;
        }
        None
    }

    /// The number of findings in all groups together, or the greatest number
    /// that a `usize` holds if they are more.
    pub fn total(&self) -> (n: usize)
        ensures
            n == if total(self@) <= usize::MAX {
                total(self@)
            } else {
                usize::MAX as nat
            },
    {
        let mut sum: usize = 0;
        let mut i: usize = 0;
        while i < self.groups.len()
            invariant
                0 <= i <= self.groups@.len(),
                sum == if total(self@.take(i as int)) <= usize::MAX {
                    total(self@.take(i as int))
                } else {
                    usize::MAX as nat
                },
            decreases self.groups@.len() - i,
        {
            let here: usize = self.groups[i].findings.len();
            proof {
                assert(self@.take(i + 1).drop_last() =~= self@.take(i as int));
                assert(self@.take(i + 1).last().findings.len() == here);
            }
            sum = if here > usize::MAX - sum {
                usize::MAX
            } else {
                sum + here
            };
            i = i + 1;
        }
        proof {
            assert(self@.take(i as int) =~= self@);
        }
        sum
    }
}

} // verus!
