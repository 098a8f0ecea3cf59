//! The decisions a run makes about its findings: which are over the threshold,
//! which of those the baseline still accepts, and which need a warning.
use vstd::prelude::*;
use crate::baseline::{Baseline, BaselineView};
use crate::complexity::{spec_qualified_name, Finding, FindingView, Suppression, SuppressionView};

verus! {

/// Over the threshold, and not suppressed with a reason.
pub open spec fn spec_over_threshold(finding: FindingView, over: u32) -> bool {
    finding.score > over && !(finding.suppression is Reasoned)
}

/// A finding the run reports: over the threshold, and a regression against the
/// baseline where there is one.
pub open spec fn spec_is_reported(
    baseline: Option<BaselineView>,
    path: Seq<char>,
    finding: FindingView,
    over: u32,
) -> bool {
    &&& spec_over_threshold(finding, over)
    &&& match baseline {
        Some(b) => b.is_regression(
            path,
            spec_qualified_name(finding.class, finding.name),
            finding.score,
        ),
        None => true,
    }
}

/// Over the threshold with a marker that gives no reason: the marker is
/// refused, and the run says so.
pub open spec fn spec_needs_reason_warning(finding: FindingView, over: u32) -> bool {
    finding.score > over && finding.suppression == SuppressionView::MissingReason
}

pub open spec fn baseline_view(baseline: Option<&Baseline>) -> Option<BaselineView> {
    match baseline {
        Some(b) => Some(b@),
        None => None,
    }
}

/// How many of `findings` the run reports, and so fails on.
pub open spec fn breaches(
    findings: Seq<(String, Finding)>,
    baseline: Option<BaselineView>,
    over: u32,
) -> nat
    decreases findings.len(),
{
    if findings.len() == 0 {
        0
    } else {
        breaches(findings.drop_last(), baseline, over) + if spec_is_reported(
            baseline,
            findings.last().0@,
            findings.last().1@,
            over,
        ) {
            1nat
        } else {
            0nat
        }
    }
}

/// Over the threshold, and not suppressed with a reason.
pub fn over_threshold(finding: &Finding, over: u32) -> (over_it: bool)
    ensures
        over_it == spec_over_threshold(finding@, over),
{
    finding.score > over && !matches!(finding.suppression, Suppression::Reasoned(_))
}

/// A finding the run reports: over the threshold, and a regression against the
/// baseline where there is one.
pub fn is_reported(baseline: Option<&Baseline>, path: &str, finding: &Finding, over: u32) -> (reported: bool)
    ensures
        reported == spec_is_reported(baseline_view(baseline), path@, finding@, over),
{
    if !over_threshold(finding, over) {
        return false;
    }
    match baseline {
        Some(b) => b.is_regression(path, finding),
        None => true,
    }
}

/// Over the threshold with a marker that gives no reason.
pub fn needs_reason_warning(finding: &Finding, over: u32) -> (warn: bool)
    ensures
        warn == spec_needs_reason_warning(finding@, over),
{
    finding.score > over && matches!(finding.suppression, Suppression::MissingReason)
}

/// How many findings the run reports, and so fails on.
pub fn count_breaches(findings: &[(String, Finding)], baseline: Option<&Baseline>, over: u32) -> (count: usize)
    ensures
        count == breaches(findings@, baseline_view(baseline), over),
{
    let mut count: usize = 0;
    let mut k: usize = 0;
    while k < findings.len()
        invariant
            k <= findings@.len(),
            count == breaches(findings@.take(k as int), baseline_view(baseline), over),
            count <= k,
        decreases findings@.len() - k,
    {
        let (path, finding) = &findings[k];
        assert(findings@.take(k + 1).drop_last() =~= findings@.take(k as int));
        if is_reported(baseline, path.as_str(), finding, over) {
            count = count + 1;
        }
        k = k + 1;
    }
    assert(findings@.take(k as int) =~= findings@);
    count
}

/// Whether a scan read enough to speak for its input. A gate that could not
/// read what it was pointed at, or found nothing to score, must not report a
/// clean run.
#[derive(Debug, Clone, Copy, PartialEq, Eq, Structural)]
pub enum ScanVerdict {
    /// Every path was read and at least one PHP file was scored.
    Proceed,
    /// Everything was read, but no PHP file was found.
    NoFiles,
    /// A path, directory entry or file could not be read.
    Unreadable,
}

/// An unreadable input is refused first; then a scan that scored no file.
pub open spec fn spec_scan_verdict(files_scanned: nat, read_errors: nat) -> ScanVerdict {
    if read_errors > 0 {
        ScanVerdict::Unreadable
    } else if files_scanned == 0 {
        ScanVerdict::NoFiles
    } else {
        ScanVerdict::Proceed
    }
}

/// Decides whether a scan that scored `files_scanned` PHP files and met
/// `read_errors` errors while walking and reading may go on to report.
pub fn scan_verdict(files_scanned: usize, read_errors: usize) -> (verdict: ScanVerdict)
    ensures
        verdict == spec_scan_verdict(files_scanned as nat, read_errors as nat),
{
    if read_errors > 0 {
        ScanVerdict::Unreadable
    } else if files_scanned == 0 {
        ScanVerdict::NoFiles
    } else {
        ScanVerdict::Proceed
    }
}

/// A run only goes on to report, and so can only succeed, when it read all of
/// its input and scored at least one file.
pub proof fn law_a_scan_that_read_nothing_never_passes(files_scanned: nat, read_errors: nat)
    ensures
        spec_scan_verdict(files_scanned, read_errors) == ScanVerdict::Proceed <==> (read_errors
            == 0 && files_scanned > 0),
{
}

/// In a worst-first ranking, finding `x` comes before finding `y`: it scores
/// higher, or scores the same and came first.
pub open spec fn ranks_before(scores: Seq<u32>, x: int, y: int) -> bool {
    scores[x] > scores[y] || (scores[x] == scores[y] && x < y)
}

/// The worst-first order of findings with the given scores: positions into
/// `scores`, highest score first, equal scores in the order they came. Each
/// position occurs once, since the order is strict.
pub fn worst_first(scores: &[u32]) -> (order: Vec<usize>)
    ensures
        order@.len() == scores@.len(),
        forall|a: int| 0 <= a < order@.len() ==> order@[a] < scores@.len(),
        forall|a: int, b: int|
            0 <= a < b < order@.len() ==> ranks_before(
                scores@,
                #[trigger] order@[a] as int,
                #[trigger] order@[b] as int,
            ),
{
    let mut order: Vec<usize> = Vec::new();
    let mut i: usize = 0;
    while i < scores.len()
        invariant
            i <= scores@.len(),
            order@.len() == i,
            forall|a: int| 0 <= a < order@.len() ==> order@[a] < i,
            forall|a: int, b: int|
                0 <= a < b < order@.len() ==> ranks_before(
                    scores@,
                    #[trigger] order@[a] as int,
                    #[trigger] order@[b] as int,
                ),
        decreases scores@.len() - i,
    {
        let mut p: usize = 0;
        while p < order.len() && scores[order[p]] >= scores[i]
            invariant
                i < scores@.len(),
                p <= order@.len(),
                forall|a: int| 0 <= a < order@.len() ==> order@[a] < i,
                forall|a: int| 0 <= a < p ==> scores@[#[trigger] order@[a] as int] >= scores@[i as int],
            decreases order@.len() - p,
        {
            p = p + 1;
        }
        let ghost old_order = order@;
        order.insert(p, i);
        assert forall|a: int, b: int|
            0 <= a < b < order@.len() implies ranks_before(
            scores@,
            #[trigger] order@[a] as int,
            #[trigger] order@[b] as int,
        ) by {
            if b < p {
                assert(order@[a] == old_order[a] && order@[b] == old_order[b]);
            } else if b == p {
                assert(order@[a] == old_order[a]);
                assert(scores@[old_order[a] as int] >= scores@[i as int]);
            } else if a == p {
                assert(order@[b] == old_order[b - 1]);
                if b - 1 > p {
                    assert(ranks_before(scores@, old_order[p as int] as int, old_order[b - 1] as int));
                }
                assert(scores@[old_order[p as int] as int] < scores@[i as int]);
            } else if a < p {
                assert(order@[a] == old_order[a] && order@[b] == old_order[b - 1]);
            } else {
                assert(order@[a] == old_order[a - 1] && order@[b] == old_order[b - 1]);
            }
        }
        i = i + 1;
    }
    order
}

/// Whether the finding `f`, found in the file `f.0`, is one the run reports.
pub open spec fn reported_by(
    baseline: Option<BaselineView>,
    over: u32,
) -> spec_fn((String, Finding)) -> bool {
    |f: (String, Finding)| spec_is_reported(baseline, f.0@, f.1@, over)
}

/// The run fails on exactly the findings it reports: the breach count is the
/// number of reported findings, wherever they stand in the list; none are
/// counted for an empty list, and one more finding adds one exactly when it is
/// reported.
pub proof fn law_every_reported_finding_is_a_breach(
    findings: Seq<(String, Finding)>,
    next: (String, Finding),
    baseline: Option<BaselineView>,
    over: u32,
)
    ensures
        breaches(findings, baseline, over) == findings.filter(reported_by(baseline, over)).len(),
        breaches(Seq::<(String, Finding)>::empty(), baseline, over) == 0,
        breaches(findings.push(next), baseline, over) == breaches(findings, baseline, over) + (
        if spec_is_reported(baseline, next.0@, next.1@, over) {
            1int
        } else {
            0int
        }),
        breaches(seq![next], baseline, over) == (if spec_is_reported(
            baseline,
            next.0@,
            next.1@,
            over,
        ) {
            1int
        } else {
            0int
        }),
        breaches(findings, baseline, over) <= findings.len(),
    decreases findings.len(),
{
    let pred = reported_by(baseline, over);
    reveal(Seq::filter);
    if findings.len() > 0 {
        law_every_reported_finding_is_a_breach(findings.drop_last(), findings.last(), baseline, over);
        let last = findings.last();
        assert(pred(last) == spec_is_reported(baseline, last.0@, last.1@, over));
        assert(findings.filter(pred) == if pred(last) {
            findings.drop_last().filter(pred).push(last)
        } else {
            findings.drop_last().filter(pred)
        });
    }
    assert(findings.push(next).drop_last() =~= findings);
    assert(seq![next].drop_last() =~= Seq::<(String, Finding)>::empty());
}

/// With no baseline, every finding over the threshold is reported; a baseline
/// only ever takes findings away from the report.
pub proof fn law_a_baseline_only_removes_findings(
    baseline: Option<BaselineView>,
    path: Seq<char>,
    finding: FindingView,
    over: u32,
)
    ensures
        spec_is_reported(None, path, finding, over) == spec_over_threshold(finding, over),
        spec_is_reported(baseline, path, finding, over) ==> spec_is_reported(
            None,
            path,
            finding,
            over,
        ),
{
}

/// A marker with a reason takes a finding out of the report, however high its
/// score; a marker without one does not.
pub proof fn law_only_a_reasoned_marker_clears_the_gate(finding: FindingView, over: u32)
    ensures
        finding.suppression is Reasoned ==> !spec_over_threshold(finding, over),
        finding.suppression == SuppressionView::MissingReason ==> (spec_over_threshold(
            finding,
            over,
        ) <==> finding.score > over),
{
}

} // verus!
