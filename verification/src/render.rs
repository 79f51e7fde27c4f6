//! Turning a [`Report`] into something to read.
//!
//! The only module that decides how findings look. Everything upstream returns data, which is
//! what lets the corpus scan and the model checklist render, rank and exit identically.

use vstd::prelude::*;

use crate::report::{
    count_status, derefs, failed_remedies, in_rank_order, remedy_step, Finding, Remedy, Report,
    Severity, Status,
};
use crate::text::{decimal, decimal_string, join, joined, lemma_views_push, owned, push_str, views};

verus! {

/// The word a severity is shown as.
pub open spec fn severity_text(s: Severity) -> Seq<char> {
    match s {
        Severity::Blocker => "blocker"@,
        Severity::High => "high"@,
        Severity::Medium => "medium"@,
        Severity::Info => "info"@,
    }
}

/// The mark a status is shown as.
pub open spec fn mark_text(s: Status) -> Seq<char> {
    match s {
        Status::Passed => "PASS"@,
        Status::Failed => "FAIL"@,
        Status::Skipped => "SKIP"@,
    }
}

/// Evidence lines, each on a line of its own and indented under the finding.
pub open spec fn evidence_text(evidence: Seq<String>) -> Seq<char>
    decreases evidence.len(),
{
    if evidence.len() == 0 {
        Seq::empty()
    } else {
        evidence_text(evidence.drop_last()) + "\n        "@ + evidence.last()@
    }
}

/// How one finding is shown. A passing check has no severity worth showing; any other leads
/// with it.
pub open spec fn finding_text(f: Finding) -> Seq<char> {
    mark_text(f.status) + (if f.status == Status::Passed {
        Seq::empty()
    } else {
        " ["@ + severity_text(f.severity) + "]"@
    }) + "  "@ + f.check@ + ": "@ + f.summary@ + evidence_text(f.evidence@)
}

/// The remedies worth acting on: those of the failures, in the order they are applied, without
/// the one that says there is nothing to do.
pub open spec fn actionable(s: Seq<Finding>) -> Seq<Remedy> {
    failed_remedies(s).filter(|r: Remedy| r != Remedy::NotApplicable)
}

/// The numbered instructions, one per remedy.
pub open spec fn step_lines(remedies: Seq<Remedy>) -> Seq<Seq<char>>
    decreases remedies.len(),
{
    if remedies.len() == 0 {
        Seq::empty()
    } else {
        step_lines(remedies.drop_last()).push(
            "  "@ + decimal(remedies.len()) + ". "@ + remedy_step(remedies.last()),
        )
    }
}

/// The reminder shown when a corpus fix and a retrain are both called for.
pub open spec fn order_note() -> Seq<char> {
    "  (in that order \u{2014} a corpus defect survives any number of retrains)"@
}

/// What to do next, when anything is to be done.
pub open spec fn next_lines(s: Seq<Finding>) -> Seq<Seq<char>> {
    let remedies = actionable(s);
    if remedies.len() == 0 {
        Seq::empty()
    } else {
        seq![Seq::empty(), "Next:"@] + step_lines(remedies) + (if remedies.contains(Remedy::FixCorpus)
            && remedies.contains(Remedy::RetrainConfig) {
            seq![order_note()]
        } else {
            Seq::empty()
        })
    }
}

/// The tally line under the findings.
pub open spec fn tally_line(s: Seq<Finding>) -> Seq<char> {
    decimal(count_status(s, Status::Passed)) + " passed, "@ + decimal(count_status(s, Status::Failed))
        + " failed, "@ + decimal(count_status(s, Status::Skipped)) + " skipped"@
}

/// Each finding as it is shown, in order.
pub open spec fn finding_texts(order: Seq<Finding>) -> Seq<Seq<char>> {
    order.map_values(|f: Finding| finding_text(f))
}

/// The lines of a report whose findings are read in `order`.
pub open spec fn report_lines(order: Seq<Finding>, s: Seq<Finding>) -> Seq<Seq<char>> {
    finding_texts(order) + seq![Seq::empty(), tally_line(s)] + next_lines(s)
}

/// An arrangement of the findings as a ranking shows them.
pub open spec fn is_ranking(order: Seq<Finding>, s: Seq<Finding>) -> bool {
    &&& order.to_multiset() == s.to_multiset()
    &&& forall|i: int| 0 <= i < order.len() - 1 ==> #[trigger] in_rank_order(order[i], order[i + 1])
}

/// The report as text: each finding in rank order, a blank line, the tally, and then the next
/// steps when there are any.
pub fn as_text(report: &Report) -> (r: String)
    ensures
        exists|order: Seq<Finding>| is_ranking(order, report.findings@) && r@ == joined(report_lines(order, report.findings@), "\n"@),
{
    let ranked = report.ranked();
    let ghost order = derefs(ranked@);
    let mut lines: Vec<String> = Vec::new();
    let mut i: usize = 0;
    while i < ranked.len()
        invariant
            0 <= i <= ranked@.len(),
            order == derefs(ranked@),
            views(lines@) == finding_texts(order.take(i as int)),
        decreases ranked.len() - i,
    {
        let text = format_finding(ranked[i]);
        let ghost before = lines@;
        lines.push(text);
        proof {
            lemma_views_push(before, text);
            assert(order[i as int] == *ranked@[i as int]);
            assert(order.take(i + 1) == order.take(i as int).push(order[i as int]));
            assert(finding_texts(order.take(i + 1)) =~= finding_texts(order.take(i as int)).push(finding_text(order[i as int])));
        }
        i = i + 1;
    }
    assert(order.take(i as int) == order);
    let ghost start = lines@;
    let blank = String::new();
    lines.push(blank);
    proof { lemma_views_push(start, blank); }
    let mut tally = decimal_string(report.count(Status::Passed) as u64);
    push_str(&mut tally, " passed, ");
    push_str(&mut tally, decimal_string(report.count(Status::Failed) as u64).as_str());
    push_str(&mut tally, " failed, ");
    push_str(&mut tally, decimal_string(report.count(Status::Skipped) as u64).as_str());
    push_str(&mut tally, " skipped");
    let ghost mid = lines@;
    lines.push(tally);
    proof { lemma_views_push(mid, tally); }
    let steps = next_steps(report);
    let mut k: usize = 0;
    let ghost head = views(lines@);
    while k < steps.len()
        invariant
            0 <= k <= steps@.len(),
            views(lines@) == head + views(steps@).take(k as int),
        decreases steps.len() - k,
    {
        let line = steps[k].clone();
        let ghost before = lines@;
        lines.push(line);
        proof {
            lemma_views_push(before, line);
            assert(views(steps@).take(k + 1) == views(steps@).take(k as int).push(steps@[k as int]@));
            assert(views(lines@) =~= head + views(steps@).take(k + 1));
        }
        k = k + 1;
    }
    proof {
        assert(views(steps@).take(k as int) == views(steps@));
        assert(views(lines@) =~= report_lines(order, report.findings@));
        assert forall|i: int| 0 <= i < order.len() - 1 implies #[trigger] in_rank_order(order[i], order[i + 1]) by {
            assert(order[i] == *ranked@[i]);
            assert(order[i + 1] == *ranked@[i + 1]);
        }
        assert(is_ranking(order, report.findings@));
    }
    let r = join(&lines, "\n");
    assert(r@ == joined(report_lines(order, report.findings@), "\n"@));
    r
}

/// How one finding is shown.
pub fn format_finding(finding: &Finding) -> (r: String)
    ensures
        r@ == finding_text(*finding),
{
    let mark = match finding.status {
        Status::Passed => "PASS",
        Status::Failed => "FAIL",
        Status::Skipped => "SKIP",
    };
    let mut out = owned(mark);
    match finding.status {
        Status::Passed => {},
        _ => {
            push_str(&mut out, " [");
            push_str(&mut out, severity_word(finding.severity));
            push_str(&mut out, "]");
        },
    }
    push_str(&mut out, "  ");
    push_str(&mut out, finding.check.as_str());
    push_str(&mut out, ": ");
    push_str(&mut out, finding.summary.as_str());
    let ghost head = out@;
    let mut i: usize = 0;
    while i < finding.evidence.len()
        invariant
            0 <= i <= finding.evidence@.len(),
            out@ == head + evidence_text(finding.evidence@.take(i as int)),
        decreases finding.evidence.len() - i,
    {
        proof {
            assert(finding.evidence@.take(i + 1).drop_last() == finding.evidence@.take(i as int));
        }
        push_str(&mut out, "\n        ");
        push_str(&mut out, finding.evidence[i].as_str());
        i = i + 1;
    }
    assert(finding.evidence@.take(i as int) == finding.evidence@);
    out
}

/// The word a severity is shown as.
pub fn severity_word(severity: Severity) -> (r: &'static str)
    ensures
        r@ == severity_text(severity),
{
    match severity {
        Severity::Blocker => "blocker",
        Severity::High => "high",
        Severity::Medium => "medium",
        Severity::Info => "info",
    }
}

/// The next steps, numbered in the order they must be taken, or nothing when there is nothing
/// to do.
pub fn next_steps(report: &Report) -> (r: Vec<String>)
    ensures
        views(r@) == next_lines(report.findings@),
{
    let all = report.remedies();
    let ghost pred = |r: Remedy| r != Remedy::NotApplicable;
    let mut remedies: Vec<Remedy> = Vec::new();
    let mut i: usize = 0;
    while i < all.len()
        invariant
            0 <= i <= all@.len(),
            all@ == failed_remedies(report.findings@),
            pred == (|r: Remedy| r != Remedy::NotApplicable),
            remedies@ == all@.take(i as int).filter(pred),
        decreases all.len() - i,
    {
        proof {
            assert(all@.take(i + 1).drop_last() == all@.take(i as int));
            reveal_with_fuel(Seq::filter, 1);
        }
        if all[i] != Remedy::NotApplicable {
            remedies.push(all[i]);
        }
        i = i + 1;
    }
    assert(all@.take(i as int) == all@);
    assert(remedies@ == actionable(report.findings@));
    let mut lines: Vec<String> = Vec::new();
    if remedies.len() == 0 {
        assert(views(lines@) =~= Seq::<Seq<char>>::empty());
        return lines;
    }
    let ghost start = lines@;
    let blank = String::new();
    lines.push(blank);
    proof { lemma_views_push(start, blank); }
    let ghost mid = lines@;
    let next = owned("Next:");
    lines.push(next);
    proof { lemma_views_push(mid, next); }
    let ghost head = views(lines@);
    let mut index: usize = 0;
    let mut corpus = false;
    let mut retrain = false;
    while index < remedies.len()
        invariant
            0 <= index <= remedies@.len(),
            views(lines@) == head + step_lines(remedies@.take(index as int)),
            corpus == remedies@.take(index as int).contains(Remedy::FixCorpus),
            retrain == remedies@.take(index as int).contains(Remedy::RetrainConfig),
        decreases remedies.len() - index,
    {
        let remedy = remedies[index];
        let mut line = owned("  ");
        push_str(&mut line, decimal_string((index + 1) as u64).as_str());
        push_str(&mut line, ". ");
        push_str(&mut line, remedy.next_step());
        let ghost before = lines@;
        lines.push(line);
        proof { lemma_views_push(before, line); }
        if remedy == Remedy::FixCorpus {
            corpus = true;
        }
        if remedy == Remedy::RetrainConfig {
            retrain = true;
        }
        proof {
            let t = remedies@.take(index + 1);
            assert(t.drop_last() == remedies@.take(index as int));
            assert(t.last() == remedy);
            assert(t.len() == index + 1);
            assert(views(lines@) =~= head + step_lines(t));
            assert(t.contains(Remedy::FixCorpus) == (remedies@.take(index as int).contains(Remedy::FixCorpus) || remedy == Remedy::FixCorpus)) by {
                if t.contains(Remedy::FixCorpus) {
                    let j = choose|j: int| 0 <= j < t.len() && t[j] == Remedy::FixCorpus;
                    if j < index {
                        assert(remedies@.take(index as int)[j] == Remedy::FixCorpus);
                    }
                }
                if remedies@.take(index as int).contains(Remedy::FixCorpus) {
                    let j = choose|j: int| 0 <= j < index && remedies@.take(index as int)[j] == Remedy::FixCorpus;
                    assert(t[j] == Remedy::FixCorpus);
                }
                if remedy == Remedy::FixCorpus {
                    assert(t[index as int] == Remedy::FixCorpus);
                }
            }
            assert(t.contains(Remedy::RetrainConfig) == (remedies@.take(index as int).contains(Remedy::RetrainConfig) || remedy == Remedy::RetrainConfig)) by {
                if t.contains(Remedy::RetrainConfig) {
                    let j = choose|j: int| 0 <= j < t.len() && t[j] == Remedy::RetrainConfig;
                    if j < index {
                        assert(remedies@.take(index as int)[j] == Remedy::RetrainConfig);
                    }
                }
                if remedies@.take(index as int).contains(Remedy::RetrainConfig) {
                    let j = choose|j: int| 0 <= j < index && remedies@.take(index as int)[j] == Remedy::RetrainConfig;
                    assert(t[j] == Remedy::RetrainConfig);
                }
                if remedy == Remedy::RetrainConfig {
                    assert(t[index as int] == Remedy::RetrainConfig);
                }
            }
        }
        index = index + 1;
    }
    assert(remedies@.take(index as int) == remedies@);
    if corpus && retrain {
        let note = owned("  (in that order \u{2014} a corpus defect survives any number of retrains)");
        let ghost before = lines@;
        lines.push(note);
        proof { lemma_views_push(before, note); }
    }
    proof {
        assert(views(lines@) =~= next_lines(report.findings@));
    }
    lines
}

} // verus!
