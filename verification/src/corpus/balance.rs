//! What the corpus is made of, and what the trainer will refuse to read.
//!
//! The scan already walks every line, so the share of each writing system and the count of
//! over-length lines cost nothing beyond the pass that was happening anyway.

use vstd::prelude::*;

use crate::corpus::scan::{total, Counts, Field, Forms, DEFAULT_MAX_LINE_BYTES};
use crate::format::{count, count_text, fine_percent, fine_percent_text, percent, percent_text};
use crate::report::{shows, truncated, Finding, Remedy, Severity, Status, MAX_EVIDENCE};
use crate::tally::{tally_total, tally_wf};
use crate::text::{
    decimal, decimal_string, lemma_seq_lt_asymmetric, lemma_seq_lt_irreflexive, lemma_seq_lt_total,
    lemma_seq_lt_transitive, owned, push_str, seq_lt, str_eq, str_lt,
};

verus! {

/// Where the line-length limit came from, which changes what the finding means.
#[derive(Debug, Clone, Copy, PartialEq, Eq, Structural)]
pub enum LimitSource {
    /// No model was supplied, so SentencePiece's default stands in.
    SentencePieceDefault,
    /// Read from a trained model's `max_sentence_length`.
    Model,
}

/// How a limit's origin is named in a finding.
pub open spec fn limit_source_text(source: LimitSource) -> Seq<char> {
    match source {
        LimitSource::SentencePieceDefault => "SentencePiece's default"@,
        LimitSource::Model => "the model's max_sentence_length"@,
    }
}

impl LimitSource {
    fn describe(self) -> (r: &'static str)
        ensures
            r@ == limit_source_text(self),
    {
        match self {
            LimitSource::SentencePieceDefault => "SentencePiece's default",
            LimitSource::Model => "the model's max_sentence_length",
        }
    }
}

/// Entry `i` of a tally ranks ahead of entry `j`: more characters first, then by name.
pub open spec fn share_ahead(t: Seq<(&'static str, u64)>, i: int, j: int) -> bool {
    t[i].1 > t[j].1 || (t[i].1 == t[j].1 && seq_lt(t[i].0@, t[j].0@))
}

/// `idx` lists every entry of the tally, the largest share first.
pub open spec fn is_share_ranking(t: Seq<(&'static str, u64)>, idx: Seq<int>) -> bool {
    &&& forall|a: int, b: int| 0 <= a < b < idx.len() ==> #[trigger] share_ahead(t, idx[a], idx[b])
    &&& forall|j: int| idx.contains(j) <==> 0 <= j < t.len()
}

/// `Latin: 90.0% (900 chars)`.
pub open spec fn share_line(t: Seq<(&'static str, u64)>, total: nat, i: int) -> Seq<char> {
    t[i].0@ + ": "@ + percent_text(t[i].1 as nat, total) + " ("@ + decimal(t[i].1 as nat) + " chars)"@
}

/// The shares of the writing systems, largest first, at most `MAX_EVIDENCE` of them.
pub open spec fn share_evidence(e: Seq<String>, t: Seq<(&'static str, u64)>, total: nat) -> bool {
    exists|idx: Seq<int>|
        {
            &&& #[trigger] is_share_ranking(t, idx)
            &&& e.len() == if idx.len() < MAX_EVIDENCE { idx.len() } else { MAX_EVIDENCE as nat }
            &&& forall|k: int| 0 <= k < e.len() ==> #[trigger] e[k]@ == share_line(t, total, idx[k])
        }
}

/// The share of the corpus written in each script.
///
/// Reported, never graded: a corpus that is 90% Latin is a defect if you meant to train 100
/// languages evenly and correct if you meant to train English, and this cannot tell which.
pub fn script_balance(counts: &Counts) -> (r: Finding)
    requires
        tally_wf(counts.per_script@),
        tally_total(counts.per_script@) <= u64::MAX,
    ensures
        tally_total(counts.per_script@) == 0 ==> shows(
            r,
            "script_balance"@,
            Status::Skipped,
            "no characters belonging to any writing system"@,
            Seq::empty(),
            Severity::Medium,
            Remedy::FixCorpus,
        ),
        tally_total(counts.per_script@) > 0 ==> {
            &&& r.check@ == "script_balance"@
            &&& r.status == Status::Passed
            &&& r.summary@ == decimal(counts.per_script@.len()) + " writing systems across "@ + decimal(
                tally_total(counts.per_script@),
            ) + " classified characters"@
            &&& share_evidence(r.evidence@, counts.per_script@, tally_total(counts.per_script@))
            &&& r.severity == Severity::Info
            &&& r.remedy == Remedy::NotApplicable
            &&& r.failure_mode is None
        },
{
    let total = counts.script_characters();
    if total == 0 {
        return Finding::skipped("script_balance", "no characters belonging to any writing system").graded(
            Severity::Medium,
            Remedy::FixCorpus,
        );
    }
    let t = &counts.per_script;
    let ghost ts = t@;
    let mut ranked: Vec<usize> = Vec::new();
    let mut i: usize = 0;
    while i < t.len()
        invariant
            0 <= i <= ts.len(),
            ts == t@,
            tally_wf(ts),
            forall|a: int, b: int| 0 <= a < b < ranked@.len() ==> #[trigger] share_ahead(ts, ranked@[a] as int, ranked@[b] as int),
            forall|m: int| 0 <= m < ranked@.len() ==> (#[trigger] ranked@[m] as int) < i,
            forall|j: usize| j < i ==> #[trigger] ranked@.contains(j),
        decreases ts.len() - i,
    {
        let mut p: usize = 0;
        while p < ranked.len() && !ahead_in_share(t, i, ranked[p])
            invariant
                0 <= p <= ranked@.len(),
                i < ts.len(),
                ts == t@,
                tally_wf(ts),
                forall|m: int| 0 <= m < ranked@.len() ==> (#[trigger] ranked@[m] as int) < i,
                forall|m: int| 0 <= m < p ==> share_ahead(ts, #[trigger] ranked@[m] as int, i as int),
            decreases ranked.len() - p,
        {
            proof {
                lemma_share_order(ts, i as int, ranked@[p as int] as int, 0);
            }
            p = p + 1;
        }
        let ghost old_ranked = ranked@;
        ranked.insert(p, i);
        proof {
            let nr = ranked@;
            assert(nr == old_ranked.insert(p as int, i));
            assert forall|a: int, b: int| 0 <= a < b < nr.len() implies #[trigger] share_ahead(ts, nr[a] as int, nr[b] as int) by {
                if b < p {
                    assert(nr[a] == old_ranked[a] && nr[b] == old_ranked[b]);
                } else if a > p {
                    assert(nr[a] == old_ranked[a - 1] && nr[b] == old_ranked[b - 1]);
                } else if a < p && b == p {
                    assert(nr[a] == old_ranked[a]);
                } else if a == p {
                    assert(nr[b] == old_ranked[b - 1]);
                    if b - 1 > p {
                        assert(share_ahead(ts, old_ranked[p as int] as int, old_ranked[b - 1] as int));
                        lemma_share_order(ts, i as int, old_ranked[p as int] as int, old_ranked[b - 1] as int);
                    }
                } else {
                    assert(nr[a] == old_ranked[a] && nr[b] == old_ranked[b - 1]);
                    lemma_share_order(ts, old_ranked[a] as int, i as int, old_ranked[p as int] as int);
                    if b - 1 > p {
                        lemma_share_order(ts, old_ranked[a] as int, old_ranked[p as int] as int, old_ranked[b - 1] as int);
                    }
                }
            }
            assert forall|m: int| 0 <= m < nr.len() implies (#[trigger] nr[m] as int) < i + 1 by {
                if m < p {
                    assert(nr[m] == old_ranked[m]);
                } else if m > p {
                    assert(nr[m] == old_ranked[m - 1]);
                }
            }
            assert forall|j: usize| j < i + 1 implies #[trigger] nr.contains(j) by {
                if j == i {
                    assert(nr[p as int] == j);
                } else {
                    assert(old_ranked.contains(j));
                    let m = choose|m: int| 0 <= m < old_ranked.len() && old_ranked[m] == j;
                    if m < p {
                        assert(nr[m] == old_ranked[m]);
                    } else {
                        assert(nr[m + 1] == old_ranked[m]);
                    }
                }
            }
        }
        i = i + 1;
    }
    let ghost idx = ranked@.map_values(|u: usize| u as int);
    proof {
        assert forall|a: int, b: int| 0 <= a < b < idx.len() implies #[trigger] share_ahead(ts, idx[a], idx[b]) by {
            assert(share_ahead(ts, ranked@[a] as int, ranked@[b] as int));
        }
        assert forall|j: int| idx.contains(j) <==> 0 <= j < ts.len() by {
            if idx.contains(j) {
                let m = choose|m: int| 0 <= m < idx.len() && idx[m] == j;
                assert(ranked@[m] as int == j);
            }
            if 0 <= j < ts.len() {
                assert(ranked@.contains(j as usize));
                let m = choose|m: int| 0 <= m < ranked@.len() && ranked@[m] == j as usize;
                assert(idx[m] == j);
            }
        }
        assert(is_share_ranking(ts, idx));
    }
    let shown: usize = if ranked.len() < MAX_EVIDENCE { ranked.len() } else { MAX_EVIDENCE };
    let mut lines: Vec<String> = Vec::new();
    let mut k: usize = 0;
    while k < shown
        invariant
            0 <= k <= shown,
            shown <= ranked@.len(),
            shown == if idx.len() < MAX_EVIDENCE { idx.len() } else { MAX_EVIDENCE as nat },
            idx == ranked@.map_values(|u: usize| u as int),
            is_share_ranking(ts, idx),
            ts == t@,
            total == tally_total(ts),
            lines@.len() == k,
            forall|q: int| 0 <= q < k ==> #[trigger] lines@[q]@ == share_line(ts, total as nat, idx[q]),
        decreases shown - k,
    {
        let j = ranked[k];
        proof {
            assert(idx[k as int] == j as int);
            assert(idx.contains(j as int));
        }
        let (name, chars) = t[j];
        let mut line = owned(name);
        push_str(&mut line, ": ");
        push_str(&mut line, percent(chars, total).as_str());
        push_str(&mut line, " (");
        push_str(&mut line, decimal_string(chars).as_str());
        push_str(&mut line, " chars)");
        lines.push(line);
        k = k + 1;
    }
    let mut summary = decimal_string(t.len() as u64);
    push_str(&mut summary, " writing systems across ");
    push_str(&mut summary, decimal_string(total).as_str());
    push_str(&mut summary, " classified characters");
    let r = Finding::passed("script_balance", summary.as_str()).with_evidence(lines);
    proof {
        assert(truncated(lines@) == lines@);
    }
    r
}

/// Ranking tally entries by share is a strict total order on a tally in good order.
proof fn lemma_share_order(t: Seq<(&'static str, u64)>, i: int, j: int, k: int)
    requires
        tally_wf(t),
        0 <= i < t.len(),
        0 <= j < t.len(),
        0 <= k < t.len(),
    ensures
        !share_ahead(t, i, i),
        share_ahead(t, i, j) ==> !share_ahead(t, j, i),
        i != j ==> share_ahead(t, i, j) || share_ahead(t, j, i),
        share_ahead(t, i, j) && share_ahead(t, j, k) ==> share_ahead(t, i, k),
{
    let (ni, nj, nk) = (t[i].0@, t[j].0@, t[k].0@);
    lemma_seq_lt_irreflexive(ni);
    lemma_seq_lt_asymmetric(ni, nj);
    if i != j {
        if i < j {
            assert(seq_lt(crate::tally::tally_names(t)[i], crate::tally::tally_names(t)[j]));
        } else {
            assert(seq_lt(crate::tally::tally_names(t)[j], crate::tally::tally_names(t)[i]));
        }
    }
    if seq_lt(ni, nj) && seq_lt(nj, nk) {
        lemma_seq_lt_transitive(ni, nj, nk);
    }
}

/// Whether entry `i` ranks ahead of entry `j`.
fn ahead_in_share(t: &Vec<(&'static str, u64)>, i: usize, j: usize) -> (r: bool)
    requires
        i < t@.len(),
        j < t@.len(),
    ensures
        r == share_ahead(t@, i as int, j as int),
{
    let (ni, ci) = t[i];
    let (nj, cj) = t[j];
    ci > cj || (ci == cj && str_lt(ni, nj))
}

/// Lines the trainer will silently discard.
///
/// The protobuf's own comment on `max_sentence_length` is that a longer sentence "is simply
/// ignored": no warning, no error, no count. Long lines are not randomly distributed: they are the
/// dense scripts and the full-page transcriptions a page-level model needs most.
pub fn long_lines(counts: &Counts, limit: usize, source: LimitSource) -> (r: Finding)
    ensures
        counts.long_lines == 0 ==> shows(
            r,
            "long_lines"@,
            Status::Passed,
            "no line exceeds "@ + decimal(limit as nat) + " bytes ("@ + limit_source_text(source) + ")"@,
            Seq::empty(),
            Severity::Info,
            Remedy::NotApplicable,
        ),
        counts.long_lines > 0 ==> shows(
            r,
            "long_lines"@,
            Status::Failed,
            decimal(counts.long_lines as nat) + " of "@ + decimal(counts.lines as nat) + " lines ("@
                + fine_percent_text(counts.long_lines as nat, if counts.lines > 0 { counts.lines as nat } else { 1 })
                + ") exceed "@ + decimal(limit as nat) + " bytes and will be dropped by the trainer"@,
            seq![
                "the limit is "@ + limit_source_text(source) + " ("@ + decimal(limit as nat) + " bytes)"@,
                "raise max_sentence_length, or split these lines before training"@,
            ],
            Severity::High,
            Remedy::FixCorpus,
        ),
{
    let limit_text = decimal_string(limit as u64);
    if counts.long_lines == 0 {
        let mut summary = owned("no line exceeds ");
        push_str(&mut summary, limit_text.as_str());
        push_str(&mut summary, " bytes (");
        push_str(&mut summary, source.describe());
        push_str(&mut summary, ")");
        return Finding::passed("long_lines", summary.as_str());
    }
    let whole: u64 = if counts.lines > 0 { counts.lines } else { 1 };
    let mut summary = decimal_string(counts.long_lines);
    push_str(&mut summary, " of ");
    push_str(&mut summary, decimal_string(counts.lines).as_str());
    push_str(&mut summary, " lines (");
    push_str(&mut summary, fine_percent(counts.long_lines, whole).as_str());
    push_str(&mut summary, ") exceed ");
    push_str(&mut summary, limit_text.as_str());
    push_str(&mut summary, " bytes and will be dropped by the trainer");
    let mut first = owned("the limit is ");
    push_str(&mut first, source.describe());
    push_str(&mut first, " (");
    push_str(&mut first, limit_text.as_str());
    push_str(&mut first, " bytes)");
    let second = owned("raise max_sentence_length, or split these lines before training");
    let evidence = vec![first, second];
    let r = Finding::failed("long_lines", summary.as_str()).with_evidence(evidence).graded(Severity::High, Remedy::FixCorpus);
    proof {
        assert(truncated(evidence@) == evidence@);
    }
    r
}

/// The limit to measure against when no model says otherwise.
pub fn default_limit() -> (r: (usize, LimitSource))
    ensures
        r == (DEFAULT_MAX_LINE_BYTES, LimitSource::SentencePieceDefault),
{
    (DEFAULT_MAX_LINE_BYTES, LimitSource::SentencePieceDefault)
}

/// Lines of source `i` that carry the composed/decomposed distinction.
pub open spec fn decidable_of(ts: Seq<(String, Counts)>, i: int) -> nat {
    (ts[i].1.forms.composed + ts[i].1.forms.decomposed + ts[i].1.forms.mixed) as nat
}

/// `name: 50.0% composed, 30.0% decomposed, 20.0% mixed of 100 lines`.
pub open spec fn forms_line(ts: Seq<(String, Counts)>, i: int) -> Seq<char> {
    let f = ts[i].1.forms;
    let d = decidable_of(ts, i);
    ts[i].0@ + ": "@ + percent_text(f.composed as nat, d) + " composed, "@ + percent_text(f.decomposed as nat, d)
        + " decomposed, "@ + percent_text(f.mixed as nat, d) + " mixed of "@ + count_text(d) + " lines"@
}

/// Source `i` needs attention before source `j`: a larger share of mixed lines first, then a
/// larger share of decomposed ones, then by its line's text, then in the order supplied.
pub open spec fn forms_ahead(ts: Seq<(String, Counts)>, i: int, j: int) -> bool {
    let (fi, fj) = (ts[i].1.forms, ts[j].1.forms);
    let (di, dj) = (decidable_of(ts, i), decidable_of(ts, j));
    let (mi, mj) = (fi.mixed * dj, fj.mixed * di);
    let (ci, cj) = (fi.decomposed * dj, fj.decomposed * di);
    mi > mj || (mi == mj && (ci > cj || (ci == cj && (seq_lt(forms_line(ts, i), forms_line(ts, j)) || (forms_line(ts, i)
        == forms_line(ts, j) && i < j)))))
}

/// `idx` lists, most in need of attention first, every source with a line that carries the
/// distinction.
pub open spec fn is_forms_ranking(ts: Seq<(String, Counts)>, idx: Seq<int>) -> bool {
    &&& forall|a: int, b: int| 0 <= a < b < idx.len() ==> #[trigger] forms_ahead(ts, idx[a], idx[b])
    &&& forall|j: int| idx.contains(j) <==> 0 <= j < ts.len() && decidable_of(ts, j) > 0
}

/// `e` holds one line per source that carries the distinction, the sources needing attention first.
pub open spec fn forms_evidence(e: Seq<String>, ts: Seq<(String, Counts)>) -> bool {
    exists|idx: Seq<int>|
        {
            &&& #[trigger] is_forms_ranking(ts, idx)
            &&& e.len() == idx.len()
            &&& forall|k: int| 0 <= k < e.len() ==> #[trigger] e[k]@ == forms_line(ts, idx[k])
        }
}

/// The form counts of every source fit when added up.
pub open spec fn forms_fit(ts: Seq<(String, Counts)>) -> bool {
    &&& total(ts, Field::Undecidable) <= u64::MAX
    &&& total(ts, Field::Composed) + total(ts, Field::Decomposed) + total(ts, Field::Mixed) <= u64::MAX
}

/// Whether the form counts of every source fit when added up.
pub fn forms_fit_in(totals: &Vec<(String, Counts)>) -> (r: bool)
    requires
        crate::corpus::scan::totals_wf(totals@),
        crate::corpus::scan::totals_fit(totals@),
    ensures
        r == forms_fit(totals@),
{
    let all = crate::corpus::scan::combined(totals);
    proof {
        assert(crate::corpus::scan::field(all, Field::Undecidable) == total(totals@, Field::Undecidable));
        assert(crate::corpus::scan::field(all, Field::Composed) == total(totals@, Field::Composed));
        assert(crate::corpus::scan::field(all, Field::Decomposed) == total(totals@, Field::Decomposed));
        assert(crate::corpus::scan::field(all, Field::Mixed) == total(totals@, Field::Mixed));
    }
    match all.forms.composed.checked_add(all.forms.decomposed) {
        Some(two) => two.checked_add(all.forms.mixed).is_some(),
        None => false,
    }
}

/// Which normalization form the corpus is written in, per source.
///
/// `axis[nfc_composition]` already counts the lines that are not NFC, and fails on them. This
/// answers what that count leaves open: whether they are one source that is uniformly NFD, one
/// extractor to fix, or sources that disagree with each other. Shares are taken over the lines
/// that carry the distinction. Reported, never graded.
pub fn normalization_forms(totals: &Vec<(String, Counts)>) -> (r: Finding)
    requires
        forms_fit(totals@),
    ensures
        ({
            let c = total(totals@, Field::Composed);
            let d = total(totals@, Field::Decomposed);
            let m = total(totals@, Field::Mixed);
            let all = c + d + m;
            &&& all == 0 ==> shows(
                r,
                "normalization_forms"@,
                Status::Skipped,
                "no line carries a character that can be composed or decomposed"@,
                Seq::empty(),
                Severity::Blocker,
                Remedy::FixCorpus,
            )
            &&& all > 0 ==> {
                &&& r.check@ == "normalization_forms"@
                &&& r.status == Status::Passed
                &&& r.summary@ == "of "@ + count_text(all) + " lines that carry the distinction: "@ + percent_text(c, all)
                    + " composed, "@ + percent_text(d, all) + " decomposed, "@ + percent_text(m, all) + " mixed"@
                &&& exists|e: Seq<String>| #[trigger] forms_evidence(e, totals@) && r.evidence@ == truncated(e)
                &&& r.severity == Severity::Info
                &&& r.remedy == Remedy::NotApplicable
                &&& r.failure_mode is None
            }
        }),
{
    let mut combined = Forms::default();
    let mut i: usize = 0;
    proof {
        assert(totals@.take(0) =~= Seq::<(String, Counts)>::empty());
    }
    while i < totals.len()
        invariant
            0 <= i <= totals@.len(),
            forms_fit(totals@),
            combined.undecidable == total(totals@.take(i as int), Field::Undecidable),
            combined.composed == total(totals@.take(i as int), Field::Composed),
            combined.decomposed == total(totals@.take(i as int), Field::Decomposed),
            combined.mixed == total(totals@.take(i as int), Field::Mixed),
        decreases totals.len() - i,
    {
        proof {
            assert(totals@.take(i + 1).drop_last() == totals@.take(i as int));
            assert(totals@.take(i + 1).last() == totals@[i as int]);
            lemma_total_within(totals@, i + 1, Field::Undecidable);
            lemma_total_within(totals@, i + 1, Field::Composed);
            lemma_total_within(totals@, i + 1, Field::Decomposed);
            lemma_total_within(totals@, i + 1, Field::Mixed);
        }
        combined.absorb(&totals[i].1.forms);
        i = i + 1;
    }
    proof {
        assert(totals@.take(i as int) == totals@);
    }
    let decidable = combined.decidable();
    if decidable == 0 {
        return Finding::skipped("normalization_forms", "no line carries a character that can be composed or decomposed").graded(
            Severity::Blocker,
            Remedy::FixCorpus,
        );
    }
    let mut summary = owned("of ");
    push_str(&mut summary, count(decidable).as_str());
    push_str(&mut summary, " lines that carry the distinction: ");
    push_str(&mut summary, percent(combined.composed, decidable).as_str());
    push_str(&mut summary, " composed, ");
    push_str(&mut summary, percent(combined.decomposed, decidable).as_str());
    push_str(&mut summary, " decomposed, ");
    push_str(&mut summary, percent(combined.mixed, decidable).as_str());
    push_str(&mut summary, " mixed");
    let evidence = per_source_forms(totals);
    let ghost e = evidence@;
    let r = Finding::passed("normalization_forms", summary.as_str()).with_evidence(evidence);
    proof {
        assert(forms_evidence(e, totals@) && r.evidence@ == truncated(e));
    }
    r
}

/// A total taken over the first `k` sources stays within the total over all of them, and each
/// source's own count stays within it too.
proof fn lemma_total_within(ts: Seq<(String, Counts)>, k: int, f: Field)
    requires
        0 <= k <= ts.len(),
    ensures
        total(ts.take(k), f) <= total(ts, f),
        k > 0 ==> crate::corpus::scan::field(ts[k - 1].1, f) <= total(ts, f),
    decreases ts.len() - k,
{
    if k < ts.len() {
        lemma_total_within(ts, k + 1, f);
        assert(ts.take(k + 1).drop_last() == ts.take(k));
    } else {
        assert(ts.take(k) == ts);
    }
    if k > 0 {
        assert(ts.take(k).drop_last() == ts.take(k - 1));
        assert(ts.take(k).last() == ts[k - 1]);
    }
}

/// One line per source, the sources needing attention first.
///
/// A source that is uniformly one form is a single decision; one that is internally split is a
/// broken extractor, so any mixed source outranks every unmixed one, however decomposed.
#[verifier::spinoff_prover]
#[verifier::rlimit(40)]
fn per_source_forms(totals: &Vec<(String, Counts)>) -> (r: Vec<String>)
    requires
        forms_fit(totals@),
    ensures
        forms_evidence(r@, totals@),
{
    let ghost ts = totals@;
    let mut lines: Vec<String> = Vec::new();
    let mut i: usize = 0;
    while i < totals.len()
        invariant
            0 <= i <= ts.len(),
            ts == totals@,
            forms_fit(ts),
            lines@.len() == i,
            forall|m: int| 0 <= m < i && decidable_of(ts, m) > 0 ==> #[trigger] lines@[m]@ == forms_line(ts, m),
        decreases ts.len() - i,
    {
        let f = &totals[i].1.forms;
        proof {
            lemma_total_within(ts, i + 1, Field::Composed);
            lemma_total_within(ts, i + 1, Field::Decomposed);
            lemma_total_within(ts, i + 1, Field::Mixed);
        }
        let d = f.decidable();
        let mut line = owned(totals[i].0.as_str());
        if d > 0 {
            push_str(&mut line, ": ");
            push_str(&mut line, percent(f.composed, d).as_str());
            push_str(&mut line, " composed, ");
            push_str(&mut line, percent(f.decomposed, d).as_str());
            push_str(&mut line, " decomposed, ");
            push_str(&mut line, percent(f.mixed, d).as_str());
            push_str(&mut line, " mixed of ");
            push_str(&mut line, count(d).as_str());
            push_str(&mut line, " lines");
        }
        lines.push(line);
        i = i + 1;
    }
    let mut ranked: Vec<usize> = Vec::new();
    let mut i: usize = 0;
    while i < totals.len()
        invariant
            0 <= i <= ts.len(),
            ts == totals@,
            forms_fit(ts),
            lines@.len() == ts.len(),
            forall|m: int| 0 <= m < ts.len() && decidable_of(ts, m) > 0 ==> #[trigger] lines@[m]@ == forms_line(ts, m),
            forall|a: int, b: int| 0 <= a < b < ranked@.len() ==> #[trigger] forms_ahead(ts, ranked@[a] as int, ranked@[b] as int),
            forall|m: int| 0 <= m < ranked@.len() ==> (#[trigger] ranked@[m] as int) < i && decidable_of(ts, ranked@[m] as int) > 0,
            forall|j: int| 0 <= j < i && #[trigger] decidable_of(ts, j) > 0 ==> exists|m: int| 0 <= m < ranked@.len() && ranked@[m] as int == j,
        decreases ts.len() - i,
    {
        proof {
            lemma_total_within(ts, i + 1, Field::Composed);
            lemma_total_within(ts, i + 1, Field::Decomposed);
            lemma_total_within(ts, i + 1, Field::Mixed);
        }
        if totals[i].1.forms.decidable() > 0 {
            let mut p: usize = 0;
            while p < ranked.len() && !ahead_in_forms(totals, &lines, i, ranked[p])
                invariant
                    0 <= p <= ranked@.len(),
                    i < ts.len(),
                    decidable_of(ts, i as int) > 0,
                    ts == totals@,
                    forms_fit(ts),
                    lines@.len() == ts.len(),
                    forall|m: int| 0 <= m < ts.len() && decidable_of(ts, m) > 0 ==> #[trigger] lines@[m]@ == forms_line(ts, m),
                    forall|m: int| 0 <= m < ranked@.len() ==> (#[trigger] ranked@[m] as int) < i && decidable_of(ts, ranked@[m] as int) > 0,
                    forall|m: int| 0 <= m < p ==> forms_ahead(ts, #[trigger] ranked@[m] as int, i as int),
                decreases ranked.len() - p,
            {
                proof {
                    lemma_forms_order(ts, i as int, ranked@[p as int] as int, ranked@[p as int] as int);
                }
                p = p + 1;
            }
            let ghost old_ranked = ranked@;
            ranked.insert(p, i);
            proof {
                let nr = ranked@;
                assert(nr == old_ranked.insert(p as int, i));
                assert forall|a: int, b: int| 0 <= a < b < nr.len() implies #[trigger] forms_ahead(ts, nr[a] as int, nr[b] as int) by {
                    if b < p {
                        assert(nr[a] == old_ranked[a] && nr[b] == old_ranked[b]);
                    } else if a > p {
                        assert(nr[a] == old_ranked[a - 1] && nr[b] == old_ranked[b - 1]);
                    } else if a < p && b == p {
                        assert(nr[a] == old_ranked[a]);
                    } else if a == p {
                        assert(nr[b] == old_ranked[b - 1]);
                        if b - 1 > p {
                            assert(forms_ahead(ts, old_ranked[p as int] as int, old_ranked[b - 1] as int));
                            lemma_forms_order(ts, i as int, old_ranked[p as int] as int, old_ranked[b - 1] as int);
                        }
                    } else {
                        assert(nr[a] == old_ranked[a] && nr[b] == old_ranked[b - 1]);
                        lemma_forms_order(ts, old_ranked[a] as int, i as int, old_ranked[p as int] as int);
                        if b - 1 > p {
                            lemma_forms_order(ts, old_ranked[a] as int, old_ranked[p as int] as int, old_ranked[b - 1] as int);
                        }
                    }
                }
                assert forall|m: int| 0 <= m < nr.len() implies (#[trigger] nr[m] as int) < i + 1 && decidable_of(ts, nr[m] as int) > 0 by {
                    if m < p {
                        assert(nr[m] == old_ranked[m]);
                    } else if m > p {
                        assert(nr[m] == old_ranked[m - 1]);
                    }
                }
                assert forall|j: int| 0 <= j < i + 1 && #[trigger] decidable_of(ts, j) > 0 implies exists|m: int| 0 <= m < nr.len() && nr[m] as int == j by {
                    if j == i {
                        assert(nr[p as int] as int == j);
                    } else {
                        let m = choose|m: int| 0 <= m < old_ranked.len() && old_ranked[m] as int == j;
                        if m < p {
                            assert(nr[m] == old_ranked[m]);
                        } else {
                            assert(nr[m + 1] == old_ranked[m]);
                        }
                    }
                }
            }
        }
        i = i + 1;
    }
    let ghost idx = ranked@.map_values(|u: usize| u as int);
    proof {
        assert forall|a: int, b: int| 0 <= a < b < idx.len() implies #[trigger] forms_ahead(ts, idx[a], idx[b]) by {
            assert(forms_ahead(ts, ranked@[a] as int, ranked@[b] as int));
        }
        assert forall|j: int| idx.contains(j) <==> 0 <= j < ts.len() && decidable_of(ts, j) > 0 by {
            if idx.contains(j) {
                let m = choose|m: int| 0 <= m < idx.len() && idx[m] == j;
                assert(ranked@[m] as int == j);
            }
            if 0 <= j < ts.len() && decidable_of(ts, j) > 0 {
                let m = choose|m: int| 0 <= m < ranked@.len() && ranked@[m] as int == j;
                assert(idx[m] == j);
            }
        }
        assert(is_forms_ranking(ts, idx));
    }
    let mut out: Vec<String> = Vec::new();
    let mut k: usize = 0;
    while k < ranked.len()
        invariant
            0 <= k <= ranked@.len(),
            idx == ranked@.map_values(|u: usize| u as int),
            is_forms_ranking(ts, idx),
            ts == totals@,
            lines@.len() == ts.len(),
            forall|m: int| 0 <= m < ts.len() && decidable_of(ts, m) > 0 ==> #[trigger] lines@[m]@ == forms_line(ts, m),
            out@.len() == k,
            forall|q: int| 0 <= q < k ==> #[trigger] out@[q]@ == forms_line(ts, idx[q]),
        decreases ranked.len() - k,
    {
        let j = ranked[k];
        proof {
            assert(idx[k as int] == j as int);
            assert(idx.contains(j as int));
        }
        out.push(owned(lines[j].as_str()));
        k = k + 1;
    }
    out
}

/// Ranking sources by their forms is a strict total order.
proof fn lemma_forms_order(ts: Seq<(String, Counts)>, i: int, j: int, k: int)
    requires
        decidable_of(ts, i) > 0,
        decidable_of(ts, j) > 0,
        decidable_of(ts, k) > 0,
    ensures
        !forms_ahead(ts, i, i),
        forms_ahead(ts, i, j) ==> !forms_ahead(ts, j, i),
        i != j ==> forms_ahead(ts, i, j) || forms_ahead(ts, j, i),
        forms_ahead(ts, i, j) && forms_ahead(ts, j, k) ==> forms_ahead(ts, i, k),
{
    let (li, lj, lk) = (forms_line(ts, i), forms_line(ts, j), forms_line(ts, k));
    lemma_seq_lt_irreflexive(li);
    lemma_seq_lt_asymmetric(li, lj);
    lemma_seq_lt_total(li, lj);
    if seq_lt(li, lj) && seq_lt(lj, lk) {
        lemma_seq_lt_transitive(li, lj, lk);
    }
    let (fi, fj, fk) = (ts[i].1.forms, ts[j].1.forms, ts[k].1.forms);
    let (di, dj, dk) = (decidable_of(ts, i), decidable_of(ts, j), decidable_of(ts, k));
    lemma_ratio_transitive(fi.mixed as nat, di, fj.mixed as nat, dj, fk.mixed as nat, dk);
    lemma_ratio_transitive(fi.decomposed as nat, di, fj.decomposed as nat, dj, fk.decomposed as nat, dk);
}

/// Comparing fractions by cross-multiplication is transitive, in both its strict and its equal
/// form, for positive denominators.
proof fn lemma_ratio_transitive(a: nat, da: nat, b: nat, db: nat, c: nat, dc: nat)
    requires
        da > 0,
        db > 0,
        dc > 0,
    ensures
        a * db > b * da && b * dc > c * db ==> a * dc > c * da,
        a * db > b * da && b * dc == c * db ==> a * dc > c * da,
        a * db == b * da && b * dc > c * db ==> a * dc > c * da,
        a * db == b * da && b * dc == c * db ==> a * dc == c * da,
{
    assert(a * db > b * da && b * dc > c * db ==> a * dc > c * da) by (nonlinear_arith)
        requires
            da > 0,
            db > 0,
            dc > 0,
    ;
    assert(a * db > b * da && b * dc == c * db ==> a * dc > c * da) by (nonlinear_arith)
        requires
            da > 0,
            db > 0,
            dc > 0,
    ;
    assert(a * db == b * da && b * dc > c * db ==> a * dc > c * da) by (nonlinear_arith)
        requires
            da > 0,
            db > 0,
            dc > 0,
    ;
    assert(a * db == b * da && b * dc == c * db ==> a * dc == c * da) by (nonlinear_arith)
        requires
            da > 0,
            db > 0,
            dc > 0,
    ;
}

proof fn lemma_product_fits(a: nat, b: nat)
    requires
        a <= u64::MAX,
        b <= u64::MAX,
    ensures
        a * b <= u128::MAX,
{
    assert(a * b <= u64::MAX * u64::MAX) by (nonlinear_arith)
        requires
            a <= u64::MAX,
            b <= u64::MAX,
    ;
}

/// Whether source `i` needs attention before source `j`.
fn ahead_in_forms(totals: &Vec<(String, Counts)>, lines: &Vec<String>, i: usize, j: usize) -> (r: bool)
    requires
        i < totals@.len(),
        j < totals@.len(),
        lines@.len() == totals@.len(),
        decidable_of(totals@, i as int) > 0,
        decidable_of(totals@, j as int) > 0,
        forms_fit(totals@),
        forall|m: int| 0 <= m < totals@.len() && decidable_of(totals@, m) > 0 ==> #[trigger] lines@[m]@ == forms_line(totals@, m),
    ensures
        r == forms_ahead(totals@, i as int, j as int),
{
    proof {
        lemma_total_within(totals@, i + 1, Field::Composed);
        lemma_total_within(totals@, i + 1, Field::Decomposed);
        lemma_total_within(totals@, i + 1, Field::Mixed);
        lemma_total_within(totals@, j + 1, Field::Composed);
        lemma_total_within(totals@, j + 1, Field::Decomposed);
        lemma_total_within(totals@, j + 1, Field::Mixed);
        assert(lines@[i as int]@ == forms_line(totals@, i as int));
        assert(lines@[j as int]@ == forms_line(totals@, j as int));
    }
    let (fi, fj) = (&totals[i].1.forms, &totals[j].1.forms);
    let (di, dj) = (fi.decidable() as u128, fj.decidable() as u128);
    proof {
        lemma_product_fits(fi.mixed as nat, dj as nat);
        lemma_product_fits(fj.mixed as nat, di as nat);
        lemma_product_fits(fi.decomposed as nat, dj as nat);
        lemma_product_fits(fj.decomposed as nat, di as nat);
    }
    let (mi, mj) = ((fi.mixed as u128) * dj, (fj.mixed as u128) * di);
    let (ci, cj) = ((fi.decomposed as u128) * dj, (fj.decomposed as u128) * di);
    let (li, lj) = (lines[i].as_str(), lines[j].as_str());
    mi > mj || (mi == mj && (ci > cj || (ci == cj && (str_lt(li, lj) || (str_eq(li, lj) && i < j)))))
}

} // verus!
