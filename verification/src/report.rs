//! What a run found, and how much you should care.
//!
//! Three outcomes rather than two. A check that could not run must never report success, so
//! [`Status::Skipped`] carries the reason in the same field a failure carries its evidence.
//! [`Status`] says whether something failed, [`Severity`] whether it matters, and [`Remedy`]
//! what to do next.

use vstd::prelude::*;

use crate::text::{owned, seq_lt, str_lt, lemma_seq_lt_asymmetric, decimal, decimal_string, push_str};

verus! {

/// The most evidence lines any single finding will carry.
pub const MAX_EVIDENCE: usize = 5;

/// Whether a check failed. Declared so that the ranking reads failures first.
#[derive(Debug, Clone, Copy, PartialEq, Eq, Structural, PartialOrd, Ord)]
pub enum Status {
    Failed,
    Skipped,
    Passed,
}

/// How much a failure matters, declared worst-first.
#[derive(Debug, Clone, Copy, PartialEq, Eq, Structural, PartialOrd, Ord)]
pub enum Severity {
    Blocker,
    High,
    Medium,
    Info,
}

/// What actually fixes a failure, declared in the order the fixes must be applied.
#[derive(Debug, Clone, Copy, PartialEq, Eq, Structural, PartialOrd, Ord)]
pub enum Remedy {
    FixCorpus,
    RetrainConfig,
    FixIntegration,
    NotApplicable,
}

/// Position of a status in the reading order: failures, then skips, then passes.
pub open spec fn status_rank(s: Status) -> int {
    match s {
        Status::Failed => 0,
        Status::Skipped => 1,
        Status::Passed => 2,
    }
}

/// Position of a severity, worst first.
pub open spec fn severity_rank(s: Severity) -> int {
    match s {
        Severity::Blocker => 0,
        Severity::High => 1,
        Severity::Medium => 2,
        Severity::Info => 3,
    }
}

/// Position of a remedy in the order fixes are applied.
pub open spec fn remedy_rank(r: Remedy) -> int {
    match r {
        Remedy::FixCorpus => 0,
        Remedy::RetrainConfig => 1,
        Remedy::FixIntegration => 2,
        Remedy::NotApplicable => 3,
    }
}

impl Status {
    /// The declaration position, which is the order the derived `Ord` compares by.
    pub fn rank(self) -> (r: u8)
        ensures
            r == status_rank(self),
    {
        match self {
            Status::Failed => 0,
            Status::Skipped => 1,
            Status::Passed => 2,
        }
    }
}

impl Severity {
    /// The declaration position, which is the order the derived `Ord` compares by.
    pub fn rank(self) -> (r: u8)
        ensures
            r == severity_rank(self),
    {
        match self {
            Severity::Blocker => 0,
            Severity::High => 1,
            Severity::Medium => 2,
            Severity::Info => 3,
        }
    }
}

impl Remedy {
    /// The declaration position, which is the order the derived `Ord` compares by.
    pub fn rank(self) -> (r: u8)
        ensures
            r == remedy_rank(self),
    {
        match self {
            Remedy::FixCorpus => 0,
            Remedy::RetrainConfig => 1,
            Remedy::FixIntegration => 2,
            Remedy::NotApplicable => 3,
        }
    }
}

impl Remedy {
    /// The instruction a reader should act on.
    pub fn next_step(self) -> (r: &'static str)
        ensures
            r@ == remedy_step(self),
    {
        match self {
            Remedy::FixCorpus => "canonicalize the corpus, then retrain",
            Remedy::RetrainConfig => "change the trainer flags and retrain",
            Remedy::FixIntegration => "fix the wiring between tokenizer and checkpoint",
            Remedy::NotApplicable => "nothing \u{2014} reported for visibility",
        }
    }
}

/// The instruction behind each remedy.
pub open spec fn remedy_step(r: Remedy) -> Seq<char> {
    match r {
        Remedy::FixCorpus => "canonicalize the corpus, then retrain"@,
        Remedy::RetrainConfig => "change the trainer flags and retrain"@,
        Remedy::FixIntegration => "fix the wiring between tokenizer and checkpoint"@,
        Remedy::NotApplicable => "nothing \u{2014} reported for visibility"@,
    }
}

/// Which numbered failure mode of the guide a finding is about.
#[derive(Debug, Clone, Copy, PartialEq, Eq, Structural)]
pub struct FailureMode(pub u8);

/// The highest failure mode the guide defines.
pub const HIGHEST_FAILURE_MODE: u8 = 21;

impl FailureMode {
    /// The highest mode the guide defines. Anything above it is a typo rather than a reference.
    pub const HIGHEST: u8 = 21;

    /// `failure mode #N — docs/09-failure-modes.md`.
    pub fn citation(self) -> (r: String)
        ensures
            r@ == "failure mode #"@ + decimal(self.0 as nat) + " \u{2014} docs/09-failure-modes.md"@,
    {
        let mut r = owned("failure mode #");
        let n = decimal_string(self.0 as u64);
        push_str(&mut r, n.as_str());
        push_str(&mut r, " \u{2014} docs/09-failure-modes.md");
        r
    }
}

/// The outcome of one check.
#[derive(Debug)]
pub struct Finding {
    pub check: String,
    pub status: Status,
    pub summary: String,
    pub evidence: Vec<String>,
    pub severity: Severity,
    pub remedy: Remedy,
    /// The guide entry this finding is about, when there is one.
    pub failure_mode: Option<FailureMode>,
}

/// The evidence a finding keeps of what it was handed: the first `MAX_EVIDENCE` lines.
pub open spec fn truncated(evidence: Seq<String>) -> Seq<String> {
    if evidence.len() <= MAX_EVIDENCE {
        evidence
    } else {
        evidence.take(MAX_EVIDENCE as int)
    }
}

impl Finding {
    /// A check that ran and found nothing wrong: `Info`, nothing to act on, no evidence.
    pub fn passed(check: &str, summary: &str) -> (f: Finding)
        ensures
            f.check@ == check@,
            f.summary@ == summary@,
            f.status == Status::Passed,
            f.evidence@.len() == 0,
            f.severity == Severity::Info,
            f.remedy == Remedy::NotApplicable,
            f.failure_mode.is_none(),
    {
        Finding {
            check: owned(check),
            status: Status::Passed,
            summary: owned(summary),
            evidence: Vec::new(),
            severity: Severity::Info,
            remedy: Remedy::NotApplicable,
            failure_mode: None,
        }
    }

    /// A check that ran and found a defect: `High` and `RetrainConfig` until graded.
    pub fn failed(check: &str, summary: &str) -> (f: Finding)
        ensures
            f.check@ == check@,
            f.summary@ == summary@,
            f.status == Status::Failed,
            f.evidence@.len() == 0,
            f.severity == Severity::High,
            f.remedy == Remedy::RetrainConfig,
            f.failure_mode.is_none(),
    {
        Finding {
            check: owned(check),
            status: Status::Failed,
            summary: owned(summary),
            evidence: Vec::new(),
            severity: Severity::High,
            remedy: Remedy::RetrainConfig,
            failure_mode: None,
        }
    }

    /// A check that could not run; `reason` travels in the summary.
    pub fn skipped(check: &str, reason: &str) -> (f: Finding)
        ensures
            f.check@ == check@,
            f.summary@ == reason@,
            f.status == Status::Skipped,
            f.evidence@.len() == 0,
            f.severity == Severity::Info,
            f.remedy == Remedy::NotApplicable,
            f.failure_mode.is_none(),
    {
        Finding {
            check: owned(check),
            status: Status::Skipped,
            summary: owned(reason),
            evidence: Vec::new(),
            severity: Severity::Info,
            remedy: Remedy::NotApplicable,
            failure_mode: None,
        }
    }

    /// Attach evidence, truncated to the first `MAX_EVIDENCE` lines.
    pub fn with_evidence(self, evidence: Vec<String>) -> (f: Finding)
        ensures
            f.evidence@ == truncated(evidence@),
            f.check == self.check,
            f.status == self.status,
            f.summary == self.summary,
            f.severity == self.severity,
            f.remedy == self.remedy,
            f.failure_mode == self.failure_mode,
    {
        let mut evidence = evidence;
        if evidence.len() > MAX_EVIDENCE {
            evidence.truncate(MAX_EVIDENCE);
        }
        Finding {
            check: self.check,
            status: self.status,
            summary: self.summary,
            evidence,
            severity: self.severity,
            remedy: self.remedy,
            failure_mode: self.failure_mode,
        }
    }

    /// Stamp what this check's failure means. A pass keeps `Info` and `NotApplicable`; a
    /// failure or a skip takes the grade.
    pub fn graded(self, severity: Severity, remedy: Remedy) -> (f: Finding)
        ensures
            f.check == self.check,
            f.status == self.status,
            f.summary == self.summary,
            f.evidence == self.evidence,
            f.failure_mode == self.failure_mode,
            self.status == Status::Passed ==> f.severity == self.severity && f.remedy == self.remedy,
            self.status != Status::Passed ==> f.severity == severity && f.remedy == remedy,
    {
        let mut f = self;
        if f.status != Status::Passed {
            f.severity = severity;
            f.remedy = remedy;
        }
        f
    }

    /// Cite the guide entry this check is about; `mode` must be a mode the guide defines.
    pub fn about(self, mode: u8) -> (f: Finding)
        requires
            1 <= mode <= HIGHEST_FAILURE_MODE,
        ensures
            f.failure_mode == Some(FailureMode(mode)),
            f.check == self.check,
            f.status == self.status,
            f.summary == self.summary,
            f.evidence == self.evidence,
            f.severity == self.severity,
            f.remedy == self.remedy,
    {
        let mut f = self;
        f.failure_mode = Some(FailureMode(mode));
        f
    }

    /// Whether the check failed.
    pub fn is_failure(&self) -> (r: bool)
        ensures
            r == (self.status == Status::Failed),
    {
        self.status == Status::Failed
    }
}

/// A finding with exactly these contents and no failure mode cited.
pub open spec fn shows(
    f: Finding,
    check: Seq<char>,
    status: Status,
    summary: Seq<char>,
    evidence: Seq<Seq<char>>,
    severity: Severity,
    remedy: Remedy,
) -> bool {
    &&& f.check@ == check
    &&& f.status == status
    &&& f.summary@ == summary
    &&& f.evidence@.len() == evidence.len()
    &&& forall|i: int| 0 <= i < evidence.len() ==> #[trigger] f.evidence@[i]@ == evidence[i]
    &&& f.severity == severity
    &&& f.remedy == remedy
    &&& f.failure_mode is None
}

/// A passing finding with this summary.
pub open spec fn shows_pass(f: Finding, check: Seq<char>, summary: Seq<char>) -> bool {
    shows(f, check, Status::Passed, summary, Seq::empty(), Severity::Info, Remedy::NotApplicable)
}

/// Everything one run found.
#[derive(Debug)]
pub struct Report {
    pub findings: Vec<Finding>,
}

/// No finding failed.
pub open spec fn all_ok(s: Seq<Finding>) -> bool {
    forall|i: int| 0 <= i < s.len() ==> s[i].status != Status::Failed
}

/// How many findings carry `status`.
pub open spec fn count_status(s: Seq<Finding>, status: Status) -> nat
    decreases s.len(),
{
    if s.len() == 0 {
        0
    } else {
        count_status(s.drop_last(), status) + if s.last().status == status { 1nat } else { 0nat }
    }
}

/// The severity of the most serious failure, or `Info` when nothing failed.
pub open spec fn worst(s: Seq<Finding>) -> Severity
    decreases s.len(),
{
    if s.len() == 0 {
        Severity::Info
    } else {
        let rest = worst(s.drop_last());
        let last = s.last();
        if last.status == Status::Failed && severity_rank(last.severity) < severity_rank(rest) {
            last.severity
        } else {
            rest
        }
    }
}

/// Some failure carries remedy `r`.
pub open spec fn has_failed_remedy(s: Seq<Finding>, r: Remedy) -> bool {
    exists|i: int| 0 <= i < s.len() && s[i].status == Status::Failed && s[i].remedy == r
}

/// Every remedy, in the order fixes are applied.
pub open spec fn all_remedies() -> Seq<Remedy> {
    seq![Remedy::FixCorpus, Remedy::RetrainConfig, Remedy::FixIntegration, Remedy::NotApplicable]
}

/// The distinct remedies of the failures, in the order fixes are applied.
pub open spec fn failed_remedies(s: Seq<Finding>) -> Seq<Remedy> {
    all_remedies().filter(|r: Remedy| has_failed_remedy(s, r))
}

/// `a` reads no later than `b`: failures first, worst severity first, then by check name.
pub open spec fn ranks_before(a: Finding, b: Finding) -> bool {
    status_rank(a.status) < status_rank(b.status)
    || (status_rank(a.status) == status_rank(b.status) && (
        severity_rank(a.severity) < severity_rank(b.severity)
        || (severity_rank(a.severity) == severity_rank(b.severity) && seq_lt(a.check@, b.check@))))
}

/// `a` may stand directly before `b` in a ranking.
pub open spec fn in_rank_order(a: Finding, b: Finding) -> bool {
    !ranks_before(b, a)
}

/// The findings a sequence of references points at.
pub open spec fn derefs(s: Seq<&Finding>) -> Seq<Finding> {
    s.map_values(|f: &Finding| *f)
}

/// The exit status for a threshold: non-zero when a failure is at or above `fail_on`.
pub open spec fn exit_status(s: Seq<Finding>, fail_on: Severity) -> i32 {
    if all_ok(s) {
        0
    } else if severity_rank(worst(s)) <= severity_rank(fail_on) {
        1
    } else {
        0
    }
}

proof fn lemma_ranks_before_asymmetric(a: Finding, b: Finding)
    ensures
        ranks_before(a, b) ==> !ranks_before(b, a),
{
    lemma_seq_lt_asymmetric(a.check@, b.check@);
}

proof fn lemma_worst_is_failure_or_info(s: Seq<Finding>)
    ensures
        worst(s) == Severity::Info || exists|i: int| 0 <= i < s.len() && s[i].status == Status::Failed && s[i].severity == worst(s),
        forall|i: int| 0 <= i < s.len() && s[i].status == Status::Failed ==> severity_rank(worst(s)) <= severity_rank(s[i].severity),
        all_ok(s) ==> worst(s) == Severity::Info,
    decreases s.len(),
{
    if s.len() > 0 {
        let t = s.drop_last();
        lemma_worst_is_failure_or_info(t);
        assert forall|i: int| 0 <= i < t.len() implies t[i] == s[i] by {}
        if worst(s) != Severity::Info && worst(s) == worst(t) {
            let i = choose|i: int| 0 <= i < t.len() && t[i].status == Status::Failed && t[i].severity == worst(t);
            assert(s[i] == t[i]);
        }
    }
}

/// Raising the threshold never turns a passing exit into a failing one: a report that exits
/// non-zero at `lenient` also exits non-zero at any stricter `strict`.
pub proof fn law_exit_code_monotone(s: Seq<Finding>, strict: Severity, lenient: Severity)
    requires
        severity_rank(lenient) <= severity_rank(strict),
    ensures
        exit_status(s, lenient) <= exit_status(s, strict),
{
}

/// A run exits non-zero only when something failed, and only at or above the threshold.
pub proof fn law_exit_code_needs_a_failure(s: Seq<Finding>, fail_on: Severity)
    ensures
        exit_status(s, fail_on) != 0 ==> !all_ok(s),
        exit_status(s, fail_on) != 0 ==> exists|i: int| 0 <= i < s.len() && s[i].status == Status::Failed
            && severity_rank(s[i].severity) <= severity_rank(fail_on),
        exit_status(s, fail_on) == 0 || exit_status(s, fail_on) == 1,
{
    lemma_worst_is_failure_or_info(s);
    if exit_status(s, fail_on) != 0 {
        if worst(s) == Severity::Info {
            assert(!all_ok(s));
            let i = choose|i: int| 0 <= i < s.len() && s[i].status == Status::Failed;
            assert(severity_rank(s[i].severity) <= severity_rank(fail_on));
        }
    }
}

/// Adding a skipped finding, whatever its grade, never changes whether a run passes, which
/// severity is worst, or which exit status it ends with.
pub proof fn law_a_skip_never_fails_a_run(s: Seq<Finding>, skip: Finding, fail_on: Severity)
    requires
        skip.status == Status::Skipped,
    ensures
        all_ok(s.push(skip)) == all_ok(s),
        worst(s.push(skip)) == worst(s),
        exit_status(s.push(skip), fail_on) == exit_status(s, fail_on),
{
    assert(s.push(skip).drop_last() == s);
    if all_ok(s) {
        assert forall|i: int| 0 <= i < s.push(skip).len() implies s.push(skip)[i].status != Status::Failed by {
            if i < s.len() {
                assert(s.push(skip)[i] == s[i]);
            }
        }
    } else {
        let i = choose|i: int| 0 <= i < s.len() && s[i].status == Status::Failed;
        assert(s.push(skip)[i] == s[i]);
    }
}

/// The remedies of a report are distinct and come back in the order the fixes must be
/// applied, so a corpus fix always precedes a retrain.
pub proof fn law_remedies_in_application_order(s: Seq<Finding>)
    ensures
        forall|i: int, j: int| 0 <= i < j < failed_remedies(s).len()
            ==> remedy_rank(failed_remedies(s)[i]) < remedy_rank(failed_remedies(s)[j]),
        forall|r: Remedy| failed_remedies(s).contains(r) <==> has_failed_remedy(s, r),
{
    let pred = |r: Remedy| has_failed_remedy(s, r);
    let a = all_remedies();
    reveal_with_fuel(Seq::filter, 5);
    assert(a.drop_last().drop_last().drop_last().drop_last() =~= Seq::<Remedy>::empty());
    assert(a.drop_last().drop_last().drop_last() =~= seq![Remedy::FixCorpus]);
    assert(a.drop_last().drop_last() =~= seq![Remedy::FixCorpus, Remedy::RetrainConfig]);
    assert(a.drop_last() =~= seq![Remedy::FixCorpus, Remedy::RetrainConfig, Remedy::FixIntegration]);
    let f = failed_remedies(s);
    assert forall|r: Remedy| f.contains(r) <==> has_failed_remedy(s, r) by {
        if has_failed_remedy(s, r) {
            let k: int = match r {
                Remedy::FixCorpus => 0,
                Remedy::RetrainConfig => 1,
                Remedy::FixIntegration => 2,
                Remedy::NotApplicable => 3,
            };
            assert(a[k] == r);
            a.lemma_filter_contains(pred, k);
        }
        if f.contains(r) {
            broadcast use vstd::seq_lib::group_filter_ensures;
        }
    }
}

impl Report {
    pub fn new(findings: Vec<Finding>) -> (r: Report)
        ensures
            r.findings@ == findings@,
    {
        Report { findings }
    }

    /// True when nothing failed. Skipped checks do not fail a run.
    pub fn ok(&self) -> (r: bool)
        ensures
            r == all_ok(self.findings@),
    {
        let mut i: usize = 0;
        while i < self.findings.len()
            invariant
                0 <= i <= self.findings@.len(),
                forall|j: int| 0 <= j < i ==> self.findings@[j].status != Status::Failed,
            decreases self.findings.len() - i,
        {
            if self.findings[i].is_failure() {
                return false;
            }
            i = i + 1;
        }
        true
    }

    /// How many findings carry `status`.
    pub fn count(&self, status: Status) -> (r: usize)
        ensures
            r == count_status(self.findings@, status),
    {
        let mut n: usize = 0;
        let mut i: usize = 0;
        while i < self.findings.len()
            invariant
                0 <= i <= self.findings@.len(),
                n == count_status(self.findings@.take(i as int), status),
                n <= i,
            decreases self.findings.len() - i,
        {
            assert(self.findings@.take(i + 1).drop_last() == self.findings@.take(i as int));
            if self.findings[i].status == status {
                n = n + 1;
            }
            i = i + 1;
        }
        assert(self.findings@.take(i as int) == self.findings@);
        n
    }

    /// The severity of the most serious failure, or `Info` when nothing failed.
    pub fn worst_severity(&self) -> (r: Severity)
        ensures
            r == worst(self.findings@),
            all_ok(self.findings@) ==> r == Severity::Info,
            forall|i: int| 0 <= i < self.findings@.len() && self.findings@[i].status == Status::Failed
                ==> severity_rank(r) <= severity_rank(self.findings@[i].severity),
            r == Severity::Info || exists|i: int| 0 <= i < self.findings@.len()
                && self.findings@[i].status == Status::Failed && self.findings@[i].severity == r,
    {
        let mut w = Severity::Info;
        let mut i: usize = 0;
        while i < self.findings.len()
            invariant
                0 <= i <= self.findings@.len(),
                w == worst(self.findings@.take(i as int)),
            decreases self.findings.len() - i,
        {
            assert(self.findings@.take(i + 1).drop_last() == self.findings@.take(i as int));
            let f = &self.findings[i];
            if f.status == Status::Failed && f.severity.rank() < w.rank() {
                w = f.severity;
            }
            i = i + 1;
        }
        assert(self.findings@.take(i as int) == self.findings@);
        proof { lemma_worst_is_failure_or_info(self.findings@); }
        w
    }

    fn has_failure_with(&self, remedy: Remedy) -> (r: bool)
        ensures
            r == has_failed_remedy(self.findings@, remedy),
    {
        let mut i: usize = 0;
        while i < self.findings.len()
            invariant
                0 <= i <= self.findings@.len(),
                forall|j: int| 0 <= j < i ==> !(self.findings@[j].status == Status::Failed && self.findings@[j].remedy == remedy),
            decreases self.findings.len() - i,
        {
            if self.findings[i].status == Status::Failed && self.findings[i].remedy == remedy {
                return true;
            }
            i = i + 1;
        }
        false
    }

    /// Distinct remedies across failures, in the order they must be applied.
    pub fn remedies(&self) -> (r: Vec<Remedy>)
        ensures
            r@ == failed_remedies(self.findings@),
    {
        let all = [Remedy::FixCorpus, Remedy::RetrainConfig, Remedy::FixIntegration, Remedy::NotApplicable];
        let ghost s = self.findings@;
        let ghost pred = |r: Remedy| has_failed_remedy(s, r);
        let mut out: Vec<Remedy> = Vec::new();
        let mut i: usize = 0;
        assert(all@ == all_remedies());
        while i < 4
            invariant
                0 <= i <= 4,
                all@ == all_remedies(),
                s == self.findings@,
                pred == (|r: Remedy| has_failed_remedy(s, r)),
                out@ == all_remedies().take(i as int).filter(pred),
            decreases 4 - i,
        {
            let r = all[i];
            proof {
                assert(all_remedies().take(i + 1).drop_last() == all_remedies().take(i as int));
                reveal_with_fuel(Seq::filter, 1);
            }
            if self.has_failure_with(r) {
                out.push(r);
            }
            i = i + 1;
        }
        assert(all_remedies().take(4) == all_remedies());
        out
    }

    /// Failures worst-first, then skips, then passes; ties read by check name. Each finding
    /// appears exactly as often as in the report.
    pub fn ranked(&self) -> (r: Vec<&Finding>)
        ensures
            r@.len() == self.findings@.len(),
            derefs(r@).to_multiset() == self.findings@.to_multiset(),
            forall|i: int| 0 <= i < r@.len() - 1 ==> #[trigger] in_rank_order(*r@[i], *r@[i + 1]),
    {
        let mut out: Vec<&Finding> = Vec::new();
        let mut i: usize = 0;
        assert(derefs(out@) =~= Seq::<Finding>::empty());
        assert(self.findings@.take(0) =~= Seq::<Finding>::empty());
        while i < self.findings.len()
            invariant
                0 <= i <= self.findings@.len(),
                out@.len() == i,
                derefs(out@).to_multiset() == self.findings@.take(i as int).to_multiset(),
                forall|k: int| 0 <= k < out@.len() - 1 ==> #[trigger] in_rank_order(*out@[k], *out@[k + 1]),
            decreases self.findings.len() - i,
        {
            let f = &self.findings[i];
            let mut k: usize = 0;
            while k < out.len() && !Self::before(f, out[k])
                invariant
                    0 <= k <= out@.len(),
                    forall|j: int| 0 <= j < k ==> !ranks_before(*f, *out@[j]),
                    forall|m: int| 0 <= m < out@.len() - 1 ==> #[trigger] in_rank_order(*out@[m], *out@[m + 1]),
                decreases out.len() - k,
            {
                k = k + 1;
            }
            proof {
                if k < out@.len() {
                    lemma_ranks_before_asymmetric(*f, *out@[k as int]);
                }
                vstd::seq_lib::to_multiset_insert(derefs(out@), k as int, *f);
                assert(self.findings@.take(i + 1) == self.findings@.take(i as int).push(*f));
                vstd::seq_lib::to_multiset_build(self.findings@.take(i as int), *f);
            }
            let ghost before = out@;
            assert(forall|m: int| 0 <= m < before.len() - 1 ==> #[trigger] in_rank_order(*before[m], *before[m + 1]));
            out.insert(k, f);
            proof {
                before.insert_ensures(k as int, f);
                assert(derefs(out@) =~= derefs(before).insert(k as int, *f));
                assert forall|j: int| 0 <= j < out@.len() - 1 implies #[trigger] in_rank_order(*out@[j], *out@[j + 1]) by {
                    if j + 1 < k {
                        assert(out@[j] == before[j] && out@[j + 1] == before[j + 1]);
                        assert(in_rank_order(*before[j], *before[j + 1]));
                    } else if j + 1 == k {
                        assert(out@[j] == before[j]);
                        assert(out@[j + 1] == f);
                    } else if j == k {
                        assert(out@[j] == f);
                        assert(out@[j + 1] == before[j]);
                    } else {
                        assert(out@[j] == before[j - 1] && out@[j + 1] == before[j]);
                        assert(in_rank_order(*before[j - 1], *before[j]));
                    }
                }
            }
            i = i + 1;
        }
        assert(self.findings@.take(i as int) == self.findings@);
        out
    }

    fn before(a: &Finding, b: &Finding) -> (r: bool)
        ensures
            r == ranks_before(*a, *b),
    {
        let (sa, sb) = (a.status.rank(), b.status.rank());
        if sa != sb {
            return sa < sb;
        }
        let (va, vb) = (a.severity.rank(), b.severity.rank());
        if va != vb {
            return va < vb;
        }
        str_lt(a.check.as_str(), b.check.as_str())
    }

    /// Non-zero when any failure is at or above `fail_on`.
    pub fn exit_code(&self, fail_on: Severity) -> (r: i32)
        ensures
            r == exit_status(self.findings@, fail_on),
    {
        if self.ok() {
            return 0;
        }
        if self.worst_severity().rank() <= fail_on.rank() {
            1
        } else {
            0
        }
    }

    /// Append another report's findings after this one's.
    pub fn extend(&mut self, other: Report)
        ensures
            final(self).findings@ == old(self).findings@ + other.findings@,
    {
        let mut other = other;
        self.findings.append(&mut other.findings);
    }
}

} // verus!
