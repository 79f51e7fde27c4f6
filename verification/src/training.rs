//! What the `train` command decides around the pipeline: which preflight failures the training
//! stream takes care of, what the trainer is handed, and where its files land.

use vstd::prelude::*;

use crate::corpus::axis::{default_axes, default_axis_actions, default_axis_names, Action};
use crate::corpus::source::{file_name_of, path_file_name};
use crate::config::copy_strings;
use crate::report::{truncated, Finding, Remedy, Report, Severity, Status};
use crate::text::{decimal, decimal_string, from_chars, is_white_space, owned, push_str, str_eq, to_chars, trim, trimmed};
use crate::format::{count, count_text};
use crate::tally::tally_wf;
use crate::train::{bucket_count, bucket_label, Bucket, BucketCounts, CorpusPlan, MathPolicy, PrepareOptions};

verus! {

/// What the training stream does about lines a preflight check would fail on: drop invalid
/// UTF-8, drop over-long lines, and canonicalize the `Decide` axes named in `decide`.
#[derive(Debug, Clone)]
pub struct PreflightPolicy {
    pub drop_invalid: bool,
    pub drop_long_lines: bool,
    pub decide: Vec<String>,
}

/// The axis a check's name reports on: `name` for `axis[name]`.
pub open spec fn axis_check_name(check: Seq<char>) -> Option<Seq<char>> {
    if check.len() >= 6 && check.take(5) == "axis["@ && check.last() == ']' {
        Some(check.subrange(5, check.len() - 1))
    } else {
        None
    }
}

/// Whether the training stream canonicalizes the default axis named `name`: it collapses it,
/// or the axis is one to decide and `decide` names it.
pub open spec fn axis_handled(name: Seq<char>, decide: Seq<String>) -> bool {
    exists|k: int|
        0 <= k < 15 && #[trigger] default_axis_names()[k] == name && (default_axis_actions()[k] == Action::Collapse || (
        default_axis_actions()[k] == Action::Decide && exists|j: int| 0 <= j < decide.len() && #[trigger] decide[j]@ == name))
}

/// Whether the training stream takes care of what the check named `check` fails on.
pub open spec fn handles_failure(check: Seq<char>, p: PreflightPolicy) -> bool {
    if check == "invalid_utf8"@ {
        p.drop_invalid
    } else if check == "long_lines"@ {
        p.drop_long_lines
    } else {
        match axis_check_name(check) {
            Some(name) => axis_handled(name, p.decide@),
            None => false,
        }
    }
}

/// `name` for a check named `axis[name]`.
fn axis_name_of(check: &str) -> (r: Option<String>)
    ensures
        match r {
            Some(n) => axis_check_name(check@) == Some(n@),
            None => axis_check_name(check@) is None,
        },
{
    let chars = to_chars(check);
    let n = chars.len();
    proof {
        reveal_strlit("axis[");
    }
    if n < 6 || chars[0] != 'a' || chars[1] != 'x' || chars[2] != 'i' || chars[3] != 's' || chars[4] != '[' || chars[n - 1] != ']' {
        proof {
            if n >= 6 && check@.take(5) == "axis["@ {
                assert(check@.take(5)[0] == 'a' && check@.take(5)[1] == 'x' && check@.take(5)[2] == 'i');
                assert(check@.take(5)[3] == 's' && check@.take(5)[4] == '[');
            }
        }
        return None;
    }
    assert(check@.take(5) =~= "axis["@);
    let name = from_chars(&chars[5..n - 1]);
    assert(name@ =~= check@.subrange(5, n - 1));
    Some(name)
}

/// Whether `decide` lists `name`.
fn listed(decide: &Vec<String>, name: &str) -> (r: bool)
    ensures
        r == exists|j: int| 0 <= j < decide@.len() && #[trigger] decide@[j]@ == name@,
{
    let mut j: usize = 0;
    while j < decide.len()
        invariant
            0 <= j <= decide@.len(),
            forall|i: int| 0 <= i < j ==> #[trigger] decide@[i]@ != name@,
        decreases decide.len() - j,
    {
        if str_eq(decide[j].as_str(), name) {
            return true;
        }
        j = j + 1;
    }
    false
}

/// Whether the check named `check` reports on a default axis that the training stream
/// canonicalizes.
pub fn axis_handled_by_training(check: &str, policy: &PreflightPolicy) -> (r: bool)
    ensures
        r == match axis_check_name(check@) {
            Some(name) => axis_handled(name, policy.decide@),
            None => false,
        },
{
    let name = match axis_name_of(check) {
        Some(n) => n,
        None => return false,
    };
    let axes = default_axes();
    let mut k: usize = 0;
    while k < axes.len()
        invariant
            axes@.len() == 15,
            axis_check_name(check@) == Some(name@),
            forall|i: int| 0 <= i < 15 ==> #[trigger] crate::corpus::axis::is_default_axis(i, axes@[i]),
            0 <= k <= 15,
            forall|i: int|
                0 <= i < k ==> !(#[trigger] default_axis_names()[i] == name@ && (default_axis_actions()[i] == Action::Collapse || (
                default_axis_actions()[i] == Action::Decide && exists|j: int| 0 <= j < policy.decide@.len() && #[trigger] policy.decide@[j]@ == name@))),
        decreases axes.len() - k,
    {
        let axis = &axes[k];
        assert(crate::corpus::axis::is_default_axis(k as int, axes@[k as int]));
        if str_eq(axis.name, name.as_str()) {
            let handled = match axis.action {
                Action::Collapse => true,
                Action::Decide => listed(&policy.decide, axis.name),
                Action::Preserve => false,
            };
            if handled {
                assert(default_axis_names()[k as int] == name@);
                return true;
            }
        }
        k = k + 1;
    }
    false
}

/// Whether the training stream takes care of what `finding` failed on.
pub fn training_handles_preflight_failure(finding: &Finding, policy: &PreflightPolicy) -> (r: bool)
    ensures
        r == handles_failure(finding.check@, *policy),
{
    proof {
        reveal_strlit("invalid_utf8");
        reveal_strlit("long_lines");
        reveal_strlit("axis[");
    }
    if str_eq(finding.check.as_str(), "invalid_utf8") {
        return policy.drop_invalid;
    }
    if str_eq(finding.check.as_str(), "long_lines") {
        return policy.drop_long_lines;
    }
    axis_handled_by_training(finding.check.as_str(), policy)
}

/// A failed preflight finding, restated as a pass the training stream takes care of: its
/// check renamed `preflight[check]`, its summary extended, its evidence and guide entry kept.
pub open spec fn handled_form(f: Finding, h: Finding) -> bool {
    &&& h.check@ == "preflight["@ + f.check@ + "]"@
    &&& h.summary@ == f.summary@ + "; handled by the training stream"@
    &&& h.status == Status::Passed
    &&& h.evidence@ == truncated(f.evidence@)
    &&& h.severity == crate::report::Severity::Info
    &&& h.remedy == crate::report::Remedy::NotApplicable
    &&& h.failure_mode == f.failure_mode
}

pub fn handled_preflight_finding(finding: Finding) -> (r: Finding)
    ensures
        handled_form(finding, r),
{
    let mut check = owned("preflight[");
    push_str(&mut check, finding.check.as_str());
    push_str(&mut check, "]");
    let mut summary = owned(finding.summary.as_str());
    push_str(&mut summary, "; handled by the training stream");
    let failure_mode = finding.failure_mode;
    let mut handled = Finding::passed(check.as_str(), summary.as_str()).with_evidence(finding.evidence);
    handled.failure_mode = failure_mode;
    handled
}

/// Whether a preflight finding still blocks training under `p`.
pub open spec fn unresolved(f: Finding, p: PreflightPolicy) -> bool {
    f.status == Status::Failed && !handles_failure(f.check@, p)
}

/// How many of `findings` still block training under `p`.
pub open spec fn unresolved_count(findings: Seq<Finding>, p: PreflightPolicy) -> nat
    decreases findings.len(),
{
    if findings.len() == 0 {
        0
    } else {
        unresolved_count(findings.drop_last(), p) + if unresolved(findings.last(), p) { 1nat } else { 0nat }
    }
}

/// How many failed preflight findings the training stream cannot take care of.
pub fn unresolved_preflight_failures(report: &Report, policy: &PreflightPolicy) -> (r: usize)
    ensures
        r == unresolved_count(report.findings@, *policy),
{
    let findings = &report.findings;
    let mut count: usize = 0;
    let mut k: usize = 0;
    while k < findings.len()
        invariant
            0 <= k <= findings@.len(),
            count == unresolved_count(findings@.take(k as int), *policy),
            count <= k,
        decreases findings.len() - k,
    {
        assert(findings@.take(k + 1).drop_last() == findings@.take(k as int));
        if findings[k].is_failure() && !training_handles_preflight_failure(&findings[k], policy) {
            count = count + 1;
        }
        k = k + 1;
    }
    assert(findings@.take(k as int) == findings@);
    count
}

/// The preflight report as training presents it: each failure the training stream takes care
/// of becomes its handled form, every other finding stays as it was, in the same order.
pub fn report_preflight_for_training(report: Report, policy: &PreflightPolicy) -> (r: Report)
    ensures
        r.findings@.len() == report.findings@.len(),
        forall|k: int|
            0 <= k < report.findings@.len() ==> if report.findings@[k].status == Status::Failed && handles_failure(
                report.findings@[k].check@,
                *policy,
            ) {
                handled_form(report.findings@[k], #[trigger] r.findings@[k])
            } else {
                r.findings@[k] == report.findings@[k]
            },
{
    let ghost before = report.findings@;
    let mut remaining = report.findings;
    let mut reversed: Vec<Finding> = Vec::new();
    while remaining.len() > 0
        invariant
            remaining@.len() + reversed@.len() == before.len(),
            remaining@ == before.take(remaining@.len() as int),
            forall|i: int|
                0 <= i < reversed@.len() ==> {
                    let k = before.len() - 1 - i;
                    if before[k].status == Status::Failed && handles_failure(before[k].check@, *policy) {
                        handled_form(before[k], #[trigger] reversed@[i])
                    } else {
                        reversed@[i] == before[k]
                    }
                },
        decreases remaining.len(),
    {
        let ghost n = remaining@.len();
        let finding = remaining.pop().unwrap();
        assert(finding == before[n - 1]);
        assert(remaining@ =~= before.take(n - 1));
        let kept = if finding.is_failure() && training_handles_preflight_failure(&finding, policy) {
            handled_preflight_finding(finding)
        } else {
            finding
        };
        reversed.push(kept);
    }
    let mut findings: Vec<Finding> = Vec::new();
    while reversed.len() > 0
        invariant
            findings@.len() + reversed@.len() == before.len(),
            forall|i: int|
                0 <= i < reversed@.len() ==> {
                    let k = before.len() - 1 - i;
                    if before[k].status == Status::Failed && handles_failure(before[k].check@, *policy) {
                        handled_form(before[k], #[trigger] reversed@[i])
                    } else {
                        reversed@[i] == before[k]
                    }
                },
            forall|k: int|
                0 <= k < findings@.len() ==> if before[k].status == Status::Failed && handles_failure(before[k].check@, *policy) {
                    handled_form(before[k], #[trigger] findings@[k])
                } else {
                    findings@[k] == before[k]
                },
        decreases reversed.len(),
    {
        let ghost i = reversed@.len() - 1;
        let f = reversed.pop().unwrap();
        assert(before.len() - 1 - i == findings@.len());
        findings.push(f);
    }
    Report { findings }
}

/// The finding that stops a run whose preflight failures the training stream cannot take care of.
pub open spec fn stops_training(f: Finding) -> bool {
    &&& f.check@ == "training_stream"@
    &&& f.summary@ == "preflight corpus checks failed; fix the corpus before spending trainer compute"@
    &&& f.status == Status::Skipped
    &&& f.evidence@.len() == 0
    &&& f.severity == Severity::High
    &&& f.remedy == Remedy::FixCorpus
    &&& f.failure_mode.is_none()
}

/// Whether training goes on after the preflight `report`, and the report as training presents
/// it: training goes on exactly when no failure is left that the training stream cannot take
/// care of; otherwise the report ends with the finding that stops the run.
pub fn preflight_gate(report: Report, policy: &PreflightPolicy) -> (r: (Report, bool))
    ensures
        r.1 == (unresolved_count(report.findings@, *policy) == 0),
        r.0.findings@.len() == report.findings@.len() + (if r.1 { 0int } else { 1int }),
        forall|k: int|
            0 <= k < report.findings@.len() ==> if report.findings@[k].status == Status::Failed && handles_failure(
                report.findings@[k].check@,
                *policy,
            ) {
                handled_form(report.findings@[k], #[trigger] r.0.findings@[k])
            } else {
                r.0.findings@[k] == report.findings@[k]
            },
        !r.1 ==> stops_training(r.0.findings@.last()),
{
    let unresolved = unresolved_preflight_failures(&report, policy);
    let mut presented = report_preflight_for_training(report, policy);
    if unresolved > 0 {
        let stop = Finding::skipped(
            "training_stream",
            "preflight corpus checks failed; fix the corpus before spending trainer compute",
        ).graded(Severity::High, Remedy::FixCorpus);
        presented.findings.push(stop);
        (presented, false)
    } else {
        (presented, true)
    }
}

/// What becomes of the prepared training file.
pub fn training_file_policy(keep_training_file: bool) -> (r: &'static str)
    ensures
        keep_training_file ==> r@ == "kept after training"@,
        !keep_training_file ==> r@ == "deleted after training"@,
{
    if keep_training_file {
        "kept after training"
    } else {
        "deleted after training"
    }
}

/// `path` with its final component replaced by `name`.
pub uninterp spec fn path_with_file_name(path: Seq<char>, name: Seq<char>) -> Seq<char>;

/// `std::path::PathBuf::set_file_name`.
#[verifier::external_body]
fn with_file_name(path: &str, name: &str) -> (r: String)
    ensures
        r@ == path_with_file_name(path@, name@),
{
    let mut path = std::path::PathBuf::from(path);
    path.set_file_name(name);
    path.to_string_lossy().into_owned()
}

/// Where SentencePiece writes the file with this extension for a model prefix: the prefix's
/// file name with `.extension` added, since the prefix may itself contain dots; the whole
/// prefix with it added when the prefix has no file name.
pub open spec fn output_path_for(prefix: Seq<char>, extension: Seq<char>) -> Seq<char> {
    match path_file_name(prefix) {
        Some(name) => path_with_file_name(prefix, name + "."@ + extension),
        None => prefix + "."@ + extension,
    }
}

pub fn sentencepiece_output_path(prefix: &str, extension: &str) -> (r: String)
    ensures
        r@ == output_path_for(prefix@, extension@),
{
    match file_name_of(prefix) {
        Some(name) => {
            let mut file_name = name;
            push_str(&mut file_name, ".");
            push_str(&mut file_name, extension);
            with_file_name(prefix, file_name.as_str())
        },
        None => {
            let mut path = owned(prefix);
            push_str(&mut path, ".");
            push_str(&mut path, extension);
            path
        },
    }
}

pub fn sentencepiece_model_path(prefix: &str) -> (r: String)
    ensures
        r@ == output_path_for(prefix@, "model"@),
{
    sentencepiece_output_path(prefix, "model")
}

pub fn sentencepiece_vocab_path(prefix: &str) -> (r: String)
    ensures
        r@ == output_path_for(prefix@, "vocab"@),
{
    sentencepiece_output_path(prefix, "vocab")
}

/// Which program trains the model.
#[derive(Debug, Clone, Copy, PartialEq, Eq, Structural)]
pub enum TrainerBackend {
    /// `uv run python` with the project's `sentencepiece` dependency.
    UvPython,
    /// An `spm_train` executable.
    SpmTrain,
}

/// The `train` command's settings as the config file states them. Fractions are held as the
/// bits of an IEEE-754 double.
#[derive(Debug, Clone)]
pub struct TrainConfig {
    pub paths: Vec<String>,
    pub model_prefix: String,
    pub lines: u64,
    pub alpha_bits: u64,
    pub seed: u64,
    pub vocab_size: u32,
    pub character_coverage_bits: u64,
    pub max_sentence_length: usize,
    pub max_sentencepiece_length: usize,
    pub shuffle_buffer_lines: usize,
    pub memory_budget_gb: u64,
    pub training_temp_dir: Option<String>,
    pub keep_training_file: bool,
    pub balance_math: bool,
    pub math_max_share_bits: u64,
    pub spm_threads: Option<usize>,
    pub trainer_backend: TrainerBackend,
    pub spm_train: String,
    pub decide: Vec<String>,
    pub drop_invalid: bool,
    pub drop_long_lines: bool,
    pub user_defined_symbols: Vec<String>,
    pub user_defined_symbols_file: Option<String>,
}

/// The `train` command's settings, once checked. Fractions are held as the bits of an
/// IEEE-754 double.
#[derive(Debug, Clone)]
pub struct TrainOptions {
    pub paths: Vec<String>,
    pub model_prefix: String,
    pub lines: u64,
    pub alpha_bits: u64,
    pub seed: u64,
    pub vocab_size: u32,
    pub character_coverage_bits: u64,
    pub max_sentence_length: usize,
    pub max_sentencepiece_length: usize,
    pub shuffle_buffer_lines: usize,
    pub memory_budget_gb: u64,
    pub training_temp_dir: Option<String>,
    pub keep_training_file: bool,
    pub balance_math: bool,
    pub math_max_share_bits: u64,
    pub spm_threads: Option<usize>,
    pub trainer_backend: TrainerBackend,
    pub spm_train: String,
    pub decide: Vec<String>,
    pub drop_invalid: bool,
    pub drop_long_lines: bool,
    pub user_defined_symbol: Vec<String>,
    pub user_defined_symbols_file: Option<String>,
}

/// Why a train config was refused.
#[derive(Debug, Clone, Copy, PartialEq, Eq, Structural)]
pub enum TrainConfigError {
    NoPaths,
}

impl TrainConfigError {
    pub fn message(&self) -> (r: String)
        ensures
            r@ == "train config must include at least one path"@,
    {
        owned("train config must include at least one path")
    }
}

/// The options a config becomes: every setting carried over as it stands.
pub open spec fn options_from(c: TrainConfig, o: TrainOptions) -> bool {
    &&& o.paths == c.paths
    &&& o.model_prefix == c.model_prefix
    &&& o.lines == c.lines
    &&& o.alpha_bits == c.alpha_bits
    &&& o.seed == c.seed
    &&& o.vocab_size == c.vocab_size
    &&& o.character_coverage_bits == c.character_coverage_bits
    &&& o.max_sentence_length == c.max_sentence_length
    &&& o.max_sentencepiece_length == c.max_sentencepiece_length
    &&& o.shuffle_buffer_lines == c.shuffle_buffer_lines
    &&& o.memory_budget_gb == c.memory_budget_gb
    &&& o.training_temp_dir == c.training_temp_dir
    &&& o.keep_training_file == c.keep_training_file
    &&& o.balance_math == c.balance_math
    &&& o.math_max_share_bits == c.math_max_share_bits
    &&& o.spm_threads == c.spm_threads
    &&& o.trainer_backend == c.trainer_backend
    &&& o.spm_train == c.spm_train
    &&& o.decide == c.decide
    &&& o.drop_invalid == c.drop_invalid
    &&& o.drop_long_lines == c.drop_long_lines
    &&& o.user_defined_symbol == c.user_defined_symbols
    &&& o.user_defined_symbols_file == c.user_defined_symbols_file
}

impl TrainConfig {
    /// The checked options: refused exactly when the config names no path.
    pub fn into_options(self) -> (r: Result<TrainOptions, TrainConfigError>)
        ensures
            self.paths@.len() == 0 <==> r is Err,
            r matches Ok(o) ==> options_from(self, o),
    {
        if self.paths.len() == 0 {
            return Err(TrainConfigError::NoPaths);
        }
        Ok(TrainOptions {
            paths: self.paths,
            model_prefix: self.model_prefix,
            lines: self.lines,
            alpha_bits: self.alpha_bits,
            seed: self.seed,
            vocab_size: self.vocab_size,
            character_coverage_bits: self.character_coverage_bits,
            max_sentence_length: self.max_sentence_length,
            max_sentencepiece_length: self.max_sentencepiece_length,
            shuffle_buffer_lines: self.shuffle_buffer_lines,
            memory_budget_gb: self.memory_budget_gb,
            training_temp_dir: self.training_temp_dir,
            keep_training_file: self.keep_training_file,
            balance_math: self.balance_math,
            math_max_share_bits: self.math_max_share_bits,
            spm_threads: self.spm_threads,
            trainer_backend: self.trainer_backend,
            spm_train: self.spm_train,
            decide: self.decide,
            drop_invalid: self.drop_invalid,
            drop_long_lines: self.drop_long_lines,
            user_defined_symbol: self.user_defined_symbols,
            user_defined_symbols_file: self.user_defined_symbols_file,
        })
    }
}

impl TrainOptions {
    /// What the training stream does about failing preflight checks.
    pub fn preflight_policy(&self) -> (r: PreflightPolicy)
        ensures
            r.drop_invalid == self.drop_invalid,
            r.drop_long_lines == self.drop_long_lines,
            r.decide@ == self.decide@,
    {
        PreflightPolicy { drop_invalid: self.drop_invalid, drop_long_lines: self.drop_long_lines, decide: copy_strings(&self.decide) }
    }
}

/// How math lines are balanced under these options.
pub open spec fn math_policy_of(args: TrainOptions) -> MathPolicy {
    if args.balance_math {
        MathPolicy::Balanced { max_share_bits: args.math_max_share_bits }
    } else {
        MathPolicy::ReportOnly
    }
}

pub fn math_policy(args: &TrainOptions) -> (r: MathPolicy)
    ensures
        r == math_policy_of(*args),
{
    if args.balance_math {
        MathPolicy::Balanced { max_share_bits: args.math_max_share_bits }
    } else {
        MathPolicy::ReportOnly
    }
}

/// Bytes in a gibibyte.
pub const GIB: u64 = 1073741824;

/// The preparation options these train options ask for; the memory budget, given in
/// gibibytes, saturates at `u64::MAX` bytes.
pub open spec fn prepare_options_of(args: TrainOptions) -> PrepareOptions {
    PrepareOptions {
        target_lines: args.lines,
        alpha_bits: args.alpha_bits,
        seed: args.seed,
        max_line_bytes: args.max_sentence_length,
        shuffle_buffer_lines: args.shuffle_buffer_lines,
        memory_budget_bytes: if args.memory_budget_gb * GIB > u64::MAX { u64::MAX } else { (args.memory_budget_gb * GIB) as u64 },
        drop_invalid_utf8: args.drop_invalid,
        drop_long_lines: args.drop_long_lines,
        math_policy: math_policy_of(args),
    }
}

/// The preparation options, or what is wrong with them.
pub fn prepare_options(args: &TrainOptions) -> (r: Result<PrepareOptions, crate::train::PrepareError>)
    ensures
        match crate::train::options_problem(prepare_options_of(*args)) {
            Some(e) => r == Err::<PrepareOptions, crate::train::PrepareError>(e),
            None => r == Ok::<PrepareOptions, crate::train::PrepareError>(prepare_options_of(*args)),
        },
{
    let options = PrepareOptions {
        target_lines: args.lines,
        alpha_bits: args.alpha_bits,
        seed: args.seed,
        max_line_bytes: args.max_sentence_length,
        shuffle_buffer_lines: args.shuffle_buffer_lines,
        memory_budget_bytes: match args.memory_budget_gb.checked_mul(GIB) {
            Some(bytes) => bytes,
            None => u64::MAX,
        },
        drop_invalid_utf8: args.drop_invalid,
        drop_long_lines: args.drop_long_lines,
        math_policy: math_policy(args),
    };
    match options.validate() {
        Ok(()) => Ok(options),
        Err(e) => Err(e),
    }
}

/// What the trainer is run with. The character coverage is held as the bits of an IEEE-754
/// double.
#[derive(Debug, Clone)]
pub struct SentencePieceSettings {
    pub input: String,
    pub model_prefix: String,
    pub vocab_size: u32,
    pub character_coverage_bits: u64,
    pub max_sentencepiece_length: usize,
    pub max_sentence_length: usize,
    pub input_sentence_size: u64,
    pub num_threads: usize,
    pub user_defined_symbols: Vec<String>,
}

/// The trainer's thread count: the one configured, else the one the Rust side runs with,
/// else 16; at least 1.
pub open spec fn trainer_threads(spm_threads: Option<usize>, rust_jobs: Option<usize>) -> usize {
    let n = match spm_threads {
        Some(n) => n,
        None => match rust_jobs {
            Some(n) => n,
            None => 16,
        },
    };
    if n < 1 { 1 } else { n }
}

/// A configured SentencePiece thread count is the one the trainer runs with, whatever the Rust
/// side's job count; the job count stands in only when none is configured, and 16 when neither
/// is given; a count of zero becomes one.
pub proof fn law_configured_threads_win(spm_threads: Option<usize>, rust_jobs: Option<usize>)
    ensures
        spm_threads is Some && spm_threads.unwrap() >= 1 ==> trainer_threads(spm_threads, rust_jobs) == spm_threads.unwrap(),
        spm_threads == Some(0usize) ==> trainer_threads(spm_threads, rust_jobs) == 1,
        spm_threads is None && rust_jobs is Some && rust_jobs.unwrap() >= 1 ==> trainer_threads(spm_threads, rust_jobs)
            == rust_jobs.unwrap(),
        spm_threads is None && rust_jobs == Some(0usize) ==> trainer_threads(spm_threads, rust_jobs) == 1,
        spm_threads is None && rust_jobs is None ==> trainer_threads(spm_threads, rust_jobs) == 16,
        spm_threads is Some ==> trainer_threads(spm_threads, rust_jobs) == trainer_threads(spm_threads, None),
        trainer_threads(spm_threads, rust_jobs) >= 1,
{
}

pub fn trainer_settings(
    input: &str,
    args: &TrainOptions,
    options: &PrepareOptions,
    user_symbols: &Vec<String>,
    rust_jobs: Option<usize>,
) -> (r: SentencePieceSettings)
    ensures
        r.input@ == input@,
        r.model_prefix == args.model_prefix,
        r.vocab_size == args.vocab_size,
        r.character_coverage_bits == args.character_coverage_bits,
        r.max_sentencepiece_length == args.max_sentencepiece_length,
        r.max_sentence_length == args.max_sentence_length,
        r.input_sentence_size == options.target_lines,
        r.num_threads == trainer_threads(args.spm_threads, rust_jobs),
        args.spm_threads is Some && args.spm_threads.unwrap() >= 1 ==> r.num_threads == args.spm_threads.unwrap(),
        r.user_defined_symbols@ == user_symbols@,
{
    let chosen = match args.spm_threads {
        Some(n) => n,
        None => match rust_jobs {
            Some(n) => n,
            None => 16,
        },
    };
    SentencePieceSettings {
        input: owned(input),
        model_prefix: args.model_prefix.clone(),
        vocab_size: args.vocab_size,
        character_coverage_bits: args.character_coverage_bits,
        max_sentencepiece_length: args.max_sentencepiece_length,
        max_sentence_length: args.max_sentence_length,
        input_sentence_size: options.target_lines,
        num_threads: if chosen < 1 { 1 } else { chosen },
        user_defined_symbols: copy_strings(user_symbols),
    }
}

/// `--flag=value`.
pub open spec fn flag(name: Seq<char>, value: Seq<char>) -> Seq<char> {
    "--"@ + name + "="@ + value
}

/// The `spm_train` command line for these settings, with the character coverage written as
/// `coverage`; the user-defined symbols, comma-separated, come last when there are any.
pub open spec fn spm_args_for(s: SentencePieceSettings, coverage: Seq<char>) -> Seq<Seq<char>> {
    let fixed = seq![
        flag("input"@, s.input@),
        flag("model_prefix"@, s.model_prefix@),
        "--model_type=bpe"@,
        flag("vocab_size"@, decimal(s.vocab_size as nat)),
        flag("character_coverage"@, coverage),
        "--byte_fallback=true"@,
        "--normalization_rule_name=identity"@,
        "--add_dummy_prefix=false"@,
        "--remove_extra_whitespaces=false"@,
        "--split_by_unicode_script=true"@,
        "--split_by_whitespace=true"@,
        "--split_digits=true"@,
        flag("max_sentencepiece_length"@, decimal(s.max_sentencepiece_length as nat)),
        flag("max_sentence_length"@, decimal(s.max_sentence_length as nat)),
        flag("input_sentence_size"@, decimal(s.input_sentence_size as nat)),
        "--shuffle_input_sentence=false"@,
        "--train_extremely_large_corpus=true"@,
        flag("num_threads"@, decimal(s.num_threads as nat)),
    ];
    if s.user_defined_symbols@.len() == 0 {
        fixed
    } else {
        fixed.push(flag("user_defined_symbols"@, crate::text::joined(crate::text::views(s.user_defined_symbols@), ","@)))
    }
}

/// `--name=value`.
fn flag_arg(name: &str, value: &str) -> (r: String)
    ensures
        r@ == flag(name@, value@),
{
    let mut out = owned("--");
    push_str(&mut out, name);
    push_str(&mut out, "=");
    push_str(&mut out, value);
    out
}

/// The `spm_train` arguments; `coverage` is how the character coverage is written.
pub fn sentencepiece_args(settings: &SentencePieceSettings, coverage: &str) -> (r: Vec<String>)
    ensures
        crate::text::views(r@) == spm_args_for(*settings, coverage@),
{
    let mut out: Vec<String> = Vec::new();
    out.push(flag_arg("input", settings.input.as_str()));
    out.push(flag_arg("model_prefix", settings.model_prefix.as_str()));
    out.push(owned("--model_type=bpe"));
    out.push(flag_arg("vocab_size", decimal_string(settings.vocab_size as u64).as_str()));
    out.push(flag_arg("character_coverage", coverage));
    out.push(owned("--byte_fallback=true"));
    out.push(owned("--normalization_rule_name=identity"));
    out.push(owned("--add_dummy_prefix=false"));
    out.push(owned("--remove_extra_whitespaces=false"));
    out.push(owned("--split_by_unicode_script=true"));
    out.push(owned("--split_by_whitespace=true"));
    out.push(owned("--split_digits=true"));
    out.push(flag_arg("max_sentencepiece_length", decimal_string(settings.max_sentencepiece_length as u64).as_str()));
    out.push(flag_arg("max_sentence_length", decimal_string(settings.max_sentence_length as u64).as_str()));
    out.push(flag_arg("input_sentence_size", decimal_string(settings.input_sentence_size).as_str()));
    out.push(owned("--shuffle_input_sentence=false"));
    out.push(owned("--train_extremely_large_corpus=true"));
    out.push(flag_arg("num_threads", decimal_string(settings.num_threads as u64).as_str()));
    if settings.user_defined_symbols.len() > 0 {
        let symbols = crate::text::join(&settings.user_defined_symbols, ",");
        out.push(flag_arg("user_defined_symbols", symbols.as_str()));
    }
    assert(crate::text::views(out@) =~= spm_args_for(*settings, coverage@));
    out
}

/// The pieces of a text between newlines; there is always at least one.
pub open spec fn newline_pieces(s: Seq<char>) -> Seq<Seq<char>>
    decreases s.len(),
{
    if s.len() == 0 {
        seq![Seq::empty()]
    } else {
        let before = newline_pieces(s.drop_last());
        if s.last() == '\n' {
            before.push(Seq::empty())
        } else {
            before.update(before.len() - 1, before.last().push(s.last()))
        }
    }
}

proof fn lemma_newline_pieces_nonempty(s: Seq<char>)
    ensures
        newline_pieces(s).len() >= 1,
    decreases s.len(),
{
    if s.len() > 0 {
        lemma_newline_pieces_nonempty(s.drop_last());
    }
}

/// Each piece trimmed, the empty ones left out.
pub open spec fn kept_symbols(pieces: Seq<Seq<char>>) -> Seq<Seq<char>>
    decreases pieces.len(),
{
    if pieces.len() == 0 {
        Seq::empty()
    } else {
        let rest = kept_symbols(pieces.drop_last());
        if trimmed(pieces.last()).len() > 0 {
            rest.push(trimmed(pieces.last()))
        } else {
            rest
        }
    }
}

/// The symbols a symbols file lists: its lines trimmed, blank lines left out.
pub open spec fn file_symbols(text: Seq<char>) -> Seq<Seq<char>> {
    kept_symbols(newline_pieces(text))
}

/// Add `piece`, trimmed, unless nothing is left of it.
fn keep_symbol(out: &mut Vec<String>, piece: &Vec<char>)
    ensures
        crate::text::views(final(out)@) == if trimmed(piece@).len() > 0 {
            crate::text::views(old(out)@).push(trimmed(piece@))
        } else {
            crate::text::views(old(out)@)
        },
{
    let text = from_chars(piece.as_slice());
    let t = trim(text.as_str());
    if t.len() > 0 {
        let symbol = from_chars(t.as_slice());
        proof {
            crate::text::lemma_views_push(out@, symbol);
        }
        out.push(symbol);
    }
}

/// The symbols a symbols file lists, one per line.
pub fn symbols_from_text(text: &str) -> (r: Vec<String>)
    ensures
        crate::text::views(r@) == file_symbols(text@),
{
    let chars = to_chars(text);
    let mut out: Vec<String> = Vec::new();
    let mut piece: Vec<char> = Vec::new();
    let mut i: usize = 0;
    proof {
        assert(text@.take(0) =~= Seq::<char>::empty());
    }
    while i < chars.len()
        invariant
            0 <= i <= chars@.len(),
            chars@ == text@,
            newline_pieces(text@.take(i as int)).len() >= 1,
            piece@ == newline_pieces(text@.take(i as int)).last(),
            crate::text::views(out@) == kept_symbols(newline_pieces(text@.take(i as int)).drop_last()),
        decreases chars.len() - i,
    {
        let ghost before = newline_pieces(text@.take(i as int));
        assert(text@.take(i + 1).drop_last() =~= text@.take(i as int));
        assert(text@.take(i + 1).last() == chars@[i as int]);
        if chars[i] == '\n' {
            keep_symbol(&mut out, &piece);
            piece = Vec::new();
            proof {
                let after = before.push(Seq::<char>::empty());
                assert(after.drop_last() =~= before);
                assert(before.drop_last().push(before.last()) =~= before);
            }
        } else {
            piece.push(chars[i]);
            proof {
                let after = before.update(before.len() - 1, before.last().push(chars@[i as int]));
                assert(after.drop_last() =~= before.drop_last());
            }
        }
        i = i + 1;
    }
    proof {
        assert(text@.take(i as int) =~= text@);
        let all = newline_pieces(text@);
        assert(all.drop_last().push(all.last()) =~= all);
    }
    keep_symbol(&mut out, &piece);
    out
}

/// The user-defined symbols of a run: those the config lists, then those of the symbols file,
/// whose text is `file_text` when the config names one.
pub fn user_defined_symbols(args: &TrainOptions, file_text: Option<&str>) -> (r: Vec<String>)
    ensures
        crate::text::views(r@) == match file_text {
            Some(t) => crate::text::views(args.user_defined_symbol@) + file_symbols(t@),
            None => crate::text::views(args.user_defined_symbol@),
        },
{
    let mut symbols = copy_strings(&args.user_defined_symbol);
    match file_text {
        Some(t) => {
            let more = symbols_from_text(t);
            let mut k: usize = 0;
            let ghost start = symbols@;
            while k < more.len()
                invariant
                    0 <= k <= more@.len(),
                    crate::text::views(symbols@) == crate::text::views(start) + crate::text::views(more@).take(k as int),
                decreases more.len() - k,
            {
                proof {
                    crate::text::lemma_views_push(symbols@, more@[k as int]);
                    assert(crate::text::views(more@).take(k + 1) =~= crate::text::views(more@).take(k as int).push(more@[k as int]@));
                }
                symbols.push(more[k].clone());
                k = k + 1;
            }
            assert(crate::text::views(more@).take(k as int) =~= crate::text::views(more@));
            symbols
        },
        None => symbols,
    }
}

/// How math lines are treated, as the report says it; `share_percent` is the math share
/// written as a percentage.
pub open spec fn math_policy_text(balance_math: bool, share_percent: Seq<char>) -> Seq<char> {
    if balance_math {
        "balanced with max share "@ + share_percent + "%"@
    } else {
        "reported, not balanced separately"@
    }
}

pub fn math_policy_summary(args: &TrainOptions, share_percent: &str) -> (r: String)
    ensures
        r@ == math_policy_text(args.balance_math, share_percent@),
{
    if args.balance_math {
        let mut out = owned("balanced with max share ");
        push_str(&mut out, share_percent);
        push_str(&mut out, "%");
        out
    } else {
        owned("reported, not balanced separately")
    }
}

/// The buckets that hold lines, in bucket order: math, each writing system by name, then the
/// unclassified.
pub open spec fn used_buckets(c: BucketCounts) -> Seq<Bucket> {
    (if c.math > 0 { seq![Bucket::Math] } else { Seq::empty() }) + c.text@.map_values(
        |e: (&'static str, u64)| Bucket::Text(e.0),
    ) + (if c.unclassified > 0 { seq![Bucket::Unclassified] } else { Seq::empty() })
}

/// One bucket's line in the training report.
pub open spec fn quota_line(b: Bucket, quota: nat, available: nat) -> Seq<char> {
    bucket_label(b) + ": "@ + count_text(quota) + " selected of "@ + count_text(available) + " eligible"@
}

/// The training report's evidence: a line per bucket holding lines.
pub open spec fn quota_lines(plan: CorpusPlan) -> Seq<Seq<char>> {
    used_buckets(plan.bucket_counts).map_values(
        |b: Bucket| quota_line(b, bucket_count(plan.bucket_quotas, b), bucket_count(plan.bucket_counts, b)),
    )
}

/// The training plan's summary; `alpha` is the smoothing exponent as written, `share_percent`
/// the math share as a percentage.
pub open spec fn buckets_summary(plan: CorpusPlan, args: TrainOptions, alpha: Seq<char>, share_percent: Seq<char>) -> Seq<char> {
    count_text(plan.eligible_lines as nat) + " eligible lines across "@ + decimal(crate::train::buckets_used(plan.bucket_counts))
        + " buckets; "@ + count_text(plan.selected_lines as nat) + " selected after alpha="@ + alpha + "; math lines: "@
        + count_text(plan.math_lines as nat) + " ("@ + math_policy_text(args.balance_math, share_percent) + ")"@
}

/// The stream's summary: buffer, line limit, memory budget, and what becomes of the file.
pub open spec fn stream_summary(options: PrepareOptions, keep_training_file: bool) -> Seq<char> {
    "bounded shuffle buffer: "@ + count_text(options.shuffle_buffer_lines as nat) + " lines, max line: "@ + decimal(
        options.max_line_bytes as nat,
    ) + " bytes, Rust memory budget: "@ + decimal(options.memory_budget_bytes as nat) + " bytes; prepared input file is "@
        + (if keep_training_file { "kept after training"@ } else { "deleted after training"@ })
}

/// Append `b`'s line to the evidence.
fn push_quota_line(evidence: &mut Vec<String>, plan: &CorpusPlan, b: Bucket)
    requires
        tally_wf(plan.bucket_counts.text@),
        tally_wf(plan.bucket_quotas.text@),
    ensures
        crate::text::views(final(evidence)@) == crate::text::views(old(evidence)@).push(
            quota_line(b, bucket_count(plan.bucket_quotas, b), bucket_count(plan.bucket_counts, b)),
        ),
{
    let mut line = b.label();
    push_str(&mut line, ": ");
    push_str(&mut line, count(plan.bucket_quotas.get(b)).as_str());
    push_str(&mut line, " selected of ");
    push_str(&mut line, count(plan.bucket_counts.get(b)).as_str());
    push_str(&mut line, " eligible");
    proof {
        crate::text::lemma_views_push(evidence@, line);
    }
    evidence.push(line);
}

/// What the training plan is reported as: how the lines spread over the buckets, and how the
/// stream will hold them.
pub fn training_report(plan: &CorpusPlan, args: &TrainOptions, options: &PrepareOptions, alpha: &str, share_percent: &str) -> (r: Report)
    requires
        tally_wf(plan.bucket_counts.text@),
        tally_wf(plan.bucket_quotas.text@),
        plan.bucket_counts.text@.len() + 2 <= usize::MAX,
    ensures
        r.findings@.len() == 2,
        r.findings@[0].check@ == "training_buckets"@,
        r.findings@[0].status == Status::Passed,
        r.findings@[0].summary@ == buckets_summary(*plan, *args, alpha@, share_percent@),
        crate::text::views(r.findings@[0].evidence@) == truncated_text(quota_lines(*plan)),
        r.findings@[0].severity == crate::report::Severity::Info,
        r.findings@[0].remedy == crate::report::Remedy::NotApplicable,
        r.findings@[0].failure_mode == Some(crate::report::FailureMode(13)),
        crate::report::shows_pass(r.findings@[1], "training_stream"@, stream_summary(*options, args.keep_training_file)),
{
    let mut evidence: Vec<String> = Vec::new();
    let ghost used = used_buckets(plan.bucket_counts);
    let ghost lines = quota_lines(*plan);
    if plan.bucket_counts.math > 0 {
        push_quota_line(&mut evidence, plan, Bucket::Math);
    }
    let ghost head: int = if plan.bucket_counts.math > 0 { 1 } else { 0 };
    let text = &plan.bucket_counts.text;
    let mut k: usize = 0;
    while k < text.len()
        invariant
            0 <= k <= text@.len(),
            text@ == plan.bucket_counts.text@,
            tally_wf(plan.bucket_counts.text@),
            tally_wf(plan.bucket_quotas.text@),
            used == used_buckets(plan.bucket_counts),
            lines == quota_lines(*plan),
            head == (if plan.bucket_counts.math > 0 { 1int } else { 0int }),
            crate::text::views(evidence@) == lines.take(head + k),
        decreases text.len() - k,
    {
        assert(used[head + k] == Bucket::Text(text@[k as int].0));
        push_quota_line(&mut evidence, plan, Bucket::Text(text[k].0));
        k = k + 1;
        assert(lines.take(head + k) =~= lines.take(head + k - 1).push(lines[head + k - 1]));
    }
    if plan.bucket_counts.unclassified > 0 {
        assert(used[head + k] == Bucket::Unclassified);
        push_quota_line(&mut evidence, plan, Bucket::Unclassified);
        assert(lines.take(head + k + 1) =~= lines.take(head + k).push(lines[head + k]));
    }
    assert(crate::text::views(evidence@) =~= lines);
    let mut summary = count(plan.eligible_lines);
    push_str(&mut summary, " eligible lines across ");
    push_str(&mut summary, decimal_string(plan.bucket_counts.len() as u64).as_str());
    push_str(&mut summary, " buckets; ");
    push_str(&mut summary, count(plan.selected_lines).as_str());
    push_str(&mut summary, " selected after alpha=");
    push_str(&mut summary, alpha);
    push_str(&mut summary, "; math lines: ");
    push_str(&mut summary, count(plan.math_lines).as_str());
    push_str(&mut summary, " (");
    push_str(&mut summary, math_policy_summary(args, share_percent).as_str());
    push_str(&mut summary, ")");
    let ghost ev = evidence@;
    let buckets = Finding::passed("training_buckets", summary.as_str()).with_evidence(evidence).about(13);
    proof {
        lemma_truncated_views(ev);
    }
    let mut stream = owned("bounded shuffle buffer: ");
    push_str(&mut stream, count(options.shuffle_buffer_lines as u64).as_str());
    push_str(&mut stream, " lines, max line: ");
    push_str(&mut stream, decimal_string(options.max_line_bytes as u64).as_str());
    push_str(&mut stream, " bytes, Rust memory budget: ");
    push_str(&mut stream, decimal_string(options.memory_budget_bytes).as_str());
    push_str(&mut stream, " bytes; prepared input file is ");
    push_str(&mut stream, training_file_policy(args.keep_training_file));
    let stream_finding = Finding::passed("training_stream", stream.as_str());
    Report::new(vec![buckets, stream_finding])
}

/// The first `MAX_EVIDENCE` texts, as a finding keeps them.
pub open spec fn truncated_text(lines: Seq<Seq<char>>) -> Seq<Seq<char>> {
    if lines.len() <= crate::report::MAX_EVIDENCE {
        lines
    } else {
        lines.take(crate::report::MAX_EVIDENCE as int)
    }
}

proof fn lemma_truncated_views(v: Seq<String>)
    ensures
        crate::text::views(truncated(v)) == truncated_text(crate::text::views(v)),
{
    if v.len() > crate::report::MAX_EVIDENCE {
        assert(crate::text::views(v.take(crate::report::MAX_EVIDENCE as int)) =~= crate::text::views(v).take(crate::report::MAX_EVIDENCE as int));
    }
}

/// What a training run left on disk: the model, the vocabulary, and the prepared corpus when it
/// was kept.
#[derive(Debug, Clone)]
pub struct TrainingArtifacts {
    pub model_path: String,
    pub vocab_path: String,
    pub training_input: Option<String>,
}

/// The lines naming what a training run left on disk.
pub open spec fn artifact_lines(a: TrainingArtifacts) -> Seq<Seq<char>> {
    let named = seq!["model: "@ + a.model_path@, "vocab: "@ + a.vocab_path@];
    match a.training_input {
        Some(path) => named.push("prepared corpus: "@ + path@),
        None => named,
    }
}

/// `label` followed by `path`.
fn labelled(label: &str, path: &str) -> (r: String)
    ensures
        r@ == label@ + path@,
{
    let mut out = owned(label);
    push_str(&mut out, path);
    out
}

/// A passing finding naming what the trainer wrote.
pub fn training_artifact_report(artifacts: &TrainingArtifacts) -> (r: Finding)
    ensures
        crate::report::shows(
            r,
            "tokenizer_artifacts"@,
            Status::Passed,
            "SentencePiece wrote tokenizer artifacts"@,
            artifact_lines(*artifacts),
            crate::report::Severity::Info,
            crate::report::Remedy::NotApplicable,
        ),
{
    let mut evidence: Vec<String> = Vec::new();
    evidence.push(labelled("model: ", artifacts.model_path.as_str()));
    evidence.push(labelled("vocab: ", artifacts.vocab_path.as_str()));
    match &artifacts.training_input {
        Some(path) => evidence.push(labelled("prepared corpus: ", path.as_str())),
        None => {},
    }
    let ghost ev = evidence@;
    assert(crate::text::views(ev) =~= artifact_lines(*artifacts));
    let r = Finding::passed("tokenizer_artifacts", "SentencePiece wrote tokenizer artifacts").with_evidence(evidence);
    assert(r.evidence@ == ev);
    assert forall|i: int| 0 <= i < artifact_lines(*artifacts).len() implies #[trigger] r.evidence@[i]@ == artifact_lines(*artifacts)[i] by {
        assert(crate::text::views(ev)[i] == ev[i]@);
    }
    r
}

} // verus!
