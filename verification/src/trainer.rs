//! What is handed to the SentencePiece trainer and what comes back: where its files go, the
//! request it replays, and what it printed.
//!
//! The request is written as JSON beside the run's other outputs, so a training can be
//! replayed without the rest of the pipeline.

use vstd::prelude::*;

use crate::balance::BalanceSummary;
use crate::config::{copy_strings, EffectiveConfig, ModelType, NormalizationRuleName, SentencePieceConfig};
use crate::corpus::DiscoveredCorpus;
use crate::repair::RepairSummary;
use crate::text::{decimal, decimal_string, owned, push_str};

verus! {

/// The request file's name, inside the work directory.
pub const TRAINER_REQUEST_NAME: &'static str = "trainer_request.json";

/// The file the trainer's outcome is written to, inside the work directory.
pub const TRAINER_OUTPUT_NAME: &'static str = "trainer_output.json";

/// `part` joined onto `base` as a path, replacing it when `part` is absolute.
pub uninterp spec fn path_joined(base: Seq<char>, part: Seq<char>) -> Seq<char>;

/// `std::path::Path::join`.
#[verifier::external_body]
fn join_path(base: &str, part: &str) -> (r: String)
    ensures
        r@ == path_joined(base@, part@),
{
    std::path::Path::new(base).join(part).to_string_lossy().into_owned()
}

/// `path` with its extension set to `extension`, replacing the one it has.
pub uninterp spec fn path_with_extension(path: Seq<char>, extension: Seq<char>) -> Seq<char>;

/// `std::path::PathBuf::set_extension`, which panics on an extension holding a path separator;
/// such an extension is left out here, `/` and the Windows separator `\\` alike.
#[verifier::external_body]
fn with_extension(path: &str, extension: &str) -> (r: String)
    requires
        !extension@.contains('/'),
        !extension@.contains('\\'),
    ensures
        r@ == path_with_extension(path@, extension@),
{
    let mut path = std::path::PathBuf::from(path);
    path.set_extension(extension);
    path.to_string_lossy().into_owned()
}

/// What the trainer is asked to do, and where its outputs are to go.
#[derive(Debug, Clone)]
pub struct TrainerRequest {
    pub sentencepiece: SentencePieceArgs,
    pub output: TrainerOutputPaths,
}

/// The trainer's arguments. The character coverage is held as the bits of an IEEE-754 double.
#[derive(Debug, Clone)]
pub struct SentencePieceArgs {
    pub input: Vec<String>,
    pub model_prefix: String,
    pub model_type: String,
    pub vocab_size: u32,
    pub character_coverage_bits: u64,
    pub byte_fallback: bool,
    pub normalization_rule_name: String,
    pub add_dummy_prefix: bool,
    pub remove_extra_whitespaces: bool,
    pub split_by_unicode_script: bool,
    pub split_by_whitespace: bool,
    pub split_digits: bool,
    pub max_sentencepiece_length: u32,
    pub max_sentence_length: u32,
    pub input_sentence_size: u64,
    pub shuffle_input_sentence: bool,
    pub train_extremely_large_corpus: bool,
    pub user_defined_symbols: Vec<String>,
    pub num_threads: u32,
}

/// Where the trainer writes the model, the vocabulary and its outcome.
#[derive(Debug, Clone, PartialEq, Eq)]
pub struct TrainerOutputPaths {
    pub model: String,
    pub vocab: String,
    pub trainer_output: String,
}

/// How a training ended, what it wrote and what it printed.
#[derive(Debug, Clone, PartialEq, Eq)]
pub struct TrainerOutput {
    pub status: TrainerStatus,
    pub model: String,
    pub vocab: String,
    pub stdout: Vec<String>,
    pub stderr: Vec<String>,
    pub elapsed_ms: u128,
}

#[derive(Debug, Clone, Copy, PartialEq, Eq, Structural)]
pub enum TrainerStatus {
    Succeeded,
    Failed,
}

/// Why a training did not produce a model. The operating system's own message stands in for
/// each I/O error.
#[derive(Debug, Clone, PartialEq, Eq)]
pub enum TrainerError {
    CreateDir { path: String, source: String },
    Write { path: String, source: String },
    Spawn { program: String, source: String },
    Wait { program: String, source: String },
    Stop { program: String, source: String },
    Failed { status: String },
    Interrupted,
}

/// The text of a trainer error.
pub open spec fn trainer_error_text(e: TrainerError) -> Seq<char> {
    match e {
        TrainerError::CreateDir { path, source } => "failed to create directory "@ + path@ + ": "@ + source@,
        TrainerError::Write { path, source } => "failed to write "@ + path@ + ": "@ + source@,
        TrainerError::Spawn { program, source } => "failed to spawn trainer `"@ + program@ + "`: "@ + source@,
        TrainerError::Wait { program, source } => "failed to wait for trainer `"@ + program@ + "`: "@ + source@,
        TrainerError::Stop { program, source } => "failed to stop trainer `"@ + program@ + "`: "@ + source@,
        TrainerError::Failed { status } => "trainer failed with status "@ + status@,
        TrainerError::Interrupted => "interrupted"@,
    }
}

/// `first` followed by `second` and then `third`.
fn concat3(first: &str, second: &str, third: &str) -> (r: String)
    ensures
        r@ == first@ + second@ + third@,
{
    let mut out = owned(first);
    push_str(&mut out, second);
    push_str(&mut out, third);
    out
}

impl TrainerError {
    pub fn message(&self) -> (r: String)
        ensures
            r@ == trainer_error_text(*self),
    {
        match self {
            TrainerError::CreateDir { path, source } => {
                let mut out = concat3("failed to create directory ", path.as_str(), ": ");
                push_str(&mut out, source.as_str());
                out
            },
            TrainerError::Write { path, source } => {
                let mut out = concat3("failed to write ", path.as_str(), ": ");
                push_str(&mut out, source.as_str());
                out
            },
            TrainerError::Spawn { program, source } => {
                let mut out = concat3("failed to spawn trainer `", program.as_str(), "`: ");
                push_str(&mut out, source.as_str());
                out
            },
            TrainerError::Wait { program, source } => {
                let mut out = concat3("failed to wait for trainer `", program.as_str(), "`: ");
                push_str(&mut out, source.as_str());
                out
            },
            TrainerError::Stop { program, source } => {
                let mut out = concat3("failed to stop trainer `", program.as_str(), "`: ");
                push_str(&mut out, source.as_str());
                out
            },
            TrainerError::Failed { status } => {
                let out = concat3("trainer failed with status ", status.as_str(), "");
                proof {
                    reveal_strlit("");
                    assert(out@ =~= "trainer failed with status "@ + status@);
                }
                out
            },
            TrainerError::Interrupted => owned("interrupted"),
        }
    }
}

/// The files of one training: the request, the outcome, and the model prefix with the model
/// and vocabulary beside it.
#[derive(Debug, Clone, PartialEq, Eq)]
pub struct TrainerPaths {
    pub request: String,
    pub output: String,
    pub model_prefix: String,
    pub model: String,
    pub vocab: String,
}

/// Where a run with this work directory and model prefix puts the trainer's files.
pub open spec fn trainer_paths_for(work_dir: Seq<char>, model_prefix: Seq<char>, p: TrainerPaths) -> bool {
    let prefix = path_joined(work_dir, model_prefix);
    &&& p.request@ == path_joined(work_dir, TRAINER_REQUEST_NAME@)
    &&& p.output@ == path_joined(work_dir, TRAINER_OUTPUT_NAME@)
    &&& p.model_prefix@ == prefix
    &&& p.model@ == path_with_extension(prefix, "model"@)
    &&& p.vocab@ == path_with_extension(prefix, "vocab"@)
}

impl TrainerPaths {
    pub fn from_config(config: &EffectiveConfig) -> (r: Self)
        ensures
            trainer_paths_for(config.output.work_dir@, config.output.model_prefix@, r),
    {
        let work_dir = config.output.work_dir.as_str();
        let model_prefix = join_path(work_dir, config.output.model_prefix.as_str());
        proof {
            reveal_strlit("model");
            reveal_strlit("vocab");
            assert(!"model"@.contains('/') && !"model"@.contains('\\')) by {
                assert("model"@ =~= seq!['m', 'o', 'd', 'e', 'l']);
            }
            assert(!"vocab"@.contains('/') && !"vocab"@.contains('\\')) by {
                assert("vocab"@ =~= seq!['v', 'o', 'c', 'a', 'b']);
            }
        }
        TrainerPaths {
            request: join_path(work_dir, TRAINER_REQUEST_NAME),
            output: join_path(work_dir, TRAINER_OUTPUT_NAME),
            model: with_extension(model_prefix.as_str(), "model"),
            vocab: with_extension(model_prefix.as_str(), "vocab"),
            model_prefix,
        }
    }
}

/// The name the trainer knows a model type by.
pub open spec fn model_type_name(t: ModelType) -> Seq<char> {
    match t {
        ModelType::Bpe => "bpe"@,
    }
}

pub fn model_type(config: &SentencePieceConfig) -> (r: String)
    ensures
        r@ == model_type_name(config.model_type),
{
    match config.model_type {
        ModelType::Bpe => owned("bpe"),
    }
}

/// The name the trainer knows a normalization rule by.
pub open spec fn rule_name(n: NormalizationRuleName) -> Seq<char> {
    match n {
        NormalizationRuleName::Identity => "identity"@,
    }
}

pub fn normalization_rule_name(config: &SentencePieceConfig) -> (r: String)
    ensures
        r@ == rule_name(config.normalization_rule_name),
{
    match config.normalization_rule_name {
        NormalizationRuleName::Identity => owned("identity"),
    }
}

/// The trainer's arguments for this configuration, these corpus files and these paths.
pub open spec fn args_for(a: SentencePieceArgs, config: EffectiveConfig, corpus_paths: Seq<String>, paths: TrainerPaths) -> bool {
    let s = config.sentencepiece;
    &&& a.input@ == corpus_paths
    &&& a.model_prefix == paths.model_prefix
    &&& a.model_type@ == model_type_name(s.model_type)
    &&& a.vocab_size == s.vocab_size
    &&& a.character_coverage_bits == s.character_coverage_bits
    &&& a.byte_fallback == s.byte_fallback
    &&& a.normalization_rule_name@ == rule_name(s.normalization_rule_name)
    &&& a.add_dummy_prefix == s.add_dummy_prefix
    &&& a.remove_extra_whitespaces == s.remove_extra_whitespaces
    &&& a.split_by_unicode_script == s.split_by_unicode_script
    &&& a.split_by_whitespace == s.split_by_whitespace
    &&& a.split_digits == s.split_digits
    &&& a.max_sentencepiece_length == s.max_sentencepiece_length
    &&& a.max_sentence_length == s.max_sentence_length
    &&& a.input_sentence_size == s.input_sentence_size
    &&& a.shuffle_input_sentence == s.shuffle_input_sentence
    &&& a.train_extremely_large_corpus == s.train_extremely_large_corpus
    &&& a.user_defined_symbols@ == s.user_defined_symbols@
    &&& a.num_threads == config.num_threads
}

impl SentencePieceArgs {
    pub fn from_config(config: &EffectiveConfig, corpus_paths: &Vec<String>, paths: &TrainerPaths) -> (r: Self)
        ensures
            args_for(r, *config, corpus_paths@, *paths),
    {
        let s = &config.sentencepiece;
        SentencePieceArgs {
            input: copy_strings(corpus_paths),
            model_prefix: paths.model_prefix.clone(),
            model_type: model_type(s),
            vocab_size: s.vocab_size,
            character_coverage_bits: s.character_coverage_bits,
            byte_fallback: s.byte_fallback,
            normalization_rule_name: normalization_rule_name(s),
            add_dummy_prefix: s.add_dummy_prefix,
            remove_extra_whitespaces: s.remove_extra_whitespaces,
            split_by_unicode_script: s.split_by_unicode_script,
            split_by_whitespace: s.split_by_whitespace,
            split_digits: s.split_digits,
            max_sentencepiece_length: s.max_sentencepiece_length,
            max_sentence_length: s.max_sentence_length,
            input_sentence_size: s.input_sentence_size,
            shuffle_input_sentence: s.shuffle_input_sentence,
            train_extremely_large_corpus: s.train_extremely_large_corpus,
            user_defined_symbols: copy_strings(&s.user_defined_symbols),
            num_threads: config.num_threads,
        }
    }
}

/// The request that replays a training: the arguments, and the model, vocabulary and outcome
/// files named by `paths`.
pub fn build_trainer_request(config: &EffectiveConfig, corpus_paths: &Vec<String>, paths: &TrainerPaths) -> (r: TrainerRequest)
    ensures
        args_for(r.sentencepiece, *config, corpus_paths@, *paths),
        r.output.model == paths.model,
        r.output.vocab == paths.vocab,
        r.output.trainer_output == paths.output,
{
    TrainerRequest {
        sentencepiece: SentencePieceArgs::from_config(config, corpus_paths, paths),
        output: TrainerOutputPaths {
            model: paths.model.clone(),
            vocab: paths.vocab.clone(),
            trainer_output: paths.output.clone(),
        },
    }
}

/// Which stream of the trainer a line came from.
#[derive(Debug, Clone, Copy, PartialEq, Eq, Structural)]
pub enum StreamName {
    Stdout,
    Stderr,
}

/// The lines the trainer has printed so far, by stream.
#[derive(Debug, Clone, Default)]
pub struct CapturedOutput {
    pub stdout: Vec<String>,
    pub stderr: Vec<String>,
}

/// The status shown beside the elapsed time: the latest line on standard error, else the
/// latest on standard output, after a dash; nothing while the trainer has printed nothing.
pub open spec fn latest_status_text(stdout: Seq<String>, stderr: Seq<String>) -> Seq<char> {
    if stderr.len() > 0 {
        " - "@ + stderr.last()@
    } else if stdout.len() > 0 {
        " - "@ + stdout.last()@
    } else {
        Seq::empty()
    }
}

impl CapturedOutput {
    /// Add a line to the stream it came from.
    pub fn push(&mut self, stream: StreamName, line: String)
        ensures
            stream == StreamName::Stdout ==> final(self).stdout@ == old(self).stdout@.push(line)
                && final(self).stderr@ == old(self).stderr@,
            stream == StreamName::Stderr ==> final(self).stderr@ == old(self).stderr@.push(line)
                && final(self).stdout@ == old(self).stdout@,
    {
        match stream {
            StreamName::Stdout => self.stdout.push(line),
            StreamName::Stderr => self.stderr.push(line),
        }
    }

    pub fn latest_status(&self) -> (r: String)
        ensures
            r@ == latest_status_text(self.stdout@, self.stderr@),
    {
        proof {
            reveal_strlit("");
        }
        let n = self.stderr.len();
        if n > 0 {
            let out = concat3(" - ", self.stderr[n - 1].as_str(), "");
            assert(out@ =~= " - "@ + self.stderr@.last()@);
            return out;
        }
        let m = self.stdout.len();
        if m > 0 {
            let out = concat3(" - ", self.stdout[m - 1].as_str(), "");
            assert(out@ =~= " - "@ + self.stdout@.last()@);
            return out;
        }
        owned("")
    }
}

/// What a whole run produced, as it is reported at the end.
#[derive(Debug, Clone, PartialEq, Eq)]
pub struct TrainSummary {
    pub preset: String,
    pub corpus_path: String,
    pub text_files: usize,
    pub fixed_corpus: String,
    pub issue_log: String,
    pub lines_read: u64,
    pub lines_written: u64,
    pub lines_fixed: u64,
    pub lines_skipped: u64,
    pub source_issues: usize,
    pub balanced_lines: u64,
    pub balance_report: String,
    pub model: String,
    pub vocab: String,
    pub trainer_output: String,
    pub work_dir: String,
    pub model_prefix: String,
}

/// The summary of a run with these stages' outputs.
pub open spec fn summary_of(
    s: TrainSummary,
    config: EffectiveConfig,
    corpus: DiscoveredCorpus,
    repair: RepairSummary,
    balance: BalanceSummary,
    trainer: TrainerOutput,
) -> bool {
    &&& s.preset == config.preset
    &&& s.corpus_path == corpus.root
    &&& s.text_files == corpus.files@.len()
    &&& s.fixed_corpus == repair.fixed_corpus
    &&& s.issue_log == repair.issue_log
    &&& s.lines_read == repair.lines_read
    &&& s.lines_written == repair.lines_written
    &&& s.lines_fixed == repair.lines_fixed
    &&& s.lines_skipped == repair.lines_skipped
    &&& s.source_issues == repair.source_issues
    &&& s.balanced_lines == balance.output_lines
    &&& s.balance_report == balance.report
    &&& s.model == trainer.model
    &&& s.vocab == trainer.vocab
    &&& s.trainer_output@ == path_joined(config.output.work_dir@, TRAINER_OUTPUT_NAME@)
    &&& s.work_dir == config.output.work_dir
    &&& s.model_prefix == config.output.model_prefix
}

/// The closing line of a run, as shown on a terminal.
pub open spec fn summary_text(s: TrainSummary) -> Seq<char> {
    "Trained: preset `"@ + s.preset@ + "`, "@ + decimal(s.text_files as nat) + " text file(s), "@ + decimal(
        s.lines_written as nat,
    ) + " repaired line(s), "@ + decimal(s.balanced_lines as nat) + " balanced line(s), "@ + decimal(s.lines_fixed as nat)
        + " fixed, "@ + decimal(s.lines_skipped as nat) + " skipped"@ + (if s.source_issues == 0 {
        Seq::empty()
    } else {
        ", "@ + decimal(s.source_issues as nat) + " source issue(s) logged"@
    }) + ", model `"@ + s.model@ + "`"@
}

impl TrainSummary {
    pub fn from_outputs(
        config: &EffectiveConfig,
        corpus: &DiscoveredCorpus,
        repair: &RepairSummary,
        balance: &BalanceSummary,
        trainer: &TrainerOutput,
    ) -> (r: Self)
        ensures
            summary_of(r, *config, *corpus, *repair, *balance, *trainer),
    {
        TrainSummary {
            preset: config.preset.clone(),
            corpus_path: corpus.root.clone(),
            text_files: corpus.files.len(),
            fixed_corpus: repair.fixed_corpus.clone(),
            issue_log: repair.issue_log.clone(),
            lines_read: repair.lines_read,
            lines_written: repair.lines_written,
            lines_fixed: repair.lines_fixed,
            lines_skipped: repair.lines_skipped,
            source_issues: repair.source_issues,
            balanced_lines: balance.output_lines,
            balance_report: balance.report.clone(),
            model: trainer.model.clone(),
            vocab: trainer.vocab.clone(),
            trainer_output: join_path(config.output.work_dir.as_str(), TRAINER_OUTPUT_NAME),
            work_dir: config.output.work_dir.clone(),
            model_prefix: config.output.model_prefix.clone(),
        }
    }

    /// The closing line of a run.
    pub fn text(&self) -> (r: String)
        ensures
            r@ == summary_text(*self),
    {
        let mut out = owned("Trained: preset `");
        push_str(&mut out, self.preset.as_str());
        push_str(&mut out, "`, ");
        push_str(&mut out, decimal_string(self.text_files as u64).as_str());
        push_str(&mut out, " text file(s), ");
        push_str(&mut out, decimal_string(self.lines_written).as_str());
        push_str(&mut out, " repaired line(s), ");
        push_str(&mut out, decimal_string(self.balanced_lines).as_str());
        push_str(&mut out, " balanced line(s), ");
        push_str(&mut out, decimal_string(self.lines_fixed).as_str());
        push_str(&mut out, " fixed, ");
        push_str(&mut out, decimal_string(self.lines_skipped).as_str());
        push_str(&mut out, " skipped");
        let ghost before = out@;
        if self.source_issues > 0 {
            push_str(&mut out, ", ");
            push_str(&mut out, decimal_string(self.source_issues as u64).as_str());
            push_str(&mut out, " source issue(s) logged");
        } else {
            assert(before + Seq::<char>::empty() =~= before);
        }
        push_str(&mut out, ", model `");
        push_str(&mut out, self.model.as_str());
        push_str(&mut out, "`");
        out
    }
}

/// What a finished trainer run comes to: the record of its run, written whatever the outcome,
/// and the error that fails the run when the trainer did not exit successfully (`status` is how
/// its exit status reads).
pub fn finished_run(
    success: bool,
    status: String,
    paths: &TrainerPaths,
    captured: CapturedOutput,
    elapsed_ms: u128,
) -> (r: (TrainerOutput, Option<TrainerError>))
    ensures
        r.0.status == (if success { TrainerStatus::Succeeded } else { TrainerStatus::Failed }),
        r.0.model@ == paths.model@,
        r.0.vocab@ == paths.vocab@,
        r.0.stdout == captured.stdout,
        r.0.stderr == captured.stderr,
        r.0.elapsed_ms == elapsed_ms,
        success ==> r.1 is None,
        !success ==> (r.1 matches Some(TrainerError::Failed { status: s }) && s@ == status@),
{
    let output = TrainerOutput {
        status: if success { TrainerStatus::Succeeded } else { TrainerStatus::Failed },
        model: owned(paths.model.as_str()),
        vocab: owned(paths.vocab.as_str()),
        stdout: captured.stdout,
        stderr: captured.stderr,
        elapsed_ms,
    };
    if success {
        (output, None)
    } else {
        (output, Some(TrainerError::Failed { status }))
    }
}

} // verus!
