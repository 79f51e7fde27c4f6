//! The configuration of a preparation run: a preset from a catalog, with the run's own settings
//! laid over it.
//!
//! Every section comes in two shapes. The partial shape is what a preset or a config file
//! writes, where any setting may be left out; layers of it are merged, later over earlier, and
//! the result is then required to be complete. Paths are held as text.

use vstd::prelude::*;

use crate::text::{decimal, owned, push_str};

verus! {

/// Why a configuration could not be resolved.
#[derive(Debug)]
pub enum ConfigError {
    /// A file could not be read; `detail` is what the system said.
    Read { path: String, detail: String },
    /// A file could not be parsed; `json_path` locates the offending value.
    Parse { path: String, json_path: String, detail: String },
    /// No preset has this name.
    UnknownPreset(String),
    /// Following `extends` from this preset comes back to it.
    PresetCycle(String),
    /// A setting was still missing once every layer was merged.
    MissingPresetField(&'static str),
    /// A setting is present but unusable.
    InvalidPresetField { field: &'static str, reason: &'static str },
}

impl ConfigError {
    /// What the operator is told.
    pub fn message(&self) -> (r: String)
        ensures
            r@ == match *self {
                ConfigError::Read { path, detail } => "failed to read "@ + path@ + ": "@ + detail@,
                ConfigError::Parse { path, json_path, detail } => "failed to parse "@ + path@
                    + " at "@ + json_path@ + ": "@ + detail@,
                ConfigError::UnknownPreset(name) => "preset `"@ + name@ + "` was not found"@,
                ConfigError::PresetCycle(name) => "preset inheritance cycle includes `"@ + name@
                    + "`"@,
                ConfigError::MissingPresetField(field) => "missing required preset field `"@
                    + field@ + "` after expansion"@,
                ConfigError::InvalidPresetField { field, reason } => "invalid preset field `"@
                    + field@ + "`: "@ + reason@,
            },
    {
        match self {
            ConfigError::Read { path, detail } => {
                let mut r = owned("failed to read ");
                push_str(&mut r, path.as_str());
                push_str(&mut r, ": ");
                push_str(&mut r, detail.as_str());
                r
            },
            ConfigError::Parse { path, json_path, detail } => {
                let mut r = owned("failed to parse ");
                push_str(&mut r, path.as_str());
                push_str(&mut r, " at ");
                push_str(&mut r, json_path.as_str());
                push_str(&mut r, ": ");
                push_str(&mut r, detail.as_str());
                r
            },
            ConfigError::UnknownPreset(name) => {
                let mut r = owned("preset `");
                push_str(&mut r, name.as_str());
                push_str(&mut r, "` was not found");
                r
            },
            ConfigError::PresetCycle(name) => {
                let mut r = owned("preset inheritance cycle includes `");
                push_str(&mut r, name.as_str());
                push_str(&mut r, "`");
                r
            },
            ConfigError::MissingPresetField(field) => {
                let mut r = owned("missing required preset field `");
                push_str(&mut r, field);
                push_str(&mut r, "` after expansion");
                r
            },
            ConfigError::InvalidPresetField { field, reason } => {
                let mut r = owned("invalid preset field `");
                push_str(&mut r, field);
                push_str(&mut r, "`: ");
                push_str(&mut r, reason);
                r
            },
        }
    }
}

/// Where the raw corpus lives.
#[derive(Debug, Clone)]
pub struct CorpusConfig {
    pub path: String,
}

/// Where a run writes, and what the model files are called.
#[derive(Debug, Clone)]
pub struct OutputConfig {
    pub work_dir: String,
    pub model_prefix: String,
}

#[derive(Debug, Clone, Copy, PartialEq, Eq, Structural)]
pub enum UnicodeForm {
    Nfc,
}

#[derive(Debug, Clone, Copy, PartialEq, Eq, Structural)]
pub enum StripRule {
    Bom,
    ZeroWidthSpace,
}

#[derive(Debug, Clone, Copy, PartialEq, Eq, Structural)]
pub enum SoftHyphenPolicy {
    LineFinalToHyphenMidlineStrip,
}

#[derive(Debug, Clone, Copy, PartialEq, Eq, Structural)]
pub enum BalancingMode {
    Conservative,
}

#[derive(Debug, Clone, Copy, PartialEq, Eq, Structural)]
pub enum BalanceAxis {
    Domain,
    Script,
    LanguageHint,
    SourceGroup,
    LengthBin,
}

#[derive(Debug, Clone, Copy, PartialEq, Eq, Structural)]
pub enum TrainerKind {
    PythonSentencepiece,
}

/// How the Python trainer is started.
#[derive(Debug, Clone)]
pub struct PythonTrainerConfig {
    pub runner: String,
    pub args: Vec<String>,
    pub module: String,
}

#[derive(Debug, Clone, Copy, PartialEq, Eq, Structural)]
pub enum ModelType {
    Bpe,
}

#[derive(Debug, Clone, Copy, PartialEq, Eq, Structural)]
pub enum NormalizationRuleName {
    Identity,
}

#[derive(Debug, Clone, Copy, PartialEq, Eq, Structural)]
pub enum ValidationMode {
    Report,
}

#[derive(Debug, Clone, Copy, PartialEq, Eq, Structural)]
pub enum LinePolicy {
    FixOrSkip,
}

/// `top` where it has a value, `base` otherwise.
pub open spec fn overlay<T>(base: Option<T>, top: Option<T>) -> Option<T> {
    if top is Some {
        top
    } else {
        base
    }
}

/// The contents of an optional list.
pub open spec fn opt_seq<T>(o: Option<Vec<T>>) -> Option<Seq<T>> {
    match o {
        Some(v) => Some(v@),
        None => None,
    }
}

/// What a trainer launch says, compared by contents.
pub open spec fn python_view(p: PythonTrainerConfig) -> (String, Seq<String>, String) {
    (p.runner, p.args@, p.module)
}

pub open spec fn opt_python(o: Option<PythonTrainerConfig>) -> Option<(String, Seq<String>, String)> {
    match o {
        Some(p) => Some(python_view(p)),
        None => None,
    }
}

/// Replace `target` with `value` when there is one.
pub fn replace_if_some<T>(target: &mut Option<T>, value: Option<T>)
    ensures
        *final(target) == overlay(*old(target), value),
{
    if value.is_some() {
        *target = value;
    }
}

/// The value, or the error naming the setting that is missing.
pub fn require_field<T>(value: Option<T>, field: &'static str) -> (r: Result<T, ConfigError>)
    ensures
        r is Ok <==> value is Some,
        r matches Ok(v) ==> value == Some(v),
        r matches Err(e) ==> e matches ConfigError::MissingPresetField(f) && f == field,
{
    match value {
        Some(v) => Ok(v),
        None => Err(ConfigError::MissingPresetField(field)),
    }
}

/// The thread count, which must be present and above zero.
pub fn require_positive_threads(value: Option<u32>) -> (r: Result<u32, ConfigError>)
    ensures
        r is Ok <==> (value matches Some(n) && n > 0),
        r matches Ok(n) ==> value == Some(n),
        r matches Err(e) ==> match value {
            None => e matches ConfigError::MissingPresetField(f) && f@ == "num_threads"@,
            Some(_) => e matches ConfigError::InvalidPresetField { field, reason } && field@
                == "num_threads"@ && reason@ == "must be greater than zero"@,
        },
{
    let num_threads = require_field(value, "num_threads")?;
    if num_threads == 0 {
        return Err(ConfigError::InvalidPresetField { field: "num_threads", reason: "must be greater than zero" });
    }
    Ok(num_threads)
}

fn copy_string(s: &Option<String>) -> (r: Option<String>)
    ensures
        r == *s,
{
    match s {
        Some(t) => Some(t.clone()),
        None => None,
    }
}

fn copy_vec<T: Copy>(v: &Option<Vec<T>>) -> (r: Option<Vec<T>>)
    ensures
        opt_seq(r) == opt_seq(*v),
{
    match v {
        Some(items) => {
            let mut out: Vec<T> = Vec::new();
            let mut i: usize = 0;
            while i < items.len()
                invariant
                    0 <= i <= items@.len(),
                    out@ == items@.take(i as int),
                decreases items.len() - i,
            {
                out.push(items[i]);
                proof {
                    assert(items@.take(i + 1) == items@.take(i as int).push(items@[i as int]));
                }
                i = i + 1;
            }
            assert(items@.take(i as int) == items@);
            Some(out)
        },
        None => None,
    }
}

pub(crate) fn copy_strings(items: &Vec<String>) -> (r: Vec<String>)
    ensures
        r@ == items@,
{
    let mut out: Vec<String> = Vec::new();
    let mut i: usize = 0;
    while i < items.len()
        invariant
            0 <= i <= items@.len(),
            out@ == items@.take(i as int),
        decreases items.len() - i,
    {
        out.push(items[i].clone());
        proof {
            assert(items@.take(i + 1) == items@.take(i as int).push(items@[i as int]));
        }
        i = i + 1;
    }
    assert(items@.take(i as int) == items@);
    out
}

fn copy_string_list(v: &Option<Vec<String>>) -> (r: Option<Vec<String>>)
    ensures
        opt_seq(r) == opt_seq(*v),
{
    match v {
        Some(items) => Some(copy_strings(items)),
        None => None,
    }
}

fn copy_python(p: &Option<PythonTrainerConfig>) -> (r: Option<PythonTrainerConfig>)
    ensures
        opt_python(r) == opt_python(*p),
{
    match p {
        Some(c) => Some(PythonTrainerConfig { runner: c.runner.clone(), args: copy_strings(&c.args), module: c.module.clone() }),
        None => None,
    }
}

/// How each line is rewritten before training.
#[derive(Debug, Clone)]
pub struct CanonicalizationConfig {
    pub unicode_form: UnicodeForm,
    pub strip: Vec<StripRule>,
    pub map_nbsp_to_space: bool,
    pub fold_arabic_presentation_forms: bool,
    pub soft_hyphen: SoftHyphenPolicy,
    pub preserve_zwj_zwnj: bool,
    pub preserve_compatibility_chars: bool,
}

/// A layer of [`CanonicalizationConfig`] in which any setting may be left out.
#[derive(Debug, Clone)]
pub struct PartialCanonicalizationConfig {
    pub unicode_form: Option<UnicodeForm>,
    pub strip: Option<Vec<StripRule>>,
    pub map_nbsp_to_space: Option<bool>,
    pub fold_arabic_presentation_forms: Option<bool>,
    pub soft_hyphen: Option<SoftHyphenPolicy>,
    pub preserve_zwj_zwnj: Option<bool>,
    pub preserve_compatibility_chars: Option<bool>,
}

impl Default for PartialCanonicalizationConfig {
    fn default() -> (r: Self)
        ensures
            r.unicode_form is None,
            r.strip is None,
            r.map_nbsp_to_space is None,
            r.fold_arabic_presentation_forms is None,
            r.soft_hyphen is None,
            r.preserve_zwj_zwnj is None,
            r.preserve_compatibility_chars is None,
    {
        PartialCanonicalizationConfig { unicode_form: None, strip: None, map_nbsp_to_space: None, fold_arabic_presentation_forms: None, soft_hyphen: None, preserve_zwj_zwnj: None, preserve_compatibility_chars: None }
    }
}

/// The first setting a layer of canonicalization settings leaves out, by its dotted name.
pub open spec fn first_missing_canonicalization(p: PartialCanonicalizationConfig) -> Option<Seq<char>> {
    if p.unicode_form is None {
        Some("canonicalization.unicode_form"@)
    } else if p.strip is None {
        Some("canonicalization.strip"@)
    } else if p.map_nbsp_to_space is None {
        Some("canonicalization.map_nbsp_to_space"@)
    } else if p.fold_arabic_presentation_forms is None {
        Some("canonicalization.fold_arabic_presentation_forms"@)
    } else if p.soft_hyphen is None {
        Some("canonicalization.soft_hyphen"@)
    } else if p.preserve_zwj_zwnj is None {
        Some("canonicalization.preserve_zwj_zwnj"@)
    } else if p.preserve_compatibility_chars is None {
        Some("canonicalization.preserve_compatibility_chars"@)
    } else {
        None
    }
}

/// Whether `top` was laid over `base` to give `merged`: each setting `top` has wins.
pub open spec fn overlays_canonicalization(merged: PartialCanonicalizationConfig, base: PartialCanonicalizationConfig, top: PartialCanonicalizationConfig) -> bool {
    &&& merged.unicode_form == overlay(base.unicode_form, top.unicode_form)
    &&& opt_seq(merged.strip) == overlay(opt_seq(base.strip), opt_seq(top.strip))
    &&& merged.map_nbsp_to_space == overlay(base.map_nbsp_to_space, top.map_nbsp_to_space)
    &&& merged.fold_arabic_presentation_forms == overlay(base.fold_arabic_presentation_forms, top.fold_arabic_presentation_forms)
    &&& merged.soft_hyphen == overlay(base.soft_hyphen, top.soft_hyphen)
    &&& merged.preserve_zwj_zwnj == overlay(base.preserve_zwj_zwnj, top.preserve_zwj_zwnj)
    &&& merged.preserve_compatibility_chars == overlay(base.preserve_compatibility_chars, top.preserve_compatibility_chars)
}

impl PartialCanonicalizationConfig {
    /// Lay `other` over this layer: each setting it has replaces this one.
    pub fn merge(&mut self, other: &Self)
        ensures
            overlays_canonicalization(*final(self), *old(self), *other),
    {
        replace_if_some(&mut self.unicode_form, other.unicode_form);
        replace_if_some(&mut self.strip, copy_vec(&other.strip));
        replace_if_some(&mut self.map_nbsp_to_space, other.map_nbsp_to_space);
        replace_if_some(&mut self.fold_arabic_presentation_forms, other.fold_arabic_presentation_forms);
        replace_if_some(&mut self.soft_hyphen, other.soft_hyphen);
        replace_if_some(&mut self.preserve_zwj_zwnj, other.preserve_zwj_zwnj);
        replace_if_some(&mut self.preserve_compatibility_chars, other.preserve_compatibility_chars);
    }

    /// The complete settings, or the first that was left out.
    pub fn require(self) -> (r: Result<CanonicalizationConfig, ConfigError>)
        ensures
            r is Ok <==> first_missing_canonicalization(self) is None,
            r matches Err(e) ==> e matches ConfigError::MissingPresetField(f) && Some(f@) == first_missing_canonicalization(self),
            r matches Ok(c) ==> {
                Some(c.unicode_form) == self.unicode_form
                && Some(c.strip) == self.strip
                && Some(c.map_nbsp_to_space) == self.map_nbsp_to_space
                && Some(c.fold_arabic_presentation_forms) == self.fold_arabic_presentation_forms
                && Some(c.soft_hyphen) == self.soft_hyphen
                && Some(c.preserve_zwj_zwnj) == self.preserve_zwj_zwnj
                && Some(c.preserve_compatibility_chars) == self.preserve_compatibility_chars
            },
    {
        Ok(CanonicalizationConfig {
            unicode_form: require_field(self.unicode_form, "canonicalization.unicode_form")?,
            strip: require_field(self.strip, "canonicalization.strip")?,
            map_nbsp_to_space: require_field(self.map_nbsp_to_space, "canonicalization.map_nbsp_to_space")?,
            fold_arabic_presentation_forms: require_field(self.fold_arabic_presentation_forms, "canonicalization.fold_arabic_presentation_forms")?,
            soft_hyphen: require_field(self.soft_hyphen, "canonicalization.soft_hyphen")?,
            preserve_zwj_zwnj: require_field(self.preserve_zwj_zwnj, "canonicalization.preserve_zwj_zwnj")?,
            preserve_compatibility_chars: require_field(self.preserve_compatibility_chars, "canonicalization.preserve_compatibility_chars")?,
        })
    }
}

/// How the corpus is rebalanced across buckets. Fractional settings are held as the bits of an IEEE-754 double.
#[derive(Debug, Clone)]
pub struct BalancingConfig {
    pub enabled: bool,
    pub mode: BalancingMode,
    pub total_lines: u64,
    pub alpha_bits: u64,
    pub hierarchy: Vec<BalanceAxis>,
    pub min_keep_fraction_bits: u64,
    pub max_downsample_ratio_bits: u64,
    pub collapse_buckets_below_lines: u64,
    pub max_part_lines: u64,
    pub shuffle_seed: u64,
}

/// A layer of [`BalancingConfig`] in which any setting may be left out.
#[derive(Debug, Clone)]
pub struct PartialBalancingConfig {
    pub enabled: Option<bool>,
    pub mode: Option<BalancingMode>,
    pub total_lines: Option<u64>,
    pub alpha_bits: Option<u64>,
    pub hierarchy: Option<Vec<BalanceAxis>>,
    pub min_keep_fraction_bits: Option<u64>,
    pub max_downsample_ratio_bits: Option<u64>,
    pub collapse_buckets_below_lines: Option<u64>,
    pub max_part_lines: Option<u64>,
    pub shuffle_seed: Option<u64>,
}

impl Default for PartialBalancingConfig {
    fn default() -> (r: Self)
        ensures
            r.enabled is None,
            r.mode is None,
            r.total_lines is None,
            r.alpha_bits is None,
            r.hierarchy is None,
            r.min_keep_fraction_bits is None,
            r.max_downsample_ratio_bits is None,
            r.collapse_buckets_below_lines is None,
            r.max_part_lines is None,
            r.shuffle_seed is None,
    {
        PartialBalancingConfig { enabled: None, mode: None, total_lines: None, alpha_bits: None, hierarchy: None, min_keep_fraction_bits: None, max_downsample_ratio_bits: None, collapse_buckets_below_lines: None, max_part_lines: None, shuffle_seed: None }
    }
}

/// The first setting a layer of balancing settings leaves out, by its dotted name.
pub open spec fn first_missing_balancing(p: PartialBalancingConfig) -> Option<Seq<char>> {
    if p.enabled is None {
        Some("balancing.enabled"@)
    } else if p.mode is None {
        Some("balancing.mode"@)
    } else if p.total_lines is None {
        Some("balancing.total_lines"@)
    } else if p.alpha_bits is None {
        Some("balancing.alpha"@)
    } else if p.hierarchy is None {
        Some("balancing.hierarchy"@)
    } else if p.min_keep_fraction_bits is None {
        Some("balancing.min_keep_fraction"@)
    } else if p.max_downsample_ratio_bits is None {
        Some("balancing.max_downsample_ratio"@)
    } else if p.collapse_buckets_below_lines is None {
        Some("balancing.collapse_buckets_below_lines"@)
    } else if p.max_part_lines is None {
        Some("balancing.max_part_lines"@)
    } else if p.shuffle_seed is None {
        Some("balancing.shuffle_seed"@)
    } else {
        None
    }
}

/// Whether `top` was laid over `base` to give `merged`: each setting `top` has wins.
pub open spec fn overlays_balancing(merged: PartialBalancingConfig, base: PartialBalancingConfig, top: PartialBalancingConfig) -> bool {
    &&& merged.enabled == overlay(base.enabled, top.enabled)
    &&& merged.mode == overlay(base.mode, top.mode)
    &&& merged.total_lines == overlay(base.total_lines, top.total_lines)
    &&& merged.alpha_bits == overlay(base.alpha_bits, top.alpha_bits)
    &&& opt_seq(merged.hierarchy) == overlay(opt_seq(base.hierarchy), opt_seq(top.hierarchy))
    &&& merged.min_keep_fraction_bits == overlay(base.min_keep_fraction_bits, top.min_keep_fraction_bits)
    &&& merged.max_downsample_ratio_bits == overlay(base.max_downsample_ratio_bits, top.max_downsample_ratio_bits)
    &&& merged.collapse_buckets_below_lines == overlay(base.collapse_buckets_below_lines, top.collapse_buckets_below_lines)
    &&& merged.max_part_lines == overlay(base.max_part_lines, top.max_part_lines)
    &&& merged.shuffle_seed == overlay(base.shuffle_seed, top.shuffle_seed)
}

impl PartialBalancingConfig {
    /// Lay `other` over this layer: each setting it has replaces this one.
    pub fn merge(&mut self, other: &Self)
        ensures
            overlays_balancing(*final(self), *old(self), *other),
    {
        replace_if_some(&mut self.enabled, other.enabled);
        replace_if_some(&mut self.mode, other.mode);
        replace_if_some(&mut self.total_lines, other.total_lines);
        replace_if_some(&mut self.alpha_bits, other.alpha_bits);
        replace_if_some(&mut self.hierarchy, copy_vec(&other.hierarchy));
        replace_if_some(&mut self.min_keep_fraction_bits, other.min_keep_fraction_bits);
        replace_if_some(&mut self.max_downsample_ratio_bits, other.max_downsample_ratio_bits);
        replace_if_some(&mut self.collapse_buckets_below_lines, other.collapse_buckets_below_lines);
        replace_if_some(&mut self.max_part_lines, other.max_part_lines);
        replace_if_some(&mut self.shuffle_seed, other.shuffle_seed);
    }

    /// The complete settings, or the first that was left out.
    pub fn require(self) -> (r: Result<BalancingConfig, ConfigError>)
        ensures
            r is Ok <==> first_missing_balancing(self) is None,
            r matches Err(e) ==> e matches ConfigError::MissingPresetField(f) && Some(f@) == first_missing_balancing(self),
            r matches Ok(c) ==> {
                Some(c.enabled) == self.enabled
                && Some(c.mode) == self.mode
                && Some(c.total_lines) == self.total_lines
                && Some(c.alpha_bits) == self.alpha_bits
                && Some(c.hierarchy) == self.hierarchy
                && Some(c.min_keep_fraction_bits) == self.min_keep_fraction_bits
                && Some(c.max_downsample_ratio_bits) == self.max_downsample_ratio_bits
                && Some(c.collapse_buckets_below_lines) == self.collapse_buckets_below_lines
                && Some(c.max_part_lines) == self.max_part_lines
                && Some(c.shuffle_seed) == self.shuffle_seed
            },
    {
        Ok(BalancingConfig {
            enabled: require_field(self.enabled, "balancing.enabled")?,
            mode: require_field(self.mode, "balancing.mode")?,
            total_lines: require_field(self.total_lines, "balancing.total_lines")?,
            alpha_bits: require_field(self.alpha_bits, "balancing.alpha")?,
            hierarchy: require_field(self.hierarchy, "balancing.hierarchy")?,
            min_keep_fraction_bits: require_field(self.min_keep_fraction_bits, "balancing.min_keep_fraction")?,
            max_downsample_ratio_bits: require_field(self.max_downsample_ratio_bits, "balancing.max_downsample_ratio")?,
            collapse_buckets_below_lines: require_field(self.collapse_buckets_below_lines, "balancing.collapse_buckets_below_lines")?,
            max_part_lines: require_field(self.max_part_lines, "balancing.max_part_lines")?,
            shuffle_seed: require_field(self.shuffle_seed, "balancing.shuffle_seed")?,
        })
    }
}

/// The trainer and the settings handed to it. The character coverage is held as the bits of an IEEE-754 double.
#[derive(Debug, Clone)]
pub struct SentencePieceConfig {
    pub trainer: TrainerKind,
    pub python: PythonTrainerConfig,
    pub model_type: ModelType,
    pub vocab_size: u32,
    pub character_coverage_bits: u64,
    pub byte_fallback: bool,
    pub normalization_rule_name: NormalizationRuleName,
    pub add_dummy_prefix: bool,
    pub remove_extra_whitespaces: bool,
    pub split_by_unicode_script: bool,
    pub split_by_whitespace: bool,
    pub split_digits: bool,
    pub max_sentencepiece_length: u32,
    pub max_sentence_length: u32,
    pub input_sentence_size: u64,
    pub shuffle_input_sentence: bool,
    pub train_extremely_large_corpus: bool,
    pub user_defined_symbols: Vec<String>,
}

/// A layer of [`SentencePieceConfig`] in which any setting may be left out.
#[derive(Debug, Clone)]
pub struct PartialSentencePieceConfig {
    pub trainer: Option<TrainerKind>,
    pub python: Option<PythonTrainerConfig>,
    pub model_type: Option<ModelType>,
    pub vocab_size: Option<u32>,
    pub character_coverage_bits: Option<u64>,
    pub byte_fallback: Option<bool>,
    pub normalization_rule_name: Option<NormalizationRuleName>,
    pub add_dummy_prefix: Option<bool>,
    pub remove_extra_whitespaces: Option<bool>,
    pub split_by_unicode_script: Option<bool>,
    pub split_by_whitespace: Option<bool>,
    pub split_digits: Option<bool>,
    pub max_sentencepiece_length: Option<u32>,
    pub max_sentence_length: Option<u32>,
    pub input_sentence_size: Option<u64>,
    pub shuffle_input_sentence: Option<bool>,
    pub train_extremely_large_corpus: Option<bool>,
    pub user_defined_symbols: Option<Vec<String>>,
}

impl Default for PartialSentencePieceConfig {
    fn default() -> (r: Self)
        ensures
            r.trainer is None,
            r.python is None,
            r.model_type is None,
            r.vocab_size is None,
            r.character_coverage_bits is None,
            r.byte_fallback is None,
            r.normalization_rule_name is None,
            r.add_dummy_prefix is None,
            r.remove_extra_whitespaces is None,
            r.split_by_unicode_script is None,
            r.split_by_whitespace is None,
            r.split_digits is None,
            r.max_sentencepiece_length is None,
            r.max_sentence_length is None,
            r.input_sentence_size is None,
            r.shuffle_input_sentence is None,
            r.train_extremely_large_corpus is None,
            r.user_defined_symbols is None,
    {
        PartialSentencePieceConfig { trainer: None, python: None, model_type: None, vocab_size: None, character_coverage_bits: None, byte_fallback: None, normalization_rule_name: None, add_dummy_prefix: None, remove_extra_whitespaces: None, split_by_unicode_script: None, split_by_whitespace: None, split_digits: None, max_sentencepiece_length: None, max_sentence_length: None, input_sentence_size: None, shuffle_input_sentence: None, train_extremely_large_corpus: None, user_defined_symbols: None }
    }
}

/// The first setting a layer of sentencepiece settings leaves out, by its dotted name.
pub open spec fn first_missing_sentencepiece(p: PartialSentencePieceConfig) -> Option<Seq<char>> {
    if p.trainer is None {
        Some("sentencepiece.trainer"@)
    } else if p.python is None {
        Some("sentencepiece.python"@)
    } else if p.model_type is None {
        Some("sentencepiece.model_type"@)
    } else if p.vocab_size is None {
        Some("sentencepiece.vocab_size"@)
    } else if p.character_coverage_bits is None {
        Some("sentencepiece.character_coverage"@)
    } else if p.byte_fallback is None {
        Some("sentencepiece.byte_fallback"@)
    } else if p.normalization_rule_name is None {
        Some("sentencepiece.normalization_rule_name"@)
    } else if p.add_dummy_prefix is None {
        Some("sentencepiece.add_dummy_prefix"@)
    } else if p.remove_extra_whitespaces is None {
        Some("sentencepiece.remove_extra_whitespaces"@)
    } else if p.split_by_unicode_script is None {
        Some("sentencepiece.split_by_unicode_script"@)
    } else if p.split_by_whitespace is None {
        Some("sentencepiece.split_by_whitespace"@)
    } else if p.split_digits is None {
        Some("sentencepiece.split_digits"@)
    } else if p.max_sentencepiece_length is None {
        Some("sentencepiece.max_sentencepiece_length"@)
    } else if p.max_sentence_length is None {
        Some("sentencepiece.max_sentence_length"@)
    } else if p.input_sentence_size is None {
        Some("sentencepiece.input_sentence_size"@)
    } else if p.shuffle_input_sentence is None {
        Some("sentencepiece.shuffle_input_sentence"@)
    } else if p.train_extremely_large_corpus is None {
        Some("sentencepiece.train_extremely_large_corpus"@)
    } else if p.user_defined_symbols is None {
        Some("sentencepiece.user_defined_symbols"@)
    } else {
        None
    }
}

/// Whether `top` was laid over `base` to give `merged`: each setting `top` has wins.
pub open spec fn overlays_sentencepiece(merged: PartialSentencePieceConfig, base: PartialSentencePieceConfig, top: PartialSentencePieceConfig) -> bool {
    &&& merged.trainer == overlay(base.trainer, top.trainer)
    &&& opt_python(merged.python) == overlay(opt_python(base.python), opt_python(top.python))
    &&& merged.model_type == overlay(base.model_type, top.model_type)
    &&& merged.vocab_size == overlay(base.vocab_size, top.vocab_size)
    &&& merged.character_coverage_bits == overlay(base.character_coverage_bits, top.character_coverage_bits)
    &&& merged.byte_fallback == overlay(base.byte_fallback, top.byte_fallback)
    &&& merged.normalization_rule_name == overlay(base.normalization_rule_name, top.normalization_rule_name)
    &&& merged.add_dummy_prefix == overlay(base.add_dummy_prefix, top.add_dummy_prefix)
    &&& merged.remove_extra_whitespaces == overlay(base.remove_extra_whitespaces, top.remove_extra_whitespaces)
    &&& merged.split_by_unicode_script == overlay(base.split_by_unicode_script, top.split_by_unicode_script)
    &&& merged.split_by_whitespace == overlay(base.split_by_whitespace, top.split_by_whitespace)
    &&& merged.split_digits == overlay(base.split_digits, top.split_digits)
    &&& merged.max_sentencepiece_length == overlay(base.max_sentencepiece_length, top.max_sentencepiece_length)
    &&& merged.max_sentence_length == overlay(base.max_sentence_length, top.max_sentence_length)
    &&& merged.input_sentence_size == overlay(base.input_sentence_size, top.input_sentence_size)
    &&& merged.shuffle_input_sentence == overlay(base.shuffle_input_sentence, top.shuffle_input_sentence)
    &&& merged.train_extremely_large_corpus == overlay(base.train_extremely_large_corpus, top.train_extremely_large_corpus)
    &&& opt_seq(merged.user_defined_symbols) == overlay(opt_seq(base.user_defined_symbols), opt_seq(top.user_defined_symbols))
}

impl PartialSentencePieceConfig {
    /// Lay `other` over this layer: each setting it has replaces this one.
    pub fn merge(&mut self, other: &Self)
        ensures
            overlays_sentencepiece(*final(self), *old(self), *other),
    {
        replace_if_some(&mut self.trainer, other.trainer);
        replace_if_some(&mut self.python, copy_python(&other.python));
        replace_if_some(&mut self.model_type, other.model_type);
        replace_if_some(&mut self.vocab_size, other.vocab_size);
        replace_if_some(&mut self.character_coverage_bits, other.character_coverage_bits);
        replace_if_some(&mut self.byte_fallback, other.byte_fallback);
        replace_if_some(&mut self.normalization_rule_name, other.normalization_rule_name);
        replace_if_some(&mut self.add_dummy_prefix, other.add_dummy_prefix);
        replace_if_some(&mut self.remove_extra_whitespaces, other.remove_extra_whitespaces);
        replace_if_some(&mut self.split_by_unicode_script, other.split_by_unicode_script);
        replace_if_some(&mut self.split_by_whitespace, other.split_by_whitespace);
        replace_if_some(&mut self.split_digits, other.split_digits);
        replace_if_some(&mut self.max_sentencepiece_length, other.max_sentencepiece_length);
        replace_if_some(&mut self.max_sentence_length, other.max_sentence_length);
        replace_if_some(&mut self.input_sentence_size, other.input_sentence_size);
        replace_if_some(&mut self.shuffle_input_sentence, other.shuffle_input_sentence);
        replace_if_some(&mut self.train_extremely_large_corpus, other.train_extremely_large_corpus);
        replace_if_some(&mut self.user_defined_symbols, copy_string_list(&other.user_defined_symbols));
    }

    /// The complete settings, or the first that was left out.
    pub fn require(self) -> (r: Result<SentencePieceConfig, ConfigError>)
        ensures
            r is Ok <==> first_missing_sentencepiece(self) is None,
            r matches Err(e) ==> e matches ConfigError::MissingPresetField(f) && Some(f@) == first_missing_sentencepiece(self),
            r matches Ok(c) ==> {
                Some(c.trainer) == self.trainer
                && Some(c.python) == self.python
                && Some(c.model_type) == self.model_type
                && Some(c.vocab_size) == self.vocab_size
                && Some(c.character_coverage_bits) == self.character_coverage_bits
                && Some(c.byte_fallback) == self.byte_fallback
                && Some(c.normalization_rule_name) == self.normalization_rule_name
                && Some(c.add_dummy_prefix) == self.add_dummy_prefix
                && Some(c.remove_extra_whitespaces) == self.remove_extra_whitespaces
                && Some(c.split_by_unicode_script) == self.split_by_unicode_script
                && Some(c.split_by_whitespace) == self.split_by_whitespace
                && Some(c.split_digits) == self.split_digits
                && Some(c.max_sentencepiece_length) == self.max_sentencepiece_length
                && Some(c.max_sentence_length) == self.max_sentence_length
                && Some(c.input_sentence_size) == self.input_sentence_size
                && Some(c.shuffle_input_sentence) == self.shuffle_input_sentence
                && Some(c.train_extremely_large_corpus) == self.train_extremely_large_corpus
                && Some(c.user_defined_symbols) == self.user_defined_symbols
            },
    {
        Ok(SentencePieceConfig {
            trainer: require_field(self.trainer, "sentencepiece.trainer")?,
            python: require_field(self.python, "sentencepiece.python")?,
            model_type: require_field(self.model_type, "sentencepiece.model_type")?,
            vocab_size: require_field(self.vocab_size, "sentencepiece.vocab_size")?,
            character_coverage_bits: require_field(self.character_coverage_bits, "sentencepiece.character_coverage")?,
            byte_fallback: require_field(self.byte_fallback, "sentencepiece.byte_fallback")?,
            normalization_rule_name: require_field(self.normalization_rule_name, "sentencepiece.normalization_rule_name")?,
            add_dummy_prefix: require_field(self.add_dummy_prefix, "sentencepiece.add_dummy_prefix")?,
            remove_extra_whitespaces: require_field(self.remove_extra_whitespaces, "sentencepiece.remove_extra_whitespaces")?,
            split_by_unicode_script: require_field(self.split_by_unicode_script, "sentencepiece.split_by_unicode_script")?,
            split_by_whitespace: require_field(self.split_by_whitespace, "sentencepiece.split_by_whitespace")?,
            split_digits: require_field(self.split_digits, "sentencepiece.split_digits")?,
            max_sentencepiece_length: require_field(self.max_sentencepiece_length, "sentencepiece.max_sentencepiece_length")?,
            max_sentence_length: require_field(self.max_sentence_length, "sentencepiece.max_sentence_length")?,
            input_sentence_size: require_field(self.input_sentence_size, "sentencepiece.input_sentence_size")?,
            shuffle_input_sentence: require_field(self.shuffle_input_sentence, "sentencepiece.shuffle_input_sentence")?,
            train_extremely_large_corpus: require_field(self.train_extremely_large_corpus, "sentencepiece.train_extremely_large_corpus")?,
            user_defined_symbols: require_field(self.user_defined_symbols, "sentencepiece.user_defined_symbols")?,
        })
    }
}

/// What is checked, and what is logged about it.
#[derive(Debug, Clone)]
pub struct ValidationConfig {
    pub mode: ValidationMode,
    pub line_policy: LinePolicy,
    pub issue_log: String,
    pub include_line_text_in_log: bool,
    pub round_trip_sample_per_bucket: usize,
}

/// A layer of [`ValidationConfig`] in which any setting may be left out.
#[derive(Debug, Clone)]
pub struct PartialValidationConfig {
    pub mode: Option<ValidationMode>,
    pub line_policy: Option<LinePolicy>,
    pub issue_log: Option<String>,
    pub include_line_text_in_log: Option<bool>,
    pub round_trip_sample_per_bucket: Option<usize>,
}

impl Default for PartialValidationConfig {
    fn default() -> (r: Self)
        ensures
            r.mode is None,
            r.line_policy is None,
            r.issue_log is None,
            r.include_line_text_in_log is None,
            r.round_trip_sample_per_bucket is None,
    {
        PartialValidationConfig { mode: None, line_policy: None, issue_log: None, include_line_text_in_log: None, round_trip_sample_per_bucket: None }
    }
}

/// The first setting a layer of validation settings leaves out, by its dotted name.
pub open spec fn first_missing_validation(p: PartialValidationConfig) -> Option<Seq<char>> {
    if p.mode is None {
        Some("validation.mode"@)
    } else if p.line_policy is None {
        Some("validation.line_policy"@)
    } else if p.issue_log is None {
        Some("validation.issue_log"@)
    } else if p.include_line_text_in_log is None {
        Some("validation.include_line_text_in_log"@)
    } else if p.round_trip_sample_per_bucket is None {
        Some("validation.round_trip_sample_per_bucket"@)
    } else {
        None
    }
}

/// Whether `top` was laid over `base` to give `merged`: each setting `top` has wins.
pub open spec fn overlays_validation(merged: PartialValidationConfig, base: PartialValidationConfig, top: PartialValidationConfig) -> bool {
    &&& merged.mode == overlay(base.mode, top.mode)
    &&& merged.line_policy == overlay(base.line_policy, top.line_policy)
    &&& merged.issue_log == overlay(base.issue_log, top.issue_log)
    &&& merged.include_line_text_in_log == overlay(base.include_line_text_in_log, top.include_line_text_in_log)
    &&& merged.round_trip_sample_per_bucket == overlay(base.round_trip_sample_per_bucket, top.round_trip_sample_per_bucket)
}

impl PartialValidationConfig {
    /// Lay `other` over this layer: each setting it has replaces this one.
    pub fn merge(&mut self, other: &Self)
        ensures
            overlays_validation(*final(self), *old(self), *other),
    {
        replace_if_some(&mut self.mode, other.mode);
        replace_if_some(&mut self.line_policy, other.line_policy);
        replace_if_some(&mut self.issue_log, copy_string(&other.issue_log));
        replace_if_some(&mut self.include_line_text_in_log, other.include_line_text_in_log);
        replace_if_some(&mut self.round_trip_sample_per_bucket, other.round_trip_sample_per_bucket);
    }

    /// The complete settings, or the first that was left out.
    pub fn require(self) -> (r: Result<ValidationConfig, ConfigError>)
        ensures
            r is Ok <==> first_missing_validation(self) is None,
            r matches Err(e) ==> e matches ConfigError::MissingPresetField(f) && Some(f@) == first_missing_validation(self),
            r matches Ok(c) ==> {
                Some(c.mode) == self.mode
                && Some(c.line_policy) == self.line_policy
                && Some(c.issue_log) == self.issue_log
                && Some(c.include_line_text_in_log) == self.include_line_text_in_log
                && Some(c.round_trip_sample_per_bucket) == self.round_trip_sample_per_bucket
            },
    {
        Ok(ValidationConfig {
            mode: require_field(self.mode, "validation.mode")?,
            line_policy: require_field(self.line_policy, "validation.line_policy")?,
            issue_log: require_field(self.issue_log, "validation.issue_log")?,
            include_line_text_in_log: require_field(self.include_line_text_in_log, "validation.include_line_text_in_log")?,
            round_trip_sample_per_bucket: require_field(self.round_trip_sample_per_bucket, "validation.round_trip_sample_per_bucket")?,
        })
    }
}


/// A run's own configuration: an optional preset, and settings laid over the preset's.
#[derive(Debug, Clone)]
pub struct RawConfig {
    pub preset: Option<String>,
    pub num_threads: Option<u32>,
    pub corpus: CorpusConfig,
    pub output: OutputConfig,
    pub canonicalization: PartialCanonicalizationConfig,
    pub balancing: PartialBalancingConfig,
    pub sentencepiece: PartialSentencePieceConfig,
    pub validation: PartialValidationConfig,
}

/// A named set of settings, which may extend another preset.
#[derive(Debug, Clone)]
pub struct PresetConfig {
    pub description: String,
    pub extends: Option<String>,
    pub num_threads: Option<u32>,
    pub canonicalization: PartialCanonicalizationConfig,
    pub balancing: PartialBalancingConfig,
    pub sentencepiece: PartialSentencePieceConfig,
    pub validation: PartialValidationConfig,
}

/// The presets on offer, by name, and the one used when a run names none.
#[derive(Debug, Clone)]
pub struct PresetCatalog {
    pub version: u32,
    pub default: String,
    pub presets: Vec<(String, PresetConfig)>,
}

/// A run's complete configuration, once its preset chain and its own settings are merged.
#[derive(Debug, Clone)]
pub struct EffectiveConfig {
    pub preset: String,
    pub num_threads: u32,
    pub corpus: CorpusConfig,
    pub output: OutputConfig,
    pub canonicalization: CanonicalizationConfig,
    pub balancing: BalancingConfig,
    pub sentencepiece: SentencePieceConfig,
    pub validation: ValidationConfig,
    /// The dangerous SentencePiece settings that were put back to their safe value, by name,
    /// for the run to log.
    pub repaired_settings: Vec<&'static str>,
}

/// Where the catalog first lists a preset of this name.
pub open spec fn preset_index(cat: Seq<(String, PresetConfig)>, name: Seq<char>) -> Option<int> {
    if exists|i: int| 0 <= i < cat.len() && #[trigger] cat[i].0@ == name {
        Some(choose|i: int| 0 <= i < cat.len() && #[trigger] cat[i].0@ == name && forall|j: int| 0 <= j < i ==> cat[j].0@ != name)
    } else {
        None
    }
}

/// How following `extends` from a preset ends: the catalog positions visited, from the named
/// preset to the root of its chain, or the name at which the chain broke and whether it broke by
/// coming back to a preset already visited (otherwise the name is not in the catalog).
pub open spec fn preset_chain(cat: Seq<(String, PresetConfig)>, name: Seq<char>, visited: Seq<int>, fuel: nat) -> Result<
    Seq<int>,
    (bool, Seq<char>),
>
    decreases fuel,
{
    if fuel == 0 {
        Err((true, name))
    } else {
        match preset_index(cat, name) {
            None => Err((false, name)),
            Some(i) => if visited.contains(i) {
                Err((true, name))
            } else {
                match cat[i].1.extends {
                    None => Ok(visited.push(i)),
                    Some(parent) => preset_chain(cat, parent@, visited.push(i), (fuel - 1) as nat),
                }
            },
        }
    }
}

/// The layer values of a chain, root first, with the run's own value last.
pub open spec fn layer_order(chain: Seq<int>) -> Seq<int> {
    chain.reverse()
}

/// The last value set among `layers`, if any.
pub open spec fn last_set<T>(layers: Seq<Option<T>>) -> Option<T>
    decreases layers.len(),
{
    if layers.len() == 0 {
        None
    } else {
        overlay(last_set(layers.drop_last()), layers.last())
    }
}

/// `p` is what laying these layers over one another, first to last, gives.
pub open spec fn layered_canonicalization(p: PartialCanonicalizationConfig, layers: Seq<PartialCanonicalizationConfig>) -> bool
    decreases layers.len(),
{
    if layers.len() == 0 {
        p.unicode_form is None && p.strip is None
            && p.map_nbsp_to_space is None && p.fold_arabic_presentation_forms is None && p.soft_hyphen is None
            && p.preserve_zwj_zwnj is None && p.preserve_compatibility_chars is None
    } else {
        exists|mid: PartialCanonicalizationConfig|
            layered_canonicalization(mid, layers.drop_last()) && #[trigger] overlays_canonicalization(p, mid, layers.last())
    }
}

/// `p` is what laying these layers over one another, first to last, gives.
pub open spec fn layered_balancing(p: PartialBalancingConfig, layers: Seq<PartialBalancingConfig>) -> bool
    decreases layers.len(),
{
    if layers.len() == 0 {
        p.enabled is None && p.mode is None && p.total_lines is None && p.alpha_bits is None && p.hierarchy is None
            && p.min_keep_fraction_bits is None && p.max_downsample_ratio_bits is None && p.collapse_buckets_below_lines is None
            && p.max_part_lines is None && p.shuffle_seed is None
    } else {
        exists|mid: PartialBalancingConfig| layered_balancing(mid, layers.drop_last()) && #[trigger] overlays_balancing(p, mid, layers.last())
    }
}

/// `p` is what laying these layers over one another, first to last, gives.
pub open spec fn layered_sentencepiece(p: PartialSentencePieceConfig, layers: Seq<PartialSentencePieceConfig>) -> bool
    decreases layers.len(),
{
    if layers.len() == 0 {
        p.trainer is None && p.python is None && p.model_type is None && p.vocab_size is None && p.character_coverage_bits is None
            && p.byte_fallback is None && p.normalization_rule_name is None && p.add_dummy_prefix is None
            && p.remove_extra_whitespaces is None && p.split_by_unicode_script is None && p.split_by_whitespace is None
            && p.split_digits is None && p.max_sentencepiece_length is None && p.max_sentence_length is None
            && p.input_sentence_size is None && p.shuffle_input_sentence is None && p.train_extremely_large_corpus is None
            && p.user_defined_symbols is None
    } else {
        exists|mid: PartialSentencePieceConfig|
            layered_sentencepiece(mid, layers.drop_last()) && #[trigger] overlays_sentencepiece(p, mid, layers.last())
    }
}

/// `p` is what laying these layers over one another, first to last, gives.
pub open spec fn layered_validation(p: PartialValidationConfig, layers: Seq<PartialValidationConfig>) -> bool
    decreases layers.len(),
{
    if layers.len() == 0 {
        p.mode is None && p.line_policy is None && p.issue_log is None && p.include_line_text_in_log is None
            && p.round_trip_sample_per_bucket is None
    } else {
        exists|mid: PartialValidationConfig| layered_validation(mid, layers.drop_last()) && #[trigger] overlays_validation(p, mid, layers.last())
    }
}

/// The thread counts of the chain's presets, root first, then the run's own.
pub open spec fn thread_layers(cat: Seq<(String, PresetConfig)>, chain: Seq<int>, raw: RawConfig) -> Seq<Option<u32>> {
    layer_order(chain).map_values(|i: int| cat[i].1.num_threads).push(raw.num_threads)
}

pub open spec fn canonicalization_layers(cat: Seq<(String, PresetConfig)>, chain: Seq<int>, raw: RawConfig) -> Seq<PartialCanonicalizationConfig> {
    layer_order(chain).map_values(|i: int| cat[i].1.canonicalization).push(raw.canonicalization)
}

pub open spec fn balancing_layers(cat: Seq<(String, PresetConfig)>, chain: Seq<int>, raw: RawConfig) -> Seq<PartialBalancingConfig> {
    layer_order(chain).map_values(|i: int| cat[i].1.balancing).push(raw.balancing)
}

pub open spec fn sentencepiece_layers(cat: Seq<(String, PresetConfig)>, chain: Seq<int>, raw: RawConfig) -> Seq<PartialSentencePieceConfig> {
    layer_order(chain).map_values(|i: int| cat[i].1.sentencepiece).push(raw.sentencepiece)
}

pub open spec fn validation_layers(cat: Seq<(String, PresetConfig)>, chain: Seq<int>, raw: RawConfig) -> Seq<PartialValidationConfig> {
    layer_order(chain).map_values(|i: int| cat[i].1.validation).push(raw.validation)
}


/// `c` is the complete form of the layer `p`.
pub open spec fn settled_canonicalization(c: CanonicalizationConfig, p: PartialCanonicalizationConfig) -> bool {
    Some(c.unicode_form) == p.unicode_form && Some(c.strip) == p.strip && Some(c.map_nbsp_to_space) == p.map_nbsp_to_space
        && Some(c.fold_arabic_presentation_forms) == p.fold_arabic_presentation_forms && Some(c.soft_hyphen) == p.soft_hyphen
        && Some(c.preserve_zwj_zwnj) == p.preserve_zwj_zwnj && Some(c.preserve_compatibility_chars) == p.preserve_compatibility_chars
}

/// `c` is the complete form of the layer `p`.
pub open spec fn settled_balancing(c: BalancingConfig, p: PartialBalancingConfig) -> bool {
    Some(c.enabled) == p.enabled && Some(c.mode) == p.mode && Some(c.total_lines) == p.total_lines && Some(c.alpha_bits)
        == p.alpha_bits && Some(c.hierarchy) == p.hierarchy && Some(c.min_keep_fraction_bits) == p.min_keep_fraction_bits
        && Some(c.max_downsample_ratio_bits) == p.max_downsample_ratio_bits && Some(c.collapse_buckets_below_lines)
        == p.collapse_buckets_below_lines && Some(c.max_part_lines) == p.max_part_lines && Some(c.shuffle_seed) == p.shuffle_seed
}

/// `c` is the complete form of the layer `p`.
pub open spec fn settled_sentencepiece(c: SentencePieceConfig, p: PartialSentencePieceConfig) -> bool {
    Some(c.trainer) == p.trainer && Some(c.python) == p.python && Some(c.model_type) == p.model_type && Some(c.vocab_size)
        == p.vocab_size && Some(c.character_coverage_bits) == p.character_coverage_bits && Some(c.byte_fallback) == p.byte_fallback
        && Some(c.normalization_rule_name) == p.normalization_rule_name && Some(c.add_dummy_prefix) == p.add_dummy_prefix
        && Some(c.remove_extra_whitespaces) == p.remove_extra_whitespaces && Some(c.split_by_unicode_script)
        == p.split_by_unicode_script && Some(c.split_by_whitespace) == p.split_by_whitespace && Some(c.split_digits)
        == p.split_digits && Some(c.max_sentencepiece_length) == p.max_sentencepiece_length && Some(c.max_sentence_length)
        == p.max_sentence_length && Some(c.input_sentence_size) == p.input_sentence_size && Some(c.shuffle_input_sentence)
        == p.shuffle_input_sentence && Some(c.train_extremely_large_corpus) == p.train_extremely_large_corpus && Some(
        c.user_defined_symbols,
    ) == p.user_defined_symbols
}

/// `c` is the complete form of the layer `p`.
pub open spec fn settled_validation(c: ValidationConfig, p: PartialValidationConfig) -> bool {
    Some(c.mode) == p.mode && Some(c.line_policy) == p.line_policy && Some(c.issue_log) == p.issue_log && Some(
        c.include_line_text_in_log,
    ) == p.include_line_text_in_log && Some(c.round_trip_sample_per_bucket) == p.round_trip_sample_per_bucket
}

/// A switch that is set, put at its safe value.
pub open spec fn safe_switch(o: Option<bool>, safe: bool) -> Option<bool> {
    if o is Some {
        Some(safe)
    } else {
        None
    }
}

/// The layer `p` with each dangerous SentencePiece switch it sets put back to its safe value:
/// byte fallback on, no dummy prefix, whitespace kept, splitting by script and by digit on.
pub open spec fn safe_layer(p: PartialSentencePieceConfig) -> PartialSentencePieceConfig {
    PartialSentencePieceConfig {
        byte_fallback: safe_switch(p.byte_fallback, true),
        add_dummy_prefix: safe_switch(p.add_dummy_prefix, false),
        remove_extra_whitespaces: safe_switch(p.remove_extra_whitespaces, false),
        split_by_unicode_script: safe_switch(p.split_by_unicode_script, true),
        split_digits: safe_switch(p.split_digits, true),
        ..p
    }
}

/// A switch named `name` that is set to its dangerous value, as a list of that one name.
pub open spec fn danger(o: Option<bool>, dangerous: bool, name: Seq<char>) -> Seq<Seq<char>> {
    if o == Some(dangerous) {
        seq![name]
    } else {
        Seq::empty()
    }
}

/// The dangerous settings the merged layer `p` holds, by name, in a fixed order.
pub open spec fn dangerous_in(p: PartialSentencePieceConfig) -> Seq<Seq<char>> {
    danger(p.byte_fallback, false, "sentencepiece.byte_fallback"@) + danger(
        p.add_dummy_prefix,
        true,
        "sentencepiece.add_dummy_prefix"@,
    ) + danger(p.remove_extra_whitespaces, true, "sentencepiece.remove_extra_whitespaces"@) + danger(
        p.split_by_unicode_script,
        false,
        "sentencepiece.split_by_unicode_script"@,
    ) + danger(p.split_digits, false, "sentencepiece.split_digits"@)
}

/// The texts of a list of names.
pub open spec fn name_texts(v: Seq<&'static str>) -> Seq<Seq<char>> {
    v.map_values(|s: &'static str| s@)
}

/// What expanding `raw` against the catalog gives, once the merged layers are `pc`, `pb`, `ps`
/// and `pv`: the first missing or unusable setting, in the order thread count, canonicalization,
/// balancing, SentencePiece, validation, or the complete configuration.
pub open spec fn settles(
    r: Result<EffectiveConfig, ConfigError>,
    name: Seq<char>,
    raw: RawConfig,
    threads: Option<u32>,
    pc: PartialCanonicalizationConfig,
    pb: PartialBalancingConfig,
    ps: PartialSentencePieceConfig,
    pv: PartialValidationConfig,
) -> bool {
    if threads is None {
        r matches Err(ConfigError::MissingPresetField(f)) && f@ == "num_threads"@
    } else if threads == Some(0u32) {
        r matches Err(ConfigError::InvalidPresetField { field, reason }) && field@ == "num_threads"@ && reason@ == "must be greater than zero"@
    } else if first_missing_canonicalization(pc) is Some {
        r matches Err(ConfigError::MissingPresetField(f)) && Some(f@) == first_missing_canonicalization(pc)
    } else if first_missing_balancing(pb) is Some {
        r matches Err(ConfigError::MissingPresetField(f)) && Some(f@) == first_missing_balancing(pb)
    } else if first_missing_sentencepiece(ps) is Some {
        r matches Err(ConfigError::MissingPresetField(f)) && Some(f@) == first_missing_sentencepiece(ps)
    } else if first_missing_validation(pv) is Some {
        r matches Err(ConfigError::MissingPresetField(f)) && Some(f@) == first_missing_validation(pv)
    } else {
        r matches Ok(e) && e.preset@ == name && threads == Some(e.num_threads) && e.corpus == raw.corpus && e.output == raw.output
            && settled_canonicalization(e.canonicalization, pc) && settled_balancing(e.balancing, pb) && settled_sentencepiece(
            e.sentencepiece,
            safe_layer(ps),
        ) && settled_validation(e.validation, pv) && name_texts(e.repaired_settings@) == dangerous_in(ps)
    }
}

/// The preset a run asks for: its own choice, or the catalog's default.
pub open spec fn chosen_preset(raw: RawConfig, cat: PresetCatalog) -> Seq<char> {
    match raw.preset {
        Some(n) => n@,
        None => cat.default@,
    }
}

/// What expanding `raw` against `cat` gives: the preset chain is followed from the chosen preset
/// to its root, its layers are laid over one another root first with the run's own settings on
/// top, each setting taking the last value any layer gives it, and the result must be complete.
pub open spec fn expansion_is(r: Result<EffectiveConfig, ConfigError>, raw: RawConfig, cat: PresetCatalog) -> bool {
    let name = chosen_preset(raw, cat);
    match preset_chain(cat.presets@, name, Seq::empty(), (cat.presets@.len() + 1) as nat) {
        Err((true, n)) => r matches Err(ConfigError::PresetCycle(m)) && m@ == n,
        Err((false, n)) => r matches Err(ConfigError::UnknownPreset(m)) && m@ == n,
        Ok(chain) => exists|pc: PartialCanonicalizationConfig, pb: PartialBalancingConfig, ps: PartialSentencePieceConfig, pv: PartialValidationConfig|
            {
                &&& #[trigger] layered_canonicalization(pc, canonicalization_layers(cat.presets@, chain, raw))
                &&& #[trigger] layered_balancing(pb, balancing_layers(cat.presets@, chain, raw))
                &&& #[trigger] layered_sentencepiece(ps, sentencepiece_layers(cat.presets@, chain, raw))
                &&& #[trigger] layered_validation(pv, validation_layers(cat.presets@, chain, raw))
                &&& settles(r, name, raw, last_set(thread_layers(cat.presets@, chain, raw)), pc, pb, ps, pv)
            },
    }
}

/// Where the catalog first lists a preset of this name.
fn find_preset(presets: &Vec<(String, PresetConfig)>, name: &str) -> (r: Option<usize>)
    ensures
        match r {
            Some(i) => preset_index(presets@, name@) == Some(i as int),
            None => preset_index(presets@, name@) is None,
        },
        r matches Some(i) ==> i < presets@.len(),
{
    let mut i: usize = 0;
    while i < presets.len()
        invariant
            0 <= i <= presets@.len(),
            forall|j: int| 0 <= j < i ==> #[trigger] presets@[j].0@ != name@,
        decreases presets@.len() - i,
    {
        if crate::text::str_eq(presets[i].0.as_str(), name) {
            proof {
                let c = choose|k: int| 0 <= k < presets@.len() && #[trigger] presets@[k].0@ == name@ && forall|j: int| 0 <= j < k ==> presets@[j].0@ != name@;
                if c < i {
                    assert(presets@[c].0@ != name@);
                }
                if c > i {
                    assert(presets@[i as int].0@ != name@);
                }
            }
            return Some(i);
        }
        i = i + 1;
    }
    None
}

/// Follow `extends` from the named preset to the root of its chain.
fn resolve_chain(presets: &Vec<(String, PresetConfig)>, start: &str) -> (r: Result<Vec<usize>, ConfigError>)
    requires
        presets@.len() < usize::MAX,
    ensures
        match preset_chain(presets@, start@, Seq::empty(), (presets@.len() + 1) as nat) {
            Ok(chain) => r matches Ok(c) && c@.map_values(|u: usize| u as int) == chain,
            Err((true, n)) => r matches Err(ConfigError::PresetCycle(m)) && m@ == n,
            Err((false, n)) => r matches Err(ConfigError::UnknownPreset(m)) && m@ == n,
        },
        r matches Ok(c) ==> forall|m: int| 0 <= m < c@.len() ==> (#[trigger] c@[m]) < presets@.len(),
{
    let ghost target = preset_chain(presets@, start@, Seq::empty(), (presets@.len() + 1) as nat);
    let mut visited: Vec<usize> = Vec::new();
    let mut name: String = owned(start);
    let n = presets.len();
    let mut fuel: usize = n + 1;
    proof {
        assert(visited@.map_values(|u: usize| u as int) =~= Seq::<int>::empty());
    }
    loop
        invariant
            target == preset_chain(presets@, start@, Seq::empty(), (presets@.len() + 1) as nat),
            target == preset_chain(presets@, name@, visited@.map_values(|u: usize| u as int), fuel as nat),
            forall|m: int| 0 <= m < visited@.len() ==> (#[trigger] visited@[m]) < presets@.len(),
        decreases fuel,
    {
        if fuel == 0 {
            return Err(ConfigError::PresetCycle(name));
        }
        let found = find_preset(presets, name.as_str());
        match found {
            None => {
                return Err(ConfigError::UnknownPreset(name));
            },
            Some(i) => {
                let mut seen = false;
                let mut k: usize = 0;
                while k < visited.len()
                    invariant
                        0 <= k <= visited@.len(),
                        seen == exists|m: int| 0 <= m < k && visited@[m] == i,
                    decreases visited@.len() - k,
                {
                    if visited[k] == i {
                        seen = true;
                    }
                    k = k + 1;
                }
                let ghost vs = visited@.map_values(|u: usize| u as int);
                proof {
                    assert(seen == vs.contains(i as int)) by {
                        if seen {
                            let m = choose|m: int| 0 <= m < visited@.len() && visited@[m] == i;
                            assert(vs[m] == i as int);
                        }
                        if vs.contains(i as int) {
                            let m = choose|m: int| 0 <= m < vs.len() && vs[m] == i as int;
                            assert(visited@[m] == i);
                        }
                    }
                }
                if seen {
                    return Err(ConfigError::PresetCycle(name));
                }
                visited.push(i);
                proof {
                    assert(visited@.map_values(|u: usize| u as int) =~= vs.push(i as int));
                }
                match &presets[i].1.extends {
                    None => {
                        return Ok(visited);
                    },
                    Some(parent) => {
                        name = owned(parent.as_str());
                        fuel = fuel - 1;
                    },
                }
            },
        }
    }
}


/// Resolve a run's configuration: follow its preset's chain to the root, lay every layer over the
/// one before it, root first and the run's own settings last, and require the result complete.
pub fn expand_config(raw: RawConfig, catalog: &PresetCatalog) -> (r: Result<EffectiveConfig, ConfigError>)
    requires
        catalog.presets@.len() < usize::MAX,
    ensures
        expansion_is(r, raw, *catalog),
{
    let ghost cat = catalog.presets@;
    let ghost raw0 = raw;
    let name: String = match &raw.preset {
        Some(n) => owned(n.as_str()),
        None => owned(catalog.default.as_str()),
    };
    let chain = match resolve_chain(&catalog.presets, name.as_str()) {
        Ok(chain) => chain,
        Err(e) => {
            return Err(e);
        },
    };
    let ghost ch = chain@.map_values(|u: usize| u as int);
    let ghost lt = thread_layers(cat, ch, raw0);
    let ghost lc = canonicalization_layers(cat, ch, raw0);
    let ghost lb = balancing_layers(cat, ch, raw0);
    let ghost ls = sentencepiece_layers(cat, ch, raw0);
    let ghost lv = validation_layers(cat, ch, raw0);
    let mut threads: Option<u32> = None;
    let mut canon = PartialCanonicalizationConfig::default();
    let mut balance = PartialBalancingConfig::default();
    let mut spm = PartialSentencePieceConfig::default();
    let mut valid = PartialValidationConfig::default();
    proof {
        assert(lt.take(0) =~= Seq::<Option<u32>>::empty());
        assert(lc.take(0) =~= Seq::<PartialCanonicalizationConfig>::empty());
        assert(lb.take(0) =~= Seq::<PartialBalancingConfig>::empty());
        assert(ls.take(0) =~= Seq::<PartialSentencePieceConfig>::empty());
        assert(lv.take(0) =~= Seq::<PartialValidationConfig>::empty());
    }
    let mut k: usize = chain.len();
    while k > 0
        invariant
            0 <= k <= chain@.len(),
            ch == chain@.map_values(|u: usize| u as int),
            forall|m: int| 0 <= m < chain@.len() ==> (#[trigger] chain@[m]) < cat.len(),
            cat == catalog.presets@,
            lt == thread_layers(cat, ch, raw0),
            lc == canonicalization_layers(cat, ch, raw0),
            lb == balancing_layers(cat, ch, raw0),
            ls == sentencepiece_layers(cat, ch, raw0),
            lv == validation_layers(cat, ch, raw0),
            threads == last_set(lt.take(chain@.len() - k)),
            layered_canonicalization(canon, lc.take(chain@.len() - k)),
            layered_balancing(balance, lb.take(chain@.len() - k)),
            layered_sentencepiece(spm, ls.take(chain@.len() - k)),
            layered_validation(valid, lv.take(chain@.len() - k)),
        decreases k,
    {
        k = k - 1;
        let index = chain[k];
        let preset = &catalog.presets[index].1;
        let ghost m = chain@.len() - k - 1;
        proof {
            assert(layer_order(ch)[m] == ch[k as int]);
            assert(lt.take(m + 1).drop_last() == lt.take(m));
            assert(lc.take(m + 1).drop_last() == lc.take(m));
            assert(lb.take(m + 1).drop_last() == lb.take(m));
            assert(ls.take(m + 1).drop_last() == ls.take(m));
            assert(lv.take(m + 1).drop_last() == lv.take(m));
        }
        let ghost (c0, b0, s0, v0) = (canon, balance, spm, valid);
        replace_if_some(&mut threads, preset.num_threads);
        canon.merge(&preset.canonicalization);
        balance.merge(&preset.balancing);
        spm.merge(&preset.sentencepiece);
        valid.merge(&preset.validation);
        proof {
            assert(lc.take(m + 1).last() == preset.canonicalization);
            assert(overlays_canonicalization(canon, c0, lc.take(m + 1).last()));
            assert(overlays_balancing(balance, b0, lb.take(m + 1).last()));
            assert(overlays_sentencepiece(spm, s0, ls.take(m + 1).last()));
            assert(overlays_validation(valid, v0, lv.take(m + 1).last()));
        }
    }
    let ghost m = chain@.len() as int;
    proof {
        assert(lt.take(m + 1).drop_last() == lt.take(m));
        assert(lc.take(m + 1).drop_last() == lc.take(m));
        assert(lb.take(m + 1).drop_last() == lb.take(m));
        assert(ls.take(m + 1).drop_last() == ls.take(m));
        assert(lv.take(m + 1).drop_last() == lv.take(m));
        assert(lt.take(m + 1) == lt);
        assert(lc.take(m + 1) == lc);
        assert(lb.take(m + 1) == lb);
        assert(ls.take(m + 1) == ls);
        assert(lv.take(m + 1) == lv);
    }
    let ghost (c0, b0, s0, v0) = (canon, balance, spm, valid);
    replace_if_some(&mut threads, raw.num_threads);
    canon.merge(&raw.canonicalization);
    balance.merge(&raw.balancing);
    spm.merge(&raw.sentencepiece);
    valid.merge(&raw.validation);
    proof {
        assert(overlays_canonicalization(canon, c0, lc.last()));
        assert(layered_canonicalization(canon, lc));
        assert(overlays_balancing(balance, b0, lb.last()));
        assert(layered_balancing(balance, lb));
        assert(overlays_sentencepiece(spm, s0, ls.last()));
        assert(layered_sentencepiece(spm, ls));
        assert(overlays_validation(valid, v0, lv.last()));
        assert(layered_validation(valid, lv));
    }
    let ghost (pc, pb, ps, pv) = (canon, balance, spm, valid);
    let r = settle(name, threads, raw.corpus, raw.output, canon, balance, spm, valid);
    proof {
        assert(settles(r, chosen_preset(raw0, *catalog), raw0, last_set(lt), pc, pb, ps, pv));
    }
    r
}

/// Put each dangerous SentencePiece switch back to its safe value, and name the ones that were
/// dangerous, in the order of [`dangerous_in`].
fn make_safe(c: &mut SentencePieceConfig) -> (r: Vec<&'static str>)
    ensures
        ({
            let o = *old(c);
            let f = *final(c);
            &&& f == SentencePieceConfig {
                byte_fallback: true,
                add_dummy_prefix: false,
                remove_extra_whitespaces: false,
                split_by_unicode_script: true,
                split_digits: true,
                ..o
            }
            &&& name_texts(r@) == danger(Some(o.byte_fallback), false, "sentencepiece.byte_fallback"@) + danger(
                Some(o.add_dummy_prefix),
                true,
                "sentencepiece.add_dummy_prefix"@,
            ) + danger(Some(o.remove_extra_whitespaces), true, "sentencepiece.remove_extra_whitespaces"@) + danger(
                Some(o.split_by_unicode_script),
                false,
                "sentencepiece.split_by_unicode_script"@,
            ) + danger(Some(o.split_digits), false, "sentencepiece.split_digits"@)
        }),
{
    let mut r: Vec<&'static str> = Vec::new();
    let ghost s0 = name_texts(r@);
    if !c.byte_fallback {
        r.push("sentencepiece.byte_fallback");
        c.byte_fallback = true;
    }
    let ghost s1 = name_texts(r@);
    if c.add_dummy_prefix {
        r.push("sentencepiece.add_dummy_prefix");
        c.add_dummy_prefix = false;
    }
    let ghost s2 = name_texts(r@);
    if c.remove_extra_whitespaces {
        r.push("sentencepiece.remove_extra_whitespaces");
        c.remove_extra_whitespaces = false;
    }
    let ghost s3 = name_texts(r@);
    if !c.split_by_unicode_script {
        r.push("sentencepiece.split_by_unicode_script");
        c.split_by_unicode_script = true;
    }
    let ghost s4 = name_texts(r@);
    if !c.split_digits {
        r.push("sentencepiece.split_digits");
        c.split_digits = true;
    }
    r
}

/// Require every merged layer complete, in order, and put the configuration together.
fn settle(
    name: String,
    threads: Option<u32>,
    corpus: CorpusConfig,
    output: OutputConfig,
    canon: PartialCanonicalizationConfig,
    balance: PartialBalancingConfig,
    spm: PartialSentencePieceConfig,
    valid: PartialValidationConfig,
) -> (r: Result<EffectiveConfig, ConfigError>)
    ensures
        forall|any: RawConfig| any.corpus == corpus && any.output == output ==> #[trigger] settles(r, name@, any, threads, canon, balance, spm, valid),
{
    let num_threads = match require_positive_threads(threads) {
        Ok(n) => n,
        Err(e) => {
            return Err(e);
        },
    };
    let ghost (pc, pb, ps, pv) = (canon, balance, spm, valid);
    let canonicalization = match canon.require() {
        Ok(c) => c,
        Err(e) => {
            return Err(e);
        },
    };
    let balancing = match balance.require() {
        Ok(c) => c,
        Err(e) => {
            return Err(e);
        },
    };
    let mut sentencepiece = match spm.require() {
        Ok(c) => c,
        Err(e) => {
            return Err(e);
        },
    };
    let repaired_settings = make_safe(&mut sentencepiece);
    let validation = match valid.require() {
        Ok(c) => c,
        Err(e) => {
            return Err(e);
        },
    };
    Ok(
        EffectiveConfig {
            preset: name,
            num_threads,
            corpus,
            output,
            canonicalization,
            balancing,
            sentencepiece,
            validation,
            repaired_settings,
        },
    )
}

/// Every setting the layer `top` gives is the one `c` holds.
pub open spec fn top_wins_canonicalization(c: CanonicalizationConfig, top: PartialCanonicalizationConfig) -> bool {
    &&& overlay(Some(c.unicode_form), top.unicode_form) == Some(c.unicode_form)
    &&& overlay(Some(c.strip@), opt_seq(top.strip)) == Some(c.strip@)
    &&& overlay(Some(c.map_nbsp_to_space), top.map_nbsp_to_space) == Some(c.map_nbsp_to_space)
    &&& overlay(Some(c.fold_arabic_presentation_forms), top.fold_arabic_presentation_forms) == Some(c.fold_arabic_presentation_forms)
    &&& overlay(Some(c.soft_hyphen), top.soft_hyphen) == Some(c.soft_hyphen)
    &&& overlay(Some(c.preserve_zwj_zwnj), top.preserve_zwj_zwnj) == Some(c.preserve_zwj_zwnj)
    &&& overlay(Some(c.preserve_compatibility_chars), top.preserve_compatibility_chars) == Some(c.preserve_compatibility_chars)
}

/// Every setting the layer `top` gives is the one `c` holds.
pub open spec fn top_wins_balancing(c: BalancingConfig, top: PartialBalancingConfig) -> bool {
    &&& overlay(Some(c.enabled), top.enabled) == Some(c.enabled)
    &&& overlay(Some(c.mode), top.mode) == Some(c.mode)
    &&& overlay(Some(c.total_lines), top.total_lines) == Some(c.total_lines)
    &&& overlay(Some(c.alpha_bits), top.alpha_bits) == Some(c.alpha_bits)
    &&& overlay(Some(c.hierarchy@), opt_seq(top.hierarchy)) == Some(c.hierarchy@)
    &&& overlay(Some(c.min_keep_fraction_bits), top.min_keep_fraction_bits) == Some(c.min_keep_fraction_bits)
    &&& overlay(Some(c.max_downsample_ratio_bits), top.max_downsample_ratio_bits) == Some(c.max_downsample_ratio_bits)
    &&& overlay(Some(c.collapse_buckets_below_lines), top.collapse_buckets_below_lines) == Some(c.collapse_buckets_below_lines)
    &&& overlay(Some(c.max_part_lines), top.max_part_lines) == Some(c.max_part_lines)
    &&& overlay(Some(c.shuffle_seed), top.shuffle_seed) == Some(c.shuffle_seed)
}

/// Every setting the layer `top` gives is the one `c` holds.
pub open spec fn top_wins_sentencepiece(c: SentencePieceConfig, top: PartialSentencePieceConfig) -> bool {
    &&& overlay(Some(c.trainer), top.trainer) == Some(c.trainer)
    &&& overlay(Some(python_view(c.python)), opt_python(top.python)) == Some(python_view(c.python))
    &&& overlay(Some(c.model_type), top.model_type) == Some(c.model_type)
    &&& overlay(Some(c.vocab_size), top.vocab_size) == Some(c.vocab_size)
    &&& overlay(Some(c.character_coverage_bits), top.character_coverage_bits) == Some(c.character_coverage_bits)
    &&& overlay(Some(c.byte_fallback), top.byte_fallback) == Some(c.byte_fallback)
    &&& overlay(Some(c.normalization_rule_name), top.normalization_rule_name) == Some(c.normalization_rule_name)
    &&& overlay(Some(c.add_dummy_prefix), top.add_dummy_prefix) == Some(c.add_dummy_prefix)
    &&& overlay(Some(c.remove_extra_whitespaces), top.remove_extra_whitespaces) == Some(c.remove_extra_whitespaces)
    &&& overlay(Some(c.split_by_unicode_script), top.split_by_unicode_script) == Some(c.split_by_unicode_script)
    &&& overlay(Some(c.split_by_whitespace), top.split_by_whitespace) == Some(c.split_by_whitespace)
    &&& overlay(Some(c.split_digits), top.split_digits) == Some(c.split_digits)
    &&& overlay(Some(c.max_sentencepiece_length), top.max_sentencepiece_length) == Some(c.max_sentencepiece_length)
    &&& overlay(Some(c.max_sentence_length), top.max_sentence_length) == Some(c.max_sentence_length)
    &&& overlay(Some(c.input_sentence_size), top.input_sentence_size) == Some(c.input_sentence_size)
    &&& overlay(Some(c.shuffle_input_sentence), top.shuffle_input_sentence) == Some(c.shuffle_input_sentence)
    &&& overlay(Some(c.train_extremely_large_corpus), top.train_extremely_large_corpus) == Some(c.train_extremely_large_corpus)
    &&& overlay(Some(c.user_defined_symbols@), opt_seq(top.user_defined_symbols)) == Some(c.user_defined_symbols@)
}

/// Every setting the layer `top` gives is the one `c` holds.
pub open spec fn top_wins_validation(c: ValidationConfig, top: PartialValidationConfig) -> bool {
    &&& overlay(Some(c.mode), top.mode) == Some(c.mode)
    &&& overlay(Some(c.line_policy), top.line_policy) == Some(c.line_policy)
    &&& overlay(Some(c.issue_log), top.issue_log) == Some(c.issue_log)
    &&& overlay(Some(c.include_line_text_in_log), top.include_line_text_in_log) == Some(c.include_line_text_in_log)
    &&& overlay(Some(c.round_trip_sample_per_bucket), top.round_trip_sample_per_bucket) == Some(c.round_trip_sample_per_bucket)
}

/// A run's own settings win: whatever its presets say, every setting the run's configuration
/// gives itself is the one the expanded configuration holds, except that a dangerous
/// SentencePiece switch is held at its safe value; its corpus and output are kept as they are.
pub proof fn law_own_settings_win(raw: RawConfig, cat: PresetCatalog, e: EffectiveConfig)
    requires
        expansion_is(Ok(e), raw, cat),
    ensures
        overlay(Some(e.num_threads), raw.num_threads) == Some(e.num_threads),
        top_wins_canonicalization(e.canonicalization, raw.canonicalization),
        top_wins_balancing(e.balancing, raw.balancing),
        top_wins_sentencepiece(e.sentencepiece, safe_layer(raw.sentencepiece)),
        top_wins_validation(e.validation, raw.validation),
        e.corpus == raw.corpus,
        e.output == raw.output,
{
    let name = chosen_preset(raw, cat);
    let chain = preset_chain(cat.presets@, name, Seq::empty(), (cat.presets@.len() + 1) as nat)->Ok_0;
    let (pc, pb, ps, pv) = choose|pc: PartialCanonicalizationConfig, pb: PartialBalancingConfig, ps: PartialSentencePieceConfig, pv: PartialValidationConfig|
        {
            &&& #[trigger] layered_canonicalization(pc, canonicalization_layers(cat.presets@, chain, raw))
            &&& #[trigger] layered_balancing(pb, balancing_layers(cat.presets@, chain, raw))
            &&& #[trigger] layered_sentencepiece(ps, sentencepiece_layers(cat.presets@, chain, raw))
            &&& #[trigger] layered_validation(pv, validation_layers(cat.presets@, chain, raw))
            &&& settles(Ok(e), name, raw, last_set(thread_layers(cat.presets@, chain, raw)), pc, pb, ps, pv)
        };
    let tl = thread_layers(cat.presets@, chain, raw);
    assert(tl.last() == raw.num_threads && tl.len() > 0);
    let cl = canonicalization_layers(cat.presets@, chain, raw);
    assert(cl.last() == raw.canonicalization && cl.len() > 0);
    let bl = balancing_layers(cat.presets@, chain, raw);
    assert(bl.last() == raw.balancing && bl.len() > 0);
    let sl = sentencepiece_layers(cat.presets@, chain, raw);
    assert(sl.last() == raw.sentencepiece && sl.len() > 0);
    let vl = validation_layers(cat.presets@, chain, raw);
    assert(vl.last() == raw.validation && vl.len() > 0);
    let mc = choose|mid: PartialCanonicalizationConfig| layered_canonicalization(mid, cl.drop_last()) && #[trigger] overlays_canonicalization(pc, mid, cl.last());
    let mb = choose|mid: PartialBalancingConfig| layered_balancing(mid, bl.drop_last()) && #[trigger] overlays_balancing(pb, mid, bl.last());
    let ms = choose|mid: PartialSentencePieceConfig| layered_sentencepiece(mid, sl.drop_last()) && #[trigger] overlays_sentencepiece(ps, mid, sl.last());
    let mv = choose|mid: PartialValidationConfig| layered_validation(mid, vl.drop_last()) && #[trigger] overlays_validation(pv, mid, vl.last());
    assert(overlays_canonicalization(pc, mc, raw.canonicalization));
    assert(overlays_balancing(pb, mb, raw.balancing));
    assert(overlays_sentencepiece(ps, ms, raw.sentencepiece));
    assert(overlays_validation(pv, mv, raw.validation));
}

/// No dangerous SentencePiece setting survives expansion, whichever layer set it: byte fallback
/// is on, there is no dummy prefix, whitespace is kept, and pieces are split by script and by
/// digit; each switch some layer left dangerous is named among the repaired settings.
pub proof fn law_no_dangerous_setting_survives(raw: RawConfig, cat: PresetCatalog, e: EffectiveConfig)
    requires
        expansion_is(Ok(e), raw, cat),
    ensures
        e.sentencepiece.byte_fallback,
        !e.sentencepiece.add_dummy_prefix,
        !e.sentencepiece.remove_extra_whitespaces,
        e.sentencepiece.split_by_unicode_script,
        e.sentencepiece.split_digits,
        raw.sentencepiece.byte_fallback == Some(false) ==> name_texts(e.repaired_settings@).contains(
            "sentencepiece.byte_fallback"@,
        ),
        raw.sentencepiece.split_digits == Some(false) ==> name_texts(e.repaired_settings@).contains(
            "sentencepiece.split_digits"@,
        ),
{
    let name = chosen_preset(raw, cat);
    let chain = preset_chain(cat.presets@, name, Seq::empty(), (cat.presets@.len() + 1) as nat)->Ok_0;
    let (pc, pb, ps, pv) = choose|pc: PartialCanonicalizationConfig, pb: PartialBalancingConfig, ps: PartialSentencePieceConfig, pv: PartialValidationConfig|
        {
            &&& #[trigger] layered_canonicalization(pc, canonicalization_layers(cat.presets@, chain, raw))
            &&& #[trigger] layered_balancing(pb, balancing_layers(cat.presets@, chain, raw))
            &&& #[trigger] layered_sentencepiece(ps, sentencepiece_layers(cat.presets@, chain, raw))
            &&& #[trigger] layered_validation(pv, validation_layers(cat.presets@, chain, raw))
            &&& settles(Ok(e), name, raw, last_set(thread_layers(cat.presets@, chain, raw)), pc, pb, ps, pv)
        };
    let sl = sentencepiece_layers(cat.presets@, chain, raw);
    assert(sl.last() == raw.sentencepiece && sl.len() > 0);
    let ms = choose|mid: PartialSentencePieceConfig| layered_sentencepiece(mid, sl.drop_last()) && #[trigger] overlays_sentencepiece(ps, mid, sl.last());
    assert(overlays_sentencepiece(ps, ms, raw.sentencepiece));
    let d = dangerous_in(ps);
    if raw.sentencepiece.byte_fallback == Some(false) {
        assert(d[0] == "sentencepiece.byte_fallback"@);
    }
    if raw.sentencepiece.split_digits == Some(false) {
        assert(d[d.len() - 1] == "sentencepiece.split_digits"@);
    }
}

} // verus!
