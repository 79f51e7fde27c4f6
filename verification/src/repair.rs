//! Repairing a corpus line by line: what becomes of each line, what is logged about it, and how
//! the written lines are tallied per shard.
//!
//! A line that is not UTF-8, or that canonicalization does not settle in one pass, is skipped and
//! logged. A line too long once canonical is cut into pieces that fit, written in order and
//! logged as fixed, unless it cannot be cut safely; then it is skipped and logged. A line
//! canonicalization changed is written in its canonical form and logged as fixed; any other
//! line is written as it is.

use vstd::prelude::*;
use vstd::utf8::{decode_utf8, encode_utf8, valid_utf8};

use crate::chunk::{chunk_text, chunkable, chunks_of, lemma_chunks_of, texts};
use crate::balance::{bucket_before, key_lt, lemma_key_lt_asymmetric, BucketKey};
use crate::config::CanonicalizationConfig;
use crate::corpus::source::{file_name_of, path_after_prefix, path_file_name, strip_path_prefix};
use crate::corpus::CorpusSourceIssueId;
use crate::normalize::{canonical_line, canonicalize_line};
use crate::text::{decimal, decimal_string, decode, owned, push_str, str_eq};

verus! {

/// The file the repaired corpus is written to, inside the work directory.
pub const FIXED_CORPUS_NAME: &'static str = "fixed_corpus.txt";

/// What a run did: where it wrote, and how many lines went each way.
#[derive(Debug, Clone, PartialEq, Eq)]
pub struct RepairSummary {
    pub fixed_corpus: String,
    pub issue_log: String,
    pub files_read: usize,
    pub lines_read: u64,
    pub lines_written: u64,
    pub lines_fixed: u64,
    pub lines_skipped: u64,
    pub source_issues: usize,
    pub shards: Vec<ShardSummary>,
}

/// One shard: its bucket, where it was written, and how many lines it holds.
#[derive(Debug, Clone, PartialEq, Eq)]
pub struct ShardSummary {
    pub bucket: BucketKey,
    pub path: String,
    pub lines: u64,
}

/// Why a repair run stopped; `detail` is what the system said.
#[derive(Debug, Clone, PartialEq, Eq)]
pub enum RepairError {
    CreateDir { path: String, detail: String },
    Open { path: String, detail: String },
    Read { path: String, detail: String },
    Write { path: String, detail: String },
}

impl RepairError {
    /// What the operator is told.
    pub fn message(&self) -> (r: String)
        ensures
            r@ == match *self {
                RepairError::CreateDir { path, detail } => "failed to create directory "@ + path@ + ": "@ + detail@,
                RepairError::Open { path, detail } => "failed to open "@ + path@ + ": "@ + detail@,
                RepairError::Read { path, detail } => "failed to read "@ + path@ + ": "@ + detail@,
                RepairError::Write { path, detail } => "failed to write "@ + path@ + ": "@ + detail@,
            },
    {
        let (lead, path, detail) = match self {
            RepairError::CreateDir { path, detail } => ("failed to create directory ", path, detail),
            RepairError::Open { path, detail } => ("failed to open ", path, detail),
            RepairError::Read { path, detail } => ("failed to read ", path, detail),
            RepairError::Write { path, detail } => ("failed to write ", path, detail),
        };
        let mut r = owned(lead);
        push_str(&mut r, path.as_str());
        push_str(&mut r, ": ");
        push_str(&mut r, detail.as_str());
        r
    }
}

/// What kind of issue a log entry records.
#[derive(Debug, Clone, Copy, PartialEq, Eq, Structural)]
pub enum IssueId {
    InvalidUtf8,
    Canonicalized,
    NonIdempotentCanonicalization,
    MaxSentenceLength,
    UnsupportedFile,
    ArchiveReadFailed,
    ArchiveDepthExceeded,
    ArchiveCycle,
}

/// What was done about an issue.
#[derive(Debug, Clone, Copy, PartialEq, Eq, Structural)]
pub enum IssueAction {
    Fixed,
    Skipped,
}

/// The issue a skipped source is logged as.
pub open spec fn source_issue_id(id: CorpusSourceIssueId) -> IssueId {
    match id {
        CorpusSourceIssueId::UnsupportedFile => IssueId::UnsupportedFile,
        CorpusSourceIssueId::ArchiveReadFailed => IssueId::ArchiveReadFailed,
        CorpusSourceIssueId::ArchiveDepthExceeded => IssueId::ArchiveDepthExceeded,
        CorpusSourceIssueId::ArchiveCycle => IssueId::ArchiveCycle,
    }
}

impl IssueId {
    pub fn from_source(id: CorpusSourceIssueId) -> (r: Self)
        ensures
            r == source_issue_id(id),
    {
        match id {
            CorpusSourceIssueId::UnsupportedFile => IssueId::UnsupportedFile,
            CorpusSourceIssueId::ArchiveReadFailed => IssueId::ArchiveReadFailed,
            CorpusSourceIssueId::ArchiveDepthExceeded => IssueId::ArchiveDepthExceeded,
            CorpusSourceIssueId::ArchiveCycle => IssueId::ArchiveCycle,
        }
    }
}

/// What the standard library says of bytes that are not UTF-8: where the first bad sequence
/// starts, and how long it is.
pub uninterp spec fn utf8_error_text(bytes: Seq<u8>) -> Seq<char>;

/// `std::str::from_utf8`'s error, as its `Display` renders it. The wording is the standard
/// library's and is left to the name.
#[verifier::external_body]
fn utf8_error_message(bytes: &[u8]) -> (r: String)
    requires
        !valid_utf8(bytes@),
    ensures
        r@ == utf8_error_text(bytes@),
{
    match std::str::from_utf8(bytes) {
        Ok(_) => String::new(),
        Err(error) => error.to_string(),
    }
}

/// A line's entry in the issue log, apart from where it came from.
#[derive(Debug, Clone, PartialEq, Eq)]
pub struct LineIssue {
    pub id: IssueId,
    pub action: IssueAction,
    pub reason: String,
    pub line_text: Option<String>,
}

/// What becomes of one line: the lines written to the repaired corpus for it, in order (none
/// for a skipped line, several for a line cut into pieces), and what is logged.
#[derive(Debug, Clone, PartialEq, Eq)]
pub struct LineRepair {
    pub written: Vec<String>,
    pub issue: Option<LineIssue>,
}

/// The line's text in its log entry, when the log is to carry it.
pub open spec fn logged_text(text: Seq<char>, with_text: bool, logged: Option<String>) -> bool {
    if with_text {
        logged matches Some(t) && t@ == text
    } else {
        logged is None
    }
}

/// `issue` records this id, action and reason, with the line's text as `with_text` asks.
pub open spec fn issue_is(issue: LineIssue, id: IssueId, action: IssueAction, reason: Seq<char>, text: Seq<char>, with_text: bool) -> bool {
    issue.id == id && issue.action == action && issue.reason@ == reason && logged_text(text, with_text, issue.line_text)
}

/// What becomes of the line `bytes` under these settings.
pub open spec fn repair_is(r: LineRepair, bytes: Seq<u8>, config: CanonicalizationConfig, max_sentence_length: u32, with_text: bool) -> bool {
    if !valid_utf8(bytes) {
        r.written@.len() == 0 && (r.issue matches Some(i) && i.id == IssueId::InvalidUtf8 && i.action == IssueAction::Skipped
            && i.reason@ == utf8_error_text(bytes) && i.line_text is None)
    } else {
        let text = decode_utf8(bytes);
        let canonical = canonical_line(config, text);
        if canonical_line(config, canonical) != canonical {
            r.written@.len() == 0 && (r.issue matches Some(i) && issue_is(
                i,
                IssueId::NonIdempotentCanonicalization,
                IssueAction::Skipped,
                "line changed after a second canonicalization pass"@,
                text,
                with_text,
            ))
        } else if encode_utf8(canonical).len() > max_sentence_length {
            let over = "canonicalized line is "@ + decimal(encode_utf8(canonical).len()) + " byte(s), over max_sentence_length "@
                + decimal(max_sentence_length as nat);
            if splits_safely(config, canonical, max_sentence_length as nat) {
                let pieces = chunks_of(canonical, max_sentence_length as nat);
                texts(r.written@) == pieces && (r.issue matches Some(i) && issue_is(
                    i,
                    IssueId::MaxSentenceLength,
                    IssueAction::Fixed,
                    over + "; split into "@ + decimal(pieces.len()) + " chunk(s)"@,
                    text,
                    with_text,
                ))
            } else {
                r.written@.len() == 0 && (r.issue matches Some(i) && issue_is(
                    i,
                    IssueId::MaxSentenceLength,
                    IssueAction::Skipped,
                    over,
                    text,
                    with_text,
                ))
            }
        } else {
            &&& texts(r.written@) == seq![canonical]
            &&& if canonical != text {
                r.issue matches Some(i) && issue_is(
                    i,
                    IssueId::Canonicalized,
                    IssueAction::Fixed,
                    "line changed under configured canonicalization"@,
                    text,
                    with_text,
                )
            } else {
                r.issue is None
            }
        }
    }
}

/// A canonical line can be cut safely into pieces of at most `max` bytes: no character is
/// wider than the limit, and every piece is itself canonical, so a second pass leaves it alone.
pub open spec fn splits_safely(config: CanonicalizationConfig, canonical: Seq<char>, max: nat) -> bool {
    &&& chunkable(canonical, max)
    &&& forall|k: int|
        0 <= k < chunks_of(canonical, max).len() ==> canonical_line(config, #[trigger] chunks_of(canonical, max)[k])
            == chunks_of(canonical, max)[k]
}

/// Whether every piece is left alone by canonicalization.
fn pieces_stable(pieces: &Vec<String>, config: &CanonicalizationConfig) -> (r: bool)
    ensures
        r == forall|k: int| 0 <= k < pieces@.len() ==> canonical_line(*config, #[trigger] texts(pieces@)[k]) == texts(pieces@)[k],
{
    let mut k: usize = 0;
    while k < pieces.len()
        invariant
            0 <= k <= pieces@.len(),
            forall|j: int| 0 <= j < k ==> canonical_line(*config, #[trigger] texts(pieces@)[j]) == texts(pieces@)[j],
        decreases pieces.len() - k,
    {
        let again = canonicalize_line(pieces[k].as_str(), config);
        if !str_eq(again.text.as_str(), pieces[k].as_str()) {
            assert(canonical_line(*config, texts(pieces@)[k as int]) != texts(pieces@)[k as int]);
            return false;
        }
        k = k + 1;
    }
    true
}

/// The line's text for the log, when the log is to carry it.
pub fn maybe_line_text(text: &str, with_text: bool) -> (r: Option<String>)
    ensures
        logged_text(text@, with_text, r),
{
    if with_text {
        Some(owned(text))
    } else {
        None
    }
}

/// Decide what becomes of one line of a source file, its line ending already removed.
pub fn repair_line(bytes: &[u8], config: &CanonicalizationConfig, max_sentence_length: u32, include_line_text: bool) -> (r: LineRepair)
    ensures
        repair_is(r, bytes@, *config, max_sentence_length, include_line_text),
        r.issue matches Some(i) ==> i.id != IssueId::NonIdempotentCanonicalization,
        forall|k: int| 0 <= k < r.written@.len() ==> canonical_line(*config, #[trigger] texts(r.written@)[k]) == texts(r.written@)[k],
{
    let text = match decode(bytes) {
        Some(t) => t,
        None => {
            let reason = utf8_error_message(bytes);
            return LineRepair {
                written: Vec::new(),
                issue: Some(LineIssue { id: IssueId::InvalidUtf8, action: IssueAction::Skipped, reason, line_text: None }),
            };
        },
    };
    proof {
        vstd::utf8::encode_utf8_decode_utf8(text@);
    }
    let canonicalized = canonicalize_line(text, config);
    let again = canonicalize_line(canonicalized.text.as_str(), config);
    if !str_eq(again.text.as_str(), canonicalized.text.as_str()) {
        return LineRepair {
            written: Vec::new(),
            issue: Some(
                LineIssue {
                    id: IssueId::NonIdempotentCanonicalization,
                    action: IssueAction::Skipped,
                    reason: owned("line changed after a second canonicalization pass"),
                    line_text: maybe_line_text(text, include_line_text),
                },
            ),
        };
    }
    let length = canonicalized.text.as_str().as_bytes().len();
    if length as u64 > max_sentence_length as u64 {
        let mut reason = owned("canonicalized line is ");
        push_str(&mut reason, decimal_string(length as u64).as_str());
        push_str(&mut reason, " byte(s), over max_sentence_length ");
        push_str(&mut reason, decimal_string(max_sentence_length as u64).as_str());
        let ghost canonical = canonicalized.text@;
        let ghost max = max_sentence_length as nat;
        if let Some(pieces) = chunk_text(canonicalized.text.as_str(), max_sentence_length as usize) {
            if pieces_stable(&pieces, config) {
                let count = pieces.len();
                push_str(&mut reason, "; split into ");
                push_str(&mut reason, decimal_string(count as u64).as_str());
                push_str(&mut reason, " chunk(s)");
                return LineRepair {
                    written: pieces,
                    issue: Some(
                        LineIssue {
                            id: IssueId::MaxSentenceLength,
                            action: IssueAction::Fixed,
                            reason,
                            line_text: maybe_line_text(text, include_line_text),
                        },
                    ),
                };
            }
        }
        return LineRepair {
            written: Vec::new(),
            issue: Some(
                LineIssue {
                    id: IssueId::MaxSentenceLength,
                    action: IssueAction::Skipped,
                    reason,
                    line_text: maybe_line_text(text, include_line_text),
                },
            ),
        };
    }
    let issue = if canonicalized.changed {
        Some(
            LineIssue {
                id: IssueId::Canonicalized,
                action: IssueAction::Fixed,
                reason: owned("line changed under configured canonicalization"),
                line_text: maybe_line_text(text, include_line_text),
            },
        )
    } else {
        None
    };
    let mut written: Vec<String> = Vec::new();
    written.push(canonicalized.text);
    proof {
        assert(texts(written@) =~= seq![canonical_line(*config, text@)]);
    }
    LineRepair { written, issue }
}

/// Drop one trailing newline, then one trailing carriage return.
pub fn trim_line_ending(bytes: &mut Vec<u8>)
    ensures
        ({
            let a = if old(bytes)@.len() > 0 && old(bytes)@.last() == 10u8 { old(bytes)@.drop_last() } else { old(bytes)@ };
            final(bytes)@ == if a.len() > 0 && a.last() == 13u8 { a.drop_last() } else { a }
        }),
{
    let n = bytes.len();
    if n > 0 && bytes[n - 1] == 10u8 {
        bytes.pop();
    }
    let n = bytes.len();
    if n > 0 && bytes[n - 1] == 13u8 {
        bytes.pop();
    }
}

/// Two buckets are the same bucket.
pub open spec fn same_key(a: BucketKey, b: BucketKey) -> bool {
    a.domain == b.domain && a.script@ == b.script@ && a.language_hint@ == b.language_hint@ && a.source_group@
        == b.source_group@ && a.length_bin == b.length_bin
}

fn same_bucket_key(a: &BucketKey, b: &BucketKey) -> (r: bool)
    ensures
        r == same_key(*a, *b),
{
    a.domain == b.domain && str_eq(a.script.as_str(), b.script.as_str()) && str_eq(
        a.language_hint.as_str(),
        b.language_hint.as_str(),
    ) && str_eq(a.source_group.as_str(), b.source_group.as_str()) && a.length_bin == b.length_bin
}

/// Buckets are the same shard exactly when all five of their fields agree: two buckets that
/// differ in domain, script, language hint, source group or length bin are kept apart.
pub proof fn law_a_shard_is_keyed_by_every_field(a: BucketKey, b: BucketKey)
    ensures
        same_key(a, b) <==> (a.domain == b.domain && a.script@ == b.script@ && a.language_hint@ == b.language_hint@
            && a.source_group@ == b.source_group@ && a.length_bin == b.length_bin),
        a.length_bin != b.length_bin ==> !same_key(a, b),
        same_key(a, b) ==> same_key(b, a),
{
}

/// Where the shard of `bucket` is listed, if it is.
pub open spec fn shard_position(shards: Seq<ShardSummary>, bucket: BucketKey) -> Option<int> {
    if exists|k: int| 0 <= k < shards.len() && same_key(#[trigger] shards[k].bucket, bucket) {
        Some(choose|k: int| 0 <= k < shards.len() && same_key(#[trigger] shards[k].bucket, bucket))
    } else {
        None
    }
}

/// A copy of a bucket key, field by field.
fn copy_key(b: &BucketKey) -> (r: BucketKey)
    ensures
        same_key(r, *b),
{
    BucketKey {
        domain: b.domain,
        script: owned(b.script.as_str()),
        language_hint: owned(b.language_hint.as_str()),
        source_group: owned(b.source_group.as_str()),
        length_bin: b.length_bin,
    }
}

/// Count one more written line in the shard of `bucket`, listing the shard at `path` first if it
/// is new. Returns whether it was new, so the caller knows to open its file.
pub fn record_shard_line(shards: &mut Vec<ShardSummary>, bucket: &BucketKey, path: &str) -> (r: bool)
    requires
        forall|i: int, j: int| 0 <= i < j < old(shards)@.len() ==> !same_key(#[trigger] old(shards)@[i].bucket, #[trigger] old(shards)@[j].bucket),
        forall|k: int| 0 <= k < old(shards)@.len() ==> (#[trigger] old(shards)@[k]).lines < u64::MAX,
    ensures
        r == (shard_position(old(shards)@, *bucket) is None),
        r == forall|k: int| 0 <= k < old(shards)@.len() ==> !(#[trigger] old(shards)@[k].bucket.domain == bucket.domain
            && old(shards)@[k].bucket.script@ == bucket.script@ && old(shards)@[k].bucket.language_hint@
            == bucket.language_hint@ && old(shards)@[k].bucket.source_group@ == bucket.source_group@
            && old(shards)@[k].bucket.length_bin == bucket.length_bin),
        match shard_position(old(shards)@, *bucket) {
            Some(k) => final(shards)@.len() == old(shards)@.len() && final(shards)@[k].lines == old(shards)@[k].lines + 1
                && final(shards)@[k].bucket == old(shards)@[k].bucket && final(shards)@[k].path == old(shards)@[k].path
                && forall|m: int| 0 <= m < old(shards)@.len() && m != k ==> #[trigger] final(shards)@[m] == old(shards)@[m],
            None => final(shards)@.len() == old(shards)@.len() + 1 && final(shards)@.drop_last() == old(shards)@
                && same_key(final(shards)@.last().bucket, *bucket) && final(shards)@.last().path@ == path@
                && final(shards)@.last().lines == 1,
        },
{
    let mut k: usize = 0;
    while k < shards.len()
        invariant
            0 <= k <= shards@.len(),
            shards@ == old(shards)@,
            forall|i: int, j: int| 0 <= i < j < shards@.len() ==> !same_key(#[trigger] shards@[i].bucket, #[trigger] shards@[j].bucket),
            forall|m: int| 0 <= m < shards@.len() ==> (#[trigger] shards@[m]).lines < u64::MAX,
            forall|m: int| 0 <= m < k ==> !same_key(#[trigger] shards@[m].bucket, *bucket),
        decreases shards@.len() - k,
    {
        if same_bucket_key(&shards[k].bucket, bucket) {
            let ghost before = shards@;
            proof {
                let c = choose|q: int| 0 <= q < before.len() && same_key(#[trigger] before[q].bucket, *bucket);
                if c != k {
                    if c < k {
                        assert(!same_key(before[c].bucket, *bucket));
                    } else {
                        assert(!same_key(before[k as int].bucket, before[c].bucket));
                    }
                }
                assert(shard_position(before, *bucket) == Some(k as int));
            }
            let mut entry = shards.remove(k);
            entry.lines = entry.lines + 1;
            shards.insert(k, entry);
            proof {
                assert forall|m: int| 0 <= m < before.len() && m != k implies #[trigger] shards@[m] == before[m] by {}
            }
            return false;
        }
        k = k + 1;
    }
    let entry = ShardSummary { bucket: copy_key(bucket), path: owned(path), lines: 1 };
    let ghost before = shards@;
    shards.push(entry);
    proof {
        assert(shards@.drop_last() == before);
    }
    true
}

/// The shards in bucket order.
pub fn sort_shards(shards: Vec<ShardSummary>) -> (r: Vec<ShardSummary>)
    ensures
        r@.to_multiset() == shards@.to_multiset(),
        forall|k: int| 0 <= k < r@.len() - 1 ==> !#[trigger] key_lt(r@[k + 1].bucket, r@[k].bucket),
{
    let mut sorted: Vec<ShardSummary> = Vec::new();
    let mut rest = shards;
    let ghost all = rest@;
    let ghost mut k: int = 0;
    assert(all.skip(0) == all);
    assert(all.take(0) =~= Seq::<ShardSummary>::empty());
    while rest.len() > 0
        invariant
            0 <= k <= all.len(),
            rest@ == all.skip(k),
            sorted@.to_multiset() == all.take(k).to_multiset(),
            forall|m: int| 0 <= m < sorted@.len() - 1 ==> !#[trigger] key_lt(sorted@[m + 1].bucket, sorted@[m].bucket),
        decreases rest.len(),
    {
        let b = rest.remove(0);
        proof {
            assert(b == all[k]);
            assert(rest@ =~= all.skip(k + 1));
        }
        let ghost before = sorted@;
        let mut p: usize = 0;
        while p < sorted.len() && !bucket_before(&b.bucket, &sorted[p].bucket)
            invariant
                0 <= p <= sorted@.len(),
                sorted@ == before,
                forall|m: int| 0 <= m < p ==> !key_lt(b.bucket, #[trigger] sorted@[m].bucket),
            decreases sorted.len() - p,
        {
            p = p + 1;
        }
        proof {
            if p < before.len() {
                lemma_key_lt_asymmetric(b.bucket, before[p as int].bucket);
            }
            vstd::seq_lib::to_multiset_insert(before, p as int, b);
            assert(all.take(k + 1) == all.take(k).push(b));
            vstd::seq_lib::to_multiset_build(all.take(k), b);
        }
        let ghost item = b;
        sorted.insert(p, b);
        proof {
            let after = sorted@;
            assert(after == before.insert(p as int, item));
            assert forall|m: int| 0 <= m < after.len() - 1 implies !#[trigger] key_lt(after[m + 1].bucket, after[m].bucket) by {
                if m + 1 < p {
                    assert(after[m] == before[m] && after[m + 1] == before[m + 1]);
                    assert(!key_lt(before[m + 1].bucket, before[m].bucket));
                } else if m + 1 == p {
                    assert(after[m] == before[m]);
                    assert(!key_lt(item.bucket, before[m].bucket));
                } else if m == p {
                    assert(after[m + 1] == before[m]);
                    assert(key_lt(item.bucket, before[m].bucket));
                } else {
                    assert(after[m] == before[m - 1] && after[m + 1] == before[m]);
                    assert(!key_lt(before[(m - 1) + 1].bucket, before[m - 1].bucket));
                }
            }
            k = k + 1;
        }
    }
    assert(all.take(k) == all);
    sorted
}


/// The path a source is classified by: relative to the corpus root when it lies under it, its
/// file name otherwise, and the path itself when it has no file name.
pub open spec fn classified_path(root: Seq<char>, source: Seq<char>) -> Seq<char> {
    match path_after_prefix(source, root) {
        Some(rest) if rest.len() > 0 => rest,
        _ => match path_file_name(source) {
            Some(name) => name,
            None => source,
        },
    }
}

/// The path a source is classified by; see [`classified_path`].
pub fn classification_path(corpus_root: &str, source_path: &str) -> (r: String)
    ensures
        r@ == classified_path(corpus_root@, source_path@),
{
    match strip_path_prefix(source_path, corpus_root) {
        Some(rest) => {
            if crate::text::to_chars(rest.as_str()).len() > 0 {
                return rest;
            }
        },
        None => {},
    }
    match file_name_of(source_path) {
        Some(name) => name,
        None => owned(source_path),
    }
}

/// Whether a line's outcome counts as fixed and as skipped, and how many lines it writes.
pub open spec fn outcome_counts(r: LineRepair) -> (nat, nat, nat) {
    let fixed: nat = if r.issue matches Some(i) && i.action == IssueAction::Fixed { 1 } else { 0 };
    let skipped: nat = if r.issue matches Some(i) && i.action == IssueAction::Skipped { 1 } else { 0 };
    (fixed, skipped, r.written@.len())
}

/// Count one line read and what became of it.
pub fn account_line(summary: &mut RepairSummary, repair: &LineRepair)
    requires
        old(summary).lines_read < u64::MAX,
        old(summary).lines_fixed < u64::MAX,
        old(summary).lines_skipped < u64::MAX,
        old(summary).lines_written + repair.written@.len() <= u64::MAX,
    ensures
        final(summary).lines_read == old(summary).lines_read + 1,
        final(summary).lines_fixed == old(summary).lines_fixed + outcome_counts(*repair).0,
        final(summary).lines_skipped == old(summary).lines_skipped + outcome_counts(*repair).1,
        final(summary).lines_written == old(summary).lines_written + outcome_counts(*repair).2,
        final(summary).fixed_corpus == old(summary).fixed_corpus,
        final(summary).issue_log == old(summary).issue_log,
        final(summary).files_read == old(summary).files_read,
        final(summary).source_issues == old(summary).source_issues,
        final(summary).shards == old(summary).shards,
{
    summary.lines_read = summary.lines_read + 1;
    match &repair.issue {
        Some(issue) => match issue.action {
            IssueAction::Fixed => summary.lines_fixed = summary.lines_fixed + 1,
            IssueAction::Skipped => summary.lines_skipped = summary.lines_skipped + 1,
        },
        None => {},
    }
    summary.lines_written = summary.lines_written + repair.written.len() as u64;
}

/// Every line read is accounted for exactly once: something is written for it or it is skipped,
/// never both and never neither; a line is logged as fixed only when what is written for it is
/// not the line as it was read, and whatever is skipped is logged.
pub proof fn law_every_line_is_written_or_skipped(
    r: LineRepair,
    bytes: Seq<u8>,
    config: CanonicalizationConfig,
    max_sentence_length: u32,
    with_text: bool,
)
    requires
        repair_is(r, bytes, config, max_sentence_length, with_text),
    ensures
        (if r.written@.len() > 0 { 1int } else { 0int }) + outcome_counts(r).1 == 1,
        outcome_counts(r).0 == 1 ==> r.written@.len() > 0 && valid_utf8(bytes) && texts(r.written@) != seq![decode_utf8(bytes)],
        r.written@.len() == 0 ==> r.issue is Some,
        r.written@.len() > 0 ==> valid_utf8(bytes) && (texts(r.written@) == seq![decode_utf8(bytes)] <==> r.issue is None),
{
    assert(texts(r.written@).len() == r.written@.len());
    if valid_utf8(bytes) {
        let text = decode_utf8(bytes);
        let canonical = canonical_line(config, text);
        let max = max_sentence_length as nat;
        if canonical_line(config, canonical) == canonical && encode_utf8(canonical).len() <= max {
            assert(r.written@.len() == 1);
            if canonical != text {
                assert(texts(r.written@)[0] != seq![text][0]);
            }
        }
        if canonical_line(config, canonical) == canonical && encode_utf8(canonical).len() > max && splits_safely(
            config,
            canonical,
            max,
        ) {
            lemma_chunks_of(canonical, max);
            let pieces = chunks_of(canonical, max);
            if canonical.len() == 0 {
                assert(encode_utf8(canonical) =~= Seq::<u8>::empty());
            }
            assert(texts(r.written@).len() == r.written@.len());
            if texts(r.written@) == seq![text] {
                assert(pieces.len() == 1);
                assert(pieces.drop_first() =~= Seq::<Seq<char>>::empty());
                assert(pieces.flatten() == pieces[0] + pieces.drop_first().flatten());
                assert(pieces[0] + Seq::<char>::empty() =~= pieces[0]);
                assert(encode_utf8(pieces[0]).len() <= max);
                assert(false);
            }
        }
    }
}

/// No text is lost and nothing written is too long: the lines written for a line, put back
/// together, are its canonical form, and each fits in `max_sentence_length` bytes.
pub proof fn law_written_lines_keep_the_text(
    r: LineRepair,
    bytes: Seq<u8>,
    config: CanonicalizationConfig,
    max_sentence_length: u32,
    with_text: bool,
)
    requires
        repair_is(r, bytes, config, max_sentence_length, with_text),
        r.written@.len() > 0,
    ensures
        valid_utf8(bytes),
        texts(r.written@).flatten() == canonical_line(config, decode_utf8(bytes)),
        forall|k: int| 0 <= k < r.written@.len() ==> encode_utf8(#[trigger] texts(r.written@)[k]).len() <= max_sentence_length,
{
    let text = decode_utf8(bytes);
    let canonical = canonical_line(config, text);
    let max = max_sentence_length as nat;
    if encode_utf8(canonical).len() > max {
        lemma_chunks_of(canonical, max);
    } else {
        let w = texts(r.written@);
        assert(w == seq![canonical]);
        assert(w.drop_first() =~= Seq::<Seq<char>>::empty());
        assert(w.flatten() == w[0] + w.drop_first().flatten());
        assert(canonical + Seq::<char>::empty() =~= canonical);
    }
}

} // verus!
