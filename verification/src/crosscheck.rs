//! What the corpus and the model say about each other.
//!
//! Everything else judges one artifact against the guide. These checks judge the two against
//! each other, which is the one thing neither checklist can do alone.
//!
//! A script must be at least a hundredth of the corpus before its vocabulary share is worth
//! judging: below that, a small allocation is proportionate rather than a defect. A script whose
//! share of the vocabulary is under a tenth of its share of the corpus is starved. A tenth is
//! far enough below parity that the alternative explanations run out, and the finding prints
//! both numbers so the call stays yours.

use vstd::prelude::*;

use crate::corpus::balance::{limit_source_text, long_lines, LimitSource};
use crate::corpus::scan::Counts;
use crate::format::{fine_percent_text, share_percent, share_text};
use crate::model::artifact::{inspectable_pieces, Artifact, Vocabulary};
use crate::model::budget::{pieces_per_script, pieces_with};
use crate::report::{shows, truncated, FailureMode, Finding, Remedy, Report, Severity, Status, MAX_EVIDENCE};
use crate::tally::{
    count_in, lemma_tallies_count, lemma_tally_unique, lemma_total_of_view, tally_count, tally_total, tally_wf, total_of,
};
use crate::text::{
    decimal, decimal_string, lemma_seq_lt_asymmetric, lemma_seq_lt_irreflexive, lemma_seq_lt_transitive, owned, push_str,
    seq_lt, str_lt,
};

verus! {

/// Pieces of the vocabulary that draw on the writing system `n`.
pub open spec fn vocabulary_pieces(v: Vocabulary, n: Seq<char>) -> nat {
    pieces_with(inspectable_pieces(v.entries()), n)
}

/// A tally of the pieces each writing system received.
pub open spec fn is_piece_tally(t: Seq<(&'static str, u64)>, v: Vocabulary) -> bool {
    tally_wf(t) && forall|n: Seq<char>| #[trigger] tally_count(t, n) == vocabulary_pieces(v, n)
}

/// The vocabulary spent on writing systems: a piece counts once for every system it draws on.
pub open spec fn piece_budget(v: Vocabulary) -> nat {
    tally_total(choose|t: Seq<(&'static str, u64)>| is_piece_tally(t, v))
}

/// Entry `i` of the corpus tally is material: at least a hundredth of the classified characters.
pub open spec fn material(t: Seq<(&'static str, u64)>, i: int) -> bool {
    100 * t[i].1 >= tally_total(t)
}

/// Entry `i` received less than a tenth of the vocabulary share its corpus share would give it.
pub open spec fn starved(t: Seq<(&'static str, u64)>, v: Vocabulary, i: int) -> bool {
    &&& material(t, i)
    &&& 10 * vocabulary_pieces(v, t[i].0@) * tally_total(t) < t[i].1 * piece_budget(v)
}

/// Entry `i` is starved worse than entry `j`: a smaller ratio of vocabulary share to corpus
/// share, then by name.
pub open spec fn starved_ahead(t: Seq<(&'static str, u64)>, v: Vocabulary, i: int, j: int) -> bool {
    let (pi, pj) = (vocabulary_pieces(v, t[i].0@), vocabulary_pieces(v, t[j].0@));
    pi * t[j].1 < pj * t[i].1 || (pi * t[j].1 == pj * t[i].1 && seq_lt(t[i].0@, t[j].0@))
}

/// `idx` lists every starved script, the worst first.
pub open spec fn is_starved_ranking(t: Seq<(&'static str, u64)>, v: Vocabulary, idx: Seq<int>) -> bool {
    &&& forall|a: int, b: int| 0 <= a < b < idx.len() ==> #[trigger] starved_ahead(t, v, idx[a], idx[b])
    &&& forall|j: int| idx.contains(j) <==> 0 <= j < t.len() && starved(t, v, j)
}

/// `Devanagari: 20.0% of corpus characters, 1.0% of the vocabulary (1 pieces)`.
pub open spec fn starved_line(t: Seq<(&'static str, u64)>, v: Vocabulary, i: int) -> Seq<char> {
    let pieces = vocabulary_pieces(v, t[i].0@);
    t[i].0@ + ": "@ + share_text(t[i].1 as nat, tally_total(t)) + " of corpus characters, "@ + share_text(
        pieces,
        piece_budget(v),
    ) + " of the vocabulary ("@ + decimal(pieces) + " pieces)"@
}

/// `r` is what comparing the corpus's scripts with the vocabulary they were given finds.
pub open spec fn coverage_is(r: Finding, t: Seq<(&'static str, u64)>, v: Vocabulary) -> bool {
    if tally_total(t) == 0 || piece_budget(v) == 0 {
        shows(
            r,
            "script_coverage"@,
            Status::Skipped,
            "the corpus or the vocabulary has no classified characters to compare"@,
            Seq::empty(),
            Severity::Medium,
            Remedy::FixCorpus,
        )
    } else {
        exists|idx: Seq<int>|
            {
                &&& #[trigger] is_starved_ranking(t, v, idx)
                &&& if idx.len() == 0 {
                    shows(
                        r,
                        "script_coverage"@,
                        Status::Passed,
                        "every script above 1% of the corpus has a proportionate vocabulary"@,
                        Seq::empty(),
                        Severity::Info,
                        Remedy::NotApplicable,
                    )
                } else {
                    &&& r.check@ == "script_coverage"@
                    &&& r.status == Status::Failed
                    &&& r.summary@ == (if idx.len() == 1 { "1 script"@ } else { decimal(idx.len()) + " scripts"@ })
                        + " received far less vocabulary than its share of the corpus"@
                    &&& r.evidence@.len() == if idx.len() < MAX_EVIDENCE { idx.len() } else { MAX_EVIDENCE as nat }
                    &&& forall|k: int| 0 <= k < r.evidence@.len() ==> #[trigger] r.evidence@[k]@ == starved_line(t, v, idx[k])
                    &&& r.severity == Severity::Medium
                    &&& r.remedy == Remedy::FixCorpus
                    &&& r.failure_mode is None
                }
            }
    }
}

/// Run the checks that need both halves.
pub fn check(corpus: &Counts, artifact: &Artifact, limit: usize) -> (r: Report)
    requires
        tally_wf(corpus.per_script@),
        tally_total(corpus.per_script@) <= u64::MAX,
        piece_budget(artifact.vocabulary) <= u64::MAX,
    ensures
        r.findings@.len() == 2,
        r.findings@[0].failure_mode == Some(FailureMode(15)),
        r.findings@[1].failure_mode == Some(FailureMode(13)),
        corpus.long_lines == 0 ==> r.findings@[0].status == Status::Passed,
        corpus.long_lines > 0 ==> {
            &&& r.findings@[0].status == Status::Failed
            &&& r.findings@[0].summary@ == decimal(corpus.long_lines as nat) + " of "@ + decimal(corpus.lines as nat)
                + " lines ("@ + fine_percent_text(
                corpus.long_lines as nat,
                if corpus.lines > 0 { corpus.lines as nat } else { 1 },
            ) + ") exceed "@ + decimal(limit as nat) + " bytes and will be dropped by the trainer"@
            &&& r.findings@[0].evidence@[0]@ == "the limit is "@ + limit_source_text(LimitSource::Model) + " ("@ + decimal(
                limit as nat,
            ) + " bytes)"@
        },
        r.findings@[0].check@ == "long_lines"@,
        ({
            let f = r.findings@[1];
            coverage_is(Finding { failure_mode: None, ..f }, corpus.per_script@, artifact.vocabulary)
        }),
{
    let lines = long_lines(corpus, limit, LimitSource::Model).about(15);
    let coverage = script_coverage(corpus, artifact);
    let ghost plain = coverage;
    let coverage = coverage.about(13);
    let r = Report::new(vec![lines, coverage]);
    proof {
        assert(Finding { failure_mode: None, ..coverage } == plain);
    }
    r
}

/// The line limit to scan a corpus against, taken from the model when it records one.
pub fn line_limit(artifact: &Artifact) -> (r: Option<usize>)
    ensures
        r == match artifact.trainer {
            Some(t) => Some(t.max_line_bytes),
            None => None::<usize>,
        },
{
    match &artifact.trainer {
        Some(trainer) => Some(trainer.max_line_bytes),
        None => None,
    }
}

/// Scripts the corpus is written in, against the vocabulary they were given.
///
/// The vocabulary budget follows frequency, so an under-represented script gets few merges and
/// its text fragments into short pieces. This catches that by comparing what a script
/// contributed to the corpus against what it received in the vocabulary. Fair shares are not
/// proportional (CJK needs far more pieces than Latin for the same fluency), so only the lopsided
/// case is graded, and the numbers travel with the finding either way.
pub fn script_coverage(corpus: &Counts, artifact: &Artifact) -> (r: Finding)
    requires
        tally_wf(corpus.per_script@),
        tally_total(corpus.per_script@) <= u64::MAX,
        piece_budget(artifact.vocabulary) <= u64::MAX,
    ensures
        coverage_is(r, corpus.per_script@, artifact.vocabulary),
        r.failure_mode is None,
{
    let ghost v = artifact.vocabulary;
    let ghost t = corpus.per_script@;
    let corpus_total = corpus.script_characters();
    let per_script = pieces_per_script(&artifact.vocabulary);
    proof {
        lemma_tallies_count(per_script@, |n: Seq<char>| pieces_with(inspectable_pieces(v.entries()), n));
        assert(is_piece_tally(per_script@, v));
        let c = choose|c: Seq<(&'static str, u64)>| is_piece_tally(c, v);
        assert forall|n: Seq<char>| #[trigger] tally_count(per_script@, n) == tally_count(c, n) by {}
        lemma_tally_unique(per_script@, c);
        lemma_total_of_view(per_script@, c);
    }
    let vocabulary_total = total_of(&per_script);
    if corpus_total == 0 || vocabulary_total == 0 {
        return Finding::skipped("script_coverage", "the corpus or the vocabulary has no classified characters to compare").graded(
            Severity::Medium,
            Remedy::FixCorpus,
        );
    }
    let scripts = &corpus.per_script;
    let mut ranked: Vec<usize> = Vec::new();
    let mut pieces_of: Vec<u64> = Vec::new();
    let mut i: usize = 0;
    while i < scripts.len()
        invariant
            0 <= i <= t.len(),
            t == scripts@,
            tally_wf(t),
            corpus_total == tally_total(t),
            vocabulary_total == piece_budget(v),
            corpus_total > 0,
            vocabulary_total > 0,
            is_piece_tally(per_script@, v),
            pieces_of@.len() == i,
            forall|m: int| 0 <= m < i ==> pieces_of@[m] == #[trigger] vocabulary_pieces(v, t[m].0@),
            forall|a: int, b: int| 0 <= a < b < ranked@.len() ==> #[trigger] starved_ahead(t, v, ranked@[a] as int, ranked@[b] as int),
            forall|m: int| 0 <= m < ranked@.len() ==> (#[trigger] ranked@[m] as int) < i && starved(t, v, ranked@[m] as int),
            forall|j: usize| j < i && starved(t, v, j as int) ==> #[trigger] ranked@.contains(j),
        decreases t.len() - i,
    {
        let (name, characters) = scripts[i];
        let pieces = count_in(&per_script, name);
        pieces_of.push(pieces);
        proof {
            assert(pieces_of@[i as int] == vocabulary_pieces(v, t[i as int].0@));
            lemma_product_fits(pieces as nat, corpus_total as nat);
            lemma_product_fits(characters as nat, vocabulary_total as nat);
            lemma_product_fits(characters as nat, 100);
        }
        let is_material = (characters as u128) * 100 >= corpus_total as u128;
        let given = (pieces as u128) * (corpus_total as u128);
        let owed = (characters as u128) * (vocabulary_total as u128);
        let is_starved = is_material && owed > 0 && given <= (owed - 1) / 10;
        proof {
            assert(is_starved == starved(t, v, i as int)) by {
                let (g, o) = (given as int, owed as int);
                assert(o > 0 && g <= (o - 1) / 10 <==> 10 * g < o) by (nonlinear_arith)
                    requires
                        g >= 0,
                        o >= 0,
                ;
                assert(10 * vocabulary_pieces(v, t[i as int].0@) * tally_total(t) == 10 * g) by (nonlinear_arith)
                    requires
                        g == pieces * corpus_total,
                        pieces == vocabulary_pieces(v, t[i as int].0@),
                        corpus_total == tally_total(t),
                ;
            }
        }
        if is_starved {
            let mut p: usize = 0;
            while p < ranked.len() && !starved_before(scripts, &pieces_of, i, ranked[p])
                invariant
                    0 <= p <= ranked@.len(),
                    i < t.len(),
                    t == scripts@,
                    tally_wf(t),
                    starved(t, v, i as int),
                    pieces_of@.len() == i + 1,
                    forall|m: int| 0 <= m <= i ==> pieces_of@[m] == #[trigger] vocabulary_pieces(v, t[m].0@),
                    forall|m: int| 0 <= m < ranked@.len() ==> (#[trigger] ranked@[m] as int) < i && starved(t, v, ranked@[m] as int),
                    forall|m: int| 0 <= m < p ==> starved_ahead(t, v, #[trigger] ranked@[m] as int, i as int),
                decreases ranked.len() - p,
            {
                proof {
                    assert(pieces_of@[i as int] == vocabulary_pieces(v, t[i as int].0@));
                    assert(pieces_of@[ranked@[p as int] as int] == vocabulary_pieces(v, t[ranked@[p as int] as int].0@));
                    lemma_starved_order(t, v, i as int, ranked@[p as int] as int, ranked@[p as int] as int);
                }
                p = p + 1;
            }
            proof {
                if p < ranked@.len() {
                    assert(pieces_of@[i as int] == vocabulary_pieces(v, t[i as int].0@));
                    assert(pieces_of@[ranked@[p as int] as int] == vocabulary_pieces(v, t[ranked@[p as int] as int].0@));
                }
            }
            let ghost old_ranked = ranked@;
            ranked.insert(p, i);
            proof {
                let nr = ranked@;
                assert(nr == old_ranked.insert(p as int, i));
                assert forall|a: int, b: int| 0 <= a < b < nr.len() implies #[trigger] starved_ahead(t, v, nr[a] as int, nr[b] as int) by {
                    if b < p {
                        assert(nr[a] == old_ranked[a] && nr[b] == old_ranked[b]);
                    } else if a > p {
                        assert(nr[a] == old_ranked[a - 1] && nr[b] == old_ranked[b - 1]);
                    } else if a < p && b == p {
                        assert(nr[a] == old_ranked[a]);
                    } else if a == p {
                        assert(nr[b] == old_ranked[b - 1]);
                        if b - 1 > p {
                            assert(starved_ahead(t, v, old_ranked[p as int] as int, old_ranked[b - 1] as int));
                            lemma_starved_order(t, v, i as int, old_ranked[p as int] as int, old_ranked[b - 1] as int);
                        }
                    } else {
                        assert(nr[a] == old_ranked[a] && nr[b] == old_ranked[b - 1]);
                        lemma_starved_order(t, v, old_ranked[a] as int, i as int, old_ranked[p as int] as int);
                        if b - 1 > p {
                            lemma_starved_order(t, v, old_ranked[a] as int, old_ranked[p as int] as int, old_ranked[b - 1] as int);
                        }
                    }
                }
                assert forall|m: int| 0 <= m < nr.len() implies (#[trigger] nr[m] as int) < i + 1 && starved(t, v, nr[m] as int) by {
                    if m < p {
                        assert(nr[m] == old_ranked[m]);
                    } else if m > p {
                        assert(nr[m] == old_ranked[m - 1]);
                    }
                }
                assert forall|j: usize| j < i + 1 && starved(t, v, j as int) implies #[trigger] nr.contains(j) by {
                    if j == i {
                        assert(nr[p as int] == j);
                    } else {
                        assert(old_ranked.contains(j));
                        let m = choose|m: int| 0 <= m < old_ranked.len() && old_ranked[m] == j;
                        if m < p {
                            assert(nr[m] == old_ranked[m]);
                        } else {
                            assert(nr[m + 1] == old_ranked[m]);
                        }
                    }
                }
            }
        }
        i = i + 1;
    }
    let ghost idx = ranked@.map_values(|u: usize| u as int);
    proof {
        assert forall|a: int, b: int| 0 <= a < b < idx.len() implies #[trigger] starved_ahead(t, v, idx[a], idx[b]) by {
            assert(starved_ahead(t, v, ranked@[a] as int, ranked@[b] as int));
        }
        assert forall|j: int| idx.contains(j) <==> 0 <= j < t.len() && starved(t, v, j) by {
            if idx.contains(j) {
                let m = choose|m: int| 0 <= m < idx.len() && idx[m] == j;
                assert(ranked@[m] as int == j);
            }
            if 0 <= j < t.len() && starved(t, v, j) {
                assert(ranked@.contains(j as usize));
                let m = choose|m: int| 0 <= m < ranked@.len() && ranked@[m] == j as usize;
                assert(idx[m] == j);
            }
        }
        assert(is_starved_ranking(t, v, idx));
    }
    if ranked.len() == 0 {
        return Finding::passed("script_coverage", "every script above 1% of the corpus has a proportionate vocabulary");
    }
    let shown: usize = if ranked.len() < MAX_EVIDENCE { ranked.len() } else { MAX_EVIDENCE };
    let mut lines: Vec<String> = Vec::new();
    let mut k: usize = 0;
    while k < shown
        invariant
            0 <= k <= shown,
            shown <= ranked@.len(),
            shown == if idx.len() < MAX_EVIDENCE { idx.len() } else { MAX_EVIDENCE as nat },
            idx == ranked@.map_values(|u: usize| u as int),
            is_starved_ranking(t, v, idx),
            t == scripts@,
            corpus_total == tally_total(t),
            vocabulary_total == piece_budget(v),
            corpus_total > 0,
            vocabulary_total > 0,
            pieces_of@.len() == t.len(),
            forall|m: int| 0 <= m < t.len() ==> pieces_of@[m] == #[trigger] vocabulary_pieces(v, t[m].0@),
            lines@.len() == k,
            forall|q: int| 0 <= q < k ==> #[trigger] lines@[q]@ == starved_line(t, v, idx[q]),
        decreases shown - k,
    {
        let j = ranked[k];
        proof {
            assert(idx[k as int] == j as int);
            assert(idx.contains(j as int));
        }
        let (name, characters) = scripts[j];
        let pieces = pieces_of[j];
        let mut line = owned(name);
        push_str(&mut line, ": ");
        push_str(&mut line, share_percent(characters, corpus_total).as_str());
        push_str(&mut line, " of corpus characters, ");
        push_str(&mut line, share_percent(pieces, vocabulary_total).as_str());
        push_str(&mut line, " of the vocabulary (");
        push_str(&mut line, decimal_string(pieces).as_str());
        push_str(&mut line, " pieces)");
        lines.push(line);
        k = k + 1;
    }
    let mut summary = if ranked.len() == 1 {
        owned("1 script")
    } else {
        let mut s = decimal_string(ranked.len() as u64);
        push_str(&mut s, " scripts");
        s
    };
    push_str(&mut summary, " received far less vocabulary than its share of the corpus");
    let ghost shown_lines = lines@;
    let r = Finding::failed("script_coverage", summary.as_str()).with_evidence(lines).graded(Severity::Medium, Remedy::FixCorpus);
    proof {
        assert(truncated(shown_lines) == shown_lines);
    }
    r
}

proof fn lemma_product_fits(a: nat, b: nat)
    requires
        a <= u64::MAX,
        b <= u64::MAX,
    ensures
        a * b <= u128::MAX,
{
    assert(a * b <= u64::MAX * u64::MAX) by (nonlinear_arith)
        requires
            a <= u64::MAX,
            b <= u64::MAX,
    ;
}

/// Ranking starved scripts is a strict total order on the material entries of a tally in good
/// order.
proof fn lemma_starved_order(t: Seq<(&'static str, u64)>, v: Vocabulary, i: int, j: int, k: int)
    requires
        tally_wf(t),
        0 <= i < t.len(),
        0 <= j < t.len(),
        0 <= k < t.len(),
    ensures
        !starved_ahead(t, v, i, i),
        starved_ahead(t, v, i, j) ==> !starved_ahead(t, v, j, i),
        i != j ==> starved_ahead(t, v, i, j) || starved_ahead(t, v, j, i),
        starved_ahead(t, v, i, j) && starved_ahead(t, v, j, k) ==> starved_ahead(t, v, i, k),
{
    let (ni, nj, nk) = (t[i].0@, t[j].0@, t[k].0@);
    lemma_seq_lt_irreflexive(ni);
    lemma_seq_lt_asymmetric(ni, nj);
    if i != j {
        if i < j {
            assert(seq_lt(crate::tally::tally_names(t)[i], crate::tally::tally_names(t)[j]));
        } else {
            assert(seq_lt(crate::tally::tally_names(t)[j], crate::tally::tally_names(t)[i]));
        }
    }
    if seq_lt(ni, nj) && seq_lt(nj, nk) {
        lemma_seq_lt_transitive(ni, nj, nk);
    }
    assert(t[i].1 > 0 && t[j].1 > 0 && t[k].1 > 0);
    let (pi, pj, pk) = (vocabulary_pieces(v, ni), vocabulary_pieces(v, nj), vocabulary_pieces(v, nk));
    let (ci, cj, ck) = (t[i].1 as nat, t[j].1 as nat, t[k].1 as nat);
    assert(pi * cj < pj * ci && pj * ck < pk * cj ==> pi * ck < pk * ci) by (nonlinear_arith)
        requires
            ci > 0,
            cj > 0,
            ck > 0,
    ;
    assert(pi * cj < pj * ci && pj * ck == pk * cj ==> pi * ck < pk * ci) by (nonlinear_arith)
        requires
            ci > 0,
            cj > 0,
            ck > 0,
    ;
    assert(pi * cj == pj * ci && pj * ck < pk * cj ==> pi * ck < pk * ci) by (nonlinear_arith)
        requires
            ci > 0,
            cj > 0,
            ck > 0,
    ;
    assert(pi * cj == pj * ci && pj * ck == pk * cj ==> pi * ck == pk * ci) by (nonlinear_arith)
        requires
            ci > 0,
            cj > 0,
            ck > 0,
    ;
}

/// Whether the script at entry `i` is starved worse than the one at entry `j`.
fn starved_before(scripts: &Vec<(&'static str, u64)>, pieces_of: &Vec<u64>, i: usize, j: usize) -> (r: bool)
    requires
        i < scripts@.len(),
        j < scripts@.len(),
        i < pieces_of@.len(),
        j < pieces_of@.len(),
    ensures
        ({
            let (pi, pj) = (pieces_of@[i as int] as nat, pieces_of@[j as int] as nat);
            let (ci, cj) = (scripts@[i as int].1 as nat, scripts@[j as int].1 as nat);
            r == (pi * cj < pj * ci || (pi * cj == pj * ci && seq_lt(scripts@[i as int].0@, scripts@[j as int].0@)))
        }),
{
    let (ni, ci) = scripts[i];
    let (nj, cj) = scripts[j];
    let (pi, pj) = (pieces_of[i], pieces_of[j]);
    proof {
        lemma_product_fits(pi as nat, cj as nat);
        lemma_product_fits(pj as nat, ci as nat);
    }
    let (a, b) = ((pi as u128) * (cj as u128), (pj as u128) * (ci as u128));
    a < b || (a == b && str_lt(ni, nj))
}

} // verus!
