//! Checks that read the vocabulary itself.
//!
//! What the trained artifact says about the corpus behind it. Every one of these is a statement
//! over the whole inventory rather than over a sample, so a pass here means the property holds
//! for every input the tokenizer can ever be given.

use vstd::prelude::*;

use crate::model::artifact::{inspectable_pieces, surface, surface_text, Piece, Trainer, Vocabulary};
use crate::report::{shows, shows_pass, Finding, Remedy, Severity, Status};
use crate::text::{
    debug_quoted, debug_text, decimal, decimal_string, from_chars, joined, lemma_views_push, owned,
    push_str, str_eq, trim, trimmed, views,
};
use crate::unicode::{is_nfc, nfc, nfc_of};
use crate::writing::{all_digits, is_all_digits, names_in, writing_names, writing_systems_in};

verus! {

/// A digit-only piece longer than this teaches the decoder to reproduce familiar numbers.
pub const DEFAULT_MAX_DIGIT_PIECE_LENGTH: usize = 1;

/// The evidence a finding keeps of a list: its first five lines.
pub open spec fn first_evidence(lines: Seq<Seq<char>>) -> Seq<Seq<char>> {
    if lines.len() <= 5 {
        lines
    } else {
        lines.take(5)
    }
}

/// A piece whose text, read as it renders and trimmed, is a run of more than `max` digits.
pub open spec fn is_digit_offender(p: Piece, max: nat) -> bool {
    all_digits(trimmed(surface_text(p.text@))) && trimmed(surface_text(p.text@)).len() > max
}

/// The raw text of each digit offender, quoted: `250` and `▁250` are distinct entries.
pub open spec fn digit_offenders(pieces: Seq<Piece>, max: nat) -> Seq<Seq<char>>
    decreases pieces.len(),
{
    if pieces.len() == 0 {
        Seq::empty()
    } else if is_digit_offender(pieces.last(), max) {
        digit_offenders(pieces.drop_last(), max).push(debug_text(pieces.last().text@))
    } else {
        digit_offenders(pieces.drop_last(), max)
    }
}

proof fn lemma_evidence_of(f: Finding, lines: Seq<String>)
    requires
        f.evidence@ == crate::report::truncated(lines),
    ensures
        f.evidence@.len() == first_evidence(views(lines)).len(),
        forall|i: int| 0 <= i < first_evidence(views(lines)).len() ==> #[trigger] f.evidence@[i]@ == first_evidence(views(lines))[i],
{
}

/// What `digit_pieces` reports.
pub open spec fn digit_pieces_is(f: Finding, vocabulary: Vocabulary, max_length: usize) -> bool {
    &&& {
            let offenders = digit_offenders(inspectable_pieces(vocabulary.entries()), max_length as nat);
            &&& offenders.len() == 0 ==> shows_pass(f, "digit_pieces"@,
                "no digit-only piece longer than "@ + decimal(max_length as nat))
            &&& offenders.len() > 0 ==> shows(f, "digit_pieces"@, Status::Failed,
                decimal(offenders.len()) + " digit-only pieces exceed "@ + decimal(max_length as nat) + " characters"@,
                first_evidence(offenders), Severity::High, Remedy::RetrainConfig)
        }
}

/// No digit-only piece longer than `max_length` characters.
///
/// A merged multi-digit token trains the model to reproduce frequent numbers rather than read
/// the digits on the page.
pub fn digit_pieces(vocabulary: &Vocabulary, max_length: usize) -> (f: Finding)
    ensures
        digit_pieces_is(f, *vocabulary, max_length),
{
    let pieces = vocabulary.inspectable();
    let ghost ps = pieces@.map_values(|p: &Piece| *p);
    let mut offenders: Vec<String> = Vec::new();
    let mut i: usize = 0;
    while i < pieces.len()
        invariant
            0 <= i <= pieces@.len(),
            ps == pieces@.map_values(|p: &Piece| *p),
            views(offenders@) == digit_offenders(ps.take(i as int), max_length as nat),
            offenders@.len() <= i,
        decreases pieces.len() - i,
    {
        let piece = pieces[i];
        proof {
            assert(ps.take(i + 1).drop_last() == ps.take(i as int));
            assert(ps.take(i + 1).last() == *piece);
        }
        let text = surface(piece.text.as_str());
        let trimmed_text = trim(text.as_str());
        let shown = from_chars(trimmed_text.as_slice());
        if is_all_digits(shown.as_str()) && trimmed_text.len() > max_length {
            let quoted = debug_quoted(piece.text.as_str());
            let ghost before = offenders@;
            offenders.push(quoted);
            proof { lemma_views_push(before, quoted); }
        }
        i = i + 1;
    }
    assert(ps.take(i as int) == ps);
    if offenders.len() == 0 {
        let mut summary = owned("no digit-only piece longer than ");
        push_str(&mut summary, decimal_string(max_length as u64).as_str());
        return Finding::passed("digit_pieces", summary.as_str());
    }
    let mut summary = decimal_string(offenders.len() as u64);
    push_str(&mut summary, " digit-only pieces exceed ");
    push_str(&mut summary, decimal_string(max_length as u64).as_str());
    push_str(&mut summary, " characters");
    let ghost lines = offenders@;
    let f = Finding::failed("digit_pieces", summary.as_str()).with_evidence(offenders).graded(
        Severity::High,
        Remedy::RetrainConfig,
    );
    proof { lemma_evidence_of(f, lines); }
    f
}

/// The writing systems a piece's text is reported as spanning: every one present, or every one
/// but `Digit` when digits do not count as a script.
pub open spec fn shown_names(text: Seq<char>, digits_are_a_script: bool) -> Seq<Seq<char>> {
    if digits_are_a_script {
        names_in(text)
    } else {
        names_in(text).filter(|n: Seq<char>| n != "Digit"@)
    }
}

/// Each piece spanning more than one writing system, with the systems it spans.
pub open spec fn cross_offenders(pieces: Seq<Piece>, digits_are_a_script: bool) -> Seq<Seq<char>>
    decreases pieces.len(),
{
    if pieces.len() == 0 {
        Seq::empty()
    } else {
        let text = surface_text(pieces.last().text@);
        let names = shown_names(text, digits_are_a_script);
        if names.len() > 1 {
            cross_offenders(pieces.drop_last(), digits_are_a_script).push(
                debug_text(text) + " spans "@ + joined(names, "+"@),
            )
        } else {
            cross_offenders(pieces.drop_last(), digits_are_a_script)
        }
    }
}

fn spans(text: &str, digits_are_a_script: bool) -> (r: Vec<&'static str>)
    ensures
        r@.map_values(|n: &'static str| n@) == shown_names(text@, digits_are_a_script),
{
    let present = writing_systems_in(text);
    let ghost all = writing_names(present@);
    let ghost pred = |n: Seq<char>| n != "Digit"@;
    let mut names: Vec<&'static str> = Vec::new();
    let mut i: usize = 0;
    while i < present.len()
        invariant
            0 <= i <= present@.len(),
            all == writing_names(present@),
            all == names_in(text@),
            pred == (|n: Seq<char>| n != "Digit"@),
            digits_are_a_script ==> names@.map_values(|n: &'static str| n@) == all.take(i as int),
            !digits_are_a_script ==> names@.map_values(|n: &'static str| n@) == all.take(i as int).filter(pred),
        decreases present.len() - i,
    {
        let name = present[i].name();
        proof {
            assert(all.take(i + 1).drop_last() == all.take(i as int));
            assert(all.take(i + 1).last() == name@);
            reveal_with_fuel(Seq::filter, 1);
        }
        let ghost before = names@;
        if digits_are_a_script || !str_eq(name, "Digit") {
            names.push(name);
            proof {
                assert(names@.map_values(|n: &'static str| n@) =~= before.map_values(|n: &'static str| n@).push(name@));
            }
        }
        i = i + 1;
    }
    assert(all.take(i as int) == all);
    names
}

fn join_names(names: &Vec<&'static str>, sep: &str) -> (r: String)
    ensures
        r@ == joined(names@.map_values(|n: &'static str| n@), sep@),
{
    let ghost vs = names@.map_values(|n: &'static str| n@);
    let mut out = String::new();
    let mut m: usize = 0;
    while m < names.len()
        invariant
            0 <= m <= names@.len(),
            vs == names@.map_values(|n: &'static str| n@),
            out@ == joined(vs.take(m as int), sep@),
        decreases names.len() - m,
    {
        proof {
            assert(vs.take(m + 1).drop_last() == vs.take(m as int));
            assert(vs.take(m + 1).last() == names@[m as int]@);
        }
        if m > 0 {
            push_str(&mut out, sep);
        }
        push_str(&mut out, names[m]);
        proof {
            if m == 0 {
                assert(vs.take(1)[0] == names@[0]@);
            }
        }
        m = m + 1;
    }
    assert(vs.take(m as int) == vs);
    out
}

/// What `cross_script_pieces` reports.
pub open spec fn cross_script_pieces_is(f: Finding, vocabulary: Vocabulary, digits_are_a_script: bool) -> bool {
    &&& {
            let offenders = cross_offenders(inspectable_pieces(vocabulary.entries()), digits_are_a_script);
            &&& offenders.len() == 0 ==> shows_pass(f, "cross_script_pieces"@,
                "no cross-script pieces in the vocabulary"@)
            &&& offenders.len() > 0 ==> shows(f, "cross_script_pieces"@, Status::Failed,
                decimal(offenders.len()) + " vocabulary pieces span more than one script"@,
                first_evidence(offenders), Severity::High, Remedy::RetrainConfig)
        }
}

/// No piece may straddle two writing systems.
///
/// A piece spanning Latin and Han spends a vocabulary slot on a sequence that occurs only at
/// incidental boundaries, and adds a confusable class.
pub fn cross_script_pieces(vocabulary: &Vocabulary, digits_are_a_script: bool) -> (f: Finding)
    ensures
        cross_script_pieces_is(f, *vocabulary, digits_are_a_script),
{
    let pieces = vocabulary.inspectable();
    let ghost ps = pieces@.map_values(|p: &Piece| *p);
    let mut offenders: Vec<String> = Vec::new();
    let mut i: usize = 0;
    while i < pieces.len()
        invariant
            0 <= i <= pieces@.len(),
            ps == pieces@.map_values(|p: &Piece| *p),
            views(offenders@) == cross_offenders(ps.take(i as int), digits_are_a_script),
            offenders@.len() <= i,
        decreases pieces.len() - i,
    {
        let piece = pieces[i];
        proof {
            assert(ps.take(i + 1).drop_last() == ps.take(i as int));
            assert(ps.take(i + 1).last() == *piece);
        }
        let text = surface(piece.text.as_str());
        let names = spans(text.as_str(), digits_are_a_script);
        if names.len() > 1 {
            let mut line = debug_quoted(text.as_str());
            push_str(&mut line, " spans ");
            push_str(&mut line, join_names(&names, "+").as_str());
            let ghost before = offenders@;
            offenders.push(line);
            proof { lemma_views_push(before, line); }
        }
        i = i + 1;
    }
    assert(ps.take(i as int) == ps);
    if offenders.len() == 0 {
        return Finding::passed("cross_script_pieces", "no cross-script pieces in the vocabulary");
    }
    let mut summary = decimal_string(offenders.len() as u64);
    push_str(&mut summary, " vocabulary pieces span more than one script");
    let ghost lines = offenders@;
    let f = Finding::failed("cross_script_pieces", summary.as_str()).with_evidence(offenders).graded(
        Severity::High,
        Remedy::RetrainConfig,
    );
    proof { lemma_evidence_of(f, lines); }
    f
}

/// Each piece not in NFC, with the form it should have.
pub open spec fn nfc_offenders(pieces: Seq<Piece>) -> Seq<Seq<char>>
    decreases pieces.len(),
{
    if pieces.len() == 0 {
        Seq::empty()
    } else {
        let text = pieces.last().text@;
        if nfc_of(text) != text {
            nfc_offenders(pieces.drop_last()).push(debug_text(text) + " should be "@ + debug_text(nfc_of(text)))
        } else {
            nfc_offenders(pieces.drop_last())
        }
    }
}

/// What `nfc_vocabulary` reports.
pub open spec fn nfc_vocabulary_is(f: Finding, vocabulary: Vocabulary) -> bool {
    &&& {
            let offenders = nfc_offenders(inspectable_pieces(vocabulary.entries()));
            &&& offenders.len() == 0 ==> shows_pass(f, "nfc_vocabulary"@, "every vocabulary piece is in NFC"@)
            &&& offenders.len() > 0 ==> shows(f, "nfc_vocabulary"@, Status::Failed,
                decimal(offenders.len()) + " vocabulary pieces are not NFC \u{2014} the corpus mixed NFC and NFD"@,
                first_evidence(offenders), Severity::Blocker, Remedy::FixCorpus)
        }
}

/// Every piece must already be in NFC.
///
/// A corpus mixing NFC and NFD trains a tokenizer where composed and decomposed forms of the same
/// text are unrelated token sequences. A round-trip cannot see the defect; the vocabulary can.
/// The signal is one-directional: non-NFC pieces prove the corpus carried decomposed text.
pub fn nfc_vocabulary(vocabulary: &Vocabulary) -> (f: Finding)
    ensures
        nfc_vocabulary_is(f, *vocabulary),
{
    let pieces = vocabulary.inspectable();
    let ghost ps = pieces@.map_values(|p: &Piece| *p);
    let mut offenders: Vec<String> = Vec::new();
    let mut i: usize = 0;
    while i < pieces.len()
        invariant
            0 <= i <= pieces@.len(),
            ps == pieces@.map_values(|p: &Piece| *p),
            views(offenders@) == nfc_offenders(ps.take(i as int)),
            offenders@.len() <= i,
        decreases pieces.len() - i,
    {
        let piece = pieces[i];
        proof {
            assert(ps.take(i + 1).drop_last() == ps.take(i as int));
            assert(ps.take(i + 1).last() == *piece);
        }
        if !is_nfc(piece.text.as_str()) {
            let composed = nfc(piece.text.as_str());
            let mut line = debug_quoted(piece.text.as_str());
            push_str(&mut line, " should be ");
            push_str(&mut line, debug_quoted(composed.as_str()).as_str());
            let ghost before = offenders@;
            offenders.push(line);
            proof { lemma_views_push(before, line); }
        }
        i = i + 1;
    }
    assert(ps.take(i as int) == ps);
    if offenders.len() == 0 {
        return Finding::passed("nfc_vocabulary", "every vocabulary piece is in NFC");
    }
    let mut summary = decimal_string(offenders.len() as u64);
    push_str(&mut summary, " vocabulary pieces are not NFC \u{2014} the corpus mixed NFC and NFD");
    let ghost lines = offenders@;
    let f = Finding::failed("nfc_vocabulary", summary.as_str()).with_evidence(offenders).graded(
        Severity::Blocker,
        Remedy::FixCorpus,
    );
    proof { lemma_evidence_of(f, lines); }
    f
}

/// Whether a user-defined piece of the vocabulary spells `text`.
pub open spec fn declared_piece(pieces: Seq<Piece>, text: Seq<char>) -> bool {
    exists|i: int| 0 <= i < pieces.len() && pieces[i].kind == crate::model::artifact::Kind::UserDefined
        && #[trigger] pieces[i].text@ == text
}

/// Each declared symbol that is not a user-defined piece.
pub open spec fn missing_symbols(symbols: Seq<String>, pieces: Seq<Piece>) -> Seq<Seq<char>>
    decreases symbols.len(),
{
    if symbols.len() == 0 {
        Seq::empty()
    } else if declared_piece(pieces, symbols.last()@) {
        missing_symbols(symbols.drop_last(), pieces)
    } else {
        missing_symbols(symbols.drop_last(), pieces).push(
            debug_text(symbols.last()@) + " is declared but not in the vocabulary as one piece"@,
        )
    }
}

/// What `protected_symbols` reports.
pub open spec fn protected_symbols_is(f: Finding, vocabulary: Vocabulary, trainer: Trainer) -> bool {
    &&& {
            let declared = trainer.user_defined_symbols@;
            let missing = missing_symbols(declared, vocabulary.entries());
            &&& declared.len() == 0 ==> shows(f, "protected_symbols"@, Status::Skipped,
                "the model declares no user_defined_symbols"@, Seq::empty(), Severity::High, Remedy::RetrainConfig)
            &&& declared.len() > 0 && missing.len() == 0 ==> shows_pass(f, "protected_symbols"@,
                "all "@ + decimal(declared.len()) + " protected symbols are atomic"@)
            &&& declared.len() > 0 && missing.len() > 0 ==> shows(f, "protected_symbols"@, Status::Failed,
                decimal(missing.len()) + " of "@ + decimal(declared.len()) + " protected symbols did not survive training"@,
                first_evidence(missing), Severity::High, Remedy::RetrainConfig)
        }
}

/// Every declared `user_defined_symbols` entry must be present as a user-defined piece.
///
/// The symbols come from the model's own trainer spec rather than from the operator, so this
/// checks what was actually requested.
pub fn protected_symbols(vocabulary: &Vocabulary, trainer: &Trainer) -> (f: Finding)
    ensures
        protected_symbols_is(f, *vocabulary, *trainer),
{
    let symbols = &trainer.user_defined_symbols;
    if symbols.len() == 0 {
        return Finding::skipped("protected_symbols", "the model declares no user_defined_symbols").graded(
            Severity::High,
            Remedy::RetrainConfig,
        );
    }
    let mut missing: Vec<String> = Vec::new();
    let mut i: usize = 0;
    while i < symbols.len()
        invariant
            0 <= i <= symbols@.len(),
            symbols@ == trainer.user_defined_symbols@,
            views(missing@) == missing_symbols(symbols@.take(i as int), vocabulary.entries()),
            missing@.len() <= i,
        decreases symbols.len() - i,
    {
        proof {
            assert(symbols@.take(i + 1).drop_last() == symbols@.take(i as int));
            assert(symbols@.take(i + 1).last() == symbols@[i as int]);
        }
        if !vocabulary.has_user_defined(symbols[i].as_str()) {
            let mut line = debug_quoted(symbols[i].as_str());
            push_str(&mut line, " is declared but not in the vocabulary as one piece");
            let ghost before = missing@;
            missing.push(line);
            proof { lemma_views_push(before, line); }
        }
        i = i + 1;
    }
    assert(symbols@.take(i as int) == symbols@);
    let declared = symbols.len();
    if missing.len() == 0 {
        let mut summary = owned("all ");
        push_str(&mut summary, decimal_string(declared as u64).as_str());
        push_str(&mut summary, " protected symbols are atomic");
        return Finding::passed("protected_symbols", summary.as_str());
    }
    let mut summary = decimal_string(missing.len() as u64);
    push_str(&mut summary, " of ");
    push_str(&mut summary, decimal_string(declared as u64).as_str());
    push_str(&mut summary, " protected symbols did not survive training");
    let ghost lines = missing@;
    let f = Finding::failed("protected_symbols", summary.as_str()).with_evidence(missing).graded(
        Severity::High,
        Remedy::RetrainConfig,
    );
    proof { lemma_evidence_of(f, lines); }
    f
}

} // verus!
