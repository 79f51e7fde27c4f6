//! How the vocabulary budget was spent, per writing system.
//!
//! A script the trainer allocated almost no pieces to has learned no merges, so its text can
//! only come out as short pieces, which is what high fertility is. The split on its own is not
//! a finding: once the corpus is present, the cross-check answers the same question with a
//! verdict. So this module supplies the tally and states no opinion.

use vstd::prelude::*;

use crate::model::artifact::{inspectable_pieces, surface, surface_text, Piece, Vocabulary};
use crate::tally::{add_count, tallies, tally_names};
use crate::text::{lemma_seq_lt_irreflexive, seq_lt, strictly_sorted};
use crate::writing::{names_in, present_in, writing_names, writing_systems_in};

verus! {

/// How many of the pieces draw on the writing system `name`.
pub open spec fn pieces_with(pieces: Seq<Piece>, name: Seq<char>) -> nat
    decreases pieces.len(),
{
    if pieces.len() == 0 {
        0
    } else {
        pieces_with(pieces.drop_last(), name) + if present_in(surface_text(pieces.last().text@), name) {
            1nat
        } else {
            0nat
        }
    }
}

proof fn lemma_pieces_with_bounded(pieces: Seq<Piece>, name: Seq<char>)
    ensures
        pieces_with(pieces, name) <= pieces.len(),
    decreases pieces.len(),
{
    if pieces.len() > 0 {
        lemma_pieces_with_bounded(pieces.drop_last(), name);
    }
}

/// Pieces attributed to each writing system, listed by name.
///
/// A piece counts once for every system it draws on, so a cross-script piece is counted under
/// both. That is deliberate: it is the same double count the cross-script check reports as a
/// defect, and hiding it here would make the budget look tidier than the vocabulary is.
pub fn pieces_per_script(vocabulary: &Vocabulary) -> (r: Vec<(&'static str, u64)>)
    ensures
        tallies(r@, |n: Seq<char>| pieces_with(inspectable_pieces(vocabulary.entries()), n)),
{
    let pieces = vocabulary.inspectable();
    let ghost ps = pieces@.map_values(|p: &Piece| *p);
    let mut table: Vec<(&'static str, u64)> = Vec::new();
    let mut i: usize = 0;
    proof {
        assert(ps.take(0) =~= Seq::<Piece>::empty());
        assert forall|n: Seq<char>| tally_names(table@).contains(n) <==> pieces_with(ps.take(0), n) > 0 by {
            if tally_names(table@).contains(n) {
                let k = choose|k: int| 0 <= k < tally_names(table@).len() && tally_names(table@)[k] == n;
            }
        }
    }
    while i < pieces.len()
        invariant
            0 <= i <= pieces@.len(),
            ps == pieces@.map_values(|p: &Piece| *p),
            tallies(table@, |n: Seq<char>| pieces_with(ps.take(i as int), n)),
        decreases pieces.len() - i,
    {
        let piece = pieces[i];
        let ghost prefix = ps.take(i as int);
        proof {
            assert(ps.take(i + 1).drop_last() == prefix);
            assert(ps.take(i + 1).last() == *piece);
        }
        let text = surface(piece.text.as_str());
        let present = writing_systems_in(text.as_str());
        let ghost names = writing_names(present@);
        proof {
            assert(strictly_sorted(names_in(text@)) && forall|n: Seq<char>| names_in(text@).contains(n) <==> present_in(text@, n));
        }
        let mut k: usize = 0;
        while k < present.len()
            invariant
                0 <= k <= present@.len(),
                i < pieces@.len(),
                ps == pieces@.map_values(|p: &Piece| *p),
                prefix == ps.take(i as int),
                names == writing_names(present@),
                names == names_in(text@),
                forall|n: Seq<char>| names.contains(n) <==> present_in(text@, n),
                strictly_sorted(names),
                text@ == surface_text((*piece).text@),
                tallies(table@, |n: Seq<char>| pieces_with(prefix, n) + if names.take(k as int).contains(n) { 1nat } else { 0nat }),
            decreases present.len() - k,
        {
            let name = present[k].name();
            let ghost before = |n: Seq<char>| pieces_with(prefix, n) + if names.take(k as int).contains(n) { 1nat } else { 0nat };
            let ghost after = |n: Seq<char>| pieces_with(prefix, n) + if names.take(k + 1).contains(n) { 1nat } else { 0nat };
            proof {
                assert(names[k as int] == name@);
                assert(!names.take(k as int).contains(name@)) by {
                    if names.take(k as int).contains(name@) {
                        let j = choose|j: int| 0 <= j < k && names.take(k as int)[j] == name@;
                        assert(seq_lt(names[j], names[k as int]));
                        lemma_seq_lt_irreflexive(name@);
                    }
                }
                lemma_pieces_with_bounded(prefix, name@);
                assert forall|n: Seq<char>| #[trigger] after(n) == before(n) + if n == name@ { 1nat } else { 0nat } by {
                    assert(names.take(k + 1) == names.take(k as int).push(name@));
                    let longer = names.take(k + 1);
                    if longer.contains(n) && n != name@ {
                        let j = choose|j: int| 0 <= j < longer.len() && longer[j] == n;
                        assert(names.take(k as int)[j] == n);
                    }
                    if names.take(k as int).contains(n) {
                        let j = choose|j: int| 0 <= j < k && names.take(k as int)[j] == n;
                        assert(names.take(k + 1)[j] == n);
                    }
                    if n == name@ {
                        assert(names.take(k + 1)[k as int] == n);
                    }
                }
            }
            add_count(&mut table, name, 1, Ghost(before), Ghost(after));
            k = k + 1;
        }
        proof {
            assert(names.take(k as int) == names);
            assert forall|n: Seq<char>| #[trigger] pieces_with(ps.take(i + 1), n) == pieces_with(prefix, n) + if names.contains(n) { 1nat } else { 0nat } by {
            }
            assert(tallies(table@, |n: Seq<char>| pieces_with(ps.take(i + 1), n))) by {
                let f1 = |n: Seq<char>| pieces_with(prefix, n) + if names.take(k as int).contains(n) { 1nat } else { 0nat };
                let f2 = |n: Seq<char>| pieces_with(ps.take(i + 1), n);
                assert forall|n: Seq<char>| #[trigger] f1(n) == f2(n) by {}
                assert(f1 =~= f2);
            }
        }
        i = i + 1;
    }
    assert(ps.take(i as int) == ps);
    table
}

} // verus!
