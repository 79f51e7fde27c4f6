//! Why a file may be scanned in chunks: counts of the lines of two pieces, merged, are the
//! counts of the lines of the whole, when the first piece ends a line and the two pieces
//! either both decode as UTF-8 or both do not.

use vstd::prelude::*;
use vstd::utf8::{
    decode_first_scalar, decode_utf8, is_continuation_byte, length_of_first_scalar, pop_first_scalar, valid_first_scalar,
    valid_utf8,
};

use crate::corpus::axis::Axis;
use crate::corpus::scan::{
    block_lines, ended_lines, field, final_line, lemma_measure_bounds, m_axis, m_forms, m_invalid, m_long,
    m_script, measures, merged, piece_lines, split_text, Field,
};
use crate::corpus::rewrite::split_lines;

verus! {

/// The measures of lines met one after another add up.
proof fn lemma_measures_append(ms1: Seq<Option<Seq<char>>>, ms2: Seq<Option<Seq<char>>>, axes: Seq<Axis>, max: usize, n: Seq<char>)
    ensures
        m_invalid(ms1 + ms2) == m_invalid(ms1) + m_invalid(ms2),
        m_long(ms1 + ms2, max) == m_long(ms1, max) + m_long(ms2, max),
        m_script(ms1 + ms2, n) == m_script(ms1, n) + m_script(ms2, n),
        m_axis(ms1 + ms2, axes, n) == m_axis(ms1, axes, n) + m_axis(ms2, axes, n),
    decreases ms2.len(),
{
    if ms2.len() == 0 {
        assert(ms1 + ms2 =~= ms1);
    } else {
        lemma_measures_append(ms1, ms2.drop_last(), axes, max, n);
        assert((ms1 + ms2).drop_last() =~= ms1 + ms2.drop_last());
        assert((ms1 + ms2).last() == ms2.last());
    }
}

/// The forms of lines met one after another add up, while no count passes `u64::MAX`.
proof fn lemma_forms_append(ms1: Seq<Option<Seq<char>>>, ms2: Seq<Option<Seq<char>>>)
    requires
        ms1.len() + ms2.len() <= u64::MAX,
    ensures
        m_forms(ms1 + ms2).undecidable == m_forms(ms1).undecidable + m_forms(ms2).undecidable,
        m_forms(ms1 + ms2).composed == m_forms(ms1).composed + m_forms(ms2).composed,
        m_forms(ms1 + ms2).decomposed == m_forms(ms1).decomposed + m_forms(ms2).decomposed,
        m_forms(ms1 + ms2).mixed == m_forms(ms1).mixed + m_forms(ms2).mixed,
    decreases ms2.len(),
{
    if ms2.len() == 0 {
        assert(ms1 + ms2 =~= ms1);
    } else {
        lemma_forms_append(ms1, ms2.drop_last());
        assert((ms1 + ms2).drop_last() =~= ms1 + ms2.drop_last());
        assert((ms1 + ms2).last() == ms2.last());
        lemma_measure_bounds(ms1 + ms2.drop_last(), Seq::empty(), 0, Seq::empty());
    }
}

/// Counts of two runs of lines, merged, are the counts of the lines of both.
proof fn lemma_measures_merged(
    c: crate::corpus::scan::Counts,
    a: crate::corpus::scan::Counts,
    b: crate::corpus::scan::Counts,
    ms1: Seq<Option<Seq<char>>>,
    ms2: Seq<Option<Seq<char>>>,
    axes: Seq<Axis>,
    max: usize,
)
    requires
        measures(a, ms1, axes, max),
        measures(b, ms2, axes, max),
        merged(c, a, b),
    ensures
        measures(c, ms1 + ms2, axes, max),
{
    let ms = ms1 + ms2;
    assert(field(c, Field::Lines) == field(a, Field::Lines) + field(b, Field::Lines));
    assert(field(c, Field::InvalidUtf8) == field(a, Field::InvalidUtf8) + field(b, Field::InvalidUtf8));
    assert(field(c, Field::LongLines) == field(a, Field::LongLines) + field(b, Field::LongLines));
    assert(field(c, Field::Undecidable) == field(a, Field::Undecidable) + field(b, Field::Undecidable));
    assert(field(c, Field::Composed) == field(a, Field::Composed) + field(b, Field::Composed));
    assert(field(c, Field::Decomposed) == field(a, Field::Decomposed) + field(b, Field::Decomposed));
    assert(field(c, Field::Mixed) == field(a, Field::Mixed) + field(b, Field::Mixed));
    lemma_measures_append(ms1, ms2, axes, max, Seq::empty());
    lemma_forms_append(ms1, ms2);
    assert(c.forms == m_forms(ms));
    assert forall|n: Seq<char>| #[trigger] crate::tally::tally_count(c.per_script@, n) == m_script(ms, n) by {
        assert(field(c, Field::Script(n)) == field(a, Field::Script(n)) + field(b, Field::Script(n)));
        lemma_measures_append(ms1, ms2, axes, max, n);
    }
    assert forall|n: Seq<char>| #[trigger] crate::tally::tally_count(c.per_axis@, n) == m_axis(ms, axes, n) by {
        assert(field(c, Field::Axis(n)) == field(a, Field::Axis(n)) + field(b, Field::Axis(n)));
        lemma_measures_append(ms1, ms2, axes, max, n);
    }
}

proof fn lemma_split_text_nonempty(s: Seq<char>)
    ensures
        split_text(s).len() >= 1,
    decreases s.len(),
{
    if s.len() > 0 {
        lemma_split_text_nonempty(s.drop_last());
    }
}

/// Splitting text whose first part ends a line: the first part's lines, then the second's.
proof fn lemma_split_text_append(x: Seq<char>, y: Seq<char>)
    requires
        x.len() > 0,
        x.last() == '\n',
    ensures
        split_text(x + y) == split_text(x).drop_last() + split_text(y),
    decreases y.len(),
{
    lemma_split_text_nonempty(x);
    if y.len() == 0 {
        assert(x + y =~= x);
        assert(x.drop_last() + seq!['\n'] =~= x);
        assert(split_text(x) =~= split_text(x).drop_last() + split_text(y));
    } else {
        lemma_split_text_append(x, y.drop_last());
        lemma_split_text_nonempty(y.drop_last());
        assert((x + y).drop_last() =~= x + y.drop_last());
        assert((x + y).last() == y.last());
        let t = split_text(x + y.drop_last());
        let u = split_text(y.drop_last());
        if y.last() == '\n' {
            assert(t.push(Seq::empty()) =~= split_text(x).drop_last() + u.push(Seq::empty()));
        } else {
            assert(t.update(t.len() - 1, t.last().push(y.last())) =~= split_text(x).drop_last() + u.update(
                u.len() - 1,
                u.last().push(y.last()),
            ));
        }
    }
}

/// Splitting bytes whose first part ends a line: the first part's pieces, then the second's.
proof fn lemma_split_lines_append(x: Seq<u8>, y: Seq<u8>)
    requires
        x.len() > 0,
        x.last() == 10u8,
    ensures
        split_lines(x + y) == split_lines(x).drop_last() + split_lines(y),
    decreases y.len(),
{
    crate::corpus::rewrite::lemma_split_lines_nonempty(x);
    if y.len() == 0 {
        assert(x + y =~= x);
        assert(split_lines(x) =~= split_lines(x).drop_last() + split_lines(y));
    } else {
        lemma_split_lines_append(x, y.drop_last());
        crate::corpus::rewrite::lemma_split_lines_nonempty(y.drop_last());
        assert((x + y).drop_last() =~= x + y.drop_last());
        assert((x + y).last() == y.last());
        let t = split_lines(x + y.drop_last());
        let u = split_lines(y.drop_last());
        if y.last() == 10u8 {
            assert(t.push(Seq::empty()) =~= split_lines(x).drop_last() + u.push(Seq::empty()));
        } else {
            assert(t.update(t.len() - 1, t.last().push(y.last())) =~= split_lines(x).drop_last() + u.update(
                u.len() - 1,
                u.last().push(y.last()),
            ));
        }
    }
}

proof fn lemma_piece_lines_append(p1: Seq<Seq<u8>>, p2: Seq<Seq<u8>>)
    ensures
        piece_lines(p1 + p2) == piece_lines(p1) + piece_lines(p2),
    decreases p2.len(),
{
    if p2.len() == 0 {
        assert(p1 + p2 =~= p1);
        assert(piece_lines(p1) + piece_lines(p2) =~= piece_lines(p1));
    } else {
        lemma_piece_lines_append(p1, p2.drop_last());
        assert((p1 + p2).drop_last() =~= p1 + p2.drop_last());
        assert((p1 + p2).last() == p2.last());
        let a = piece_lines(p1);
        let b = piece_lines(p2.drop_last());
        assert((a + b).push(None) =~= a + b.push(None));
        assert(forall|v: Option<Seq<char>>| #[trigger] (a + b).push(v) =~= a + b.push(v));
    }
}

proof fn lemma_ended_lines_append(p1: Seq<Seq<char>>, p2: Seq<Seq<char>>)
    ensures
        ended_lines(p1 + p2) == ended_lines(p1) + ended_lines(p2),
    decreases p2.len(),
{
    if p2.len() == 0 {
        assert(p1 + p2 =~= p1);
        assert(ended_lines(p1) + ended_lines(p2) =~= ended_lines(p1));
    } else {
        lemma_ended_lines_append(p1, p2.drop_last());
        assert((p1 + p2).drop_last() =~= p1 + p2.drop_last());
        assert((p1 + p2).last() == p2.last());
        let a = ended_lines(p1);
        let b = ended_lines(p2.drop_last());
        assert(forall|v: Option<Seq<char>>| #[trigger] (a + b).push(v) =~= a + b.push(v));
    }
}

/// Bytes that begin with a newline: the newline is a scalar of its own.
proof fn lemma_newline_first(s: Seq<u8>)
    requires
        s.len() > 0,
        s[0] == 10u8,
    ensures
        valid_first_scalar(s),
        length_of_first_scalar(s) == 1,
        decode_first_scalar(s) as char == '\n',
        pop_first_scalar(s) =~= s.drop_first(),
{
    assert((10u8 & 0x7Fu8) == 10u8) by (bit_vector);
    assert(decode_first_scalar(s) == 10u32);
    assert('\n' as u32 == 10u32);
    vstd::utf8::char_u32_cast('\n', 10u32);
}

/// Bytes that end a line where the first part ends: the whole decodes exactly when both parts
/// do, into the text of the first and then the text of the second.
proof fn lemma_utf8_at_newline(a: Seq<u8>, b: Seq<u8>)
    requires
        a.len() > 0,
        a.last() == 10u8,
    ensures
        valid_utf8(a + b) <==> valid_utf8(a) && valid_utf8(b),
        valid_utf8(a) ==> decode_utf8(a).len() > 0 && decode_utf8(a).last() == '\n',
        valid_utf8(a + b) ==> decode_utf8(a + b) == decode_utf8(a) + decode_utf8(b),
{
    let i = a.len() - 1;
    let head = a.subrange(0, i);
    let nl = seq![10u8];
    assert(a =~= head + nl);
    lemma_newline_first(nl);
    lemma_newline_first(nl + b);
    assert(nl.drop_first() =~= Seq::<u8>::empty());
    assert((nl + b).drop_first() =~= b);
    reveal_with_fuel(valid_utf8, 2);
    reveal_with_fuel(decode_utf8, 2);
    assert(valid_utf8(nl));
    assert(decode_utf8(nl) =~= seq!['\n']);
    if valid_utf8(b) {
        assert(valid_utf8(nl + b));
        assert(decode_utf8(nl + b) =~= seq!['\n'] + decode_utf8(b));
    }
    let w = a + b;
    if valid_utf8(w) {
        assert(!is_continuation_byte(w[i]));
        vstd::utf8::is_char_boundary_iff_not_is_continuation_byte(w, i);
        vstd::utf8::valid_utf8_split(w, i);
        vstd::utf8::decode_utf8_split(w, i);
        assert(w.subrange(0, i) =~= head);
        assert(w.subrange(i, w.len() as int) =~= nl + b);
        assert(valid_utf8(b));
        assert(decode_utf8(nl + b) =~= seq!['\n'] + decode_utf8(b));
        vstd::utf8::valid_utf8_concat(head, nl);
    }
    if valid_utf8(a) {
        assert(!is_continuation_byte(a[i]));
        vstd::utf8::is_char_boundary_iff_not_is_continuation_byte(a, i);
        vstd::utf8::valid_utf8_split(a, i);
        vstd::utf8::decode_utf8_split(a, i);
        assert(a.subrange(0, i) =~= head);
        assert(a.subrange(i, a.len() as int) =~= nl);
        assert(decode_utf8(a) =~= decode_utf8(head) + seq!['\n']);
        if valid_utf8(b) {
            vstd::utf8::valid_utf8_concat(a, b);
            vstd::utf8::is_char_boundary_iff_not_is_continuation_byte(w, i);
            assert(!is_continuation_byte(w[i]));
            vstd::utf8::decode_utf8_split(w, i);
            assert(w.subrange(0, i) =~= head);
            assert(w.subrange(i, w.len() as int) =~= nl + b);
            assert(decode_utf8(w) =~= decode_utf8(head) + (seq!['\n'] + decode_utf8(b)));
        }
    }
}

/// The lines of a block that ends a line, then the lines of the next block, are the lines of the
/// two blocks together, when both decode or neither does.
pub proof fn lemma_block_lines_append(a: Seq<u8>, b: Seq<u8>)
    requires
        a.len() > 0,
        a.last() == 10u8,
        valid_utf8(a) == valid_utf8(b),
    ensures
        block_lines(a + b) == block_lines(a) + block_lines(b),
{
    lemma_utf8_at_newline(a, b);
    if valid_utf8(a) {
        let da = decode_utf8(a);
        let db = decode_utf8(b);
        lemma_split_text_append(da, db);
        lemma_split_text_nonempty(da);
        lemma_split_text_nonempty(db);
        lemma_split_text_nonempty(da.drop_last());
        assert(da.drop_last().push(da.last()) =~= da);
        let p = split_text(da);
        let q = split_text(db);
        assert(p.last() =~= Seq::<char>::empty());
        assert(final_line(p.last()) =~= Seq::<Option<Seq<char>>>::empty());
        let pieces = p.drop_last() + q;
        assert(pieces.drop_last() =~= p.drop_last() + q.drop_last());
        assert(pieces.last() == q.last());
        lemma_ended_lines_append(p.drop_last(), q.drop_last());
        assert(block_lines(a + b) =~= block_lines(a) + block_lines(b));
    } else {
        lemma_split_lines_append(a, b);
        crate::corpus::rewrite::lemma_split_lines_nonempty(a);
        crate::corpus::rewrite::lemma_split_lines_nonempty(a.drop_last());
        assert(a.drop_last().push(a.last()) =~= a);
        let s = split_lines(a);
        assert(s.last() =~= Seq::<u8>::empty());
        reveal_with_fuel(valid_utf8, 1);
        reveal_with_fuel(decode_utf8, 1);
        assert(valid_utf8(Seq::<u8>::empty()));
        assert(decode_utf8(Seq::<u8>::empty()) =~= Seq::<char>::empty());
        assert(piece_lines(s) == piece_lines(s.drop_last()));
        lemma_piece_lines_append(s.drop_last(), split_lines(b));
    }
}

/// Scanning a file in two blocks, the first ending a line and both decoding or neither, and
/// merging the counts, gives the counts of scanning the file whole.
pub proof fn law_split_scan_counts_the_whole(
    a: Seq<u8>,
    b: Seq<u8>,
    ca: crate::corpus::scan::Counts,
    cb: crate::corpus::scan::Counts,
    c: crate::corpus::scan::Counts,
    axes: Seq<Axis>,
    max: usize,
)
    requires
        a.len() > 0,
        a.last() == 10u8,
        valid_utf8(a) == valid_utf8(b),
        measures(ca, block_lines(a), axes, max),
        measures(cb, block_lines(b), axes, max),
        merged(c, ca, cb),
    ensures
        measures(c, block_lines(a + b), axes, max),
{
    lemma_block_lines_append(a, b);
    lemma_measures_merged(c, ca, cb, block_lines(a), block_lines(b), axes, max);
}

} // verus!
