//! Writing a corpus back out in canonical form.
//!
//! [`super::canonical::Canonicalizer`] decides what a canonical line is; this module gets a whole
//! file's bytes through it, line by line, into an output buffer. Line structure is preserved
//! exactly: a file that does not end in a newline does not gain one, and blank lines survive
//! even though they are not counted.

use vstd::prelude::*;
use vstd::utf8::{
    char_is_scalar, decode_utf8, encode_scalar, encode_utf8, has_width_1_encoding, valid_utf8,
};

use crate::corpus::canonical::Canonicalizer;
use crate::corpus::settle::default_run;
use crate::text::{blank, decimal, decimal_string, decode, is_blank, owned, push_str, str_eq};

verus! {

/// What to do with a line that is not valid UTF-8.
///
/// An enum rather than a `bool` because the two answers are not "on and off": refusing keeps
/// the corpus intact and stops, dropping silently loses data.
#[derive(Debug, Clone, Copy, PartialEq, Eq, Structural)]
pub enum OnInvalidUtf8 {
    /// Stop and report. The default: a corpus is expensive to reassemble.
    Refuse,
    /// Skip the line and carry on, counting what was lost.
    Drop,
}

impl Default for OnInvalidUtf8 {
    fn default() -> (r: Self)
        ensures
            r == OnInvalidUtf8::Refuse,
    {
        OnInvalidUtf8::Refuse
    }
}

/// What a rewrite did to one source.
#[derive(Debug, Clone, Copy, PartialEq, Eq, Structural)]
pub struct Tally {
    /// Non-blank lines seen, counted the way the scanner counts them so the two halves of the
    /// tool report the same denominator.
    pub lines: u64,
    pub changed: u64,
    pub dropped: u64,
}

impl Default for Tally {
    fn default() -> (r: Self)
        ensures
            r.lines == 0 && r.changed == 0 && r.dropped == 0,
    {
        Tally { lines: 0, changed: 0, dropped: 0 }
    }
}

/// The one-line summary of a tally.
pub open spec fn tally_summary(t: Tally) -> Seq<char> {
    decimal(t.lines as nat) + (if t.lines == 1 { " line, "@ } else { " lines, "@ }) + decimal(
        t.changed as nat,
    ) + " canonicalized"@ + (if t.dropped > 0 {
        ", "@ + decimal(t.dropped as nat) + " dropped as invalid UTF-8"@
    } else {
        Seq::empty()
    })
}

impl Tally {
    /// One line for an operator watching a run.
    pub fn summary(&self) -> (r: String)
        ensures
            r@ == tally_summary(*self),
    {
        let mut r = decimal_string(self.lines);
        if self.lines == 1 {
            push_str(&mut r, " line, ");
        } else {
            push_str(&mut r, " lines, ");
        }
        push_str(&mut r, decimal_string(self.changed).as_str());
        push_str(&mut r, " canonicalized");
        if self.dropped > 0 {
            push_str(&mut r, ", ");
            push_str(&mut r, decimal_string(self.dropped).as_str());
            push_str(&mut r, " dropped as invalid UTF-8");
        }
        r
    }
}

/// Why rewriting a file stopped.
#[derive(Debug)]
pub enum RewriteError {
    /// A line was not valid UTF-8 and the run refuses such lines.
    InvalidUtf8 { path: String, line: u64 },
    /// Reading or writing the file failed; `detail` is what the system said.
    Io { path: String, detail: String },
}

impl RewriteError {
    /// What the operator is told.
    pub fn message(&self) -> (r: String)
        ensures
            r@ == match *self {
                RewriteError::InvalidUtf8 { path, line } => path@ + ": line "@ + decimal(line as nat)
                    + " is not valid UTF-8 (pass --drop-invalid to skip such lines)"@,
                RewriteError::Io { path, detail } => path@ + ": "@ + detail@,
            },
    {
        match self {
            RewriteError::InvalidUtf8 { path, line } => {
                let mut r = owned(path.as_str());
                push_str(&mut r, ": line ");
                push_str(&mut r, decimal_string(*line).as_str());
                push_str(&mut r, " is not valid UTF-8 (pass --drop-invalid to skip such lines)");
                r
            },
            RewriteError::Io { path, detail } => {
                let mut r = owned(path.as_str());
                push_str(&mut r, ": ");
                push_str(&mut r, detail.as_str());
                r
            },
        }
    }
}

/// A line that could not be decoded. Carries the ordinal, from one, so the operator can go
/// look at it.
#[derive(Debug)]
pub struct InvalidLine {
    pub line: u64,
}

/// The lines of a byte buffer: the pieces between newlines. A buffer with `n` newlines has
/// `n + 1` pieces, so a trailing newline leaves an empty last piece.
pub open spec fn split_lines(bytes: Seq<u8>) -> Seq<Seq<u8>>
    decreases bytes.len(),
{
    if bytes.len() == 0 {
        seq![Seq::empty()]
    } else {
        let s = split_lines(bytes.drop_last());
        if bytes.last() == 10u8 {
            s.push(Seq::empty())
        } else {
            s.update(s.len() - 1, s.last().push(bytes.last()))
        }
    }
}

pub proof fn lemma_split_lines_nonempty(bytes: Seq<u8>)
    ensures
        split_lines(bytes).len() >= 1,
        split_lines(bytes).len() <= bytes.len() + 1,
    decreases bytes.len(),
{
    if bytes.len() > 0 {
        lemma_split_lines_nonempty(bytes.drop_last());
    }
}

/// The bytes one piece turns into: nothing when it is not valid UTF-8, otherwise its
/// canonical form, followed by the newline when one ended it.
pub open spec fn line_bytes(canon: Canonicalizer, piece: Seq<u8>, newline: bool) -> Seq<u8> {
    if !valid_utf8(piece) {
        Seq::empty()
    } else {
        encode_utf8(canon.canonical(decode_utf8(piece))) + (if newline {
            seq![10u8]
        } else {
            Seq::empty()
        })
    }
}

/// The bytes of pieces that each ended in a newline.
pub open spec fn lines_bytes(canon: Canonicalizer, pieces: Seq<Seq<u8>>) -> Seq<u8>
    decreases pieces.len(),
{
    if pieces.len() == 0 {
        Seq::empty()
    } else {
        lines_bytes(canon, pieces.drop_last()) + line_bytes(canon, pieces.last(), true)
    }
}

/// The canonical rewrite of a whole buffer, dropping the lines that are not valid UTF-8.
pub open spec fn rewritten(canon: Canonicalizer, bytes: Seq<u8>) -> Seq<u8> {
    let pieces = split_lines(bytes);
    lines_bytes(canon, pieces.drop_last()) + line_bytes(canon, pieces.last(), false)
}

/// A piece that counts as a line: valid, and not blank.
pub open spec fn counts(piece: Seq<u8>) -> bool {
    valid_utf8(piece) && !is_blank(decode_utf8(piece))
}

/// A counted piece whose canonical form differs from it.
pub open spec fn is_changed(canon: Canonicalizer, piece: Seq<u8>) -> bool {
    counts(piece) && canon.canonical(decode_utf8(piece)) != decode_utf8(piece)
}

pub open spec fn count_lines(pieces: Seq<Seq<u8>>) -> nat
    decreases pieces.len(),
{
    if pieces.len() == 0 {
        0
    } else {
        count_lines(pieces.drop_last()) + if counts(pieces.last()) { 1nat } else { 0nat }
    }
}

pub open spec fn count_changed(canon: Canonicalizer, pieces: Seq<Seq<u8>>) -> nat
    decreases pieces.len(),
{
    if pieces.len() == 0 {
        0
    } else {
        count_changed(canon, pieces.drop_last()) + if is_changed(canon, pieces.last()) {
            1nat
        } else {
            0nat
        }
    }
}

pub open spec fn count_invalid(pieces: Seq<Seq<u8>>) -> nat
    decreases pieces.len(),
{
    if pieces.len() == 0 {
        0
    } else {
        count_invalid(pieces.drop_last()) + if valid_utf8(pieces.last()) { 0nat } else { 1nat }
    }
}

proof fn lemma_counts_bounded(canon: Canonicalizer, pieces: Seq<Seq<u8>>)
    ensures
        count_changed(canon, pieces) <= count_lines(pieces) <= pieces.len(),
        count_invalid(pieces) <= pieces.len(),
    decreases pieces.len(),
{
    if pieces.len() > 0 {
        lemma_counts_bounded(canon, pieces.drop_last());
    }
}

/// A character's UTF-8 bytes hold a newline byte exactly when the character is a line break:
/// every byte of a longer encoding has its top bit set.
proof fn lemma_encode_scalar_newline(c: char)
    ensures
        encode_scalar(c as u32).contains(10u8) <==> c == '\n',
{
    char_is_scalar(c);
    let v = c as u32;
    let e = encode_scalar(v);
    if has_width_1_encoding(v) {
        assert((v & 0x7F) as u8 == v as u8) by (bit_vector)
            requires v <= 0x7F;
        assert(e[0] == v);
        if c == '\n' {
            assert(e[0] == 10u8);
        }
    } else {
        assert((0xC0u8 | ((v >> 6) & 0x1F) as u8) >= 0x80u8) by (bit_vector);
        assert((0xE0u8 | ((v >> 12) & 0x0F) as u8) >= 0x80u8) by (bit_vector);
        assert((0xF0u8 | ((v >> 18) & 0x7) as u8) >= 0x80u8) by (bit_vector);
        assert((0x80u8 | (v & 0x3F) as u8) >= 0x80u8) by (bit_vector);
        assert((0x80u8 | ((v >> 6) & 0x3F) as u8) >= 0x80u8) by (bit_vector);
        assert((0x80u8 | ((v >> 12) & 0x3F) as u8) >= 0x80u8) by (bit_vector);
        assert(forall|i: int| 0 <= i < e.len() ==> #[trigger] e[i] >= 0x80u8);
        if e.contains(10u8) {
            let i = choose|i: int| 0 <= i < e.len() && e[i] == 10u8;
            assert(e[i] >= 0x80u8);
        }
    }
}

/// UTF-8 bytes hold a newline byte exactly when the text holds a line break.
proof fn lemma_encode_newline(text: Seq<char>)
    ensures
        encode_utf8(text).contains(10u8) <==> text.contains('\n'),
    decreases text.len(),
{
    if text.len() > 0 {
        let head = encode_scalar(text[0] as u32);
        let rest = encode_utf8(text.drop_first());
        lemma_encode_newline(text.drop_first());
        lemma_encode_scalar_newline(text[0]);
        let all = encode_utf8(text);
        assert(all == head + rest);
        if all.contains(10u8) {
            let i = choose|i: int| 0 <= i < all.len() && all[i] == 10u8;
            if i < head.len() {
                assert(head[i] == 10u8);
                assert(text[0] == '\n');
                assert(text.contains(text[0]));
            } else {
                assert(rest[i - head.len()] == 10u8);
                assert(rest.contains(10u8));
                let j = choose|j: int| 0 <= j < text.drop_first().len() && text.drop_first()[j] == '\n';
                assert(text[j + 1] == '\n');
            }
        }
        if text.contains('\n') {
            let j = choose|j: int| 0 <= j < text.len() && text[j] == '\n';
            if j == 0 {
                let i = choose|i: int| 0 <= i < head.len() && head[i] == 10u8;
                assert(all[i] == 10u8);
            } else {
                assert(text.drop_first()[j - 1] == '\n');
                assert(text.drop_first().contains('\n'));
                let i = choose|i: int| 0 <= i < rest.len() && rest[i] == 10u8;
                assert(all[head.len() + i] == 10u8);
            }
        }
    }
}

/// Bytes with no newline among them extend the last line and start no new one.
proof fn lemma_split_extend(x: Seq<u8>, b: Seq<u8>)
    requires
        !b.contains(10u8),
    ensures
        split_lines(x + b) == split_lines(x).update(
            split_lines(x).len() - 1,
            split_lines(x).last() + b,
        ),
    decreases b.len(),
{
    let sx = split_lines(x);
    lemma_split_lines_nonempty(x);
    if b.len() == 0 {
        assert(x + b =~= x);
        assert(sx.last() + b =~= sx.last());
        assert(sx.update(sx.len() - 1, sx.last() + b) =~= sx);
    } else {
        let b0 = b.drop_last();
        assert(!b0.contains(10u8)) by {
            if b0.contains(10u8) {
                let i = choose|i: int| 0 <= i < b0.len() && b0[i] == 10u8;
                assert(b[i] == 10u8);
            }
        }
        lemma_split_extend(x, b0);
        assert((x + b).drop_last() =~= x + b0);
        assert((x + b).last() == b.last());
        assert(b.last() != 10u8) by {
            assert(b[b.len() - 1] == b.last());
        }
        let t = split_lines(x + b0);
        assert(t.last() == sx.last() + b0);
        assert(t.last().push(b.last()) =~= sx.last() + b);
        assert(t.update(t.len() - 1, t.last().push(b.last())) =~= sx.update(sx.len() - 1, sx.last() + b));
    }
}

/// The canonical bytes of each valid piece, in order; the invalid ones leave nothing.
pub open spec fn kept(canon: Canonicalizer, pieces: Seq<Seq<u8>>) -> Seq<Seq<u8>>
    decreases pieces.len(),
{
    if pieces.len() == 0 {
        Seq::empty()
    } else if valid_utf8(pieces.last()) {
        kept(canon, pieces.drop_last()).push(encode_utf8(canon.canonical(decode_utf8(pieces.last()))))
    } else {
        kept(canon, pieces.drop_last())
    }
}

/// A valid piece whose canonical form is its own canonical form and holds no line break.
pub open spec fn piece_settles(canon: Canonicalizer, piece: Seq<u8>) -> bool {
    valid_utf8(piece) ==> {
        let c = canon.canonical(decode_utf8(piece));
        canon.canonical(c) == c && !c.contains('\n')
    }
}

/// Written out line by line, settled pieces split back into their canonical forms.
proof fn lemma_kept_split(canon: Canonicalizer, pieces: Seq<Seq<u8>>)
    requires
        forall|k: int| 0 <= k < pieces.len() ==> piece_settles(canon, #[trigger] pieces[k]),
    ensures
        split_lines(lines_bytes(canon, pieces)) == kept(canon, pieces).push(Seq::empty()),
        forall|k: int| 0 <= k < kept(canon, pieces).len() ==> !(#[trigger] kept(canon, pieces)[k]).contains(10u8),
    decreases pieces.len(),
{
    if pieces.len() == 0 {
        assert(split_lines(Seq::<u8>::empty()) =~= seq![Seq::<u8>::empty()]);
        assert(kept(canon, pieces).push(Seq::empty()) =~= seq![Seq::<u8>::empty()]);
    } else {
        let init = pieces.drop_last();
        let last = pieces.last();
        assert forall|k: int| 0 <= k < init.len() implies piece_settles(canon, #[trigger] init[k]) by {
            assert(init[k] == pieces[k]);
        }
        lemma_kept_split(canon, init);
        let l = lines_bytes(canon, init);
        let kp = kept(canon, init);
        if valid_utf8(last) {
            assert(piece_settles(canon, pieces[pieces.len() - 1]));
            let c = canon.canonical(decode_utf8(last));
            let e = encode_utf8(c);
            lemma_encode_newline(c);
            assert(lines_bytes(canon, pieces) == l + (e + seq![10u8]));
            assert(l + (e + seq![10u8]) =~= (l + e).push(10u8));
            assert((l + e).push(10u8).drop_last() =~= l + e);
            lemma_split_extend(l, e);
            let sp = kp.push(Seq::<u8>::empty());
            assert(sp.last() + e =~= e);
            assert(sp.update(sp.len() - 1, sp.last() + e) =~= kp.push(e));
            assert(split_lines(lines_bytes(canon, pieces)) == kp.push(e).push(Seq::empty()));
            assert forall|k: int| 0 <= k < kept(canon, pieces).len() implies !(#[trigger] kept(canon, pieces)[k]).contains(10u8) by {
                if k < kp.len() {
                    assert(kept(canon, pieces)[k] == kp[k]);
                }
            }
        } else {
            assert(lines_bytes(canon, pieces) == l + Seq::<u8>::empty());
            assert(l + Seq::<u8>::empty() =~= l);
        }
    }
}

/// Rewriting the kept pieces again writes what the pieces themselves wrote, and changes none.
proof fn lemma_kept_rewrites(canon: Canonicalizer, pieces: Seq<Seq<u8>>)
    requires
        forall|k: int| 0 <= k < pieces.len() ==> piece_settles(canon, #[trigger] pieces[k]),
    ensures
        lines_bytes(canon, kept(canon, pieces)) == lines_bytes(canon, pieces),
        count_changed(canon, kept(canon, pieces)) == 0,
        forall|k: int| 0 <= k < kept(canon, pieces).len() ==> valid_utf8(#[trigger] kept(canon, pieces)[k]),
    decreases pieces.len(),
{
    if pieces.len() > 0 {
        let init = pieces.drop_last();
        let last = pieces.last();
        assert forall|k: int| 0 <= k < init.len() implies piece_settles(canon, #[trigger] init[k]) by {
            assert(init[k] == pieces[k]);
        }
        lemma_kept_rewrites(canon, init);
        let kp = kept(canon, init);
        if valid_utf8(last) {
            assert(piece_settles(canon, pieces[pieces.len() - 1]));
            let c = canon.canonical(decode_utf8(last));
            let e = encode_utf8(c);
            vstd::utf8::encode_utf8_valid_utf8(c);
            vstd::utf8::encode_utf8_decode_utf8(c);
            let kq = kp.push(e);
            assert(kq.drop_last() =~= kp);
            assert(kq.last() == e);
            assert(line_bytes(canon, e, true) == line_bytes(canon, last, true));
            assert forall|k: int| 0 <= k < kq.len() implies valid_utf8(#[trigger] kq[k]) by {
                if k < kp.len() {
                    assert(kq[k] == kp[k]);
                }
            }
        }
    }
}

/// What rewriting a buffer writes is a fixed point: every line of it is valid, rewriting it
/// again writes it unchanged, and none of its lines counts as changed.
pub open spec fn rewrite_settles(canon: Canonicalizer, bytes: Seq<u8>) -> bool {
    let out = rewritten(canon, bytes);
    &&& forall|k: int| 0 <= k < split_lines(out).len() ==> valid_utf8(#[trigger] split_lines(out)[k])
    &&& rewritten(canon, out) == out
    &&& count_changed(canon, split_lines(out)) == 0
}

proof fn lemma_rewrite_settles(canon: Canonicalizer, bytes: Seq<u8>)
    requires
        forall|k: int| 0 <= k < split_lines(bytes).len() ==> piece_settles(canon, #[trigger] split_lines(bytes)[k]),
        canon.canonical(Seq::empty()) == Seq::<char>::empty(),
    ensures
        rewrite_settles(canon, bytes),
{
    let pieces = split_lines(bytes);
    lemma_split_lines_nonempty(bytes);
    let init = pieces.drop_last();
    let last = pieces.last();
    assert forall|k: int| 0 <= k < init.len() implies piece_settles(canon, #[trigger] init[k]) by {
        assert(init[k] == pieces[k]);
    }
    assert(piece_settles(canon, pieces[pieces.len() - 1]));
    lemma_kept_split(canon, init);
    lemma_kept_rewrites(canon, init);
    let l = lines_bytes(canon, init);
    let kp = kept(canon, init);
    let out = rewritten(canon, bytes);
    let f: Seq<u8> = if valid_utf8(last) {
        encode_utf8(canon.canonical(decode_utf8(last)))
    } else {
        Seq::empty()
    };
    let c = canon.canonical(decode_utf8(last));
    assert(valid_utf8(Seq::<u8>::empty()));
    assert(decode_utf8(Seq::<u8>::empty()) =~= Seq::<char>::empty());
    assert(encode_utf8(Seq::<char>::empty()) =~= Seq::<u8>::empty());
    if valid_utf8(last) {
        lemma_encode_newline(c);
        vstd::utf8::encode_utf8_valid_utf8(c);
        vstd::utf8::encode_utf8_decode_utf8(c);
        assert(out == l + f);
        lemma_split_extend(l, f);
        let sp = kp.push(Seq::<u8>::empty());
        assert(sp.last() + f =~= f);
        assert(sp.update(sp.len() - 1, sp.last() + f) =~= kp.push(f));
    } else {
        assert(out == l + Seq::<u8>::empty());
        assert(l + Seq::<u8>::empty() =~= l);
    }
    let so = kp.push(f);
    assert(split_lines(out) == so);
    assert(so.drop_last() =~= kp);
    assert(so.last() == f);
    assert(line_bytes(canon, f, false) == line_bytes(canon, last, false));
    assert(rewritten(canon, out) == out);
    assert(count_changed(canon, so) == count_changed(canon, kp) + if is_changed(canon, f) { 1nat } else { 0nat });
    assert(!is_changed(canon, f));
    assert forall|k: int| 0 <= k < so.len() implies valid_utf8(#[trigger] so[k]) by {
        if k < kp.len() {
            assert(so[k] == kp[k]);
        }
    }
}

/// The canonical form of `text`, compared with it: `(counted, changed)`.
fn emit_valid(canon: &Canonicalizer, text: &str, newline: bool, out: &mut Vec<u8>) -> (r: (bool, bool))
    ensures
        final(out)@ == old(out)@ + encode_utf8(canon.canonical(text@)) + (if newline {
            seq![10u8]
        } else {
            Seq::<u8>::empty()
        }),
        r.0 == !is_blank(text@),
        r.1 == (!is_blank(text@) && canon.canonical(text@) != text@),
        default_run(canon.axes()) && !text@.contains('\n') ==> {
            &&& canon.canonical(canon.canonical(text@)) == canon.canonical(text@)
            &&& !canon.canonical(text@).contains('\n')
        },
{
    let canonical = canon.apply(text);
    let s: &str = match &canonical {
        std::borrow::Cow::Borrowed(b) => b,
        std::borrow::Cow::Owned(o) => o.as_str(),
    };
    assert(s@ == canon.canonical(text@));
    let counted = !blank(text);
    let changed = counted && !str_eq(s, text);
    let bytes = s.as_bytes();
    let mut k: usize = 0;
    let ghost start = out@;
    while k < bytes.len()
        invariant
            0 <= k <= bytes@.len(),
            bytes@ == encode_utf8(s@),
            out@ == start + bytes@.take(k as int),
        decreases bytes.len() - k,
    {
        out.push(bytes[k]);
        proof {
            assert(bytes@.take(k + 1) == bytes@.take(k as int).push(bytes@[k as int]));
        }
        k = k + 1;
    }
    assert(bytes@.take(k as int) == bytes@);
    if newline {
        out.push(10u8);
    }
    (counted, changed)
}

/// Canonicalize `bytes` into `out`, one line at a time.
///
/// Lines are the pieces between newlines. A piece that is not valid UTF-8 is refused, which
/// stops the run at its ordinal, or dropped together with its newline, so no blank line is
/// left where it was. Every other piece is written in canonical form, with the newline that
/// ended it. Blank lines are written but not counted.
pub fn canonicalize_into(
    bytes: &[u8],
    canon: &Canonicalizer,
    on_invalid: OnInvalidUtf8,
    out: &mut Vec<u8>,
) -> (r: Result<Tally, InvalidLine>)
    ensures
        r is Err <==> on_invalid == OnInvalidUtf8::Refuse && exists|k: int|
            0 <= k < split_lines(bytes@).len() && !valid_utf8(#[trigger] split_lines(bytes@)[k]),
        r matches Ok(t) ==> {
            &&& final(out)@ == old(out)@ + rewritten(*canon, bytes@)
            &&& t.lines == count_lines(split_lines(bytes@))
            &&& t.changed == count_changed(*canon, split_lines(bytes@))
            &&& t.dropped == count_invalid(split_lines(bytes@))
        },
        r matches Err(e) ==> exists|k: int|
            0 <= k < split_lines(bytes@).len() && !valid_utf8(#[trigger] split_lines(bytes@)[k])
                && (forall|m: int| 0 <= m < k ==> valid_utf8(#[trigger] split_lines(bytes@)[m]))
                && e.line == k + 1
                && final(out)@ == old(out)@ + lines_bytes(*canon, split_lines(bytes@).take(k)),
        r is Ok && default_run(canon.axes()) ==> rewrite_settles(*canon, bytes@),
{
    let ghost start = out@;
    let ghost mut done: Seq<Seq<u8>> = Seq::empty();
    let mut piece: Vec<u8> = Vec::new();
    let mut lines: u64 = 0;
    let mut changed: u64 = 0;
    let mut dropped: u64 = 0;
    let mut ordinal: u64 = 0;
    let mut i: usize = 0;
    assert(bytes@.take(0) =~= Seq::<u8>::empty());
    assert(split_lines(bytes@.take(0)) =~= done.push(piece@));
    while i < bytes.len()
        invariant
            0 <= i <= bytes@.len(),
            split_lines(bytes@.take(i as int)) == done.push(piece@),
            ordinal == done.len(),
            done.len() + piece@.len() <= i,
            start == old(out)@,
            out@ == start + lines_bytes(*canon, done),
            lines == count_lines(done),
            changed == count_changed(*canon, done),
            dropped == count_invalid(done),
            on_invalid == OnInvalidUtf8::Refuse ==> forall|m: int| 0 <= m < done.len() ==> valid_utf8(#[trigger] done[m]),
            !piece@.contains(10u8),
            default_run(canon.axes()) ==> forall|m: int| 0 <= m < done.len() ==> piece_settles(*canon, #[trigger] done[m]),
        decreases bytes.len() - i,
    {
        proof {
            assert(bytes@.take(i + 1).drop_last() == bytes@.take(i as int));
            assert(bytes@.take(i + 1).last() == bytes@[i as int]);
            lemma_counts_bounded(*canon, done);
        }
        if bytes[i] == 10u8 {
            ordinal = ordinal + 1;
            match decode(piece.as_slice()) {
                Some(text) => {
                    proof {
                        vstd::utf8::encode_utf8_decode_utf8(text@);
                        lemma_encode_newline(text@);
                    }
                    let (c, d) = emit_valid(canon, text, true, out);
                    if c {
                        lines = lines + 1;
                    }
                    if d {
                        changed = changed + 1;
                    }
                },
                None => {
                    match on_invalid {
                        OnInvalidUtf8::Refuse => {
                            proof {
                                assert(split_lines(bytes@.take(i as int)) == done.push(piece@));
                                lemma_prefix_pieces(bytes@, i as int);
                                assert(split_lines(bytes@)[done.len() as int] == piece@);
                                assert(split_lines(bytes@).take(done.len() as int) == done);
                                assert(!valid_utf8(split_lines(bytes@)[done.len() as int]));
                                assert forall|m: int| 0 <= m < done.len() implies valid_utf8(#[trigger] split_lines(bytes@)[m]) by {
                                    assert(split_lines(bytes@)[m] == done[m]);
                                }
                                let k = done.len() as int;
                                assert(0 <= k < split_lines(bytes@).len());
                                assert(ordinal == k + 1);
                                assert(out@ == start + lines_bytes(*canon, split_lines(bytes@).take(k)));
                                assert(start == old(out)@);
                                assert(exists|k: int|
                                    0 <= k < split_lines(bytes@).len() && !valid_utf8(#[trigger] split_lines(bytes@)[k])
                                        && (forall|m: int| 0 <= m < k ==> valid_utf8(#[trigger] split_lines(bytes@)[m]))
                                        && ordinal == k + 1
                                        && out@ == start + lines_bytes(*canon, split_lines(bytes@).take(k)));
                            }
                            return Err(InvalidLine { line: ordinal });
                        },
                        OnInvalidUtf8::Drop => {
                            dropped = dropped + 1;
                        },
                    }
                },
            }
            proof {
                let p = piece@;
                assert(done.push(p).drop_last() == done);
                assert(done.push(p).last() == p);
                assert(piece_settles(*canon, p) || !default_run(canon.axes()));
                done = done.push(p);
            }
            piece = Vec::new();
            proof {
                assert(!piece@.contains(10u8));
            }
            proof {
                assert(split_lines(bytes@.take(i + 1)) == done.push(piece@));
            }
        } else {
            let ghost before = piece@;
            piece.push(bytes[i]);
            proof {
                if piece@.contains(10u8) {
                    let q = choose|q: int| 0 <= q < piece@.len() && piece@[q] == 10u8;
                    assert(q < before.len() ==> before[q] == 10u8);
                }
                let s0 = done.push(before);
                assert(s0.update(s0.len() - 1, s0.last().push(bytes@[i as int])) =~= done.push(piece@));
            }
        }
        i = i + 1;
    }
    assert(bytes@.take(i as int) == bytes@);
    let ghost pieces = split_lines(bytes@);
    assert(pieces.drop_last() == done);
    assert(pieces.last() == piece@);
    proof {
        lemma_counts_bounded(*canon, done);
    }
    match decode(piece.as_slice()) {
        Some(text) => {
            proof {
                vstd::utf8::encode_utf8_decode_utf8(text@);
                lemma_encode_newline(text@);
                if piece@.len() == 0 {
                    assert(text@ == decode_utf8(piece@));
                    assert(text@.len() == 0);
                }
            }
            let (c, d) = emit_valid(canon, text, false, out);
            if c {
                lines = lines + 1;
            }
            if d {
                changed = changed + 1;
            }
        },
        None => {
            match on_invalid {
                OnInvalidUtf8::Refuse => {
                    proof {
                        assert(piece@.len() > 0);
                        assert(pieces[done.len() as int] == piece@);
                        assert(!valid_utf8(pieces[done.len() as int]));
                        assert(pieces.take(done.len() as int) == done);
                        assert forall|m: int| 0 <= m < done.len() implies valid_utf8(#[trigger] pieces[m]) by {
                            assert(pieces[m] == done[m]);
                        }
                    }
                    return Err(InvalidLine { line: ordinal + 1 });
                },
                OnInvalidUtf8::Drop => {
                    dropped = dropped + 1;
                },
            }
        },
    }
    proof {
        if default_run(canon.axes()) {
            assert(piece_settles(*canon, piece@));
            assert forall|k: int| 0 <= k < pieces.len() implies piece_settles(*canon, #[trigger] pieces[k]) by {
                if k < done.len() {
                    assert(pieces[k] == done[k]);
                }
            }
            canon.law_ascii_lines_are_canonical(Seq::empty());
            lemma_rewrite_settles(*canon, bytes@);
        }
        if on_invalid == OnInvalidUtf8::Refuse {
            assert forall|k: int| 0 <= k < pieces.len() implies valid_utf8(#[trigger] pieces[k]) by {
                if k < done.len() {
                    assert(pieces[k] == done[k]);
                }
            }
        }
    }
    Ok(Tally { lines, changed, dropped })
}

/// The pieces of a prefix that ends just before a newline are the leading pieces of the whole.
proof fn lemma_prefix_pieces(bytes: Seq<u8>, i: int)
    requires
        0 <= i < bytes.len(),
        bytes[i] == 10u8,
    ensures
        split_lines(bytes).len() > split_lines(bytes.take(i)).len(),
        forall|m: int| 0 <= m < split_lines(bytes.take(i)).len() ==> #[trigger] split_lines(bytes)[m] == split_lines(bytes.take(i))[m],
{
    lemma_prefix_pieces_from(bytes, i, bytes.len() as int);
    assert(bytes.take(bytes.len() as int) == bytes);
}

proof fn lemma_prefix_pieces_from(bytes: Seq<u8>, i: int, j: int)
    requires
        0 <= i < j <= bytes.len(),
        bytes[i] == 10u8,
    ensures
        split_lines(bytes.take(j)).len() > split_lines(bytes.take(i)).len(),
        forall|m: int| 0 <= m < split_lines(bytes.take(i)).len() ==> #[trigger] split_lines(bytes.take(j))[m] == split_lines(bytes.take(i))[m],
    decreases j - i,
{
    assert(bytes.take(j).drop_last() == bytes.take(j - 1));
    assert(bytes.take(j).last() == bytes[j - 1]);
    lemma_split_lines_nonempty(bytes.take(j - 1));
    if j == i + 1 {
    } else {
        lemma_prefix_pieces_from(bytes, i, j - 1);
    }
    if j == bytes.len() {
        assert(bytes.take(j) == bytes);
    }
}

} // verus!
