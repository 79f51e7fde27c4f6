//! Cutting a line that is too long into pieces that fit: greedily, at character boundaries,
//! each piece as long as the byte limit allows.

use vstd::prelude::*;
use vstd::utf8::{encode_scalar, encode_utf8};

use crate::text::{push_char, to_chars};

verus! {

/// How many bytes `c` takes in UTF-8.
pub open spec fn char_bytes(c: char) -> nat {
    encode_scalar(c as u32).len()
}

/// How many characters from the front of `s` fit in `room` bytes.
pub open spec fn fits_count(s: Seq<char>, room: int) -> nat
    decreases s.len(),
{
    if s.len() == 0 || char_bytes(s[0]) > room {
        0
    } else {
        1 + fits_count(s.drop_first(), room - char_bytes(s[0]))
    }
}

/// `s` can be cut into pieces of at most `max` bytes: no character is wider than that.
pub open spec fn chunkable(s: Seq<char>, max: nat) -> bool {
    &&& max > 0
    &&& forall|i: int| 0 <= i < s.len() ==> #[trigger] char_bytes(s[i]) <= max
}

/// `s` cut greedily into pieces of at most `max` bytes: each piece takes as many characters as
/// fit.
pub open spec fn chunks_of(s: Seq<char>, max: nat) -> Seq<Seq<char>>
    decreases s.len(),
{
    let k = fits_count(s, max as int);
    if s.len() == 0 || k == 0 || k > s.len() {
        Seq::empty()
    } else {
        seq![s.take(k as int)] + chunks_of(s.skip(k as int), max)
    }
}

/// The texts of a list of strings.
pub open spec fn texts(v: Seq<String>) -> Seq<Seq<char>> {
    v.map_values(|s: String| s@)
}

proof fn lemma_fits_count(s: Seq<char>, room: int)
    ensures
        fits_count(s, room) <= s.len(),
        encode_utf8(s.take(fits_count(s, room) as int)).len() <= room || fits_count(s, room) == 0,
        s.len() > 0 && char_bytes(s[0]) <= room ==> fits_count(s, room) > 0,
    decreases s.len(),
{
    if s.len() > 0 && char_bytes(s[0]) <= room {
        let w = char_bytes(s[0]);
        lemma_fits_count(s.drop_first(), room - w);
        let k = fits_count(s, room);
        let t = s.take(k as int);
        assert(t.drop_first() =~= s.drop_first().take(k - 1));
        assert(t[0] == s[0]);
        if k - 1 == 0 {
            assert(s.drop_first().take(0) =~= Seq::<char>::empty());
        }
    }
}

/// Each greedy piece is not empty and fits, and the pieces put back together are `s`.
pub proof fn lemma_chunks_of(s: Seq<char>, max: nat)
    requires
        chunkable(s, max),
    ensures
        chunks_of(s, max).flatten() == s,
        s.len() > 0 ==> chunks_of(s, max).len() > 0,
        forall|k: int| 0 <= k < chunks_of(s, max).len() ==> (#[trigger] chunks_of(s, max)[k]).len() > 0
            && encode_utf8(chunks_of(s, max)[k]).len() <= max,
    decreases s.len(),
{
    if s.len() == 0 {
        assert(chunks_of(s, max).flatten() =~= s);
    } else {
        lemma_fits_count(s, max as int);
        let k = fits_count(s, max as int);
        assert(char_bytes(s[0]) <= max);
        let rest = s.skip(k as int);
        assert forall|i: int| 0 <= i < rest.len() implies #[trigger] char_bytes(rest[i]) <= max by {
            assert(rest[i] == s[i + k]);
        }
        lemma_chunks_of(rest, max);
        let c = chunks_of(s, max);
        assert(c == seq![s.take(k as int)] + chunks_of(rest, max));
        assert(c.drop_first() =~= chunks_of(rest, max));
        assert(c.first() == s.take(k as int));
        assert(c.flatten() == c.first() + c.drop_first().flatten());
        assert(s.take(k as int) + rest =~= s);
        assert forall|j: int| 0 <= j < c.len() implies (#[trigger] c[j]).len() > 0 && encode_utf8(c[j]).len() <= max by {
            if j > 0 {
                assert(c[j] == chunks_of(rest, max)[j - 1]);
            }
        }
    }
}

/// How many bytes `c` takes in UTF-8.
pub fn char_width(c: char) -> (r: usize)
    ensures
        r == char_bytes(c),
        1 <= r <= 4,
{
    proof {
        vstd::utf8::char_is_scalar(c);
    }
    let v = c as u32;
    if v <= 0x7F {
        1
    } else if v <= 0x7FF {
        2
    } else if v <= 0xFFFF {
        3
    } else {
        4
    }
}

/// `text` cut greedily into pieces of at most `max` bytes, at character boundaries; `None`
/// when that cannot be done, because `max` is zero or a character is wider than `max`.
pub fn chunk_text(text: &str, max: usize) -> (r: Option<Vec<String>>)
    ensures
        match r {
            Some(pieces) => chunkable(text@, max as nat) && texts(pieces@) == chunks_of(text@, max as nat),
            None => !chunkable(text@, max as nat),
        },
{
    let chars = to_chars(text);
    let ghost s = text@;
    let n = chars.len();
    if max == 0 {
        return None;
    }
    let mut i: usize = 0;
    while i < n
        invariant
            chars@ == s,
            s == text@,
            max > 0,
            n == s.len(),
            0 <= i <= n,
            forall|j: int| 0 <= j < i ==> #[trigger] char_bytes(s[j]) <= max,
        decreases n - i,
    {
        if char_width(chars[i]) > max {
            assert(char_bytes(s[i as int]) > max);
            return None;
        }
        i = i + 1;
    }
    let mut pieces: Vec<String> = Vec::new();
    let mut i: usize = 0;
    proof {
        assert(s.skip(0) =~= s);
        assert(texts(pieces@) + chunks_of(s, max as nat) =~= chunks_of(s, max as nat));
    }
    while i < n
        invariant
            chars@ == s,
            s == text@,
            n == s.len(),
            0 <= i <= n,
            chunkable(s, max as nat),
            texts(pieces@) + chunks_of(s.skip(i as int), max as nat) == chunks_of(s, max as nat),
        decreases n - i,
    {
        let mut piece = String::new();
        let mut room: usize = max;
        let mut j: usize = i;
        while j < n && char_width(chars[j]) <= room
            invariant
                chars@ == s,
                n == s.len(),
                i < n,
                i <= j <= n,
                room <= max,
                j == i ==> room == max,
                piece@ == s.subrange(i as int, j as int),
                fits_count(s.skip(i as int), max as int) == (j - i) + fits_count(s.skip(j as int), room as int),
            decreases n - j,
        {
            let w = char_width(chars[j]);
            proof {
                assert(s.skip(j as int).drop_first() =~= s.skip(j + 1));
                assert(s.skip(j as int)[0] == s[j as int]);
            }
            push_char(&mut piece, chars[j]);
            proof {
                assert(piece@ =~= s.subrange(i as int, j + 1));
            }
            room = room - w;
            j = j + 1;
        }
        proof {
            if j < n {
                assert(s.skip(j as int)[0] == s[j as int]);
            }
            assert(fits_count(s.skip(j as int), room as int) == 0);
            assert(s.skip(i as int)[0] == s[i as int]);
            assert(char_bytes(s[i as int]) <= max);
            let k = fits_count(s.skip(i as int), max as int);
            assert(k == j - i);
            assert(j > i);
            let t = s.skip(i as int);
            assert(t.take(k as int) =~= s.subrange(i as int, j as int));
            assert(t.skip(k as int) =~= s.skip(j as int));
            assert(chunks_of(t, max as nat) == seq![t.take(k as int)] + chunks_of(t.skip(k as int), max as nat));
        }
        let ghost before = pieces@;
        pieces.push(piece);
        proof {
            assert(texts(pieces@) =~= texts(before).push(s.subrange(i as int, j as int)));
            assert(texts(pieces@) + chunks_of(s.skip(j as int), max as nat) =~= texts(before) + chunks_of(
                s.skip(i as int),
                max as nat,
            ));
        }
        i = j;
    }
    proof {
        assert(s.skip(n as int) =~= Seq::<char>::empty());
        assert(texts(pieces@) + Seq::<Seq<char>>::empty() =~= texts(pieces@));
    }
    Some(pieces)
}

} // verus!
