//! Counts kept per name, listed in name order.
//!
//! A tally is a list of names with a count each, sorted by name and holding only the names whose
//! count is above zero. It is what an ordered map from names to counts would hold, laid out as a
//! vector so that every update is a verified search and insert.

use vstd::prelude::*;

use crate::text::{
    lemma_seq_lt_irreflexive, lemma_seq_lt_total, lemma_seq_lt_transitive, lemma_strictly_sorted_unique, seq_lt, str_eq, str_lt,
    strictly_sorted,
};

verus! {

/// The names a tally lists, in order.
pub open spec fn tally_names(t: Seq<(&'static str, u64)>) -> Seq<Seq<char>> {
    t.map_values(|e: (&'static str, u64)| e.0@)
}

/// A tally listing, in name order, each name whose count is above zero, with that count.
pub open spec fn tallies(t: Seq<(&'static str, u64)>, count: spec_fn(Seq<char>) -> nat) -> bool {
    &&& strictly_sorted(tally_names(t))
    &&& forall|k: int| 0 <= k < t.len() ==> #[trigger] t[k].1 == count(t[k].0@)
    &&& forall|n: Seq<char>| tally_names(t).contains(n) <==> count(n) > 0
}

/// Count `by` more under `name`.
pub(crate) fn add_count(
    table: &mut Vec<(&'static str, u64)>,
    name: &'static str,
    by: u64,
    Ghost(before): Ghost<spec_fn(Seq<char>) -> nat>,
    Ghost(after): Ghost<spec_fn(Seq<char>) -> nat>,
)
    requires
        tallies(old(table)@, before),
        by > 0,
        before(name@) + by <= u64::MAX,
        forall|n: Seq<char>| #[trigger] after(n) == before(n) + if n == name@ { by as nat } else { 0nat },
    ensures
        tallies(final(table)@, after),
{
    let mut j: usize = 0;
    while j < table.len()
        invariant
            0 <= j <= table@.len(),
            table@ == old(table)@,
            tallies(table@, before),
            by > 0,
            before(name@) + by <= u64::MAX,
            forall|n: Seq<char>| #[trigger] after(n) == before(n) + if n == name@ { by as nat } else { 0nat },
            forall|m: int| 0 <= m < j ==> #[trigger] tally_names(table@)[m] != name@,
        decreases table.len() - j,
    {
        if str_eq(table[j].0, name) {
            let (entry, count) = table[j];
            proof {
                assert(tally_names(table@)[j as int] == name@);
                assert(table@[j as int].1 == before(table@[j as int].0@));
                assert(count == before(name@));
            }
            let ghost old_table = table@;
            table.set(j, (entry, count + by));
            proof {
                assert(tally_names(table@) =~= tally_names(old_table));
                assert forall|m: int| 0 <= m < table@.len() implies #[trigger] table@[m].1 == after(table@[m].0@) by {
                    if m != j {
                        assert(table@[m] == old_table[m]);
                        assert(tally_names(old_table)[m] != tally_names(old_table)[j as int]) by {
                            if m < j {
                                assert(seq_lt(tally_names(old_table)[m], tally_names(old_table)[j as int]));
                            } else {
                                assert(seq_lt(tally_names(old_table)[j as int], tally_names(old_table)[m]));
                            }
                            lemma_seq_lt_irreflexive(name@);
                        }
                    }
                }
            }
            return;
        }
        j = j + 1;
    }
    let ghost old_table = table@;
    proof {
        assert(!tally_names(old_table).contains(name@)) by {
            if tally_names(old_table).contains(name@) {
                let q = choose|q: int| 0 <= q < tally_names(old_table).len() && tally_names(old_table)[q] == name@;
                assert(tally_names(table@)[q] != name@);
            }
        }
        assert(before(name@) == 0);
    }
    let mut p: usize = 0;
    while p < table.len() && !str_lt(name, table[p].0)
        invariant
            0 <= p <= table@.len(),
            table@ == old_table,
            tallies(old_table, before),
            forall|m: int| 0 <= m < p ==> !seq_lt(name@, #[trigger] tally_names(old_table)[m]),
        decreases table.len() - p,
    {
        p = p + 1;
    }
    table.insert(p, (name, by));
    proof {
        let nb = tally_names(old_table);
        let na = tally_names(table@);
        assert(na =~= nb.insert(p as int, name@));
        assert forall|x: int, y: int| 0 <= x < y < na.len() implies seq_lt(#[trigger] na[x], #[trigger] na[y]) by {
            if y < p {
                assert(na[x] == nb[x] && na[y] == nb[y]);
            } else if x > p {
                assert(na[x] == nb[x - 1] && na[y] == nb[y - 1]);
            } else if x < p && y == p {
                assert(na[x] == nb[x]);
                assert(!seq_lt(name@, nb[x]));
                assert(nb.contains(nb[x]));
                lemma_seq_lt_total(nb[x], name@);
            } else if x == p {
                assert(na[y] == nb[y - 1]);
                assert(seq_lt(name@, nb[p as int]));
                if y - 1 > p {
                    assert(seq_lt(nb[p as int], nb[y - 1]));
                    lemma_seq_lt_transitive(name@, nb[p as int], nb[y - 1]);
                }
            } else {
                assert(na[x] == nb[x] && na[y] == nb[y - 1]);
            }
        }
        assert forall|m: int| 0 <= m < table@.len() implies #[trigger] table@[m].1 == after(table@[m].0@) by {
            if m < p {
                assert(table@[m] == old_table[m]);
                assert(nb[m] != name@);
            } else if m > p {
                assert(table@[m] == old_table[m - 1]);
                assert(nb[m - 1] != name@);
            }
        }
        assert forall|n: Seq<char>| na.contains(n) <==> after(n) > 0 by {
            if na.contains(n) {
                let q = choose|q: int| 0 <= q < na.len() && na[q] == n;
                if q < p { assert(nb[q] == n); assert(nb.contains(n)); } else if q > p { assert(nb[q - 1] == n); assert(nb.contains(n)); }
            }
            if after(n) > 0 {
                if n == name@ {
                    assert(na[p as int] == n);
                } else {
                    assert(nb.contains(n));
                    let q = choose|q: int| 0 <= q < nb.len() && nb[q] == n;
                    if q < p { assert(na[q] == n); } else { assert(na[q + 1] == n); }
                }
            }
        }
    }
}

/// The count a tally holds for `n`: zero when it does not list `n`.
pub open spec fn tally_count(t: Seq<(&'static str, u64)>, n: Seq<char>) -> nat {
    if exists|k: int| 0 <= k < t.len() && #[trigger] t[k].0@ == n {
        t[tally_index(t, n)].1 as nat
    } else {
        0
    }
}

/// Where a tally lists `n`.
pub open spec fn tally_index(t: Seq<(&'static str, u64)>, n: Seq<char>) -> int {
    choose|k: int| 0 <= k < t.len() && #[trigger] t[k].0@ == n
}

/// A tally in good order: names sorted and distinct, every count above zero.
pub open spec fn tally_wf(t: Seq<(&'static str, u64)>) -> bool {
    &&& strictly_sorted(tally_names(t))
    &&& forall|k: int| 0 <= k < t.len() ==> #[trigger] t[k].1 > 0
}

/// A tally in good order holds exactly its own counts.
pub proof fn lemma_tally_wf(t: Seq<(&'static str, u64)>)
    requires
        tally_wf(t),
    ensures
        tallies(t, |n: Seq<char>| tally_count(t, n)),
{
    assert forall|k: int| 0 <= k < t.len() implies #[trigger] t[k].1 == tally_count(t, t[k].0@) by {
        let n = t[k].0@;
        assert(exists|q: int| 0 <= q < t.len() && #[trigger] t[q].0@ == n);
        let q = tally_index(t, n);
        if q != k {
            assert(tally_names(t)[q] == tally_names(t)[k]);
            if q < k {
                assert(seq_lt(tally_names(t)[q], tally_names(t)[k]));
            } else {
                assert(seq_lt(tally_names(t)[k], tally_names(t)[q]));
            }
            lemma_seq_lt_irreflexive(n);
        }
    }
    assert forall|n: Seq<char>| tally_names(t).contains(n) <==> tally_count(t, n) > 0 by {
        if tally_names(t).contains(n) {
            let k = choose|k: int| 0 <= k < tally_names(t).len() && tally_names(t)[k] == n;
            assert(t[k].0@ == n);
        }
        if tally_count(t, n) > 0 {
            let k = choose|k: int| 0 <= k < t.len() && #[trigger] t[k].0@ == n;
            assert(tally_names(t)[k] == n);
        }
    }
}

/// A tally of some counts is in good order and holds those counts.
pub proof fn lemma_tallies_count(t: Seq<(&'static str, u64)>, count: spec_fn(Seq<char>) -> nat)
    requires
        tallies(t, count),
    ensures
        tally_wf(t),
        forall|n: Seq<char>| #[trigger] tally_count(t, n) == count(n),
{
    assert forall|k: int| 0 <= k < t.len() implies #[trigger] t[k].1 > 0 by {
        assert(tally_names(t)[k] == t[k].0@);
        assert(tally_names(t).contains(t[k].0@));
    }
    lemma_tally_wf(t);
    assert forall|n: Seq<char>| #[trigger] tally_count(t, n) == count(n) by {
        if tally_names(t).contains(n) {
            let k = choose|k: int| 0 <= k < tally_names(t).len() && tally_names(t)[k] == n;
            assert(t[k].0@ == n);
        } else {
            assert(!(tally_count(t, n) > 0));
        }
    }
}

/// Add every count of `other` into `table`.
pub fn merge_into(table: &mut Vec<(&'static str, u64)>, other: &Vec<(&'static str, u64)>)
    requires
        tally_wf(old(table)@),
        tally_wf(other@),
        forall|n: Seq<char>| tally_count(old(table)@, n) + tally_count(other@, n) <= u64::MAX,
    ensures
        tally_wf(final(table)@),
        forall|n: Seq<char>| #[trigger] tally_count(final(table)@, n) == tally_count(old(table)@, n) + tally_count(other@, n),
{
    let ghost base = table@;
    proof {
        lemma_tally_wf(base);
        lemma_tally_wf(other@);
    }
    let ghost o = other@;
    let mut i: usize = 0;
    while i < other.len()
        invariant
            0 <= i <= other@.len(),
            o == other@,
            tally_wf(base),
            tally_wf(o),
            tallies(o, |n: Seq<char>| tally_count(o, n)),
            forall|n: Seq<char>| tally_count(base, n) + tally_count(o, n) <= u64::MAX,
            tallies(table@, |n: Seq<char>| tally_count(base, n) + if tally_names(o.take(i as int)).contains(n) { tally_count(o, n) } else { 0nat }),
        decreases other.len() - i,
    {
        let (name, by) = other[i];
        let ghost before = |n: Seq<char>| tally_count(base, n) + if tally_names(o.take(i as int)).contains(n) { tally_count(o, n) } else { 0nat };
        let ghost after = |n: Seq<char>| tally_count(base, n) + if tally_names(o.take(i + 1)).contains(n) { tally_count(o, n) } else { 0nat };
        proof {
            assert(o[i as int].1 == tally_count(o, o[i as int].0@));
            assert(!tally_names(o.take(i as int)).contains(name@)) by {
                if tally_names(o.take(i as int)).contains(name@) {
                    let j = choose|j: int| 0 <= j < tally_names(o.take(i as int)).len() && tally_names(o.take(i as int))[j] == name@;
                    assert(tally_names(o)[j] == tally_names(o)[i as int]);
                    assert(seq_lt(tally_names(o)[j], tally_names(o)[i as int]));
                    lemma_seq_lt_irreflexive(name@);
                }
            }
            assert forall|n: Seq<char>| #[trigger] after(n) == before(n) + if n == name@ { by as nat } else { 0nat } by {
                let longer = tally_names(o.take(i + 1));
                let shorter = tally_names(o.take(i as int));
                assert(longer =~= shorter.push(name@));
                if longer.contains(n) && n != name@ {
                    let j = choose|j: int| 0 <= j < longer.len() && longer[j] == n;
                    assert(shorter[j] == n);
                }
                if shorter.contains(n) {
                    let j = choose|j: int| 0 <= j < shorter.len() && shorter[j] == n;
                    assert(longer[j] == n);
                }
                if n == name@ {
                    assert(longer[i as int] == n);
                }
            }
        }
        add_count(table, name, by, Ghost(before), Ghost(after));
        i = i + 1;
    }
    proof {
        assert(o.take(i as int) == o);
        let f = |n: Seq<char>| tally_count(base, n) + if tally_names(o.take(i as int)).contains(n) { tally_count(o, n) } else { 0nat };
        lemma_tallies_count(table@, f);
        assert forall|n: Seq<char>| #[trigger] tally_count(table@, n) == tally_count(base, n) + tally_count(o, n) by {
            if !tally_names(o).contains(n) {
                assert(!(tally_count(o, n) > 0));
            }
        }
    }
}

/// The sum of a tally's counts.
pub open spec fn tally_total(t: Seq<(&'static str, u64)>) -> nat
    decreases t.len(),
{
    if t.len() == 0 {
        0
    } else {
        tally_total(t.drop_last()) + t.last().1 as nat
    }
}

/// The sum of a tally's counts, which must fit.
pub fn total_of(t: &Vec<(&'static str, u64)>) -> (r: u64)
    requires
        tally_total(t@) <= u64::MAX,
    ensures
        r == tally_total(t@),
{
    let mut s: u64 = 0;
    let mut i: usize = 0;
    while i < t.len()
        invariant
            0 <= i <= t@.len(),
            tally_total(t@) <= u64::MAX,
            s == tally_total(t@.take(i as int)),
        decreases t.len() - i,
    {
        proof {
            assert(t@.take(i + 1).drop_last() == t@.take(i as int));
            lemma_total_prefix(t@, i + 1);
        }
        s = s + t[i].1;
        i = i + 1;
    }
    assert(t@.take(i as int) == t@);
    s
}

/// The sum of a tally's counts, or `None` where it does not fit in a `u64`.
pub fn checked_total_of(t: &Vec<(&'static str, u64)>) -> (r: Option<u64>)
    ensures
        match r {
            Some(s) => s == tally_total(t@),
            None => tally_total(t@) > u64::MAX,
        },
{
    let mut s: u64 = 0;
    let mut i: usize = 0;
    while i < t.len()
        invariant
            0 <= i <= t@.len(),
            s == tally_total(t@.take(i as int)),
        decreases t.len() - i,
    {
        proof {
            assert(t@.take(i + 1).drop_last() == t@.take(i as int));
            lemma_total_prefix(t@, i + 1);
        }
        match s.checked_add(t[i].1) {
            Some(next) => s = next,
            None => {
                return None;
            },
        }
        i = i + 1;
    }
    assert(t@.take(i as int) == t@);
    Some(s)
}

proof fn lemma_total_prefix(t: Seq<(&'static str, u64)>, k: int)
    requires
        0 <= k <= t.len(),
    ensures
        tally_total(t.take(k)) <= tally_total(t),
    decreases t.len() - k,
{
    if k < t.len() {
        lemma_total_prefix(t, k + 1);
        assert(t.take(k + 1).drop_last() == t.take(k));
    } else {
        assert(t.take(k) == t);
    }
}


/// Whether no count of `t` is above the count `cap` holds for the same name.
pub fn tally_within(t: &Vec<(&'static str, u64)>, cap: &Vec<(&'static str, u64)>) -> (r: bool)
    requires
        tally_wf(t@),
        tally_wf(cap@),
    ensures
        r == forall|n: Seq<char>| #[trigger] tally_count(t@, n) <= tally_count(cap@, n),
{
    proof {
        lemma_tally_wf(t@);
    }
    let mut k: usize = 0;
    while k < t.len()
        invariant
            0 <= k <= t@.len(),
            tally_wf(t@),
            tally_wf(cap@),
            tallies(t@, |n: Seq<char>| tally_count(t@, n)),
            forall|j: int| 0 <= j < k ==> #[trigger] t@[j].1 <= tally_count(cap@, t@[j].0@),
        decreases t.len() - k,
    {
        let (name, count) = t[k];
        if count_in(cap, name) < count {
            assert(t@[k as int].1 == tally_count(t@, t@[k as int].0@));
            assert(tally_count(t@, name@) > tally_count(cap@, name@));
            return false;
        }
        k = k + 1;
    }
    assert forall|n: Seq<char>| #[trigger] tally_count(t@, n) <= tally_count(cap@, n) by {
        if tally_count(t@, n) > 0 {
            assert(tally_names(t@).contains(n));
            let j = choose|j: int| 0 <= j < tally_names(t@).len() && tally_names(t@)[j] == n;
            assert(t@[j].0@ == n);
            assert(t@[j].1 == tally_count(t@, t@[j].0@));
        }
    }
    true
}

/// What a tally holds, with each name taken as its text.
pub open spec fn tally_view(t: Seq<(&'static str, u64)>) -> Seq<(Seq<char>, u64)> {
    t.map_values(|e: (&'static str, u64)| (e.0@, e.1))
}

/// Two tallies in good order that hold the same counts list the same names with the same counts.
pub proof fn lemma_tally_unique(s: Seq<(&'static str, u64)>, t: Seq<(&'static str, u64)>)
    requires
        tally_wf(s),
        tally_wf(t),
        forall|n: Seq<char>| #[trigger] tally_count(s, n) == tally_count(t, n),
    ensures
        tally_view(s) == tally_view(t),
{
    lemma_tally_wf(s);
    lemma_tally_wf(t);
    assert forall|n: Seq<char>| tally_names(s).contains(n) <==> tally_names(t).contains(n) by {
        assert(tally_count(s, n) == tally_count(t, n));
    }
    lemma_strictly_sorted_unique(tally_names(s), tally_names(t));
    assert(s.len() == tally_names(s).len());
    assert forall|k: int| 0 <= k < s.len() implies #[trigger] tally_view(s)[k] == tally_view(t)[k] by {
        assert(tally_names(s)[k] == tally_names(t)[k]);
        assert(s[k].1 == tally_count(s, s[k].0@));
        assert(t[k].1 == tally_count(t, t[k].0@));
    }
    assert(tally_view(s) =~= tally_view(t));
}

/// The count a tally in good order holds for `name`.
pub fn count_in(t: &Vec<(&'static str, u64)>, name: &str) -> (r: u64)
    requires
        tally_wf(t@),
    ensures
        r == tally_count(t@, name@),
{
    proof {
        lemma_tally_wf(t@);
    }
    let mut k: usize = 0;
    while k < t.len()
        invariant
            0 <= k <= t@.len(),
            tally_wf(t@),
            tallies(t@, |n: Seq<char>| tally_count(t@, n)),
            forall|m: int| 0 <= m < k ==> #[trigger] t@[m].0@ != name@,
        decreases t.len() - k,
    {
        if str_eq(t[k].0, name) {
            assert(t@[k as int].1 == tally_count(t@, t@[k as int].0@));
            return t[k].1;
        }
        k = k + 1;
    }
    proof {
        if tally_count(t@, name@) > 0 {
            assert(tally_names(t@).contains(name@));
            let q = choose|q: int| 0 <= q < tally_names(t@).len() && tally_names(t@)[q] == name@;
            assert(t@[q].0@ == name@);
        }
    }
    0
}


/// Tallies that hold the same names and counts have the same total.
pub proof fn lemma_total_of_view(s: Seq<(&'static str, u64)>, t: Seq<(&'static str, u64)>)
    requires
        tally_view(s) == tally_view(t),
    ensures
        tally_total(s) == tally_total(t),
    decreases s.len(),
{
    assert(s.len() == tally_view(s).len());
    assert(t.len() == tally_view(t).len());
    if s.len() > 0 {
        assert(tally_view(s.drop_last()) =~= tally_view(s).drop_last());
        assert(tally_view(t.drop_last()) =~= tally_view(t).drop_last());
        assert(tally_view(s)[s.len() - 1] == tally_view(t)[t.len() - 1]);
        lemma_total_of_view(s.drop_last(), t.drop_last());
    }
}

} // verus!
