//! Why canonicalizing twice changes nothing: each axis a default run applies leaves the line
//! settled along it, and every later axis keeps it settled, composition coming last.

use vstd::prelude::*;
use vstd::utf8::is_ascii_chars;

use crate::corpus::axis::{
    composed_from, fold_all, fold_char, fold_settled, in_ranges, is_default_axis, nfkc_within_rule, replace_rule,
    soft_hyphen_line_final_rule, soft_hyphen_mid_line_rule, step_facts, strip_rule, swap_of, swapped, without, Axis,
    Expansion, Rule, SOFT_HYPHEN,
};
use crate::corpus::canonical::{canon_upto, step};
use crate::unicode::{kept_out, nfc_of};

verus! {

/// The default axes a canonicalizing run can apply, by their place in the default order.
pub open spec fn in_run_set(k: int) -> bool {
    k == 0 || k == 1 || k == 3 || k == 5 || k == 6 || k == 7 || k == 8
}

/// `axes` are default axes, each at the place `ks` gives, in the default order, all of a kind a
/// canonicalizing run can apply.
pub open spec fn default_run_at(axes: Seq<Axis>, ks: Seq<int>) -> bool {
    &&& ks.len() == axes.len()
    &&& forall|j: int| 0 <= j < ks.len() ==> in_run_set(#[trigger] ks[j]) && is_default_axis(ks[j], axes[j])
    &&& forall|i: int, j: int| 0 <= i < j < ks.len() ==> ks[i] < ks[j]
}

/// The axes of a run over the default axes.
pub open spec fn default_run(axes: Seq<Axis>) -> bool {
    exists|ks: Seq<int>| default_run_at(axes, ks)
}

/// `l` is settled along `axis`: a second application would find nothing to do.
pub open spec fn settled(axis: Axis, l: Seq<char>) -> bool {
    match axis.rule {
        Rule::Strip(cs) => forall|i: int| 0 <= i < l.len() ==> !cs@.contains(#[trigger] l[i]),
        Rule::NfkcWithin(rs, _) => forall|i: int| 0 <= i < l.len() ==> fold_char(rs@, Expansion::Same, #[trigger] l[i]) == seq![l[i]],
        Rule::Replace(ps) => forall|i: int| 0 <= i < l.len() ==> swap_of(ps@, #[trigger] l[i]) is None,
        Rule::SoftHyphenLineFinal => !(l.len() > 0 && l.last() == SOFT_HYPHEN),
        Rule::SoftHyphenMidLine => !(l.len() > 0 && l.drop_last().contains(SOFT_HYPHEN)),
        Rule::Nfc => is_ascii_chars(l) || nfc_of(l) == l,
        Rule::AsciiDigits => false,
    }
}

pub proof fn lemma_fold_all_unchanged(rs: Seq<(u32, u32)>, e: Expansion, l: Seq<char>)
    requires
        forall|i: int| 0 <= i < l.len() ==> fold_char(rs, e, #[trigger] l[i]) == seq![l[i]],
    ensures
        fold_all(rs, e, l) == l,
    decreases l.len(),
{
    if l.len() > 0 {
        assert forall|i: int| 0 <= i < l.drop_last().len() implies fold_char(rs, e, #[trigger] l.drop_last()[i]) == seq![l.drop_last()[i]] by {
            assert(l.drop_last()[i] == l[i]);
        }
        lemma_fold_all_unchanged(rs, e, l.drop_last());
        assert(fold_char(rs, e, l[l.len() - 1]) == seq![l.last()]);
        assert(l.drop_last() + seq![l.last()] =~= l);
    }
}

/// A settled line is left alone by the axis.
proof fn lemma_settled_untouched(k: int, axis: Axis, l: Seq<char>)
    requires
        is_default_axis(k, axis),
        in_run_set(k),
        settled(axis, l),
    ensures
        axis.transform(l) is None,
{
    if !is_ascii_chars(l) {
        match axis.rule {
            Rule::NfkcWithin(rs, e) => {
                lemma_fold_all_unchanged(rs@, Expansion::Same, l);
            },
            Rule::Strip(cs) => {
                if strip_rule(cs@, l) is Some {
                    let i = choose|i: int| 0 <= i < l.len() && cs@.contains(l[i]);
                    assert(!cs@.contains(l[i]));
                }
            },
            Rule::Replace(ps) => {
                if replace_rule(ps@, l) is Some {
                    let i = choose|i: int| 0 <= i < l.len() && swap_of(ps@, l[i]) is Some;
                    assert(swap_of(ps@, l[i]) is None);
                }
            },
            _ => {},
        }
    }
}

/// The characters a default fold looks at are ones `kept_out` lists.
proof fn lemma_fold_ranges_kept_out(k: int, axis: Axis, d: char)
    requires
        is_default_axis(k, axis),
        in_run_set(k),
        axis.rule matches Rule::NfkcWithin(rs, e) && in_ranges(rs@, d),
    ensures
        kept_out(d),
{
    if let Rule::NfkcWithin(rs, e) = axis.rule {
        let i = choose|i: int| 0 <= i < rs@.len() && rs@[i].0 <= (d as u32) && (d as u32) <= rs@[i].1;
        if k == 1 {
            assert(i == 0 || i == 1);
        } else {
            assert(k == 3);
            assert(i == 0);
        }
    }
}

/// The characters of `after` all come from `before`.
pub open spec fn chars_from(before: Seq<char>, after: Seq<char>) -> bool {
    forall|i: int| 0 <= i < after.len() ==> before.contains(#[trigger] after[i])
}

proof fn lemma_without_from(l: Seq<char>, set: Seq<char>)
    ensures
        chars_from(l, without(l, set)),
{
    assert forall|i: int| 0 <= i < without(l, set).len() implies l.contains(#[trigger] without(l, set)[i]) by {
        let p = |c: char| !set.contains(c);
        assert(l.filter(p).contains(without(l, set)[i]));
        l.lemma_filter_contains_rev(p, without(l, set)[i]);
    }
}

/// What settles a line along a character-by-character axis, for one character.
pub open spec fn char_ok(axis: Axis, d: char) -> bool {
    match axis.rule {
        Rule::Strip(cs) => !cs@.contains(d),
        Rule::NfkcWithin(rs, _) => fold_char(rs@, Expansion::Same, d) == seq![d],
        Rule::Replace(ps) => swap_of(ps@, d) is None,
        _ => true,
    }
}

/// Whether an axis works character by character.
pub open spec fn charwise(axis: Axis) -> bool {
    axis.rule is Strip || axis.rule is NfkcWithin || axis.rule is Replace
}

proof fn lemma_settled_chars(axis: Axis, l: Seq<char>)
    requires
        charwise(axis),
    ensures
        settled(axis, l) <==> forall|i: int| 0 <= i < l.len() ==> char_ok(axis, #[trigger] l[i]),
{
}

/// A character a default run's character-by-character axis has nothing to do with: one that is
/// not among those `kept_out` lists, and that a fold leaves alone.
proof fn lemma_harmless(k: int, axis: Axis, d: char)
    requires
        is_default_axis(k, axis),
        in_run_set(k),
        charwise(axis),
        !kept_out(d),
    ensures
        char_ok(axis, d),
{
    reveal_with_fuel(swap_of, 3);
    match axis.rule {
        Rule::NfkcWithin(rs, e) => {
            if in_ranges(rs@, d) {
                lemma_fold_ranges_kept_out(k, axis, d);
            }
        },
        _ => {},
    }
}

proof fn lemma_ascii_harmless(k: int, axis: Axis, d: char)
    requires
        is_default_axis(k, axis),
        in_run_set(k),
        charwise(axis),
        '\0' <= d <= '\u{7f}',
    ensures
        char_ok(axis, d),
{
    if d == '\n' {
        reveal_with_fuel(swap_of, 3);
        if let Rule::NfkcWithin(rs, e) = axis.rule {
            if in_ranges(rs@, d) {
                lemma_fold_ranges_kept_out(k, axis, d);
                let i = choose|i: int| 0 <= i < rs@.len() && rs@[i].0 <= (d as u32) && (d as u32) <= rs@[i].1;
            }
        }
    } else {
        lemma_harmless(k, axis, d);
    }
}

proof fn lemma_without_none(l: Seq<char>, set: Seq<char>)
    ensures
        forall|i: int| 0 <= i < without(l, set).len() ==> !set.contains(#[trigger] without(l, set)[i]),
{
    assert forall|i: int| 0 <= i < without(l, set).len() implies !set.contains(#[trigger] without(l, set)[i]) by {
        l.lemma_filter_pred(|c: char| !set.contains(c), i);
    }
}

/// After its own step, a line is settled along the axis.
proof fn lemma_own(k: int, axis: Axis, cur: Seq<char>)
    requires
        is_default_axis(k, axis),
        in_run_set(k),
        step_facts(axis, cur),
    ensures
        settled(axis, step(axis, cur)),
{
    let next = step(axis, cur);
    reveal_with_fuel(swap_of, 3);
    if is_ascii_chars(cur) {
        assert(next == cur);
        if charwise(axis) {
            assert forall|i: int| 0 <= i < next.len() implies char_ok(axis, #[trigger] next[i]) by {
                lemma_ascii_harmless(k, axis, next[i]);
            }
            lemma_settled_chars(axis, next);
        } else if axis.rule is SoftHyphenLineFinal || axis.rule is SoftHyphenMidLine {
            if next.len() > 0 {
                assert('\0' <= next[next.len() - 1] <= '\u{7f}');
                if next.drop_last().contains(SOFT_HYPHEN) {
                    let i = choose|i: int| 0 <= i < next.drop_last().len() && next.drop_last()[i] == SOFT_HYPHEN;
                    assert('\0' <= next[i] <= '\u{7f}');
                }
            }
        }
    } else {
        match axis.rule {
            Rule::Strip(cs) => {
                lemma_without_none(cur, cs@);
            },
            Rule::NfkcWithin(rs, e) => {
                assert(e == Expansion::Same);
                assert(fold_settled(rs@, cur, next));
            },
            Rule::Replace(ps) => {
                if replace_rule(ps@, cur) is Some {
                    assert forall|i: int| 0 <= i < next.len() implies swap_of(ps@, #[trigger] next[i]) is None by {
                        assert(next[i] == swapped(ps@, cur[i]));
                    }
                }
            },
            Rule::SoftHyphenLineFinal => {
                if soft_hyphen_line_final_rule(cur) is Some {
                    assert(next.last() == '-');
                }
            },
            Rule::SoftHyphenMidLine => {
                if soft_hyphen_mid_line_rule(cur) is Some {
                    lemma_without_none(cur.drop_last(), seq![SOFT_HYPHEN]);
                    assert(next.drop_last() =~= without(cur.drop_last(), seq![SOFT_HYPHEN]));
                    if next.drop_last().contains(SOFT_HYPHEN) {
                        let i = choose|i: int| 0 <= i < next.drop_last().len() && next.drop_last()[i] == SOFT_HYPHEN;
                        assert(seq![SOFT_HYPHEN][0] == SOFT_HYPHEN);
                        assert(seq![SOFT_HYPHEN].contains(next.drop_last()[i]));
                    }
                }
            },
            Rule::Nfc => {},
            Rule::AsciiDigits => {},
        }
    }
}

/// A later axis of a default run keeps a line settled along an earlier one.
proof fn lemma_keep(kj: int, aj: Axis, kk: int, ak: Axis, cur: Seq<char>)
    requires
        is_default_axis(kj, aj),
        is_default_axis(kk, ak),
        in_run_set(kj),
        in_run_set(kk),
        kj < kk,
        settled(aj, cur),
        step_facts(ak, cur),
    ensures
        settled(aj, step(ak, cur)),
{
    let next = step(ak, cur);
    reveal_with_fuel(swap_of, 3);
    if ak.transform(cur) is Some {
        if charwise(aj) {
            lemma_settled_chars(aj, cur);
            assert forall|i: int| 0 <= i < next.len() implies char_ok(aj, #[trigger] next[i]) by {
                let d = next[i];
                if cur.contains(d) {
                    let q = choose|q: int| 0 <= q < cur.len() && cur[q] == d;
                    assert(char_ok(aj, cur[q]));
                } else {
                    match ak.rule {
                        Rule::NfkcWithin(rs, e) => {
                            assert(fold_settled(rs@, cur, next));
                            lemma_harmless(kj, aj, d);
                        },
                        Rule::Replace(ps) => {
                            assert(next[i] == swapped(ps@, cur[i]));
                            if swap_of(ps@, cur[i]) is None {
                                assert(cur.contains(cur[i]));
                            }
                            assert(d == ' ');
                            lemma_ascii_harmless(kj, aj, d);
                        },
                        Rule::SoftHyphenLineFinal => {
                            if i < next.len() - 1 {
                                assert(next[i] == cur[i]);
                                assert(cur.contains(cur[i]));
                            }
                            assert(d == '-');
                            lemma_ascii_harmless(kj, aj, d);
                        },
                        Rule::SoftHyphenMidLine => {
                            lemma_without_from(cur.drop_last(), seq![SOFT_HYPHEN]);
                            if i < next.len() - 1 {
                                assert(next.drop_last() =~= without(cur.drop_last(), seq![SOFT_HYPHEN]));
                                assert(next[i] == next.drop_last()[i]);
                                assert(cur.drop_last().contains(d));
                                let q = choose|q: int| 0 <= q < cur.drop_last().len() && cur.drop_last()[q] == d;
                                assert(cur[q] == d);
                            } else {
                                assert(d == cur.last());
                                assert(cur[cur.len() - 1] == d);
                            }
                        },
                        Rule::Nfc => {
                            assert(composed_from(cur, next));
                            if kept_out(d) {
                                assert(cur.contains(next[i]));
                            }
                            lemma_harmless(kj, aj, d);
                        },
                        _ => {},
                    }
                }
            }
            lemma_settled_chars(aj, next);
        } else {
            match ak.rule {
                Rule::SoftHyphenMidLine => {
                    assert(next.last() == cur.last());
                },
                Rule::Nfc => {
                    assert(composed_from(cur, next));
                },
                _ => {},
            }
        }
    }
}

proof fn lemma_prefix_settled(axes: Seq<Axis>, ks: Seq<int>, x: Seq<char>, k: int)
    requires
        default_run_at(axes, ks),
        0 <= k <= axes.len(),
        forall|j: int| 0 <= j < axes.len() ==> #[trigger] step_facts(axes[j], canon_upto(axes, j, x)),
    ensures
        forall|j: int| 0 <= j < k ==> settled(#[trigger] axes[j], canon_upto(axes, k, x)),
    decreases k,
{
    if k > 0 {
        lemma_prefix_settled(axes, ks, x, k - 1);
        let cur = canon_upto(axes, k - 1, x);
        assert(step_facts(axes[k - 1], canon_upto(axes, k - 1, x)));
        assert(in_run_set(ks[k - 1]) && is_default_axis(ks[k - 1], axes[k - 1]));
        assert forall|j: int| 0 <= j < k implies settled(#[trigger] axes[j], canon_upto(axes, k, x)) by {
            if j < k - 1 {
                assert(in_run_set(ks[j]) && is_default_axis(ks[j], axes[j]));
                assert(ks[j] < ks[k - 1]);
                lemma_keep(ks[j], axes[j], ks[k - 1], axes[k - 1], cur);
            } else {
                lemma_own(ks[k - 1], axes[k - 1], cur);
            }
        }
    }
}

proof fn lemma_settled_fixed(axes: Seq<Axis>, ks: Seq<int>, y: Seq<char>, m: int)
    requires
        default_run_at(axes, ks),
        0 <= m <= axes.len(),
        forall|j: int| 0 <= j < axes.len() ==> settled(#[trigger] axes[j], y),
    ensures
        canon_upto(axes, m, y) == y,
    decreases m,
{
    if m > 0 {
        lemma_settled_fixed(axes, ks, y, m - 1);
        assert(settled(axes[m - 1], y));
        assert(in_run_set(ks[m - 1]) && is_default_axis(ks[m - 1], axes[m - 1]));
        lemma_settled_untouched(ks[m - 1], axes[m - 1], y);
    }
}

/// A default run's canonical form is canonical: running the axes over it again changes nothing,
/// given what each step of the first run left behind.
pub proof fn lemma_run_settles(axes: Seq<Axis>, x: Seq<char>)
    requires
        default_run(axes),
        forall|j: int| 0 <= j < axes.len() ==> #[trigger] step_facts(axes[j], canon_upto(axes, j, x)),
    ensures
        canon_upto(axes, axes.len() as int, canon_upto(axes, axes.len() as int, x)) == canon_upto(axes, axes.len() as int, x),
{
    let ks = choose|ks: Seq<int>| default_run_at(axes, ks);
    let n = axes.len() as int;
    lemma_prefix_settled(axes, ks, x, n);
    lemma_settled_fixed(axes, ks, canon_upto(axes, n, x), n);
}

proof fn lemma_applied_kind_in_run(k: int, axis: Axis, decide: Seq<String>)
    requires
        0 <= k < 15,
        is_default_axis(k, axis),
        crate::corpus::canonical::is_applied(axis, decide),
    ensures
        in_run_set(k),
{
    let acts = crate::corpus::axis::default_axis_actions();
    assert(acts[2] == crate::corpus::axis::Action::Preserve);
    assert(acts[4] == crate::corpus::axis::Action::Preserve);
    assert(acts[9] == crate::corpus::axis::Action::Preserve);
    assert(acts[10] == crate::corpus::axis::Action::Preserve);
    assert(acts[11] == crate::corpus::axis::Action::Preserve);
    assert(acts[12] == crate::corpus::axis::Action::Preserve);
    assert(acts[13] == crate::corpus::axis::Action::Preserve);
    assert(acts[14] == crate::corpus::axis::Action::Preserve);
}

proof fn lemma_applied_prefix(axes: Seq<Axis>, decide: Seq<String>, m: int)
    requires
        axes.len() == 15,
        forall|k: int| 0 <= k < 15 ==> #[trigger] is_default_axis(k, axes[k]),
        0 <= m <= 15,
    ensures
        exists|ks: Seq<int>|
            default_run_at(crate::corpus::canonical::applied_axes(axes.take(m), decide), ks) && forall|j: int|
                0 <= j < ks.len() ==> #[trigger] ks[j] < m,
    decreases m,
{
    let run = crate::corpus::canonical::applied_axes(axes.take(m), decide);
    if m == 0 {
        assert(axes.take(0).len() == 0);
        assert(default_run_at(run, Seq::<int>::empty()));
    } else {
        lemma_applied_prefix(axes, decide, m - 1);
        let prev = crate::corpus::canonical::applied_axes(axes.take(m - 1), decide);
        let ks = choose|ks: Seq<int>| default_run_at(prev, ks) && forall|j: int| 0 <= j < ks.len() ==> #[trigger] ks[j] < m - 1;
        assert(axes.take(m).drop_last() =~= axes.take(m - 1));
        assert(axes.take(m).last() == axes[m - 1]);
        if crate::corpus::canonical::is_applied(axes[m - 1], decide) {
            lemma_applied_kind_in_run(m - 1, axes[m - 1], decide);
            let ks2 = ks.push(m - 1);
            assert(run == prev.push(axes[m - 1]));
            assert forall|j: int| 0 <= j < ks2.len() implies in_run_set(#[trigger] ks2[j]) && is_default_axis(ks2[j], run[j]) by {
                if j < ks.len() {
                    assert(ks2[j] == ks[j]);
                    assert(run[j] == prev[j]);
                }
            }
            assert forall|i: int, j: int| 0 <= i < j < ks2.len() implies ks2[i] < ks2[j] by {
                if j < ks.len() {
                    assert(ks2[i] == ks[i] && ks2[j] == ks[j]);
                } else {
                    assert(ks2[i] == ks[i]);
                    assert(ks[i] < m - 1);
                }
            }
            assert(default_run_at(run, ks2));
            assert forall|j: int| 0 <= j < ks2.len() implies #[trigger] ks2[j] < m by {
                if j < ks.len() {
                    assert(ks2[j] == ks[j]);
                }
            }
        } else {
            assert(run == prev);
            assert forall|j: int| 0 <= j < ks.len() implies #[trigger] ks[j] < m by {}
        }
    }
}

/// A run over the default axes, whichever `Decide` axes it opts into, is a default run: the
/// axes it applies come in the default order, composition last.
pub proof fn law_default_axes_make_a_default_run(axes: Seq<Axis>, decide: Seq<String>)
    requires
        axes.len() == 15,
        forall|k: int| 0 <= k < 15 ==> #[trigger] is_default_axis(k, axes[k]),
    ensures
        default_run(crate::corpus::canonical::applied_axes(axes, decide)),
{
    lemma_applied_prefix(axes, decide, 15);
    assert(axes.take(15) =~= axes);
}

/// A step of a default run brings in no line break: every character it leaves behind is one
/// the line had, or one that `kept_out` does not list.
proof fn lemma_step_keeps_newline_out(k: int, axis: Axis, cur: Seq<char>)
    requires
        is_default_axis(k, axis),
        in_run_set(k),
        step_facts(axis, cur),
        !cur.contains('\n'),
    ensures
        !step(axis, cur).contains('\n'),
{
    let next = step(axis, cur);
    reveal_with_fuel(swap_of, 3);
    if axis.transform(cur) is Some {
        assert forall|i: int| 0 <= i < next.len() implies #[trigger] next[i] != '\n' by {
            let d = next[i];
            if !cur.contains(d) {
                match axis.rule {
                    Rule::Strip(cs) => {
                        lemma_without_from(cur, cs@);
                    },
                    Rule::NfkcWithin(rs, e) => {
                        assert(e == Expansion::Same);
                        assert(fold_settled(rs@, cur, next));
                    },
                    Rule::Replace(ps) => {
                        assert(next[i] == swapped(ps@, cur[i]));
                        if swap_of(ps@, cur[i]) is None {
                            assert(cur.contains(cur[i]));
                        }
                    },
                    Rule::SoftHyphenLineFinal => {
                        if i < next.len() - 1 {
                            assert(next[i] == cur[i]);
                            assert(cur.contains(cur[i]));
                        }
                    },
                    Rule::SoftHyphenMidLine => {
                        lemma_without_from(cur.drop_last(), seq![SOFT_HYPHEN]);
                        if i < next.len() - 1 {
                            assert(next.drop_last() =~= without(cur.drop_last(), seq![SOFT_HYPHEN]));
                            assert(next[i] == next.drop_last()[i]);
                            assert(cur.drop_last().contains(d));
                            let q = choose|q: int| 0 <= q < cur.drop_last().len() && cur.drop_last()[q] == d;
                            assert(cur[q] == d);
                        } else {
                            assert(d == cur.last());
                            assert(cur[cur.len() - 1] == d);
                        }
                    },
                    Rule::Nfc => {
                        assert(composed_from(cur, next));
                    },
                    _ => {},
                }
            }
        }
    }
}

/// A default run brings in no line break, given what each of its steps left behind.
pub proof fn lemma_run_keeps_newline_out(axes: Seq<Axis>, x: Seq<char>, m: int)
    requires
        default_run(axes),
        0 <= m <= axes.len(),
        forall|j: int| 0 <= j < axes.len() ==> #[trigger] step_facts(axes[j], canon_upto(axes, j, x)),
        !x.contains('\n'),
    ensures
        !canon_upto(axes, m, x).contains('\n'),
    decreases m,
{
    if m > 0 {
        lemma_run_keeps_newline_out(axes, x, m - 1);
        let ks = choose|ks: Seq<int>| default_run_at(axes, ks);
        assert(step_facts(axes[m - 1], canon_upto(axes, m - 1, x)));
        assert(in_run_set(ks[m - 1]) && is_default_axis(ks[m - 1], axes[m - 1]));
        lemma_step_keeps_newline_out(ks[m - 1], axes[m - 1], canon_upto(axes, m - 1, x));
    }
}

} // verus!
