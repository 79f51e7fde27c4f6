//! The single chokepoint every source passes through on the way into the corpus.
//!
//! Applies the [`Action::Collapse`] axes and nothing else. [`Action::Decide`] axes are opt-in,
//! because the right answer depends on how your extractor behaves and you should have measured
//! it first. [`Action::Preserve`] axes are structurally unreachable from here: the filter is on
//! the verdict, so no amount of misconfiguration can fold one.

use std::borrow::Cow;

use vstd::prelude::*;
use vstd::utf8::is_ascii_chars;

use crate::corpus::axis::{is_default_axis, step_facts, Action, Axis};
use crate::corpus::settle::{default_run, lemma_run_keeps_newline_out, lemma_run_settles, law_default_axes_make_a_default_run};
use crate::text::{joined, lemma_seq_lt_asymmetric, owned, push_str, seq_lt, str_eq, str_lt};

verus! {

/// A line after one axis: folded when the axis fires, unchanged otherwise.
pub open spec fn step(axis: Axis, line: Seq<char>) -> Seq<char> {
    match axis.transform(line) {
        Some(folded) => folded,
        None => line,
    }
}

/// A line after the first `k` axes, in order.
pub open spec fn canon_upto(axes: Seq<Axis>, k: int, line: Seq<char>) -> Seq<char>
    decreases k,
{
    if k <= 0 {
        line
    } else {
        step(axes[k - 1], canon_upto(axes, k - 1, line))
    }
}

/// Whether any of the first `k` axes fired on the way.
pub open spec fn fired_upto(axes: Seq<Axis>, k: int, line: Seq<char>) -> bool
    decreases k,
{
    if k <= 0 {
        false
    } else {
        fired_upto(axes, k - 1, line) || axes[k - 1].transform(canon_upto(axes, k - 1, line)) is Some
    }
}

/// Whether `name` is among the opted-in names.
pub open spec fn decided(decide: Seq<String>, name: Seq<char>) -> bool {
    exists|j: int| 0 <= j < decide.len() && decide[j]@ == name
}

/// Whether some axis with the `Decide` verdict is called `name`.
pub open spec fn is_decide_axis(axes: Seq<Axis>, name: Seq<char>) -> bool {
    exists|i: int| 0 <= i < axes.len() && axes[i].action == Action::Decide && axes[i].name@ == name
}

/// Whether a canonicalizing run applies this axis.
pub open spec fn is_applied(axis: Axis, decide: Seq<String>) -> bool {
    match axis.action {
        Action::Collapse => true,
        Action::Decide => decided(decide, axis.name@),
        Action::Preserve => false,
    }
}

/// The axes a run applies, in their given order.
pub open spec fn applied_axes(axes: Seq<Axis>, decide: Seq<String>) -> Seq<Axis>
    decreases axes.len(),
{
    if axes.len() == 0 {
        Seq::empty()
    } else if is_applied(axes.last(), decide) {
        applied_axes(axes.drop_last(), decide).push(axes.last())
    } else {
        applied_axes(axes.drop_last(), decide)
    }
}

/// The names of the `Decide` axes, in their given order.
pub open spec fn decide_names(axes: Seq<Axis>) -> Seq<Seq<char>>
    decreases axes.len(),
{
    if axes.len() == 0 {
        Seq::empty()
    } else if axes.last().action == Action::Decide {
        decide_names(axes.drop_last()).push(axes.last().name@)
    } else {
        decide_names(axes.drop_last())
    }
}

/// Each text sorts no later than the next.
pub open spec fn sorted_texts(s: Seq<Seq<char>>) -> bool {
    forall|k: int| 0 <= k < s.len() - 1 ==> !#[trigger] seq_lt(s[k + 1], s[k])
}

/// The list of `Decide` axes an error offers instead: their names in sorted order, joined by
/// a comma and a space.
pub open spec fn lists_available(available: Seq<char>, axes: Seq<Axis>) -> bool {
    exists|s: Seq<Seq<char>>|
        s.to_multiset() == decide_names(axes).to_multiset() && sorted_texts(s) && available
            == joined(s, ", "@)
}

/// The axes a canonicalizing run will apply, in order.
#[derive(Debug)]
pub struct Canonicalizer {
    applied: Vec<Axis>,
}

/// A `Decide` axis was named that does not exist.
///
/// An error rather than a silent no-op: a typo here would quietly disable a transform the
/// operator believed was running, and they would find out from the corpus.
#[derive(Debug)]
pub struct UnknownAxis {
    pub name: String,
    pub available: String,
}

impl UnknownAxis {
    /// What the operator is told.
    pub fn message(&self) -> (r: String)
        ensures
            r@ == "unknown DECIDE axis: "@ + self.name@ + ". Available: "@ + self.available@,
    {
        let mut r = owned("unknown DECIDE axis: ");
        push_str(&mut r, self.name.as_str());
        push_str(&mut r, ". Available: ");
        push_str(&mut r, self.available.as_str());
        r
    }
}

impl Canonicalizer {
    /// The axes this run applies.
    pub closed spec fn axes(&self) -> Seq<Axis> {
        self.applied@
    }

    /// The canonical form of `line` under this run.
    pub open spec fn canonical(&self, line: Seq<char>) -> Seq<char> {
        canon_upto(self.axes(), self.axes().len() as int, line)
    }

    /// Whether some applied axis changes `line` on its way through.
    pub open spec fn rewrites(&self, line: Seq<char>) -> bool {
        fired_upto(self.axes(), self.axes().len() as int, line)
    }

    /// A run applying the `Collapse` axes and the `Decide` axes named in `decide`.
    ///
    /// Every name in `decide` must be a `Decide` axis: the first that is not is reported, with
    /// the names that would have been accepted.
    pub fn new(axes: Vec<Axis>, decide: &[String]) -> (r: Result<Self, UnknownAxis>)
        ensures
            r is Ok <==> forall|j: int| 0 <= j < decide@.len() ==> is_decide_axis(axes@, #[trigger] decide@[j]@),
            r matches Ok(c) ==> c.axes() == applied_axes(axes@, decide@),
            r matches Err(e) ==> exists|j: int|
                0 <= j < decide@.len() && !is_decide_axis(axes@, #[trigger] decide@[j]@)
                    && e.name@ == decide@[j]@
                    && (forall|k: int| 0 <= k < j ==> is_decide_axis(axes@, #[trigger] decide@[k]@)),
            r matches Err(e) ==> lists_available(e.available@, axes@),
            (axes@.len() == 15 && forall|k: int| 0 <= k < 15 ==> #[trigger] is_default_axis(k, axes@[k])) ==> (r matches Ok(
                c,
            ) ==> default_run(c.axes())),
    {
        let mut j: usize = 0;
        while j < decide.len()
            invariant
                0 <= j <= decide@.len(),
                forall|k: int| 0 <= k < j ==> is_decide_axis(axes@, #[trigger] decide@[k]@),
            decreases decide.len() - j,
        {
            if !Self::names_decide_axis(&axes, decide[j].as_str()) {
                let available = Self::available(&axes);
                let e = UnknownAxis { name: decide[j].clone(), available };
                return Err(e);
            }
            j = j + 1;
        }
        let mut applied: Vec<Axis> = Vec::new();
        let mut i: usize = 0;
        while i < axes.len()
            invariant
                0 <= i <= axes@.len(),
                applied@ == applied_axes(axes@.take(i as int), decide@),
            decreases axes.len() - i,
        {
            let axis = axes[i];
            let keep = match axis.action {
                Action::Collapse => true,
                Action::Decide => Self::is_decided(decide, axis.name),
                Action::Preserve => false,
            };
            proof {
                assert(axes@.take(i + 1).drop_last() == axes@.take(i as int));
                assert(axes@.take(i + 1).last() == axis);
            }
            if keep {
                applied.push(axis);
            }
            i = i + 1;
        }
        assert(axes@.take(i as int) == axes@);
        proof {
            if axes@.len() == 15 && forall|k: int| 0 <= k < 15 ==> #[trigger] is_default_axis(k, axes@[k]) {
                law_default_axes_make_a_default_run(axes@, decide@);
            }
        }
        Ok(Canonicalizer { applied })
    }

    fn names_decide_axis(axes: &Vec<Axis>, name: &str) -> (r: bool)
        ensures
            r == is_decide_axis(axes@, name@),
    {
        let mut i: usize = 0;
        while i < axes.len()
            invariant
                0 <= i <= axes@.len(),
                forall|k: int| 0 <= k < i ==> !(axes@[k].action == Action::Decide && #[trigger] axes@[k].name@ == name@),
            decreases axes.len() - i,
        {
            if axes[i].action == Action::Decide && str_eq(axes[i].name, name) {
                return true;
            }
            i = i + 1;
        }
        false
    }

    fn is_decided(decide: &[String], name: &str) -> (r: bool)
        ensures
            r == decided(decide@, name@),
    {
        let mut j: usize = 0;
        while j < decide.len()
            invariant
                0 <= j <= decide@.len(),
                forall|k: int| 0 <= k < j ==> #[trigger] decide@[k]@ != name@,
            decreases decide.len() - j,
        {
            if str_eq(decide[j].as_str(), name) {
                return true;
            }
            j = j + 1;
        }
        false
    }

    /// The `Decide` axis names, sorted and joined.
    fn available(axes: &Vec<Axis>) -> (r: String)
        ensures
            lists_available(r@, axes@),
    {
        let mut names: Vec<&'static str> = Vec::new();
        let ghost mut views: Seq<Seq<char>> = Seq::empty();
        let mut i: usize = 0;
        while i < axes.len()
            invariant
                0 <= i <= axes@.len(),
                names@.len() == views.len(),
                forall|k: int| 0 <= k < names@.len() ==> #[trigger] views[k] == names@[k]@,
                views.to_multiset() == decide_names(axes@.take(i as int)).to_multiset(),
                sorted_texts(views),
            decreases axes.len() - i,
        {
            let axis = axes[i];
            proof {
                assert(axes@.take(i + 1).drop_last() == axes@.take(i as int));
                assert(axes@.take(i + 1).last() == axis);
            }
            if axis.action == Action::Decide {
                let mut k: usize = 0;
                while k < names.len() && !str_lt(axis.name, names[k])
                    invariant
                        0 <= k <= names@.len(),
                        names@.len() == views.len(),
                        forall|m: int| 0 <= m < names@.len() ==> #[trigger] views[m] == names@[m]@,
                        forall|m: int| 0 <= m < k ==> !seq_lt(axis.name@, #[trigger] views[m]),
                    decreases names.len() - k,
                {
                    k = k + 1;
                }
                let ghost before = views;
                proof {
                    if k < views.len() {
                        lemma_seq_lt_asymmetric(axis.name@, views[k as int]);
                    }
                    vstd::seq_lib::to_multiset_insert(before, k as int, axis.name@);
                    vstd::seq_lib::to_multiset_build(decide_names(axes@.take(i as int)), axis.name@);
                    views = before.insert(k as int, axis.name@);
                    assert forall|m: int| 0 <= m < views.len() - 1 implies !#[trigger] seq_lt(views[m + 1], views[m]) by {
                        if m + 1 < k {
                            assert(views[m] == before[m] && views[m + 1] == before[m + 1]);
                            assert(!seq_lt(before[m + 1], before[m]));
                        } else if m + 1 == k {
                            assert(views[m] == before[m]);
                            assert(!seq_lt(axis.name@, before[m]));
                        } else if m == k {
                            assert(views[m + 1] == before[m]);
                            assert(seq_lt(axis.name@, before[m]));
                        } else {
                            assert(views[m] == before[m - 1] && views[m + 1] == before[m]);
                            assert(!seq_lt(before[(m - 1) + 1], before[m - 1]));
                        }
                    }
                }
                names.insert(k, axis.name);
            }
            i = i + 1;
        }
        assert(axes@.take(i as int) == axes@);
        let mut out = String::new();
        let mut m: usize = 0;
        while m < names.len()
            invariant
                0 <= m <= names@.len(),
                names@.len() == views.len(),
                forall|q: int| 0 <= q < names@.len() ==> #[trigger] views[q] == names@[q]@,
                out@ == joined(views.take(m as int), ", "@),
            decreases names.len() - m,
        {
            proof {
                assert(views.take(m + 1).drop_last() == views.take(m as int));
                assert(views.take(m + 1).last() == views[m as int]);
            }
            if m > 0 {
                push_str(&mut out, ", ");
            }
            push_str(&mut out, names[m]);
            proof {
                if m == 0 {
                    assert(views.take(1)[0] == views[0]);
                }
            }
            m = m + 1;
        }
        assert(views.take(m as int) == views);
        out
    }

    /// The canonical form of a line, borrowed when no applied axis changes it. Under a run over
    /// the default axes, canonicalizing is idempotent: the canonical form of the result is the
    /// result itself; and it breaks no line in two.
    pub fn apply<'a>(&self, line: &'a str) -> (r: Cow<'a, str>)
        ensures
            r@ == self.canonical(line@),
            (r matches Cow::Owned(_)) == self.rewrites(line@),
            default_run(self.axes()) ==> self.canonical(r@) == r@,
            default_run(self.axes()) && !line@.contains('\n') ==> !r@.contains('\n'),
    {
        let mut changed: Option<String> = None;
        let mut i: usize = 0;
        while i < self.applied.len()
            invariant
                0 <= i <= self.applied@.len(),
                changed is Some == fired_upto(self.applied@, i as int, line@),
                match changed {
                    Some(s) => s@ == canon_upto(self.applied@, i as int, line@),
                    None => line@ == canon_upto(self.applied@, i as int, line@),
                },
                forall|j: int| 0 <= j < i ==> #[trigger] step_facts(self.applied@[j], canon_upto(self.applied@, j, line@)),
            decreases self.applied.len() - i,
        {
            let axis = &self.applied[i];
            let next: Option<String> = match &changed {
                Some(s) => match axis.apply(s.as_str()) {
                    Cow::Owned(t) => Some(t),
                    Cow::Borrowed(_) => None,
                },
                None => match axis.apply(line) {
                    Cow::Owned(t) => Some(t),
                    Cow::Borrowed(_) => None,
                },
            };
            if next.is_some() {
                changed = next;
            }
            i = i + 1;
        }
        proof {
            if default_run(self.applied@) {
                lemma_run_settles(self.applied@, line@);
                if !line@.contains('\n') {
                    lemma_run_keeps_newline_out(self.applied@, line@, self.applied@.len() as int);
                }
            }
        }
        match changed {
            Some(s) => Cow::Owned(s),
            None => Cow::Borrowed(line),
        }
    }

    /// Whether a line is already canonical: no applied axis changes it.
    pub fn is_canonical(&self, line: &str) -> (r: bool)
        ensures
            r == !self.rewrites(line@),
    {
        match self.apply(line) {
            Cow::Owned(_) => false,
            Cow::Borrowed(_) => true,
        }
    }

    /// An ASCII line is canonical under every run, and comes back as it went in.
    pub proof fn law_ascii_lines_are_canonical(&self, line: Seq<char>)
        requires
            is_ascii_chars(line),
        ensures
            self.canonical(line) == line,
            !self.rewrites(line),
    {
        lemma_ascii_untouched(self.axes(), self.axes().len() as int, line);
    }
}

proof fn lemma_ascii_untouched(axes: Seq<Axis>, k: int, line: Seq<char>)
    requires
        is_ascii_chars(line),
    ensures
        canon_upto(axes, k, line) == line,
        !fired_upto(axes, k, line),
    decreases k,
{
    if k > 0 {
        lemma_ascii_untouched(axes, k - 1, line);
    }
}

/// A run never applies a `Preserve` axis, applies every `Collapse` axis, and applies a `Decide`
/// axis exactly when it was named.
pub proof fn law_only_permitted_axes_are_applied(axes: Seq<Axis>, decide: Seq<String>)
    ensures
        forall|k: int| 0 <= k < applied_axes(axes, decide).len() ==> is_applied(#[trigger] applied_axes(axes, decide)[k], decide),
        forall|a: Axis| axes.contains(a) && is_applied(a, decide) ==> #[trigger] applied_axes(axes, decide).contains(a),
        forall|a: Axis| #[trigger] applied_axes(axes, decide).contains(a) ==> axes.contains(a),
    decreases axes.len(),
{
    if axes.len() > 0 {
        law_only_permitted_axes_are_applied(axes.drop_last(), decide);
        let prev = applied_axes(axes.drop_last(), decide);
        assert forall|a: Axis| axes.contains(a) && is_applied(a, decide) implies #[trigger] applied_axes(axes, decide).contains(a) by {
            let i = choose|i: int| 0 <= i < axes.len() && axes[i] == a;
            if i < axes.len() - 1 {
                assert(axes.drop_last()[i] == a);
                assert(prev.contains(a));
                let q = choose|q: int| 0 <= q < prev.len() && prev[q] == a;
                if is_applied(axes.last(), decide) {
                    assert(applied_axes(axes, decide)[q] == a);
                }
            } else {
                assert(applied_axes(axes, decide)[prev.len() as int] == a);
            }
        }
        assert forall|a: Axis| #[trigger] applied_axes(axes, decide).contains(a) implies axes.contains(a) by {
            let q = choose|q: int| 0 <= q < applied_axes(axes, decide).len() && applied_axes(axes, decide)[q] == a;
            if q < prev.len() {
                assert(prev[q] == a);
                assert(prev.contains(a));
                let i = choose|i: int| 0 <= i < axes.drop_last().len() && axes.drop_last()[i] == a;
                assert(axes[i] == a);
            } else {
                assert(axes[axes.len() - 1] == a);
            }
        }
    }
}

} // verus!
