use vstd::prelude::*;

use crate::discrete::Discrete;

verus! {

/// The integers that the values of `s` stand for.
pub open spec fn values_of<T: Discrete>(s: Seq<T>) -> Set<int> {
    Set::new(|x: int| exists|i: int| 0 <= i < s.len() && #[trigger] s[i].as_int() == x)
}

/// `x` lies in one of the inclusive spans of `s`.
pub open spec fn in_spans<T: Discrete>(s: Seq<(T, T)>, x: int) -> bool {
    exists|i: int| 0 <= i < s.len() && #[trigger] s[i].0.as_int() <= x && x <= s[i].1.as_int()
}

/// The set of integers that the spans of `s` cover.
pub open spec fn spans_set<T: Discrete>(s: Seq<(T, T)>) -> Set<int> {
    Set::new(|x: int| in_spans(s, x))
}

/// Every span is non-empty, the spans ascend, and between two consecutive
/// spans lies at least one value that neither covers.
pub open spec fn is_canonical<T: Discrete>(s: Seq<(T, T)>) -> bool {
    &&& forall|i: int| 0 <= i < s.len() ==> #[trigger] s[i].0.as_int() <= s[i].1.as_int()
    &&& forall|i: int|
        0 <= i < s.len() - 1 ==> #[trigger] s[i].1.as_int() + 1 < s[i + 1].0.as_int()
}

/// `s` is the minimal sorted list of disjoint, non-adjacent spans covering `set`.
pub open spec fn is_cover_of<T: Discrete>(s: Seq<(T, T)>, set: Set<int>) -> bool {
    is_canonical(s) && spans_set(s) == set
}

/// The values of the inclusive `bound` that `set` leaves out.
pub open spec fn gap_set<T: Discrete>(bound: (T, T), set: Set<int>) -> Set<int> {
    Set::new(|x: int| bound.0.as_int() <= x <= bound.1.as_int() && !set.contains(x))
}

/// In a canonical list every span ends more than one step before any later
/// span starts.
pub proof fn lemma_spans_ordered<T: Discrete>(s: Seq<(T, T)>, i: int, j: int)
    requires
        is_canonical(s),
        0 <= i < j < s.len(),
    ensures
        s[i].1.as_int() + 1 < s[j].0.as_int(),
    decreases j - i,
{
    if j > i + 1 {
        lemma_spans_ordered(s, i, j - 1);
        assert(s[j - 1].0.as_int() <= s[j - 1].1.as_int());
        assert(s[j - 1].1.as_int() + 1 < s[j].0.as_int());
    }
}

/// Appending a span adds exactly its values.
pub proof fn lemma_in_spans_push<T: Discrete>(s: Seq<(T, T)>, e: (T, T), x: int)
    ensures
        in_spans(s.push(e), x) == (in_spans(s, x) || e.0.as_int() <= x <= e.1.as_int()),
{
    let t = s.push(e);
    if in_spans(s, x) {
        let i = choose|i: int| 0 <= i < s.len() && #[trigger] s[i].0.as_int() <= x && x <= s[i].1.as_int();
        assert(t[i] == s[i]);
    }
    if e.0.as_int() <= x <= e.1.as_int() {
        assert(t[s.len() as int] == e);
    }
    if in_spans(t, x) {
        let i = choose|i: int| 0 <= i < t.len() && #[trigger] t[i].0.as_int() <= x && x <= t[i].1.as_int();
        if i < s.len() {
            assert(s[i] == t[i]);
        }
    }
}

/// A non-empty span placed more than one step after the last one keeps a
/// list canonical.
pub proof fn lemma_canonical_push<T: Discrete>(s: Seq<(T, T)>, e: (T, T))
    requires
        is_canonical(s),
        e.0.as_int() <= e.1.as_int(),
        s.len() > 0 ==> s.last().1.as_int() + 1 < e.0.as_int(),
    ensures
        is_canonical(s.push(e)),
{
    let t = s.push(e);
    assert forall|i: int| 0 <= i < t.len() implies #[trigger] t[i].0.as_int() <= t[i].1.as_int() by {
        if i < s.len() {
            assert(t[i] == s[i]);
        }
    }
    assert forall|i: int| 0 <= i < t.len() - 1 implies #[trigger] t[i].1.as_int() + 1 < t[i + 1].0.as_int() by {
        assert(t[i] == s[i]);
        if i + 1 < s.len() {
            assert(t[i + 1] == s[i + 1]);
        }
    }
}

/// Dropping the last span of a canonical list leaves a canonical list.
pub proof fn lemma_canonical_drop_last<T: Discrete>(s: Seq<(T, T)>)
    requires
        is_canonical(s),
        s.len() > 0,
    ensures
        is_canonical(s.drop_last()),
        s.drop_last().push(s.last()) == s,
        s.len() > 1 ==> s.drop_last().last().1.as_int() + 1 < s.last().0.as_int(),
{
    let p = s.drop_last();
    assert(p.push(s.last()) =~= s);
    assert forall|i: int| 0 <= i < p.len() implies #[trigger] p[i].0.as_int() <= p[i].1.as_int() by {
        assert(p[i] == s[i]);
    }
    assert forall|i: int| 0 <= i < p.len() - 1 implies #[trigger] p[i].1.as_int() + 1 < p[i + 1].0.as_int() by {
        assert(p[i] == s[i]);
        assert(p[i + 1] == s[i + 1]);
    }
    if s.len() > 1 {
        assert(p.last() == s[s.len() - 2]);
    }
}

/// Appends `range` to a canonical list whose values all lie below it,
/// extending the last span instead where the two touch.
pub fn push_coalesced<T: Discrete>(vec: &mut Vec<(T, T)>, range: (T, T))
    requires
        is_canonical(old(vec)@),
        range.0.as_int() <= range.1.as_int(),
        old(vec)@.len() > 0 ==> old(vec)@.last().1.as_int() < range.0.as_int(),
    ensures
        is_canonical(final(vec)@),
        final(vec)@.len() > 0,
        final(vec)@.last().1 == range.1,
        forall|x: int| #[trigger]
            in_spans(final(vec)@, x) == (in_spans(old(vec)@, x) || range.0.as_int() <= x
                <= range.1.as_int()),
{
    let ghost s1 = vec@;
    proof {
        T::lemma_in_bounds(range.0);
    }
    let n = vec.len();
    if n > 0 {
        let last = vec[n - 1];
        if last.1.saturating_succ().is_same(&range.0) {
            proof {
                lemma_canonical_drop_last(s1);
            }
            vec.pop();
            let merged = (last.0, range.1);
            let ghost p = vec@;
            proof {
                lemma_canonical_push(p, merged);
            }
            vec.push(merged);
            proof {
                assert forall|x: int| #[trigger] in_spans(vec@, x) == (in_spans(s1, x)
                    || range.0.as_int() <= x <= range.1.as_int()) by {
                    lemma_in_spans_push(p, merged, x);
                    lemma_in_spans_push(p, last, x);
                }
            }
            return;
        }
    }
    proof {
        lemma_canonical_push(s1, range);
    }
    vec.push(range);
    proof {
        assert forall|x: int| #[trigger] in_spans(vec@, x) == (in_spans(s1, x)
            || range.0.as_int() <= x <= range.1.as_int()) by {
            lemma_in_spans_push(s1, range, x);
        }
    }
}

/// A value beyond the end of span `i - 1` and before the start of span `i`
/// lies in no span.
pub proof fn lemma_between_spans<T: Discrete>(s: Seq<(T, T)>, i: int, x: int)
    requires
        is_canonical(s),
        0 <= i <= s.len(),
        i > 0 ==> s[i - 1].1.as_int() < x,
        i < s.len() ==> x < s[i].0.as_int(),
    ensures
        !in_spans(s, x),
{
    assert forall|j: int| 0 <= j < s.len() implies !(#[trigger] s[j].0.as_int() <= x && x
        <= s[j].1.as_int()) by {
        if j < i - 1 {
            lemma_spans_ordered(s, j, i - 1);
        } else if j > i {
            lemma_spans_ordered(s, i, j);
        }
    }
}

/// Pushes the part of `[start, end]` that is not empty, a gap lying more than
/// one step beyond the last span of `out`.
fn push_gap<T: Discrete>(out: &mut Vec<(T, T)>, start: T, end: T)
    requires
        is_canonical(old(out)@),
        old(out)@.len() > 0 ==> old(out)@.last().1.as_int() + 1 < start.as_int(),
    ensures
        is_canonical(final(out)@),
        final(out)@ == old(out)@ || final(out)@.last() == (start, end),
        forall|x: int| #[trigger]
            in_spans(final(out)@, x) == (in_spans(old(out)@, x) || start.as_int() <= x
                <= end.as_int()),
{
    let ghost s0 = out@;
    if !end.is_less(&start) {
        proof {
            lemma_canonical_push(s0, (start, end));
        }
        out.push((start, end));
        proof {
            assert forall|x: int| #[trigger] in_spans(out@, x) == (in_spans(s0, x) || start.as_int()
                <= x <= end.as_int()) by {
                lemma_in_spans_push(s0, (start, end), x);
            }
        }
    }
}

/// The values of the inclusive `bound` that no span of `filled` covers, as a
/// canonical list of spans.
pub fn gaps_within<T: Discrete>(filled: &Vec<(T, T)>, bound: (T, T)) -> (r: Vec<(T, T)>)
    requires
        is_canonical(filled@),
    ensures
        is_cover_of(r@, gap_set(bound, spans_set(filled@))),
{
    let ghost f = filled@;
    let bs = bound.0;
    let be = bound.1;
    let mut out: Vec<(T, T)> = Vec::new();
    let n = filled.len();
    if n == 0 {
        push_gap(&mut out, bs, be);
        proof {
            assert forall|x: int| !in_spans(f, x) by {}
            assert(spans_set(out@) =~= gap_set(bound, spans_set(f)));
        }
        return out;
    }
    let first = filled[0];
    proof {
        T::lemma_in_bounds(bs);
        T::lemma_in_bounds(be);
    }
    if bs.is_less(&first.0) {
        let p = first.0.saturating_pred();
        let end = if be.is_less(&p) { be } else { p };
        push_gap(&mut out, bs, end);
    }
    proof {
        assert forall|x: int| #[trigger] in_spans(out@, x) == (bs.as_int() <= x <= be.as_int()
            && !in_spans(f, x) && x < f[0].0.as_int()) by {
            if x < f[0].0.as_int() {
                lemma_between_spans(f, 0, x);
            }
        }
    }
    let mut i: usize = 1;
    while i < n
        invariant
            f == filled@,
            n == f.len(),
            1 <= i <= n,
            is_canonical(f),
            is_canonical(out@),
            out@.len() > 0 ==> out@.last().1.as_int() < f[i - 1].0.as_int(),
            forall|x: int| #[trigger]
                in_spans(out@, x) == (bs.as_int() <= x <= be.as_int() && !in_spans(f, x) && x
                    < f[i - 1].0.as_int()),
        decreases n - i,
    {
        let a = filled[i - 1];
        let b = filled[i];
        proof {
            T::lemma_in_bounds(a.1);
            T::lemma_in_bounds(b.0);
            assert(f[i - 1].0.as_int() <= f[i - 1].1.as_int());
            assert(f[i - 1].1.as_int() + 1 < f[i as int].0.as_int());
        }
        let a_next = a.1.saturating_succ();
        let b_prev = b.0.saturating_pred();
        let start = if a_next.is_less(&bs) { bs } else { a_next };
        let end = if be.is_less(&b_prev) { be } else { b_prev };
        let ghost s0 = out@;
        push_gap(&mut out, start, end);
        proof {
            assert forall|x: int| #[trigger] in_spans(out@, x) == (bs.as_int() <= x <= be.as_int()
                && !in_spans(f, x) && x < f[i as int].0.as_int()) by {
                assert(in_spans(out@, x) == (in_spans(s0, x) || start.as_int() <= x
                    <= end.as_int()));
                if a.1.as_int() < x < b.0.as_int() {
                    lemma_between_spans(f, i as int, x);
                }
                if a.0.as_int() <= x <= a.1.as_int() {
                    assert(in_spans(f, x));
                }
            }
        }
        i = i + 1;
    }
    let last = filled[n - 1];
    if last.1.is_less(&be) {
        let next = last.1.saturating_succ();
        let start = if next.is_less(&bs) { bs } else { next };
        let ghost s0 = out@;
        proof {
            assert(f[n - 1].0.as_int() <= f[n - 1].1.as_int());
        }
        push_gap(&mut out, start, be);
        proof {
            assert forall|x: int| #[trigger] in_spans(out@, x) == (bs.as_int() <= x <= be.as_int()
                && !in_spans(f, x)) by {
                assert(in_spans(out@, x) == (in_spans(s0, x) || start.as_int() <= x
                    <= be.as_int()));
                if last.1.as_int() < x {
                    lemma_between_spans(f, n as int, x);
                }
                if last.0.as_int() <= x <= last.1.as_int() {
                    assert(in_spans(f, x));
                }
            }
        }
    } else {
        proof {
            assert forall|x: int| #[trigger] in_spans(out@, x) == (bs.as_int() <= x <= be.as_int()
                && !in_spans(f, x)) by {
                if last.0.as_int() <= x <= last.1.as_int() {
                    assert(in_spans(f, x));
                }
            }
        }
    }
    proof {
        assert(spans_set(out@) =~= gap_set(bound, spans_set(f)));
    }
    out
}

} // verus!
