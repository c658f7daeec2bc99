use vstd::prelude::*;

use crate::discrete::Discrete;
use crate::spans::{gap_set, in_spans, is_cover_of, lemma_spans_ordered, spans_set, values_of};
use crate::tree::RangeTree;

verus! {

/// Two canonical lists that cover the same set agree on their first `i + 1`
/// spans, value by value.
proof fn lemma_covers_agree<T: Discrete>(s1: Seq<(T, T)>, s2: Seq<(T, T)>, set: Set<int>, i: int)
    requires
        is_cover_of(s1, set),
        is_cover_of(s2, set),
        0 <= i < s1.len(),
        i < s2.len(),
    ensures
        forall|j: int|
            #![trigger s1[j]]
            0 <= j <= i ==> s1[j].0.as_int() == s2[j].0.as_int() && s1[j].1.as_int()
                == s2[j].1.as_int(),
    decreases i,
{
    if i > 0 {
        lemma_covers_agree(s1, s2, set, i - 1);
    }
    lemma_start_agrees(s1, s2, set, i);
    lemma_start_agrees(s2, s1, set, i);
    lemma_end_agrees(s1, s2, set, i);
    lemma_end_agrees(s2, s1, set, i);
}

proof fn lemma_start_agrees<T: Discrete>(s1: Seq<(T, T)>, s2: Seq<(T, T)>, set: Set<int>, i: int)
    requires
        is_cover_of(s1, set),
        is_cover_of(s2, set),
        0 <= i < s1.len(),
        i < s2.len(),
        forall|j: int|
            #![trigger s1[j]]
            0 <= j < i ==> s1[j].0.as_int() == s2[j].0.as_int() && s1[j].1.as_int()
                == s2[j].1.as_int(),
    ensures
        s1[i].0.as_int() >= s2[i].0.as_int(),
{
    let x = s1[i].0.as_int();
    if x < s2[i].0.as_int() {
        assert(s1[i].0.as_int() <= s1[i].1.as_int());
        assert(in_spans(s1, x));
        assert(spans_set(s1).contains(x));
        assert(set.contains(x));
        assert(spans_set(s2).contains(x));
        assert(in_spans(s2, x));
        let k = choose|k: int| 0 <= k < s2.len() && #[trigger] s2[k].0.as_int() <= x && x <= s2[k].1.as_int();
        if k < i {
            assert(s1[k].1.as_int() == s2[k].1.as_int());
            lemma_spans_ordered(s1, k, i);
        } else if k > i {
            lemma_spans_ordered(s2, i, k);
            assert(s2[i].0.as_int() <= s2[i].1.as_int());
        }
    }
}

proof fn lemma_end_agrees<T: Discrete>(s1: Seq<(T, T)>, s2: Seq<(T, T)>, set: Set<int>, i: int)
    requires
        is_cover_of(s1, set),
        is_cover_of(s2, set),
        0 <= i < s1.len(),
        i < s2.len(),
        s1[i].0.as_int() == s2[i].0.as_int(),
    ensures
        s1[i].1.as_int() >= s2[i].1.as_int(),
{
    let y = s1[i].1.as_int() + 1;
    if s1[i].1.as_int() < s2[i].1.as_int() {
        assert(s1[i].0.as_int() <= s1[i].1.as_int());
        assert(in_spans(s2, y));
        assert(spans_set(s2).contains(y));
        assert(set.contains(y));
        assert(spans_set(s1).contains(y));
        assert(in_spans(s1, y));
        let k = choose|k: int| 0 <= k < s1.len() && #[trigger] s1[k].0.as_int() <= y && y <= s1[k].1.as_int();
        if k < i {
            lemma_spans_ordered(s1, k, i);
        } else if k > i {
            lemma_spans_ordered(s1, i, k);
        }
    }
}

/// A canonical cover of a set has no fewer spans than any other.
proof fn lemma_covers_len<T: Discrete>(s1: Seq<(T, T)>, s2: Seq<(T, T)>, set: Set<int>)
    requires
        is_cover_of(s1, set),
        is_cover_of(s2, set),
    ensures
        s1.len() >= s2.len(),
{
    if s1.len() >= s2.len() {
        return;
    }
    let n = s1.len() as int;
    let x = s2[n].0.as_int();
    assert(s2[n].0.as_int() <= s2[n].1.as_int());
    assert(in_spans(s2, x));
    assert(spans_set(s2).contains(x));
    assert(in_spans(s1, x));
    let k = choose|k: int| 0 <= k < s1.len() && #[trigger] s1[k].0.as_int() <= x && x <= s1[k].1.as_int();
    lemma_covers_agree(s1, s2, set, k);
    assert(s1[k].1.as_int() == s2[k].1.as_int());
    lemma_spans_ordered(s2, k, n);
}

/// A set has exactly one minimal sorted cover by disjoint, non-adjacent spans.
pub proof fn lemma_cover_unique<T: Discrete>(s1: Seq<(T, T)>, s2: Seq<(T, T)>, set: Set<int>)
    requires
        is_cover_of(s1, set),
        is_cover_of(s2, set),
    ensures
        s1 == s2,
{
    lemma_covers_len(s1, s2, set);
    lemma_covers_len(s2, s1, set);
    if s1.len() > 0 {
        lemma_covers_agree(s1, s2, set, s1.len() - 1);
        assert forall|j: int| 0 <= j < s1.len() implies s1[j] == s2[j] by {
            assert(s1[j].0.as_int() == s2[j].0.as_int() && s1[j].1.as_int() == s2[j].1.as_int());
            T::lemma_injective(s1[j].0, s2[j].0);
            T::lemma_injective(s1[j].1, s2[j].1);
        }
    }
    assert(s1 =~= s2);
}

/// Inserting a value that a tree already holds leaves its list of ranges
/// unchanged.
pub proof fn lemma_insert_covered<T: Discrete>(
    before: RangeTree<T>,
    after: RangeTree<T>,
    v: T,
    ranges_before: Seq<(T, T)>,
    ranges_after: Seq<(T, T)>,
)
    requires
        before@.contains(v.as_int()),
        after@ == before@.insert(v.as_int()),
        is_cover_of(ranges_before, before@),
        is_cover_of(ranges_after, after@),
    ensures
        ranges_before == ranges_after,
{
    assert(after@ =~= before@);
    lemma_cover_unique(ranges_before, ranges_after, before@);
}

/// The ranges of two inputs with the same distinct values are the same,
/// whatever the order of the values and however often each repeats.
pub proof fn lemma_order_invariance<T: Discrete>(
    s1: Seq<T>,
    s2: Seq<T>,
    r1: Seq<(T, T)>,
    r2: Seq<(T, T)>,
)
    requires
        s1.to_set() == s2.to_set(),
        is_cover_of(r1, values_of(s1)),
        is_cover_of(r2, values_of(s2)),
    ensures
        r1 == r2,
{
    assert forall|x: int| values_of(s1).contains(x) implies values_of(s2).contains(x) by {
        let i = choose|i: int| 0 <= i < s1.len() && #[trigger] s1[i].as_int() == x;
        assert(s1.contains(s1[i]));
        assert(s1.to_set().contains(s1[i]));
        assert(s2.to_set().contains(s1[i]));
        assert(s2.contains(s1[i]));
        let j = choose|j: int| 0 <= j < s2.len() && s2[j] == s1[i];
        assert(s2[j].as_int() == x);
    }
    assert forall|x: int| values_of(s2).contains(x) implies values_of(s1).contains(x) by {
        let i = choose|i: int| 0 <= i < s2.len() && #[trigger] s2[i].as_int() == x;
        assert(s2.contains(s2[i]));
        assert(s2.to_set().contains(s2[i]));
        assert(s1.to_set().contains(s2[i]));
        assert(s1.contains(s2[i]));
        let j = choose|j: int| 0 <= j < s1.len() && s1[j] == s2[i];
        assert(s1[j].as_int() == x);
    }
    assert(values_of(s1) =~= values_of(s2));
    lemma_cover_unique(r1, r2, values_of(s1));
}

/// Within a bound, the ranges of an input and its gaps together cover every
/// value of the bound, and no value is in both.
pub proof fn lemma_gap_complement<T: Discrete>(
    s: Seq<T>,
    bound: (T, T),
    filled: Seq<(T, T)>,
    missed: Seq<(T, T)>,
)
    requires
        is_cover_of(filled, values_of(s)),
        is_cover_of(missed, gap_set(bound, values_of(s))),
    ensures
        forall|x: int|
            bound.0.as_int() <= x <= bound.1.as_int() <==> (bound.0.as_int() <= x
                <= bound.1.as_int() && in_spans(filled, x)) || in_spans(missed, x),
        forall|x: int| !(in_spans(filled, x) && in_spans(missed, x)),
{
    assert forall|x: int| in_spans(filled, x) == values_of(s).contains(x) by {
        assert(spans_set(filled).contains(x) == in_spans(filled, x));
    }
    assert forall|x: int| in_spans(missed, x) == gap_set(bound, values_of(s)).contains(x) by {
        assert(spans_set(missed).contains(x) == in_spans(missed, x));
    }
}

/// Values running without a break up to the largest value of the type form
/// a single range that ends exactly at that value.
pub proof fn lemma_saturation<T: Discrete>(s: Seq<T>, first: T, r: Seq<(T, T)>)
    requires
        values_of(s) == Set::new(|x: int| first.as_int() <= x <= T::max_int()),
        is_cover_of(r, values_of(s)),
    ensures
        r.len() == 1,
        r[0].0 == first,
        r[0].1.as_int() == T::max_int(),
{
    let set = values_of(s);
    T::lemma_in_bounds(first);
    assert(set.contains(first.as_int()));
    assert(spans_set(r).contains(first.as_int()));
    assert(r.len() > 0);
    assert(r[0].0.as_int() <= r[0].1.as_int());
    assert(in_spans(r, r[0].0.as_int()));
    assert(spans_set(r).contains(r[0].0.as_int()));
    assert(set.contains(r[0].0.as_int()));
    if r.len() > 1 {
        let z = r[0].1.as_int() + 1;
        T::lemma_in_bounds(r[1].0);
        assert(z < r[1].0.as_int());
        assert(set.contains(z));
        assert(spans_set(r).contains(z));
        let k = choose|k: int| 0 <= k < r.len() && #[trigger] r[k].0.as_int() <= z && z <= r[k].1.as_int();
        if k > 1 {
            lemma_spans_ordered(r, 1, k);
        }
        assert(r[1].0.as_int() <= r[1].1.as_int());
    }
    assert(r.len() == 1);
    let k = choose|k: int| 0 <= k < r.len() && #[trigger] r[k].0.as_int() <= first.as_int() && first.as_int() <= r[k].1.as_int();
    assert(k == 0);
    T::lemma_injective(r[0].0, first);
    assert(set.contains(T::max_int()));
    assert(spans_set(r).contains(T::max_int()));
    T::lemma_in_bounds(r[0].1);
}

} // verus!
