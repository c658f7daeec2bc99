use vstd::prelude::*;

use crate::discrete::Discrete;
use crate::spans::{
    gap_set, gaps_within, in_spans, is_canonical, is_cover_of, push_coalesced, spans_set, values_of,
};

verus! {

/// A binary search tree of disjoint inclusive ranges.
///
/// Every value in `less` lies below `range.0` and every value in `more` above
/// `range.1`. Inserting a value merges it into a neighbouring range where
/// the two touch, so the tree never holds two overlapping ranges.
#[derive(Debug)]
pub struct RangeTree<T> {
    range: (T, T),
    less: Option<Box<RangeTree<T>>>,
    more: Option<Box<RangeTree<T>>>,
}

impl<T: Discrete> RangeTree<T> {
    /// `x` is one of the values that the tree covers.
    pub closed spec fn has(self, x: int) -> bool
        decreases self,
    {
        ||| self.range.0.as_int() <= x <= self.range.1.as_int()
        ||| (match self.less {
            Some(l) => l.has(x),
            None => false,
        })
        ||| (match self.more {
            Some(m) => m.has(x),
            None => false,
        })
    }

    spec fn opt_has(t: Option<Box<RangeTree<T>>>, x: int) -> bool {
        match t {
            Some(n) => n.has(x),
            None => false,
        }
    }

    /// The ordering invariant, at every node.
    pub closed spec fn wf(self) -> bool
        decreases self,
    {
        &&& self.range.0.as_int() <= self.range.1.as_int()
        &&& (match self.less {
            Some(l) => l.wf() && forall|x: int| l.has(x) ==> x < self.range.0.as_int(),
            None => true,
        })
        &&& (match self.more {
            Some(m) => m.wf() && forall|x: int| m.has(x) ==> x > self.range.1.as_int(),
            None => true,
        })
    }

    proof fn lemma_has_lo(self)
        requires
            self.wf(),
        ensures
            self.has(self.range.0.as_int()),
    {
    }

    /// A tree holding the single value `value`.
    pub fn new(value: T) -> (r: Self)
        ensures
            r.wf(),
            r@ == Set::<int>::empty().insert(value.as_int()),
    {
        let r = RangeTree { range: (value, value), less: None, more: None };
        assert(r@ =~= Set::<int>::empty().insert(value.as_int()));
        r
    }

    /// Adds `value` to the tree, merging it with the ranges it touches.
    pub fn insert(&mut self, value: T)
        requires
            old(self).wf(),
        ensures
            final(self).wf(),
            final(self)@ == old(self)@.insert(value.as_int()),
        decreases *old(self),
    {
        let ghost v = value.as_int();
        let ghost pre = *self;
        if !value.is_less(&self.range.0) && !self.range.1.is_less(&value) {
            assert(self@ =~= old(self)@.insert(v));
            return;
        }
        if value.is_less(&self.range.0) {
            match self.less.take() {
                None => {
                    proof {
                        T::lemma_in_bounds(self.range.0);
                    }
                    if value.saturating_succ().is_same(&self.range.0) {
                        self.range = (value, self.range.1);
                        proof {
                            assert(pre.less is None);
                            assert(self.more == pre.more);
                            assert forall|x: int| self.has(x) == (pre.has(x) || x == v) by {
                                assert(Self::opt_has(self.more, x) == Self::opt_has(pre.more, x));
                            }
                        }
                    } else {
                        let leaf = RangeTree::new(value);
                        proof {
                            assert forall|x: int| leaf.has(x) == (x == v) by {
                                assert(leaf@.contains(x) == leaf.has(x));
                            }
                        }
                        self.less = Some(Box::new(leaf));
                        proof {
                            assert(self.more == pre.more);
                            assert forall|x: int| self.has(x) == (pre.has(x) || x == v) by {
                                assert(Self::opt_has(self.more, x) == Self::opt_has(pre.more, x));
                                assert(Self::opt_has(self.less, x) == (x == v));
                            }
                        }
                    }
                },
                Some(mut l) => {
                    let ghost l0 = *l;
                    (&mut *l).insert(value);
                    let ghost l1 = *l;
                    proof {
                        T::lemma_in_bounds(self.range.0);
                        assert forall|x: int| l1.has(x) == (l0.has(x) || x == v) by {
                            assert(l1@.contains(x) == l1.has(x));
                            assert(l0@.contains(x) == l0.has(x));
                        }
                    }
                    if l.range.1.saturating_succ().is_same(&self.range.0) {
                        let RangeTree { range: lr, less: ll, more: lm } = *l;
                        proof {
                            if let Some(m) = lm {
                                m.lemma_has_lo();
                                assert(l1.has(m.range.0.as_int()));
                            }
                            assert(lm is None);
                        }
                        self.range = (lr.0, self.range.1);
                        self.less = ll;
                        proof {
                            assert forall|x: int| self.has(x) == (pre.has(x) || x == v) by {
                                assert(l1.has(x) == (lr.0.as_int() <= x <= lr.1.as_int()
                                    || Self::opt_has(ll, x)));
                            }
                        }
                    } else {
                        self.less = Some(l);
                        proof {
                            assert forall|x: int| self.has(x) == (pre.has(x) || x == v) by {
                                assert(l1.has(x) == (l0.has(x) || x == v));
                            }
                        }
                    }
                },
            }
        } else {
            match self.more.take() {
                None => {
                    proof {
                        T::lemma_in_bounds(value);
                    }
                    if self.range.1.saturating_succ().is_same(&value) {
                        self.range = (self.range.0, value);
                        proof {
                            assert(pre.more is None);
                            assert(self.less == pre.less);
                            assert forall|x: int| self.has(x) == (pre.has(x) || x == v) by {
                                assert(Self::opt_has(self.less, x) == Self::opt_has(pre.less, x));
                            }
                        }
                    } else {
                        let leaf = RangeTree::new(value);
                        proof {
                            assert forall|x: int| leaf.has(x) == (x == v) by {
                                assert(leaf@.contains(x) == leaf.has(x));
                            }
                        }
                        self.more = Some(Box::new(leaf));
                        proof {
                            assert(self.less == pre.less);
                            assert forall|x: int| self.has(x) == (pre.has(x) || x == v) by {
                                assert(Self::opt_has(self.less, x) == Self::opt_has(pre.less, x));
                                assert(Self::opt_has(self.more, x) == (x == v));
                            }
                        }
                    }
                },
                Some(mut m) => {
                    let ghost m0 = *m;
                    (&mut *m).insert(value);
                    let ghost m1 = *m;
                    proof {
                        T::lemma_in_bounds(value);
                        assert forall|x: int| m1.has(x) == (m0.has(x) || x == v) by {
                            assert(m1@.contains(x) == m1.has(x));
                            assert(m0@.contains(x) == m0.has(x));
                        }
                    }
                    if self.range.1.saturating_succ().is_same(&m.range.0) {
                        let RangeTree { range: mr, less: ml, more: mm } = *m;
                        proof {
                            if let Some(l) = ml {
                                l.lemma_has_lo();
                                assert(m1.has(l.range.0.as_int()));
                            }
                            assert(ml is None);
                        }
                        self.range = (self.range.0, mr.1);
                        self.more = mm;
                        proof {
                            assert forall|x: int| self.has(x) == (pre.has(x) || x == v) by {
                                assert(m1.has(x) == (mr.0.as_int() <= x <= mr.1.as_int()
                                    || Self::opt_has(mm, x)));
                            }
                        }
                    } else {
                        self.more = Some(m);
                        proof {
                            assert forall|x: int| self.has(x) == (pre.has(x) || x == v) by {
                                assert(m1.has(x) == (m0.has(x) || x == v));
                            }
                        }
                    }
                },
            }
        }
        proof {
            assert forall|x: int| #[trigger] self@.contains(x) == pre@.insert(v).contains(x) by {
                assert(self.has(x) == (pre.has(x) || x == v));
            }
            assert(self@ =~= pre@.insert(v));
        }
    }

    /// A tree holding the values of `values`, inserted in order. A tree
    /// cannot be empty, so for no values at all it holds zero alone.
    pub fn from_iter(values: Vec<T>) -> (r: Self)
        ensures
            r.wf(),
            values@.len() > 0 ==> r@ == values_of(values@),
            values@.len() == 0 ==> r@ == Set::<int>::empty().insert(0),
    {
        let n = values.len();
        if n == 0 {
            return RangeTree::new(T::zero());
        }
        let mut tree = RangeTree::new(values[0]);
        let mut i: usize = 1;
        while i < n
            invariant
                n == values@.len(),
                1 <= i <= n,
                tree.wf(),
                forall|x: int| #[trigger]
                    tree@.contains(x) == exists|j: int| 0 <= j < i && values@[j].as_int() == x,
            decreases n - i,
        {
            let ghost before = tree@;
            tree.insert(values[i]);
            proof {
                assert forall|x: int| #[trigger] tree@.contains(x) == exists|j: int|
                    0 <= j < i + 1 && values@[j].as_int() == x by {
                    if before.contains(x) {
                        let j = choose|j: int| 0 <= j < i && values@[j].as_int() == x;
                        assert(0 <= j < i + 1 && values@[j].as_int() == x);
                    }
                }
            }
            i = i + 1;
        }
        proof {
            assert(tree@ =~= values_of(values@));
        }
        tree
    }

    /// The ranges of the tree in ascending order, each merged with the one
    /// before it where the two touch.
    pub fn to_vec(&self) -> (r: Vec<(T, T)>)
        requires
            self.wf(),
        ensures
            is_cover_of(r@, self@),
    {
        let mut vec: Vec<(T, T)> = Vec::new();
        self.to_vec_req(&mut vec);
        proof {
            assert forall|x: int| !in_spans(Seq::<(T, T)>::empty(), x) by {}
            assert(spans_set(vec@) =~= self@);
        }
        vec
    }

    /// The values of the inclusive `range` that the tree does not hold, as
    /// ascending, disjoint, non-adjacent ranges. An inverted `range` has none.
    pub fn missed_in_range(&self, range: (T, T)) -> (r: Vec<(T, T)>)
        requires
            self.wf(),
        ensures
            is_cover_of(r@, gap_set(range, self@)),
    {
        let filled = self.to_vec();
        gaps_within(&filled, range)
    }

    /// Appends the ranges of the tree, in order, to a canonical list whose
    /// values all lie below those of the tree.
    fn to_vec_req(&self, vec: &mut Vec<(T, T)>)
        requires
            self.wf(),
            is_canonical(old(vec)@),
            old(vec)@.len() > 0 ==> forall|x: int| self.has(x) ==> x > old(vec)@.last().1.as_int(),
        ensures
            is_canonical(final(vec)@),
            final(vec)@.len() > 0,
            self.has(final(vec)@.last().1.as_int()),
            forall|x: int| #[trigger]
                in_spans(final(vec)@, x) == (in_spans(old(vec)@, x) || self.has(x)),
        decreases self,
    {
        let ghost s0 = vec@;
        match &self.less {
            Some(l) => {
                proof {
                    assert forall|x: int| l.has(x) implies self.has(x) by {}
                }
                l.to_vec_req(vec);
                proof {
                    assert forall|x: int| in_spans(vec@, x) == (in_spans(s0, x) || Self::opt_has(self.less, x)) by {
                        assert(in_spans(vec@, x) == (in_spans(s0, x) || l.has(x)));
                    }
                }
            },
            None => {},
        }
        let ghost s1 = vec@;
        proof {
            T::lemma_in_bounds(self.range.0);
            self.lemma_has_lo();
            assert forall|x: int| #[trigger] in_spans(s1, x) == (in_spans(s0, x) || Self::opt_has(self.less, x)) by {}
        }
        push_coalesced(vec, self.range);
        let ghost s2 = vec@;
        assert(s2.last().1 == self.range.1);
        match &self.more {
            Some(m) => {
                proof {
                    m.lemma_has_lo();
                }
                m.to_vec_req(vec);
                proof {
                    assert forall|x: int| in_spans(vec@, x) == (in_spans(s0, x) || self.has(x)) by {
                        assert(in_spans(vec@, x) == (in_spans(s2, x) || m.has(x)));
                        assert(in_spans(s2, x) == (in_spans(s1, x) || self.range.0.as_int() <= x
                            <= self.range.1.as_int()));
                    }
                }
            },
            None => {
                proof {
                    assert forall|x: int| in_spans(vec@, x) == (in_spans(s0, x) || self.has(x)) by {
                        assert(in_spans(s2, x) == (in_spans(s1, x) || self.range.0.as_int() <= x
                            <= self.range.1.as_int()));
                    }
                }
            },
        }
    }
}

impl<T: Discrete> View for RangeTree<T> {
    type V = Set<int>;

    closed spec fn view(&self) -> Set<int> {
        Set::new(|x: int| self.has(x))
    }
}

} // verus!
