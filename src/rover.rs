use vstd::prelude::*;

use crate::discrete::Discrete;
use crate::spans::{gap_set, gaps_within, is_cover_of, spans_set, values_of};
use crate::tree::RangeTree;

verus! {

/// The values of `input`, in any order and with repeats, as the minimal
/// ascending list of disjoint, non-adjacent inclusive ranges.
pub fn range_rover<T: Discrete>(input: Vec<T>) -> (r: Vec<(T, T)>)
    ensures
        is_cover_of(r@, values_of(input@)),
{
    if input.len() == 0 {
        let r: Vec<(T, T)> = Vec::new();
        proof {
            assert(spans_set(r@) =~= values_of(input@));
        }
        return r;
    }
    let tree = RangeTree::from_iter(input);
    tree.to_vec()
}

/// The values of the inclusive `range` that `input` leaves out, as ascending,
/// disjoint, non-adjacent ranges. With no input the whole range is missed.
pub fn missed_in_range<T: Discrete>(input: Vec<T>, range: (T, T)) -> (r: Vec<(T, T)>)
    ensures
        is_cover_of(r@, gap_set(range, values_of(input@))),
{
    if input.len() == 0 {
        let none: Vec<(T, T)> = Vec::new();
        proof {
            assert(spans_set(none@) =~= values_of(input@));
        }
        return gaps_within(&none, range);
    }
    let tree = RangeTree::from_iter(input);
    tree.missed_in_range(range)
}

} // verus!
