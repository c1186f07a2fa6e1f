//! The mathematical optimum of a knapsack instance: the best total value any
//! selection of the items `s[i..]` can reach within a remaining capacity.
//! Every solver's contract is stated against this one definition.

use vstd::prelude::*;

use crate::items::{
    same_stock, sum_values_from, values_ok, weights_ok, Item,
};

verus! {

/// The best total value obtainable from the items `s[i..]` within capacity
/// `cap`: either skip item `i`, or — when it fits — take it and solve the
/// rest with the reduced capacity.
pub open spec fn opt_from(s: Seq<Item>, i: int, cap: int) -> int
    decreases s.len() - i,
{
    if i < 0 || i >= s.len() {
        0
    } else {
        let skip = opt_from(s, i + 1, cap);
        if s[i].weight <= cap {
            let taken = s[i].value + opt_from(s, i + 1, cap - s[i].weight);
            if taken >= skip {
                taken
            } else {
                skip
            }
        } else {
            skip
        }
    }
}

/// The optimum is never negative: the empty selection is always available.
pub proof fn lemma_opt_from_nonneg(s: Seq<Item>, i: int, cap: int)
    requires
        values_ok(s),
    ensures
        0 <= opt_from(s, i, cap),
    decreases s.len() - i,
{
    if 0 <= i < s.len() {
        lemma_opt_from_nonneg(s, i + 1, cap);
        if s[i].weight <= cap {
            lemma_opt_from_nonneg(s, i + 1, cap - s[i].weight);
        }
    }
}

/// The optimum never exceeds the plain sum of the remaining values: ignoring
/// all weights is an admissible overestimate.
pub proof fn lemma_opt_from_admissible(s: Seq<Item>, i: int, cap: int)
    requires
        values_ok(s),
    ensures
        opt_from(s, i, cap) <= sum_values_from(s, i),
    decreases s.len() - i,
{
    if 0 <= i < s.len() {
        lemma_opt_from_admissible(s, i + 1, cap);
        if s[i].weight <= cap {
            lemma_opt_from_admissible(s, i + 1, cap - s[i].weight);
        }
    }
}

/// The optimum reads only values and weights: catalogs with the same stock
/// have the same optimum, whatever their scratch state.
pub proof fn lemma_opt_from_agree(a: Seq<Item>, b: Seq<Item>, i: int, cap: int)
    requires
        same_stock(a, b),
    ensures
        opt_from(a, i, cap) == opt_from(b, i, cap),
    decreases a.len() - i,
{
    if 0 <= i < a.len() {
        lemma_opt_from_agree(a, b, i + 1, cap);
        if a[i].weight <= cap {
            lemma_opt_from_agree(a, b, i + 1, cap - a[i].weight);
        }
    }
}

} // verus!
