//! The exchange argument that makes dominance pruning complete: any
//! selection that includes a dominated item while an excluded dominator sits
//! before it can be repaired, without losing value or feasibility, into a
//! selection the pruned search still explores.  Together with the pruned
//! search's soundness this pins the pruned optimum to the plain optimum.

use vstd::prelude::*;

use crate::dominance::{dominates, has_excl_dominator, lemma_rods_opt_le_opt, rods_opt};
use crate::dynamic::{lemma_opt_pre_is_opt_from, opt_window};
use crate::items::{deselected, stock_of, values_ok, weights_ok, Item};
use crate::optimum::opt_from;

verus! {

/// Value of the selection `sel` over the items `s[i..]`.
pub open spec fn choice_value(s: Seq<Item>, sel: Seq<bool>, i: int) -> int
    decreases s.len() - i,
{
    if i < 0 || i >= s.len() {
        0
    } else {
        (if sel[i] {
            s[i].value
        } else {
            0
        }) + choice_value(s, sel, i + 1)
    }
}

/// Weight of the selection `sel` over the items `s[i..]`.
pub open spec fn choice_weight(s: Seq<Item>, sel: Seq<bool>, i: int) -> int
    decreases s.len() - i,
{
    if i < 0 || i >= s.len() {
        0
    } else {
        (if sel[i] {
            s[i].weight
        } else {
            0
        }) + choice_weight(s, sel, i + 1)
    }
}

/// The sum of the selected positions, the measure the exchange shrinks.
pub open spec fn choice_index_sum(sel: Seq<bool>, i: int) -> int
    decreases sel.len() - i,
{
    if i < 0 || i >= sel.len() {
        0
    } else {
        (if sel[i] {
            i
        } else {
            0
        }) + choice_index_sum(sel, i + 1)
    }
}

/// Whether position `k` counts as excluded at frontier `i`: before the
/// frontier the catalog's own selection flag decides, from it on the
/// candidate selection does.
pub open spec fn excluded_at(s: Seq<Item>, sel: Seq<bool>, i: int, k: int) -> bool {
    if k < i {
        !s[k].is_selected
    } else {
        !sel[k]
    }
}

/// Some earlier excluded item dominates `s[j]`.
pub open spec fn has_free_dominator(s: Seq<Item>, sel: Seq<bool>, i: int, j: int) -> bool {
    exists|k: int| 0 <= k < j && #[trigger] excluded_at(s, sel, i, k) && dominates(s[k], s[j])
}

/// The selection is dominance-closed from the frontier on: no chosen item
/// has an excluded dominator anywhere before it.
pub open spec fn closed_choice(s: Seq<Item>, sel: Seq<bool>, i: int) -> bool {
    forall|j: int| i <= j < s.len() && sel[j] ==> !(#[trigger] has_free_dominator(s, sel, i, j))
}

/// Selection sums are non-negative on a well-formed catalog.
pub proof fn lemma_choice_nonneg(s: Seq<Item>, sel: Seq<bool>, i: int)
    requires
        values_ok(s),
        weights_ok(s),
    ensures
        0 <= choice_value(s, sel, i),
        0 <= choice_weight(s, sel, i),
        0 <= choice_index_sum(sel, i),
    decreases s.len() + sel.len() - i,
{
    if i < s.len() || i < sel.len() {
        if 0 <= i {
            lemma_choice_nonneg(s, sel, i + 1);
        }
    }
}

/// Selection sums read only values, weights and the selection itself, so a
/// catalog with the same stock gives the same sums.
pub proof fn lemma_choice_stock_agree(s1: Seq<Item>, s2: Seq<Item>, sel: Seq<bool>, i: int)
    requires
        s1.len() == s2.len(),
        forall|j: int| 0 <= j < s1.len() ==> (#[trigger] s2[j]).value == s1[j].value
            && s2[j].weight == s1[j].weight,
    ensures
        choice_value(s1, sel, i) == choice_value(s2, sel, i),
        choice_weight(s1, sel, i) == choice_weight(s2, sel, i),
    decreases s1.len() - i,
{
    if 0 <= i < s1.len() {
        lemma_choice_stock_agree(s1, s2, sel, i + 1);
    }
}

/// Flipping one position changes each sum by exactly that position's
/// contribution — and changes nothing before the suffix being summed.
pub proof fn lemma_choice_update(s: Seq<Item>, sel: Seq<bool>, p: int, b: bool, i: int)
    requires
        0 <= p < s.len(),
        sel.len() == s.len(),
        0 <= i,
    ensures
        i <= p ==> choice_value(s, sel.update(p, b), i) == choice_value(s, sel, i) - (if sel[p] {
            s[p].value
        } else {
            0
        }) + (if b {
            s[p].value
        } else {
            0
        }),
        i <= p ==> choice_weight(s, sel.update(p, b), i) == choice_weight(s, sel, i) - (
        if sel[p] {
            s[p].weight
        } else {
            0
        }) + (if b {
            s[p].weight
        } else {
            0
        }),
        i <= p ==> choice_index_sum(sel.update(p, b), i) == choice_index_sum(sel, i) - (
        if sel[p] {
            p
        } else {
            0
        }) + (if b {
            p
        } else {
            0
        }),
        p < i ==> choice_value(s, sel.update(p, b), i) == choice_value(s, sel, i)
            && choice_weight(s, sel.update(p, b), i) == choice_weight(s, sel, i)
            && choice_index_sum(sel.update(p, b), i) == choice_index_sum(sel, i),
    decreases s.len() - i,
{
    if 0 <= i < s.len() {
        lemma_choice_update(s, sel, p, b, i + 1);
    }
}

/// The optimum is attained: some selection of the items from `i` on fits
/// the capacity and is worth exactly `opt_from`.
pub proof fn lemma_opt_witness(s: Seq<Item>, i: int, cap: int)
    requires
        values_ok(s),
        weights_ok(s),
        0 <= i <= s.len(),
        0 <= cap,
    ensures
        exists|sel: Seq<bool>|
            sel.len() == s.len() && #[trigger] choice_weight(s, sel, i) <= cap && choice_value(
                s,
                sel,
                i,
            ) == opt_from(s, i, cap),
    decreases s.len() - i,
{
    let n = s.len() as int;
    if i == n {
        let sel = Seq::<bool>::new(s.len(), |j: int| false);
        assert(choice_weight(s, sel, i) == 0 && choice_value(s, sel, i) == 0);
    } else {
        lemma_opt_witness(s, i + 1, cap);
        let skip_sel = choose|sel: Seq<bool>|
            sel.len() == s.len() && #[trigger] choice_weight(s, sel, i + 1) <= cap
                && choice_value(s, sel, i + 1) == opt_from(s, i + 1, cap);
        let skip_w = skip_sel.update(i, false);
        proof_choice_suffix_agree(s, skip_sel, skip_w, i + 1);
        assert(choice_weight(s, skip_w, i) == choice_weight(s, skip_w, i + 1));
        assert(choice_value(s, skip_w, i) == choice_value(s, skip_w, i + 1));
        if s[i].weight <= cap && opt_from(s, i, cap) != opt_from(s, i + 1, cap) {
            // The optimum takes item i.
            lemma_opt_witness(s, i + 1, cap - s[i].weight);
            let take_sel = choose|sel: Seq<bool>|
                sel.len() == s.len() && #[trigger] choice_weight(s, sel, i + 1) <= cap
                    - s[i].weight && choice_value(s, sel, i + 1) == opt_from(
                    s,
                    i + 1,
                    cap - s[i].weight,
                );
            let take_w = take_sel.update(i, true);
            proof_choice_suffix_agree(s, take_sel, take_w, i + 1);
            assert(choice_weight(s, take_w, i) == s[i].weight + choice_weight(s, take_w, i + 1));
            assert(choice_value(s, take_w, i) == s[i].value + choice_value(s, take_w, i + 1));
            assert(choice_weight(s, take_w, i) <= cap && choice_value(s, take_w, i) == opt_from(
                s,
                i,
                cap,
            ));
        } else {
            assert(opt_from(s, i, cap) == opt_from(s, i + 1, cap));
            assert(choice_weight(s, skip_w, i) <= cap && choice_value(s, skip_w, i) == opt_from(
                s,
                i,
                cap,
            ));
        }
    }
}

/// The exchange: any feasible selection can be repaired into a
/// dominance-closed one worth at least as much.  Each repair step swaps a
/// chosen dominated item for an excluded dominator before it, which never
/// adds weight or loses value, and strictly shrinks the sum of the chosen
/// positions.
pub proof fn lemma_exchange(s: Seq<Item>, sel: Seq<bool>, cap: int)
    requires
        values_ok(s),
        weights_ok(s),
        sel.len() == s.len(),
        choice_weight(s, sel, 0) <= cap,
    ensures
        exists|sel2: Seq<bool>|
            sel2.len() == s.len() && #[trigger] choice_weight(s, sel2, 0) <= cap && choice_value(
                s,
                sel2,
                0,
            ) >= choice_value(s, sel, 0) && closed_choice(s, sel2, 0),
    decreases choice_index_sum(sel, 0),
{
    let n = s.len() as int;
    if closed_choice(s, sel, 0) {
        assert(sel.len() == s.len() && choice_weight(s, sel, 0) <= cap && choice_value(s, sel, 0)
            >= choice_value(s, sel, 0) && closed_choice(s, sel, 0));
    } else {
        let j = choose|j: int|
            0 <= j < n && sel[j] && #[trigger] has_free_dominator(s, sel, 0, j);
        let k = choose|k: int|
            0 <= k < j && #[trigger] excluded_at(s, sel, 0, k) && dominates(s[k], s[j]);
        let sel1 = sel.update(j, false);
        let sel2 = sel1.update(k, true);
        lemma_choice_update(s, sel, j, false, 0);
        lemma_choice_update(s, sel1, k, true, 0);
        assert(sel1[k] == sel[k] && !sel[k]);
        assert(choice_weight(s, sel2, 0) == choice_weight(s, sel, 0) - s[j].weight
            + s[k].weight);
        assert(choice_value(s, sel2, 0) == choice_value(s, sel, 0) - s[j].value + s[k].value);
        assert(choice_index_sum(sel2, 0) == choice_index_sum(sel, 0) - j + k);
        lemma_choice_nonneg(s, sel2, 0);
        lemma_exchange(s, sel2, cap);
        let sel3 = choose|sel3: Seq<bool>|
            sel3.len() == s.len() && #[trigger] choice_weight(s, sel3, 0) <= cap && choice_value(
                s,
                sel3,
                0,
            ) >= choice_value(s, sel2, 0) && closed_choice(s, sel3, 0);
        assert(choice_value(s, sel3, 0) >= choice_value(s, sel, 0));
    }
}

/// A dominance-closed feasible selection never beats the pruned search:
/// its choices follow a path the pruned tree keeps.
pub proof fn lemma_rods_upper(s: Seq<Item>, sel: Seq<bool>, i: int, cap: int)
    requires
        values_ok(s),
        weights_ok(s),
        sel.len() == s.len(),
        0 <= i <= s.len(),
        choice_weight(s, sel, i) <= cap,
        closed_choice(s, sel, i),
    ensures
        choice_value(s, sel, i) <= rods_opt(s, i, cap),
    decreases s.len() - i,
{
    let n = s.len() as int;
    if i < n {
        lemma_choice_nonneg(s, sel, i + 1);
        if sel[i] {
            assert(!has_free_dominator(s, sel, i, i));
            assert(!has_excl_dominator(s, i, i)) by {
                if has_excl_dominator(s, i, i) {
                    let k = choose|k: int|
                        0 <= k < i && k != i && !(#[trigger] s[k]).is_selected && dominates(
                            s[k],
                            s[i],
                        );
                    assert(excluded_at(s, sel, i, k));
                    assert(has_free_dominator(s, sel, i, i));
                }
            }
            assert(choice_weight(s, sel, i) == s[i].weight + choice_weight(s, sel, i + 1));
            assert(s[i].weight <= cap);
            let s_t = s.update(i, Item { is_selected: true, ..s[i] });
            assert(values_ok(s_t) && weights_ok(s_t));
            assert(closed_choice(s_t, sel, i + 1)) by {
                assert forall|j: int|
                    i + 1 <= j < n && sel[j] implies !(#[trigger] has_free_dominator(
                    s_t,
                    sel,
                    i + 1,
                    j,
                )) by {
                    if has_free_dominator(s_t, sel, i + 1, j) {
                        let k = choose|k: int|
                            0 <= k < j && #[trigger] excluded_at(s_t, sel, i + 1, k)
                                && dominates(s_t[k], s_t[j]);
                        assert(k != i);
                        assert(excluded_at(s, sel, i, k));
                        assert(dominates(s[k], s[j]));
                        assert(has_free_dominator(s, sel, i, j));
                    }
                }
            }
            lemma_choice_stock_agree(s, s_t, sel, i + 1);
            lemma_rods_upper(s_t, sel, i + 1, cap - s[i].weight);
            assert(choice_value(s, sel, i) == s[i].value + choice_value(s, sel, i + 1));
        } else {
            let s_x = s.update(i, deselected(s[i]));
            assert(values_ok(s_x) && weights_ok(s_x));
            assert(closed_choice(s_x, sel, i + 1)) by {
                assert forall|j: int|
                    i + 1 <= j < n && sel[j] implies !(#[trigger] has_free_dominator(
                    s_x,
                    sel,
                    i + 1,
                    j,
                )) by {
                    if has_free_dominator(s_x, sel, i + 1, j) {
                        let k = choose|k: int|
                            0 <= k < j && #[trigger] excluded_at(s_x, sel, i + 1, k)
                                && dominates(s_x[k], s_x[j]);
                        assert(excluded_at(s, sel, i, k));
                        assert(dominates(s[k], s[j]));
                        assert(has_free_dominator(s, sel, i, j));
                    }
                }
            }
            lemma_choice_stock_agree(s, s_x, sel, i + 1);
            lemma_rods_upper(s_x, sel, i + 1, cap);
            assert(choice_value(s, sel, i) == choice_value(s, sel, i + 1));
            assert(choice_weight(s, sel, i) == choice_weight(s, sel, i + 1));
        }
    }
}

/// Dominance pruning is complete: for a meaningful capacity the pruned
/// search tree still reaches the plain optimum.
pub proof fn lemma_rods_complete(s: Seq<Item>, cap: int)
    requires
        values_ok(s),
        weights_ok(s),
        0 <= cap,
    ensures
        rods_opt(s, 0, cap) == opt_from(s, 0, cap),
{
    lemma_rods_opt_le_opt(s, 0, cap);
    lemma_opt_witness(s, 0, cap);
    let sel = choose|sel: Seq<bool>|
        sel.len() == s.len() && #[trigger] choice_weight(s, sel, 0) <= cap && choice_value(
            s,
            sel,
            0,
        ) == opt_from(s, 0, cap);
    lemma_exchange(s, sel, cap);
    let sel2 = choose|sel2: Seq<bool>|
        sel2.len() == s.len() && #[trigger] choice_weight(s, sel2, 0) <= cap && choice_value(
            s,
            sel2,
            0,
        ) >= choice_value(s, sel, 0) && closed_choice(s, sel2, 0);
    lemma_rods_upper(s, sel2, 0, cap);
}

/// Windows that agree on values and weights have the same optimum.
proof fn lemma_opt_window_agree(a: Seq<Item>, b: Seq<Item>, lo: int, hi: int, cap: int)
    requires
        hi <= a.len(),
        hi <= b.len(),
        forall|t: int| lo <= t < hi ==> (#[trigger] b[t]).value == a[t].value && b[t].weight
            == a[t].weight,
    ensures
        opt_window(a, lo, hi, cap) == opt_window(b, lo, hi, cap),
    decreases hi - lo,
{
    if 0 <= lo < hi {
        lemma_opt_window_agree(a, b, lo, hi - 1, cap);
        lemma_opt_window_agree(a, b, lo, hi - 1, cap - a[hi - 1].weight);
    }
}

/// The optimum of a window can be peeled at any position, not just the
/// last: decide item `p` first and solve the rest.
proof fn lemma_opt_remove(s: Seq<Item>, p: int, hi: int, cap: int)
    requires
        weights_ok(s),
        0 <= p < hi <= s.len(),
    ensures
        opt_window(s, 0, hi, cap) == (if s[p].weight <= cap {
            let taken = s[p].value + opt_window(s.remove(p), 0, hi - 1, cap - s[p].weight);
            let skip = opt_window(s.remove(p), 0, hi - 1, cap);
            if taken >= skip {
                taken
            } else {
                skip
            }
        } else {
            opt_window(s.remove(p), 0, hi - 1, cap)
        }),
    decreases hi - p,
{
    let s2 = s.remove(p);
    if p == hi - 1 {
        lemma_opt_window_agree(s, s2, 0, hi - 1, cap);
        if s[p].weight <= cap {
            lemma_opt_window_agree(s, s2, 0, hi - 1, cap - s[p].weight);
        }
    } else {
        let vx = s[hi - 1].value;
        let wx = s[hi - 1].weight;
        let vp = s[p].value;
        let wp = s[p].weight;
        assert(s2[hi - 2] == s[hi - 1]);
        lemma_opt_remove(s, p, hi - 1, cap);
        lemma_opt_remove(s, p, hi - 1, cap - wx);
        let a = opt_window(s2, 0, hi - 2, cap);
        let b = opt_window(s2, 0, hi - 2, cap - wp);
        let c = opt_window(s2, 0, hi - 2, cap - wx);
        let d = opt_window(s2, 0, hi - 2, cap - wp - wx);
        assert(opt_window(s2, 0, hi - 1, cap) == (if wx <= cap {
            let with = vx + c;
            if with >= a {
                with
            } else {
                a
            }
        } else {
            a
        }));
        assert(opt_window(s2, 0, hi - 1, cap - wp) == (if wx <= cap - wp {
            let with = vx + d;
            if with >= b {
                with
            } else {
                b
            }
        } else {
            b
        }));
        assert(opt_window(s, 0, hi, cap) == (if wx <= cap {
            let with = vx + opt_window(s, 0, hi - 1, cap - wx);
            let without = opt_window(s, 0, hi - 1, cap);
            if with >= without {
                with
            } else {
                without
            }
        } else {
            opt_window(s, 0, hi - 1, cap)
        }));
    }
}

/// The optimum depends only on the multiset of value/weight pairs: any
/// reordering of the stock leaves it unchanged.
pub proof fn lemma_opt_permutation(s1: Seq<Item>, s2: Seq<Item>, cap: int)
    requires
        weights_ok(s1),
        weights_ok(s2),
        stock_of(s1).to_multiset() == stock_of(s2).to_multiset(),
    ensures
        opt_from(s1, 0, cap) == opt_from(s2, 0, cap),
    decreases s1.len(),
{
    broadcast use vstd::multiset::group_multiset_axioms;

    stock_of(s1).to_multiset_ensures();
    stock_of(s2).to_multiset_ensures();
    assert(s1.len() == s2.len());
    let n = s1.len() as int;
    lemma_opt_pre_is_opt_from(s1, 0, cap);
    lemma_opt_pre_is_opt_from(s2, 0, cap);
    if n > 0 {
        let pair = stock_of(s1)[n - 1];
        assert(stock_of(s1).contains(pair));
        assert(stock_of(s1).to_multiset().count(pair) > 0);
        assert(stock_of(s2).contains(pair));
        let p = choose|p: int| 0 <= p < n && stock_of(s2)[p] == pair;
        assert(s2[p].value == pair.0 && s2[p].weight == pair.1);
        assert(s1[n - 1].value == pair.0 && s1[n - 1].weight == pair.1);
        let r1 = s1.remove(n - 1);
        let r2 = s2.remove(p);
        assert(stock_of(r1) =~= stock_of(s1).remove(n - 1));
        assert(stock_of(r2) =~= stock_of(s2).remove(p));
        assert(stock_of(r1).to_multiset() == stock_of(s1).to_multiset().remove(pair));
        assert(stock_of(r2).to_multiset() == stock_of(s2).to_multiset().remove(pair));
        assert(weights_ok(r1)) by {
            assert(forall|t: int| 0 <= t < r1.len() ==> r1[t] == s1[t]);
        }
        assert(weights_ok(r2)) by {
            assert forall|t: int| 0 <= t < r2.len() implies 1 <= (#[trigger] r2[t]).weight by {
                if t < p {
                    assert(r2[t] == s2[t]);
                } else {
                    assert(r2[t] == s2[t + 1]);
                }
            }
        }
        lemma_opt_remove(s1, n - 1, n, cap);
        lemma_opt_remove(s2, p, n, cap);
        lemma_opt_permutation(r1, r2, cap);
        if pair.1 <= cap {
            lemma_opt_permutation(r1, r2, cap - pair.1);
        }
        lemma_opt_pre_is_opt_from(r1, 0, cap);
        lemma_opt_pre_is_opt_from(r2, 0, cap);
        if pair.1 <= cap {
            lemma_opt_pre_is_opt_from(r1, 0, cap - pair.1);
            lemma_opt_pre_is_opt_from(r2, 0, cap - pair.1);
        }
    }
}

/// Two selections that agree from `i` on give the same suffix sums there.
proof fn proof_choice_suffix_agree(s: Seq<Item>, a: Seq<bool>, b: Seq<bool>, i: int)
    requires
        forall|j: int| i <= j < s.len() ==> a[j] == b[j],
    ensures
        choice_value(s, a, i) == choice_value(s, b, i),
        choice_weight(s, a, i) == choice_weight(s, b, i),
    decreases s.len() - i,
{
    if 0 <= i < s.len() {
        proof_choice_suffix_agree(s, a, b, i + 1);
    }
}

} // verus!
