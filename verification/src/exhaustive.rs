//! Exhaustive search: recursive enumeration of all `2^n` selections.  The
//! contract pins the returned value to the exact optimum, which makes this
//! solver the oracle the other strategies are compared against.

use vstd::prelude::*;

use vstd::arithmetic::power2::{lemma2_to64, lemma2_to64_rest, lemma_pow2_strictly_increases, pow2};

use crate::items::{
    catalog_ok, copy_items, deselected, leaf_value, lemma_prefix_sums_agree,
    lemma_prefix_sums_nonneg, lemma_prefix_suffix_split, lemma_sel_sums_agree,
    lemma_stock_sums_agree, same_stock, sel_values_from, sel_values_prefix, sel_weights_from,
    sel_weights_prefix, solution_value, Item,
};
use crate::optimum::{lemma_opt_from_agree, lemma_opt_from_nonneg, opt_from};

verus! {

/// What every search-based solver promises of its returned triple, given the
/// catalog it started from: the solution is a copy of the catalog's stock
/// whose candidate selection is worth exactly the returned value, and — for
/// a meaningful allowance — that value is the mathematical optimum and the
/// selection fits the allowance.
pub open spec fn search_result_ok(s: Seq<Item>, allowed_weight: int, sol: Seq<Item>, total: int) -> bool {
    &&& total == if allowed_weight >= 0 {
        opt_from(s, 0, allowed_weight)
    } else {
        -1
    }
    &&& allowed_weight >= 0 ==> {
        &&& sel_weights_from(sol, 0) <= allowed_weight
        &&& sel_values_from(sol, 0) == total
    }
}

/// `pow2` stays within `2^63` for exponents up to 63.
pub proof fn lemma_pow2_le63(k: nat)
    requires
        k <= 63,
    ensures
        pow2(k) <= 0x8000_0000_0000_0000,
        k <= 62 ==> pow2(k) <= 0x4000_0000_0000_0000,
        1 <= pow2(k),
        1 <= k ==> 2 <= pow2(k),
{
    lemma2_to64();
    lemma2_to64_rest();
    vstd::arithmetic::power2::lemma_pow2_pos(k);
    if k < 62 {
        lemma_pow2_strictly_increases(k, 62);
    }
    if k < 63 {
        lemma_pow2_strictly_increases(k, 63);
    }
    if 1 < k {
        lemma_pow2_strictly_increases(1, k);
    }
}

/// Whether the exhaustive search takes item `i` when `c` capacity remains.
/// With a negative remainder every leaf of the subtree is overweight, both
/// branches score the sentinel, and the tie rule keeps the including branch
/// all the way down; otherwise the item is taken exactly when it fits and
/// including it scores at least as well as leaving it.
pub open spec fn exh_take(s: Seq<Item>, i: int, c: int) -> bool {
    if c < 0 {
        true
    } else if s[i].weight <= c {
        s[i].value + opt_from(s, i + 1, c - s[i].weight) >= opt_from(s, i + 1, c)
    } else {
        false
    }
}

/// The selection flag the exhaustive search leaves on item `j` of its
/// returned copy, for the subtree rooted at `i` with remaining capacity
/// `c`: the search's include-on-ties rule, applied item by item.
pub open spec fn exh_selected(s: Seq<Item>, i: int, c: int, j: int) -> bool
    decreases j - i,
{
    if j <= i {
        exh_take(s, i, c)
    } else {
        exh_selected(s, i + 1, if exh_take(s, i, c) {
            c - s[i].weight
        } else {
            c
        }, j)
    }
}

/// The chosen selection reads only values and weights.
proof fn lemma_exh_selected_agree(a: Seq<Item>, b: Seq<Item>, i: int, c: int, j: int)
    requires
        same_stock(a, b),
        0 <= i <= j < a.len(),
    ensures
        exh_selected(a, i, c, j) == exh_selected(b, i, c, j),
    decreases j - i,
{
    lemma_opt_from_agree(a, b, i + 1, c);
    if a[i].weight <= c {
        lemma_opt_from_agree(a, b, i + 1, c - a[i].weight);
    }
    if j > i {
        lemma_exh_selected_agree(a, b, i + 1, if exh_take(a, i, c) {
            c - a[i].weight
        } else {
            c
        }, j);
    }
}

/// Recursively try every selection of the items at `next_index` and beyond,
/// returning the best leaf as a copy, its worth, and the number of calls
/// made (including this one).  Ties favour the branch that includes the
/// item.  On return, every item from `next_index` on is deselected and the
/// prefix is untouched.
pub fn do_exhaustive_search(items: &mut Vec<Item>, allowed_weight: i64, next_index: usize) -> (r:
    (Vec<Item>, i64, i64))
    requires
        catalog_ok(old(items)@),
        next_index <= old(items)@.len(),
        old(items)@.len() <= 62,
    ensures
        final(items)@.len() == old(items)@.len(),
        forall|j: int| 0 <= j < next_index ==> final(items)@[j] == old(items)@[j],
        forall|j: int|
            next_index <= j < old(items)@.len() ==> final(items)@[j] == deselected(
                old(items)@[j],
            ),
        r.0@.len() == old(items)@.len(),
        forall|j: int|
            0 <= j < old(items)@.len() ==> (#[trigger] r.0@[j]).value == old(items)@[j].value
                && r.0@[j].weight == old(items)@[j].weight && r.0@[j].id == old(items)@[j].id
                && r.0@[j].block_list@ == Seq::<usize>::empty(),
        forall|j: int|
            0 <= j < next_index ==> (#[trigger] r.0@[j]).is_selected
                == old(items)@[j].is_selected,
        forall|j: int|
            next_index <= j < old(items)@.len() ==> (#[trigger] r.0@[j]).is_selected
                == exh_selected(
                old(items)@,
                next_index as int,
                allowed_weight - sel_weights_prefix(old(items)@, next_index as int),
                j,
            ),
        leaf_value(r.0@, allowed_weight as int) == r.1,
        r.1 == if sel_weights_prefix(old(items)@, next_index as int) <= allowed_weight {
            sel_values_prefix(old(items)@, next_index as int) + opt_from(
                old(items)@,
                next_index as int,
                allowed_weight - sel_weights_prefix(old(items)@, next_index as int),
            )
        } else {
            -1
        },
        r.2 == pow2((old(items)@.len() - next_index + 1) as nat) - 1,
    decreases old(items)@.len() - next_index,
{
    let ghost s = old(items)@;
    let ghost i = next_index as int;
    let ghost n = s.len() as int;
    let ghost cap = allowed_weight as int;
    let ghost wp = sel_weights_prefix(s, i);
    let ghost vp = sel_values_prefix(s, i);
    if next_index >= items.len() {
        let sol = copy_items(items);
        let val = solution_value(items, allowed_weight);
        proof {
            lemma_prefix_suffix_split(s, n);
            lemma_sel_sums_agree(s, sol@, 0);
            lemma2_to64();
            assert(leaf_value(sol@, cap) == leaf_value(s, cap));
        }
        (sol, val, 1)
    } else {
        proof {
            lemma_prefix_sums_nonneg(s, i);
        }
        items[next_index].is_selected = true;
        let ghost s_t = items@;
        proof {
            assert(s_t == s.update(i, s_t[i]));
            assert(s_t[i].is_selected && s_t[i].value == s[i].value && s_t[i].weight
                == s[i].weight);
            lemma_stock_sums_agree(s, s_t, 0);
            lemma_prefix_sums_agree(s, s_t, i);
            assert(sel_weights_prefix(s_t, i + 1) == wp + s[i].weight);
            assert(sel_values_prefix(s_t, i + 1) == vp + s[i].value);
        }
        let (inc_sol, inc_val, inc_calls) = do_exhaustive_search(
            items,
            allowed_weight,
            next_index + 1,
        );
        proof {
            lemma_opt_from_agree(s_t, s, i + 1, cap - wp - s[i].weight);
        }
        items[next_index].is_selected = false;
        let ghost s_f = items@;
        proof {
            assert(s_f[i] == deselected(s[i]));
            assert(forall|j: int| 0 <= j < i ==> s_f[j] == s[j]);
            assert(forall|j: int| i < j < n ==> s_f[j] == deselected(s[j]));
            lemma_stock_sums_agree(s, s_f, 0);
            lemma_prefix_sums_agree(s, s_f, i);
            assert(sel_weights_prefix(s_f, i + 1) == wp);
            assert(sel_values_prefix(s_f, i + 1) == vp);
        }
        let (exc_sol, exc_val, exc_calls) = do_exhaustive_search(
            items,
            allowed_weight,
            next_index + 1,
        );
        proof {
            lemma_opt_from_agree(s_f, s, i + 1, cap - wp);
            lemma_opt_from_nonneg(s, i + 1, cap - wp);
            lemma_opt_from_nonneg(s, i + 1, cap - wp - s[i].weight);
            assert(forall|j: int| i <= j < n ==> final(items)@[j] == deselected(s[j]));
            // The two sub-results fold into the optimum at `i`.
            if wp <= cap {
                if wp + s[i].weight <= cap {
                    assert(inc_val == vp + s[i].value + opt_from(s, i + 1, cap - wp
                        - s[i].weight));
                    assert(exc_val == vp + opt_from(s, i + 1, cap - wp));
                } else {
                    assert(inc_val == -1);
                    assert(exc_val == vp + opt_from(s, i + 1, cap - wp));
                    assert(exc_val >= 0);
                }
            } else {
                assert(wp + s[i].weight > cap);
                assert(inc_val == -1 && exc_val == -1);
            }
            // The include/exclude comparison is exactly the take rule, and
            // the chosen copy's flags follow it item by item.
            let c = cap - wp;
            assert((inc_val >= exc_val) == exh_take(s, i, c));
            assert(inc_sol@[i].is_selected && !exc_sol@[i].is_selected);
            assert forall|j: int| i < j < n implies inc_sol@[j].is_selected == exh_selected(
                s,
                i + 1,
                c - s[i].weight,
                j,
            ) && exc_sol@[j].is_selected == exh_selected(s, i + 1, c, j) by {
                lemma_exh_selected_agree(s_t, s, i + 1, c - s[i].weight, j);
                lemma_exh_selected_agree(s_f, s, i + 1, c, j);
            }
            // Counting: both subtrees are full, so the total is exact.
            lemma_pow2_le63((n - i) as nat);
            lemma_pow2_le63((n - i + 1) as nat);
            assert(pow2((n - i + 1) as nat) == 2 * pow2((n - i) as nat)) by {
                vstd::arithmetic::power2::lemma_pow2_adds(1, (n - i) as nat);
                lemma2_to64();
            }
        }
        if inc_val >= exc_val {
            (inc_sol, inc_val, inc_calls + exc_calls + 1)
        } else {
            (exc_sol, exc_val, exc_calls + inc_calls + 1)
        }
    }
}

/// Try every subset of the catalog and return the best one as a copy,
/// together with its value and the `2^(n+1) - 1` recursive calls made.
pub fn exhaustive_search(items: &mut Vec<Item>, allowed_weight: i64) -> (r: (Vec<Item>, i64, i64))
    requires
        catalog_ok(old(items)@),
        old(items)@.len() <= 62,
    ensures
        search_result_ok(old(items)@, allowed_weight as int, r.0@, r.1 as int),
        r.0@.len() == old(items)@.len(),
        forall|j: int|
            0 <= j < old(items)@.len() ==> (#[trigger] r.0@[j]).value == old(items)@[j].value
                && r.0@[j].weight == old(items)@[j].weight && r.0@[j].id == old(items)@[j].id
                && r.0@[j].block_list@ == Seq::<usize>::empty(),
        forall|j: int|
            0 <= j < old(items)@.len() ==> (#[trigger] r.0@[j]).is_selected == exh_selected(
                old(items)@,
                0,
                allowed_weight as int,
                j,
            ),
        final(items)@.len() == old(items)@.len(),
        forall|j: int|
            0 <= j < old(items)@.len() ==> final(items)@[j] == deselected(
                #[trigger] old(items)@[j],
            ),
        r.2 == pow2((old(items)@.len() + 1) as nat) - 1,
{
    let r = do_exhaustive_search(items, allowed_weight, 0);
    proof {
        let s = old(items)@;
        let cap = allowed_weight as int;
        lemma_opt_from_nonneg(s, 0, cap);
        assert(sel_weights_prefix(s, 0) == 0 && sel_values_prefix(s, 0) == 0);
        assert(cap - sel_weights_prefix(s, 0) == cap);
        if cap >= 0 {
            assert(r.1 == opt_from(s, 0, cap));
            assert(leaf_value(r.0@, cap) == r.1);
            assert(sel_weights_from(r.0@, 0) <= cap && sel_values_from(r.0@, 0) == r.1);
        }
    }
    r
}

} // verus!
