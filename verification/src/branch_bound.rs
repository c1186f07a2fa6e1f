//! Branch-and-bound search: depth-first enumeration that prunes a subtree
//! whenever even the admissible overestimate `current + remaining` cannot
//! beat the best value already found.  The contract shows the pruning is
//! sound: the top-level call still returns the exact optimum.

use vstd::prelude::*;

use vstd::arithmetic::power2::pow2;

use crate::exhaustive::{lemma_pow2_le63, search_result_ok};
use crate::items::{
    catalog_ok, copy_items, deselected, lemma_prefix_le_stock, lemma_prefix_sums_agree,
    lemma_prefix_sums_nonneg, lemma_prefix_suffix_split, lemma_sel_sums_agree,
    lemma_stock_sums_agree, lemma_sums_bounds, lemma_suffix_sums_nonneg, sel_values_from,
    sel_values_prefix, sel_weights_from, sel_weights_prefix, sum_values, sum_values_from,
    sum_weights_from, Item,
};
use crate::optimum::{
    lemma_opt_from_admissible, lemma_opt_from_agree, lemma_opt_from_nonneg, opt_from,
};

verus! {

/// Depth-first search over the items at `next_index` and beyond.
/// `best_value` is the best leaf seen so far on this path, `current_value` /
/// `current_weight` are the sums decided by the prefix, and
/// `remaining_value` is the admissible overestimate of what the suffix can
/// still add.  The returned value never exceeds the best completion of the
/// current prefix, and equals it whenever that completion would beat
/// `best_value`; a pruned (empty) solution is only returned when it lost to
/// `best_value`.
pub fn do_branch_and_bound(
    items: &mut Vec<Item>,
    allowed_weight: i64,
    best_value: i64,
    current_value: i64,
    current_weight: i64,
    remaining_value: i64,
    next_index: usize,
) -> (r: (Vec<Item>, i64, i64))
    requires
        catalog_ok(old(items)@),
        next_index <= old(items)@.len(),
        old(items)@.len() <= 62,
        0 <= allowed_weight,
        0 <= best_value,
        current_value == sel_values_prefix(old(items)@, next_index as int),
        current_weight == sel_weights_prefix(old(items)@, next_index as int),
        current_weight <= allowed_weight,
        remaining_value == sum_values_from(old(items)@, next_index as int),
    ensures
        final(items)@.len() == old(items)@.len(),
        forall|j: int| 0 <= j < next_index ==> final(items)@[j] == old(items)@[j],
        forall|j: int|
            next_index <= j < old(items)@.len() ==> (final(items)@[j] == old(items)@[j]
                || final(items)@[j] == deselected(old(items)@[j])),
        ({
            let s = old(items)@;
            let i = next_index as int;
            let rb = current_value + opt_from(s, i, allowed_weight - current_weight);
            &&& current_value <= r.1 <= rb
            &&& rb > best_value ==> r.1 == rb
            &&& r.0@.len() == 0 ==> r.1 <= best_value
            &&& r.0@.len() != 0 ==> {
                &&& r.0@.len() == s.len()
                &&& forall|j: int|
                    0 <= j < s.len() ==> (#[trigger] r.0@[j]).value == s[j].value
                        && r.0@[j].weight == s[j].weight && r.0@[j].id == s[j].id
                        && r.0@[j].block_list@ == Seq::<usize>::empty()
                &&& forall|j: int|
                    0 <= j < i ==> (#[trigger] r.0@[j]).is_selected == s[j].is_selected
                &&& sel_weights_from(r.0@, 0) <= allowed_weight
                &&& sel_values_from(r.0@, 0) == r.1
            }
            &&& 1 <= r.2 <= pow2((s.len() - i + 1) as nat) - 1
            &&& (i < s.len() && current_value + remaining_value <= best_value) ==> {
                &&& r.0@.len() == 0
                &&& r.1 == current_value
                &&& r.2 == 1
                &&& final(items)@ == old(items)@
            }
        }),
    decreases old(items)@.len() - next_index,
{
    let ghost s = old(items)@;
    let ghost i = next_index as int;
    let ghost n = s.len() as int;
    let ghost cap = allowed_weight as int;
    proof {
        lemma_prefix_sums_nonneg(s, i);
        lemma_suffix_sums_nonneg(s, i);
        lemma_sums_bounds(s, i);
        lemma_prefix_suffix_split(s, i);
        lemma_prefix_le_stock(s, i);
        lemma_pow2_le63((n - i + 1) as nat);
        lemma_pow2_le63((n - i) as nat);
    }
    if next_index >= items.len() {
        let sol = copy_items(items);
        proof {
            lemma_prefix_suffix_split(s, n);
            lemma_sel_sums_agree(s, sol@, 0);
        }
        (sol, current_value, 1)
    } else {
        proof {
            lemma_opt_from_nonneg(s, i, cap - current_weight);
            lemma_opt_from_admissible(s, i, cap - current_weight);
            lemma_suffix_sums_nonneg(s, i + 1);
            assert(sum_values_from(s, i) == s[i].value + sum_values_from(s, i + 1));
            assert(sum_weights_from(s, i) == s[i].weight + sum_weights_from(s, i + 1));
        }
        if current_value + remaining_value <= best_value {
            // The admissible bound cannot beat the best known value: prune.
            return (Vec::new(), current_value, 1);
        }
        let mut best = best_value;
        let ghost rb_inc = current_value + s[i].value + opt_from(
            s,
            i + 1,
            cap - current_weight - s[i].weight,
        );
        let ghost rb_exc = current_value + opt_from(s, i + 1, cap - current_weight);
        let mut included_solution: Vec<Item> = Vec::new();
        let mut included_value: i64 = 0;
        let mut included_calls: i64 = 1;
        let fits = current_weight + items[next_index].weight <= allowed_weight;
        if fits {
            items[next_index].is_selected = true;
            let ghost s_t = items@;
            proof {
                lemma_stock_sums_agree(s, s_t, 0);
                lemma_stock_sums_agree(s, s_t, i + 1);
                lemma_prefix_sums_agree(s, s_t, i);
                assert(sel_weights_prefix(s_t, i + 1) == current_weight + s[i].weight);
                assert(sel_values_prefix(s_t, i + 1) == current_value + s[i].value);
                assert(sum_values_from(s, i) == s[i].value + sum_values_from(s, i + 1));
            }
            let (sol, val, calls) = do_branch_and_bound(
                items,
                allowed_weight,
                best,
                current_value + items[next_index].value,
                current_weight + items[next_index].weight,
                remaining_value - items[next_index].value,
                next_index + 1,
            );
            proof {
                lemma_opt_from_agree(s_t, s, i + 1, cap - current_weight - s[i].weight);
            }
            included_solution = sol;
            included_value = val;
            included_calls = calls;
            if included_value > best {
                best = included_value;
            }
        }
        items[next_index].is_selected = false;
        let ghost s_f = items@;
        proof {
            assert(s_f[i] == deselected(s[i]));
            lemma_stock_sums_agree(s, s_f, 0);
            lemma_stock_sums_agree(s, s_f, i + 1);
            lemma_prefix_sums_agree(s, s_f, i);
            assert(sel_weights_prefix(s_f, i + 1) == current_weight);
            assert(sel_values_prefix(s_f, i + 1) == current_value);
            assert(sum_values_from(s, i) == s[i].value + sum_values_from(s, i + 1));
        }
        let (excluded_solution, excluded_value, excluded_calls) = do_branch_and_bound(
            items,
            allowed_weight,
            best,
            current_value,
            current_weight,
            remaining_value - items[next_index].value,
            next_index + 1,
        );
        proof {
            lemma_opt_from_agree(s_f, s, i + 1, cap - current_weight);
            lemma_opt_from_nonneg(s, i + 1, cap - current_weight);
            lemma_opt_from_nonneg(s, i + 1, cap - current_weight - s[i].weight);
            assert(forall|j: int|
                i <= j < n ==> final(items)@[j] == s[j] || final(items)@[j] == deselected(s[j]));
            assert(pow2((n - i + 1) as nat) == 2 * pow2((n - i) as nat)) by {
                vstd::arithmetic::power2::lemma_pow2_adds(1, (n - i) as nat);
                vstd::arithmetic::power2::lemma2_to64();
            }
            if fits {
                assert(opt_from(s, i, cap - current_weight) == if rb_inc >= rb_exc {
                    rb_inc - current_value
                } else {
                    rb_exc - current_value
                });
            } else {
                assert(opt_from(s, i, cap - current_weight) == rb_exc - current_value);
            }
        }
        if included_value >= excluded_value {
            (included_solution, included_value, included_calls + excluded_calls + 1)
        } else {
            (excluded_solution, excluded_value, excluded_calls + included_calls + 1)
        }
    }
}

/// Branch-and-bound over the whole catalog: returns a best selection as a
/// copy of the catalog's stock (or an empty vector when the optimum is
/// zero), the exact optimum value, and the number of recursive calls made.
/// The catalog keeps its stock; only selection flags may have been cleared.
pub fn branch_and_bound(items: &mut Vec<Item>, allowed_weight: i64) -> (r: (Vec<Item>, i64, i64))
    requires
        catalog_ok(old(items)@),
        old(items)@.len() <= 62,
        0 <= allowed_weight,
    ensures
        search_result_ok(old(items)@, allowed_weight as int, r.0@, r.1 as int),
        r.0@.len() == 0 || r.0@.len() == old(items)@.len(),
        forall|j: int|
            0 <= j < r.0@.len() ==> (#[trigger] r.0@[j]).value == old(items)@[j].value
                && r.0@[j].weight == old(items)@[j].weight && r.0@[j].id == old(items)@[j].id
                && r.0@[j].block_list@ == Seq::<usize>::empty(),
        final(items)@.len() == old(items)@.len(),
        forall|j: int|
            0 <= j < old(items)@.len() ==> (final(items)@[j] == old(items)@[j]
                || final(items)@[j] == deselected(old(items)@[j])),
        1 <= r.2 <= pow2((old(items)@.len() + 1) as nat) - 1,
{
    let total = sum_values(items, true);
    let r = do_branch_and_bound(items, allowed_weight, 0, 0, 0, total, 0);
    proof {
        let s = old(items)@;
        let cap = allowed_weight as int;
        lemma_opt_from_nonneg(s, 0, cap);
        assert(sel_weights_prefix(s, 0) == 0 && sel_values_prefix(s, 0) == 0);
        if r.0@.len() == 0 {
            assert(r.1 == 0);
            assert(sel_weights_from(r.0@, 0) == 0);
            assert(sel_values_from(r.0@, 0) == 0);
        }
    }
    r
}

} // verus!
