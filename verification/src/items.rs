//! The knapsack catalog: value/weight records with per-run solving state,
//! and the aggregate queries over them.
//!
//! Chosen widths: `value` and `weight` are `i64`, with the invariants that
//! every value is non-negative and every weight is positive, and the
//! precondition that the catalog-wide sums of values and of weights each fit
//! in `i64`.  Under that bound no partial sum taken by any solver can
//! overflow.

use vstd::prelude::*;

use crate::prng::Prng;

verus! {

/// One record of a catalog.  `id`, `value` and `weight` are the identity of
/// the item; `is_selected`, `blocked_by` and `block_list` are scratch state
/// owned by whichever solver is currently running.
pub struct Item {
    /// Positional identifier: equals the item's index in the catalog.
    pub id: usize,
    /// Non-negative worth of the item.
    pub value: i64,
    /// Positive weight of the item.
    pub weight: i64,
    /// Whether the item is part of the current candidate solution.
    pub is_selected: bool,
    /// The identifier of the item currently suppressing this one, if any.
    pub blocked_by: Option<usize>,
    /// Identifiers of the items this one dominates.
    pub block_list: Vec<usize>,
}

/// Sum of the values of `s[i..]`.
pub open spec fn sum_values_from(s: Seq<Item>, i: int) -> int
    decreases s.len() - i,
{
    if i < 0 || i >= s.len() {
        0
    } else {
        s[i].value + sum_values_from(s, i + 1)
    }
}

/// Sum of the values of the selected items of `s[i..]`.
pub open spec fn sel_values_from(s: Seq<Item>, i: int) -> int
    decreases s.len() - i,
{
    if i < 0 || i >= s.len() {
        0
    } else {
        (if s[i].is_selected {
            s[i].value
        } else {
            0
        }) + sel_values_from(s, i + 1)
    }
}

/// Sum of the weights of `s[i..]`.
pub open spec fn sum_weights_from(s: Seq<Item>, i: int) -> int
    decreases s.len() - i,
{
    if i < 0 || i >= s.len() {
        0
    } else {
        s[i].weight + sum_weights_from(s, i + 1)
    }
}

/// Sum of the weights of the selected items of `s[i..]`.
pub open spec fn sel_weights_from(s: Seq<Item>, i: int) -> int
    decreases s.len() - i,
{
    if i < 0 || i >= s.len() {
        0
    } else {
        (if s[i].is_selected {
            s[i].weight
        } else {
            0
        }) + sel_weights_from(s, i + 1)
    }
}

/// Sum of the values of the selected items of `s[..i]`.
pub open spec fn sel_values_prefix(s: Seq<Item>, i: int) -> int
    decreases i,
{
    if i <= 0 {
        0
    } else {
        sel_values_prefix(s, i - 1) + (if s[i - 1].is_selected {
            s[i - 1].value
        } else {
            0
        })
    }
}

/// Sum of the weights of the selected items of `s[..i]`.
pub open spec fn sel_weights_prefix(s: Seq<Item>, i: int) -> int
    decreases i,
{
    if i <= 0 {
        0
    } else {
        sel_weights_prefix(s, i - 1) + (if s[i - 1].is_selected {
            s[i - 1].weight
        } else {
            0
        })
    }
}

/// Every value is non-negative.
pub open spec fn values_ok(s: Seq<Item>) -> bool {
    forall|i: int| 0 <= i < s.len() ==> 0 <= #[trigger] s[i].value
}

/// Every weight is positive.
pub open spec fn weights_ok(s: Seq<Item>) -> bool {
    forall|i: int| 0 <= i < s.len() ==> 1 <= #[trigger] s[i].weight
}

/// The catalog invariant: field invariants hold and the catalog-wide sums
/// fit in `i64`, so no partial sum a solver takes can overflow.
pub open spec fn catalog_ok(s: Seq<Item>) -> bool {
    &&& values_ok(s)
    &&& weights_ok(s)
    &&& sum_values_from(s, 0) <= i64::MAX
    &&& sum_weights_from(s, 0) <= i64::MAX
}

/// Identifiers are positional: `s[i].id == i`.
pub open spec fn ids_positional(s: Seq<Item>) -> bool {
    forall|i: int| 0 <= i < s.len() ==> #[trigger] s[i].id == i
}

/// No item is part of the candidate solution.
pub open spec fn all_deselected(s: Seq<Item>) -> bool {
    forall|i: int| 0 <= i < s.len() ==> !(#[trigger] s[i].is_selected)
}

/// No item is suppressed.
pub open spec fn none_blocked(s: Seq<Item>) -> bool {
    forall|i: int| 0 <= i < s.len() ==> (#[trigger] s[i].blocked_by) is None
}

/// The same item with its selection flag cleared.
pub open spec fn deselected(a: Item) -> Item {
    Item { is_selected: false, ..a }
}

/// What a solution copy keeps of an item: identity fields and the selection
/// flag; the block list is dropped.
pub open spec fn item_copied(a: Item, b: Item) -> bool {
    &&& b.id == a.id
    &&& b.value == a.value
    &&& b.weight == a.weight
    &&& b.is_selected == a.is_selected
    &&& b.blocked_by == a.blocked_by
    &&& b.block_list@ == Seq::<usize>::empty()
}

/// The bare stock of a catalog: its value/weight pairs, in order.
pub open spec fn stock_of(s: Seq<Item>) -> Seq<(i64, i64)> {
    Seq::new(s.len(), |i: int| (s[i].value, s[i].weight))
}

/// Two catalogs carry the same stock: equal length, values and weights.
pub open spec fn same_stock(a: Seq<Item>, b: Seq<Item>) -> bool {
    &&& a.len() == b.len()
    &&& forall|i: int| 0 <= i < a.len() ==> (#[trigger] b[i]).value == a[i].value && b[i].weight
        == a[i].weight
}

/// The worth of the current candidate solution: its selected value if it
/// fits the allowance, else `-1`, a sentinel below even the empty
/// selection's `0`.
pub open spec fn leaf_value(s: Seq<Item>, allowed_weight: int) -> int {
    if sel_weights_from(s, 0) <= allowed_weight {
        sel_values_from(s, 0)
    } else {
        -1
    }
}

/// The four suffix sums are non-negative, the selected sums bounded by the
/// full ones, and all bounded by the sums over the whole catalog.
pub proof fn lemma_sums_bounds(s: Seq<Item>, i: int)
    requires
        values_ok(s),
        weights_ok(s),
        0 <= i,
    ensures
        0 <= sel_values_from(s, i) <= sum_values_from(s, i) <= sum_values_from(s, 0),
        0 <= sel_weights_from(s, i) <= sum_weights_from(s, i) <= sum_weights_from(s, 0),
    decreases i,
{
    lemma_suffix_sums_nonneg(s, i);
    lemma_suffix_sums_nonneg(s, 0);
    if i > 0 {
        lemma_sums_bounds(s, i - 1);
    }
}

/// Suffix sums are non-negative.
pub proof fn lemma_suffix_sums_nonneg(s: Seq<Item>, i: int)
    requires
        values_ok(s),
        weights_ok(s),
    ensures
        0 <= sel_values_from(s, i) <= sum_values_from(s, i),
        0 <= sel_weights_from(s, i) <= sum_weights_from(s, i),
    decreases s.len() - i,
{
    if 0 <= i < s.len() {
        lemma_suffix_sums_nonneg(s, i + 1);
    }
}

/// Prefix and suffix selected sums split the whole selected sums.
pub proof fn lemma_prefix_suffix_split(s: Seq<Item>, i: int)
    requires
        0 <= i <= s.len(),
    ensures
        sel_values_prefix(s, i) + sel_values_from(s, i) == sel_values_from(s, 0),
        sel_weights_prefix(s, i) + sel_weights_from(s, i) == sel_weights_from(s, 0),
    decreases i,
{
    if i > 0 {
        lemma_prefix_suffix_split(s, i - 1);
        lemma_suffix_unfold(s, i - 1);
    }
}

proof fn lemma_suffix_unfold(s: Seq<Item>, i: int)
    requires
        0 <= i < s.len(),
    ensures
        sel_values_from(s, i) == (if s[i].is_selected {
            s[i].value
        } else {
            0
        }) + sel_values_from(s, i + 1),
        sel_weights_from(s, i) == (if s[i].is_selected {
            s[i].weight
        } else {
            0
        }) + sel_weights_from(s, i + 1),
{
}

/// The plain suffix sums read only values and weights of `s[i..]`.
pub proof fn lemma_stock_sums_agree(a: Seq<Item>, b: Seq<Item>, i: int)
    requires
        a.len() == b.len(),
        forall|j: int| i <= j < a.len() ==> (#[trigger] b[j]).value == a[j].value && b[j].weight
            == a[j].weight,
    ensures
        sum_values_from(a, i) == sum_values_from(b, i),
        sum_weights_from(a, i) == sum_weights_from(b, i),
    decreases a.len() - i,
{
    if 0 <= i < a.len() {
        lemma_stock_sums_agree(a, b, i + 1);
    }
}

/// The selected suffix sums read only values, weights and selection flags of
/// `s[i..]`.
pub proof fn lemma_sel_sums_agree(a: Seq<Item>, b: Seq<Item>, i: int)
    requires
        a.len() == b.len(),
        forall|j: int| i <= j < a.len() ==> (#[trigger] b[j]).value == a[j].value && b[j].weight
            == a[j].weight && b[j].is_selected == a[j].is_selected,
    ensures
        sel_values_from(a, i) == sel_values_from(b, i),
        sel_weights_from(a, i) == sel_weights_from(b, i),
    decreases a.len() - i,
{
    if 0 <= i < a.len() {
        lemma_sel_sums_agree(a, b, i + 1);
    }
}

/// Prefix sums up to `i` read only values, weights and selection flags of
/// `s[..i]`.
pub proof fn lemma_prefix_sums_agree(a: Seq<Item>, b: Seq<Item>, i: int)
    requires
        forall|j: int| 0 <= j < i ==> (#[trigger] b[j]).value == a[j].value && b[j].weight
            == a[j].weight && b[j].is_selected == a[j].is_selected,
        i <= a.len(),
        i <= b.len(),
    ensures
        sel_values_prefix(a, i) == sel_values_prefix(b, i),
        sel_weights_prefix(a, i) == sel_weights_prefix(b, i),
    decreases i,
{
    if i > 0 {
        lemma_prefix_sums_agree(a, b, i - 1);
    }
}

/// A selected prefix sum plus the plain suffix sum never exceeds the plain
/// sum over the whole catalog.
pub proof fn lemma_prefix_le_stock(s: Seq<Item>, i: int)
    requires
        values_ok(s),
        weights_ok(s),
        0 <= i <= s.len(),
    ensures
        sel_values_prefix(s, i) + sum_values_from(s, i) <= sum_values_from(s, 0),
        sel_weights_prefix(s, i) + sum_weights_from(s, i) <= sum_weights_from(s, 0),
    decreases i,
{
    if i > 0 {
        lemma_prefix_le_stock(s, i - 1);
        assert(sum_values_from(s, i - 1) == s[i - 1].value + sum_values_from(s, i));
        assert(sum_weights_from(s, i - 1) == s[i - 1].weight + sum_weights_from(s, i));
    }
}

/// Prefix sums are non-negative on a well-formed catalog.
pub proof fn lemma_prefix_sums_nonneg(s: Seq<Item>, i: int)
    requires
        values_ok(s),
        weights_ok(s),
        i <= s.len(),
    ensures
        0 <= sel_values_prefix(s, i),
        0 <= sel_weights_prefix(s, i),
    decreases i,
{
    if i > 0 {
        lemma_prefix_sums_nonneg(s, i - 1);
    }
}

/// Pushing an item onto the end extends every suffix sum by that item's
/// contribution.
pub proof fn lemma_sums_push(s: Seq<Item>, x: Item, i: int)
    requires
        0 <= i <= s.len(),
    ensures
        sum_values_from(s.push(x), i) == sum_values_from(s, i) + x.value,
        sum_weights_from(s.push(x), i) == sum_weights_from(s, i) + x.weight,
        sel_values_from(s.push(x), i) == sel_values_from(s, i) + (if x.is_selected {
            x.value
        } else {
            0
        }),
        sel_weights_from(s.push(x), i) == sel_weights_from(s, i) + (if x.is_selected {
            x.weight
        } else {
            0
        }),
    decreases s.len() - i,
{
    if i < s.len() {
        lemma_sums_push(s, x, i + 1);
        assert(s.push(x)[i] == s[i]);
        assert(sum_values_from(s.push(x), i) == s.push(x)[i].value + sum_values_from(
            s.push(x),
            i + 1,
        ));
        assert(sum_weights_from(s.push(x), i) == s.push(x)[i].weight + sum_weights_from(
            s.push(x),
            i + 1,
        ));
        assert(sel_values_from(s.push(x), i) == (if s.push(x)[i].is_selected {
            s.push(x)[i].value
        } else {
            0
        }) + sel_values_from(s.push(x), i + 1));
        assert(sel_weights_from(s.push(x), i) == (if s.push(x)[i].is_selected {
            s.push(x)[i].weight
        } else {
            0
        }) + sel_weights_from(s.push(x), i + 1));
    } else {
        assert(s.push(x)[i] == x);
        assert(sum_values_from(s.push(x), i + 1) == 0);
        assert(sum_values_from(s.push(x), i) == s.push(x)[i].value + sum_values_from(
            s.push(x),
            i + 1,
        ));
        assert(sum_weights_from(s.push(x), i) == s.push(x)[i].weight + sum_weights_from(
            s.push(x),
            i + 1,
        ));
        assert(sel_values_from(s.push(x), i + 1) == 0);
        assert(sel_weights_from(s.push(x), i + 1) == 0);
        assert(sel_values_from(s.push(x), i) == (if s.push(x)[i].is_selected {
            s.push(x)[i].value
        } else {
            0
        }) + sel_values_from(s.push(x), i + 1));
        assert(sel_weights_from(s.push(x), i) == (if s.push(x)[i].is_selected {
            s.push(x)[i].weight
        } else {
            0
        }) + sel_weights_from(s.push(x), i + 1));
    }
}

/// Return the total value of the items: of all of them if `add_all` is
/// true, else only of the selected ones.
pub fn sum_values(items: &Vec<Item>, add_all: bool) -> (r: i64)
    requires
        values_ok(items@),
        weights_ok(items@),
        sum_values_from(items@, 0) <= i64::MAX,
    ensures
        r == if add_all {
            sum_values_from(items@, 0)
        } else {
            sel_values_from(items@, 0)
        },
{
    let ghost s = items@;
    let mut total: i64 = 0;
    let mut i: usize = 0;
    while i < items.len()
        invariant
            0 <= i <= s.len(),
            items@ == s,
            values_ok(s),
            weights_ok(s),
            sum_values_from(s, 0) <= i64::MAX,
            total == if add_all {
                sum_values_from(s, 0) - sum_values_from(s, i as int)
            } else {
                sel_values_from(s, 0) - sel_values_from(s, i as int)
            },
        decreases s.len() - i,
    {
        proof {
            lemma_sums_bounds(s, i as int);
            lemma_sums_bounds(s, i + 1);
            lemma_suffix_sums_nonneg(s, 0);
            assert(sum_values_from(s, i as int) == s[i as int].value + sum_values_from(s, i + 1));
            assert(sel_values_from(s, i as int) == (if s[i as int].is_selected {
                s[i as int].value
            } else {
                0
            }) + sel_values_from(s, i + 1));
        }
        if add_all {
            total = total + items[i].value;
        } else {
            if items[i].is_selected {
                total = total + items[i].value;
            }
        }
        i = i + 1;
    }
    total
}

/// Return the total weight of the items: of all of them if `add_all` is
/// true, else only of the selected ones.
pub fn sum_weights(items: &Vec<Item>, add_all: bool) -> (r: i64)
    requires
        values_ok(items@),
        weights_ok(items@),
        sum_weights_from(items@, 0) <= i64::MAX,
    ensures
        r == if add_all {
            sum_weights_from(items@, 0)
        } else {
            sel_weights_from(items@, 0)
        },
{
    let ghost s = items@;
    let mut total: i64 = 0;
    let mut i: usize = 0;
    while i < items.len()
        invariant
            0 <= i <= s.len(),
            items@ == s,
            values_ok(s),
            weights_ok(s),
            sum_weights_from(s, 0) <= i64::MAX,
            total == if add_all {
                sum_weights_from(s, 0) - sum_weights_from(s, i as int)
            } else {
                sel_weights_from(s, 0) - sel_weights_from(s, i as int)
            },
        decreases s.len() - i,
    {
        proof {
            lemma_sums_bounds(s, i as int);
            lemma_sums_bounds(s, i + 1);
            lemma_suffix_sums_nonneg(s, 0);
            assert(sum_weights_from(s, i as int) == s[i as int].weight + sum_weights_from(s, i + 1));
            assert(sel_weights_from(s, i as int) == (if s[i as int].is_selected {
                s[i as int].weight
            } else {
                0
            }) + sel_weights_from(s, i + 1));
        }
        if add_all {
            total = total + items[i].weight;
        } else {
            if items[i].is_selected {
                total = total + items[i].weight;
            }
        }
        i = i + 1;
    }
    total
}

/// The value of the current candidate solution, or `-1` if it is too heavy,
/// so that an overweight candidate always loses even to the empty one.
pub fn solution_value(items: &Vec<Item>, allowed_weight: i64) -> (r: i64)
    requires
        catalog_ok(items@),
    ensures
        r == leaf_value(items@, allowed_weight as int),
{
    if sum_weights(items, false) > allowed_weight {
        return -1;
    }
    sum_values(items, false)
}

/// Return a copy of the items, keeping identity fields and the selection
/// flag but dropping the block lists, which no consumer of a solution
/// reads.
pub fn copy_items(items: &Vec<Item>) -> (r: Vec<Item>)
    ensures
        r@.len() == items@.len(),
        forall|i: int| 0 <= i < items@.len() ==> item_copied(items@[i], #[trigger] r@[i]),
{
    let mut new_items: Vec<Item> = Vec::with_capacity(items.len());
    let mut i: usize = 0;
    while i < items.len()
        invariant
            0 <= i <= items@.len(),
            new_items@.len() == i,
            forall|j: int| 0 <= j < i ==> item_copied(items@[j], #[trigger] new_items@[j]),
        decreases items@.len() - i,
    {
        let item = &items[i];
        new_items.push(
            Item {
                id: item.id,
                value: item.value,
                weight: item.weight,
                is_selected: item.is_selected,
                blocked_by: item.blocked_by,
                block_list: Vec::new(),
            },
        );
        i = i + 1;
    }
    new_items
}

/// Make `num_items` random items with values in `[min_value, max_value)`
/// and weights in `[min_weight, max_weight)`, deselected, unblocked, with
/// positional identifiers and empty block lists.
pub fn make_items(
    prng: &mut Prng,
    num_items: usize,
    min_value: i64,
    max_value: i64,
    min_weight: i64,
    max_weight: i64,
) -> (items: Vec<Item>)
    requires
        0 <= min_value < max_value,
        1 <= min_weight < max_weight,
        max_value - min_value <= 0x1_0000_0000,
        max_weight - min_weight <= 0x1_0000_0000,
        num_items * max_value <= i64::MAX,
        num_items * max_weight <= i64::MAX,
    ensures
        items@.len() == num_items,
        catalog_ok(items@),
        ids_positional(items@),
        all_deselected(items@),
        none_blocked(items@),
        forall|i: int| 0 <= i < items@.len() ==> min_value <= (#[trigger] items@[i]).value
            < max_value,
        forall|i: int| 0 <= i < items@.len() ==> min_weight <= (#[trigger] items@[i]).weight
            < max_weight,
        forall|i: int| 0 <= i < items@.len() ==> (#[trigger] items@[i]).block_list@
            == Seq::<usize>::empty(),
{
    let mut items: Vec<Item> = Vec::with_capacity(num_items);
    let mut i: usize = 0;
    while i < num_items
        invariant
            0 <= i <= num_items,
            items@.len() == i,
            0 <= min_value < max_value,
            1 <= min_weight < max_weight,
            max_value - min_value <= 0x1_0000_0000,
            max_weight - min_weight <= 0x1_0000_0000,
            num_items * max_value <= i64::MAX,
            num_items * max_weight <= i64::MAX,
            ids_positional(items@),
            all_deselected(items@),
            none_blocked(items@),
            forall|j: int| 0 <= j < items@.len() ==> min_value <= (#[trigger] items@[j]).value
                < max_value,
            forall|j: int| 0 <= j < items@.len() ==> min_weight <= (#[trigger] items@[j]).weight
                < max_weight,
            forall|j: int| 0 <= j < items@.len() ==> (#[trigger] items@[j]).block_list@
                == Seq::<usize>::empty(),
            sum_values_from(items@, 0) <= i * max_value,
            sum_weights_from(items@, 0) <= i * max_weight,
        decreases num_items - i,
    {
        let ghost before = items@;
        let item = Item {
            id: i,
            value: prng.next_i64(min_value, max_value),
            weight: prng.next_i64(min_weight, max_weight),
            is_selected: false,
            blocked_by: None,
            block_list: Vec::new(),
        };
        proof {
            lemma_sums_push(before, item, 0);
            assert((i + 1) * max_value == i * max_value + max_value) by (nonlinear_arith);
            assert((i + 1) * max_weight == i * max_weight + max_weight) by (nonlinear_arith);
            assert(i as int * max_value <= num_items * max_value) by (nonlinear_arith)
                requires
                    0 <= i < num_items,
                    0 < max_value,
            ;
            assert(i as int * max_weight <= num_items * max_weight) by (nonlinear_arith)
                requires
                    0 <= i < num_items,
                    0 < max_weight,
            ;
        }
        items.push(item);
        i = i + 1;
    }
    proof {
        lemma_suffix_sums_nonneg(items@, 0);
        assert(num_items * max_value >= i as int * max_value);
        assert(num_items * max_weight >= i as int * max_weight);
    }
    items
}

} // verus!
