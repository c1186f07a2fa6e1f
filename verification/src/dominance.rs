//! The dominance engine: an item dominates another when it is at least as
//! valuable and no heavier, so including the dominated one while its
//! dominator is excluded can never help.  The engine precomputes per-item
//! block lists, and its search suppresses the include branch of any item
//! currently blocked by an excluded dominator, applying and releasing the
//! blocking marks in a scoped push/pop discipline.

use vstd::prelude::*;

use vstd::arithmetic::power2::pow2;

use crate::exhaustive::{lemma_pow2_le63, search_result_ok};
use vstd::multiset::Multiset;

use crate::items::{
    catalog_ok, copy_items, deselected, ids_positional, lemma_prefix_le_stock, stock_of,
    lemma_prefix_sums_agree, lemma_prefix_sums_nonneg, lemma_prefix_suffix_split,
    lemma_sel_sums_agree, lemma_stock_sums_agree, lemma_sums_bounds, lemma_suffix_sums_nonneg,
    none_blocked, sel_values_from, sel_values_prefix, sel_weights_from, sel_weights_prefix,
    sum_values, sum_values_from, sum_weights_from, values_ok, weights_ok, Item,
};
use crate::optimum::{lemma_opt_from_agree, opt_from};

verus! {

/// Item `a` dominates item `b`: including `b` is never better than
/// including `a` whenever both fit.
pub open spec fn dominates(a: Item, b: Item) -> bool {
    a.value >= b.value && a.weight <= b.weight
}

/// Some item before the frontier `i` is excluded and dominates `s[j]`.
pub open spec fn has_excl_dominator(s: Seq<Item>, i: int, j: int) -> bool {
    exists|k: int|
        0 <= k < i && k != j && !(#[trigger] s[k]).is_selected && dominates(s[k], s[j])
}

/// What one `blocked_by` entry must say at frontier `i`: a recorded blocker
/// is an excluded earlier dominator, and an unrecorded one means there is
/// none.
pub open spec fn blocked_entry_ok(s: Seq<Item>, i: int, j: int) -> bool {
    match s[j].blocked_by {
        Some(k) => 0 <= k < i && k != j && !s[k as int].is_selected && dominates(
            s[k as int],
            s[j],
        ),
        None => !has_excl_dominator(s, i, j),
    }
}

/// The blocking marks exactly reflect the excluded dominators before `i`.
pub open spec fn blocking_ok(s: Seq<Item>, i: int) -> bool {
    forall|j: int| 0 <= j < s.len() ==> #[trigger] blocked_entry_ok(s, i, j)
}

/// The identifiers of the items among `s[..j]` that `s[a]` dominates, in
/// ascending order.
pub open spec fn dom_seq(s: Seq<Item>, a: int, j: int) -> Seq<usize>
    decreases j,
{
    if j <= 0 {
        Seq::empty()
    } else {
        let rest = dom_seq(s, a, j - 1);
        if j - 1 != a && dominates(s[a], s[j - 1]) {
            rest.push((j - 1) as usize)
        } else {
            rest
        }
    }
}

/// Every block list is exactly the identifiers its item dominates.
pub open spec fn blists_ok(s: Seq<Item>) -> bool {
    forall|a: int|
        0 <= a < s.len() ==> (#[trigger] s[a]).block_list@ == dom_seq(s, a, s.len() as int)
}

/// The best total value the dominance-pruned search tree can reach from
/// frontier `i` with capacity `cap`: like the plain optimum, but the
/// include branch of an item with an excluded earlier dominator is cut.
pub open spec fn rods_opt(s: Seq<Item>, i: int, cap: int) -> int
    decreases s.len() - i,
{
    if i < 0 || i >= s.len() {
        0
    } else {
        let excl = rods_opt(s.update(i, deselected(s[i])), i + 1, cap);
        if !has_excl_dominator(s, i, i) && s[i].weight <= cap {
            let taken = s[i].value + rods_opt(
                s.update(i, Item { is_selected: true, ..s[i] }),
                i + 1,
                cap - s[i].weight,
            );
            if taken >= excl {
                taken
            } else {
                excl
            }
        } else {
            excl
        }
    }
}

/// Appending to a sequence adds exactly one candidate to membership.
pub proof fn lemma_push_contains(s: Seq<usize>, x: usize, y: usize)
    ensures
        s.push(x).contains(y) <==> (s.contains(y) || y == x),
{
    if s.push(x).contains(y) {
        let t = choose|t: int| 0 <= t < s.push(x).len() && s.push(x)[t] == y;
        if t < s.len() {
            assert(s[t] == y);
        }
    }
    if s.contains(y) {
        let t = choose|t: int| 0 <= t < s.len() && s[t] == y;
        assert(s.push(x)[t] == y);
    }
    if y == x {
        assert(s.push(x)[s.len() as int] == y);
    }
}

/// Membership in a dominance list characterised: exactly the other items
/// that `s[a]` dominates among `s[..j]`.
pub proof fn lemma_dom_seq_contains(s: Seq<Item>, a: int, j: int, b: usize)
    requires
        j <= s.len(),
        j <= usize::MAX,
    ensures
        dom_seq(s, a, j).contains(b) <==> (0 <= b < j && b != a && dominates(s[a], s[b as int])),
    decreases j,
{
    if j > 0 {
        lemma_dom_seq_contains(s, a, j - 1, b);
        if j - 1 != a && dominates(s[a], s[j - 1]) {
            lemma_push_contains(dom_seq(s, a, j - 1), (j - 1) as usize, b);
        }
    }
}

/// Dominance lists read only values and weights, so catalogs with the same
/// stock have the same lists.
pub proof fn lemma_dom_seq_agree(s1: Seq<Item>, s2: Seq<Item>, a: int, j: int)
    requires
        s1.len() == s2.len(),
        0 <= a < s1.len(),
        j <= s1.len(),
        forall|t: int| 0 <= t < s1.len() ==> (#[trigger] s2[t]).value == s1[t].value
            && s2[t].weight == s1[t].weight,
    ensures
        dom_seq(s1, a, j) == dom_seq(s2, a, j),
    decreases j,
{
    if j > 0 {
        lemma_dom_seq_agree(s1, s2, a, j - 1);
    }
}

/// How many of the first `j` stock pairs the pair `pr` dominates: at least
/// as valuable, no heavier.
pub open spec fn dom_count_pairs(st: Seq<(i64, i64)>, pr: (i64, i64), j: int) -> int
    decreases j,
{
    if j <= 0 {
        0
    } else {
        dom_count_pairs(st, pr, j - 1) + (if pr.0 >= st[j - 1].0 && pr.1 <= st[j - 1].1 {
            1int
        } else {
            0int
        })
    }
}

/// A block list's length is the number of stock pairs its item dominates,
/// less the item's own slot, which every pair dominates.
proof fn lemma_dom_seq_len(s: Seq<Item>, a: int, j: int)
    requires
        0 <= a < s.len(),
        j <= s.len(),
    ensures
        dom_seq(s, a, j).len() == dom_count_pairs(
            stock_of(s),
            (s[a].value, s[a].weight),
            j,
        ) - (if 0 <= a < j {
            1int
        } else {
            0int
        }),
    decreases j,
{
    if j > 0 {
        lemma_dom_seq_len(s, a, j - 1);
        assert(stock_of(s)[j - 1] == (s[j - 1].value, s[j - 1].weight));
    }
}

/// Removing one pair removes exactly its contribution to the count.
proof fn lemma_dom_count_remove(st: Seq<(i64, i64)>, pr: (i64, i64), p: int, j: int)
    requires
        0 <= p < st.len(),
        0 <= j,
    ensures
        j <= p ==> dom_count_pairs(st.remove(p), pr, j) == dom_count_pairs(st, pr, j),
        p <= j <= st.len() - 1 ==> dom_count_pairs(st.remove(p), pr, j) == dom_count_pairs(
            st,
            pr,
            j + 1,
        ) - (if pr.0 >= st[p].0 && pr.1 <= st[p].1 {
            1int
        } else {
            0int
        }),
    decreases j,
{
    if j > 0 {
        lemma_dom_count_remove(st, pr, p, j - 1);
        if p <= j - 1 && j <= st.len() - 1 {
            assert(st.remove(p)[j - 1] == st[j]);
            assert(dom_count_pairs(st.remove(p), pr, j) == dom_count_pairs(
                st.remove(p),
                pr,
                j - 1,
            ) + (if pr.0 >= st[j].0 && pr.1 <= st[j].1 {
                1int
            } else {
                0int
            }));
            assert(dom_count_pairs(st, pr, j + 1) == dom_count_pairs(st, pr, j) + (if pr.0
                >= st[j].0 && pr.1 <= st[j].1 {
                1int
            } else {
                0int
            }));
        } else if j - 1 < p {
            assert(st.remove(p)[j - 1] == st[j - 1]);
            if j == p && j <= st.len() - 1 {
                assert(dom_count_pairs(st, pr, j + 1) == dom_count_pairs(st, pr, j) + (if pr.0
                    >= st[p].0 && pr.1 <= st[p].1 {
                    1int
                } else {
                    0int
                }));
            }
        }
    } else {
        if p == 0 && st.len() >= 1 {
            assert(dom_count_pairs(st, pr, 1) == dom_count_pairs(st, pr, 0) + (if pr.0 >= st[0].0
                && pr.1 <= st[0].1 {
                1int
            } else {
                0int
            }));
        }
    }
}

/// The dominated count over a whole stock depends only on its multiset.
proof fn lemma_dom_count_permutation(st1: Seq<(i64, i64)>, st2: Seq<(i64, i64)>, pr: (i64, i64))
    requires
        st1.to_multiset() == st2.to_multiset(),
    ensures
        dom_count_pairs(st1, pr, st1.len() as int) == dom_count_pairs(st2, pr, st2.len() as int),
    decreases st1.len(),
{
    broadcast use vstd::multiset::group_multiset_axioms;

    st1.to_multiset_ensures();
    st2.to_multiset_ensures();
    assert(st1.len() == st2.len());
    if st1.len() > 0 {
        let n = st1.len() as int;
        let x = st1[n - 1];
        assert(st1.contains(x));
        assert(st1.to_multiset().count(x) > 0);
        assert(st2.contains(x));
        let p = choose|p: int| 0 <= p < n && st2[p] == x;
        let r1 = st1.remove(n - 1);
        let r2 = st2.remove(p);
        assert(r1.to_multiset() == st1.to_multiset().remove(x));
        assert(r2.to_multiset() == st2.to_multiset().remove(x));
        lemma_dom_count_remove(st1, pr, n - 1, n - 1);
        lemma_dom_count_remove(st2, pr, p, n - 1);
        lemma_dom_count_permutation(r1, r2, pr);
    }
}

/// Two catalogs that share stock everywhere and selection flags before `i`
/// are indistinguishable to the pruned search from frontier `i` on.
pub open spec fn agree_for_search(a: Seq<Item>, b: Seq<Item>, i: int) -> bool {
    &&& a.len() == b.len()
    &&& forall|j: int|
        0 <= j < a.len() ==> (#[trigger] b[j]).value == a[j].value && b[j].weight == a[j].weight
    &&& forall|j: int| 0 <= j < i ==> (#[trigger] b[j]).is_selected == a[j].is_selected
}

/// The pruned optimum reads only the stock and the selection flags before
/// the frontier.
pub proof fn lemma_rods_opt_agree(a: Seq<Item>, b: Seq<Item>, i: int, cap: int)
    requires
        agree_for_search(a, b, i),
        i <= a.len(),
    ensures
        rods_opt(a, i, cap) == rods_opt(b, i, cap),
    decreases a.len() - i,
{
    if 0 <= i < a.len() {
        assert(has_excl_dominator(a, i, i) <==> has_excl_dominator(b, i, i)) by {
            if has_excl_dominator(a, i, i) {
                let k = choose|k: int|
                    0 <= k < i && k != i && !(#[trigger] a[k]).is_selected && dominates(
                        a[k],
                        a[i],
                    );
                assert(!b[k].is_selected && dominates(b[k], b[i]));
            }
            if has_excl_dominator(b, i, i) {
                let k = choose|k: int|
                    0 <= k < i && k != i && !(#[trigger] b[k]).is_selected && dominates(
                        b[k],
                        b[i],
                    );
                assert(!a[k].is_selected && dominates(a[k], a[i]));
            }
        }
        let a_f = a.update(i, deselected(a[i]));
        let b_f = b.update(i, deselected(b[i]));
        assert(agree_for_search(a_f, b_f, i + 1));
        lemma_rods_opt_agree(a_f, b_f, i + 1, cap);
        if !has_excl_dominator(a, i, i) && a[i].weight <= cap {
            let a_t = a.update(i, Item { is_selected: true, ..a[i] });
            let b_t = b.update(i, Item { is_selected: true, ..b[i] });
            assert(agree_for_search(a_t, b_t, i + 1));
            lemma_rods_opt_agree(a_t, b_t, i + 1, cap - a[i].weight);
        }
    }
}

/// The pruned optimum is never negative.
pub proof fn lemma_rods_opt_nonneg(s: Seq<Item>, i: int, cap: int)
    requires
        values_ok(s),
    ensures
        0 <= rods_opt(s, i, cap),
    decreases s.len() - i,
{
    if 0 <= i < s.len() {
        let s_f = s.update(i, deselected(s[i]));
        assert(values_ok(s_f));
        lemma_rods_opt_nonneg(s_f, i + 1, cap);
        if !has_excl_dominator(s, i, i) && s[i].weight <= cap {
            let s_t = s.update(i, Item { is_selected: true, ..s[i] });
            assert(values_ok(s_t));
            lemma_rods_opt_nonneg(s_t, i + 1, cap - s[i].weight);
        }
    }
}

/// The pruned optimum never exceeds the plain sum of the remaining values.
pub proof fn lemma_rods_opt_admissible(s: Seq<Item>, i: int, cap: int)
    requires
        values_ok(s),
    ensures
        rods_opt(s, i, cap) <= sum_values_from(s, i),
    decreases s.len() - i,
{
    if 0 <= i < s.len() {
        let s_f = s.update(i, deselected(s[i]));
        assert(values_ok(s_f));
        lemma_rods_opt_admissible(s_f, i + 1, cap);
        lemma_stock_sums_agree(s, s_f, i + 1);
        if !has_excl_dominator(s, i, i) && s[i].weight <= cap {
            let s_t = s.update(i, Item { is_selected: true, ..s[i] });
            assert(values_ok(s_t));
            lemma_rods_opt_admissible(s_t, i + 1, cap - s[i].weight);
            lemma_stock_sums_agree(s, s_t, i + 1);
        }
        assert(sum_values_from(s, i) == s[i].value + sum_values_from(s, i + 1));
    }
}

/// Cutting branches cannot improve the result: the pruned optimum is
/// bounded by the plain optimum.
pub proof fn lemma_rods_opt_le_opt(s: Seq<Item>, i: int, cap: int)
    requires
        values_ok(s),
    ensures
        rods_opt(s, i, cap) <= opt_from(s, i, cap),
    decreases s.len() - i,
{
    if 0 <= i < s.len() {
        let s_f = s.update(i, deselected(s[i]));
        assert(values_ok(s_f));
        lemma_rods_opt_le_opt(s_f, i + 1, cap);
        lemma_opt_from_agree(s_f, s, i + 1, cap);
        crate::optimum::lemma_opt_from_nonneg(s, i + 1, cap);
        if !has_excl_dominator(s, i, i) && s[i].weight <= cap {
            let s_t = s.update(i, Item { is_selected: true, ..s[i] });
            assert(values_ok(s_t));
            lemma_rods_opt_le_opt(s_t, i + 1, cap - s[i].weight);
            lemma_opt_from_agree(s_t, s, i + 1, cap - s[i].weight);
        }
    }
}

/// Selecting the frontier item keeps the blocking marks exact: a selected
/// item is not an excluded dominator, so nothing new is blocked.
pub proof fn lemma_blocking_include(s: Seq<Item>, i: int)
    requires
        blocking_ok(s, i),
        0 <= i < s.len(),
    ensures
        blocking_ok(s.update(i, Item { is_selected: true, ..s[i] }), i + 1),
{
    let m = s.update(i, Item { is_selected: true, ..s[i] });
    assert forall|j: int| 0 <= j < m.len() implies #[trigger] blocked_entry_ok(m, i + 1, j) by {
        assert(blocked_entry_ok(s, i, j));
        assert(m[j].blocked_by == s[j].blocked_by);
        match m[j].blocked_by {
            Some(k) => {
                assert(!m[k as int].is_selected && dominates(m[k as int], m[j]));
            },
            None => {
                if has_excl_dominator(m, i + 1, j) {
                    let k = choose|k: int|
                        0 <= k < i + 1 && k != j && !(#[trigger] m[k]).is_selected && dominates(
                            m[k],
                            m[j],
                        );
                    assert(k != i);
                    assert(!s[k].is_selected && dominates(s[k], s[j]));
                    assert(has_excl_dominator(s, i, j));
                }
            },
        }
    }
}

/// After the marking pass and the deselection of the frontier item, the
/// blocking marks are exact for the advanced frontier: old marks still
/// point at excluded earlier dominators, fresh marks point at the frontier
/// item, and everything it dominates is now marked.
pub proof fn lemma_blocking_exclude(s: Seq<Item>, m: Seq<Item>, i: int)
    requires
        blocking_ok(s, i),
        0 <= i < s.len(),
        s.len() == m.len(),
        s.len() <= usize::MAX,
        forall|j: int| 0 <= j < s.len() ==> (#[trigger] m[j]).value == s[j].value && m[j].weight
            == s[j].weight,
        forall|j: int| 0 <= j < i ==> (#[trigger] m[j]).is_selected == s[j].is_selected,
        !m[i].is_selected,
        forall|j: int|
            0 <= j < s.len() ==> (#[trigger] m[j]).blocked_by == (if s[j].blocked_by is Some {
                s[j].blocked_by
            } else if j != i && dominates(s[i], s[j]) {
                Some(i as usize)
            } else {
                None
            }),
    ensures
        blocking_ok(m, i + 1),
{
    assert forall|j: int| 0 <= j < m.len() implies #[trigger] blocked_entry_ok(m, i + 1, j) by {
        assert(blocked_entry_ok(s, i, j));
        match m[j].blocked_by {
            Some(k) => {
                if s[j].blocked_by is Some {
                    assert(s[j].blocked_by == Some(k));
                    assert(!m[k as int].is_selected && dominates(m[k as int], m[j]));
                } else {
                    assert(k == i && j != i && dominates(s[i], s[j]));
                    assert(!m[i].is_selected && dominates(m[i], m[j]));
                }
            },
            None => {
                assert(s[j].blocked_by is None);
                assert(!(j != i && dominates(s[i], s[j])));
                if has_excl_dominator(m, i + 1, j) {
                    let k = choose|k: int|
                        0 <= k < i + 1 && k != j && !(#[trigger] m[k]).is_selected && dominates(
                            m[k],
                            m[j],
                        );
                    if k == i {
                        assert(dominates(s[i], s[j]));
                    } else {
                        assert(!s[k].is_selected && dominates(s[k], s[j]));
                        assert(has_excl_dominator(s, i, j));
                    }
                }
            },
        }
    }
}

/// Build every item's block list: an all-pairs pass that records, for each
/// item, the identifiers of the other items it dominates.
pub fn make_block_lists(items: &mut Vec<Item>)
    requires
        ids_positional(old(items)@),
    ensures
        final(items)@.len() == old(items)@.len(),
        forall|j: int|
            0 <= j < old(items)@.len() ==> {
                let a = old(items)@[j];
                let b = #[trigger] final(items)@[j];
                b.id == a.id && b.value == a.value && b.weight == a.weight && b.is_selected
                    == a.is_selected && b.blocked_by == a.blocked_by
            },
        blists_ok(final(items)@),
{
    let ghost s = old(items)@;
    let n = items.len();
    let mut a: usize = 0;
    while a < n
        invariant
            n == s.len(),
            items@.len() == n,
            0 <= a <= n,
            ids_positional(s),
            forall|j: int|
                0 <= j < n ==> {
                    let x = s[j];
                    let y = #[trigger] items@[j];
                    y.id == x.id && y.value == x.value && y.weight == x.weight && y.is_selected
                        == x.is_selected && y.blocked_by == x.blocked_by
                },
            forall|j: int| a <= j < n ==> #[trigger] items@[j] == s[j],
            forall|j: int|
                0 <= j < a ==> (#[trigger] items@[j]).block_list@ == dom_seq(s, j, n as int),
        decreases n - a,
    {
        let mut bl: Vec<usize> = Vec::new();
        let mut b: usize = 0;
        while b < n
            invariant
                n == s.len(),
                items@.len() == n,
                0 <= a < n,
                0 <= b <= n,
                forall|j: int|
                    0 <= j < n ==> (#[trigger] items@[j]).value == s[j].value && items@[j].weight
                        == s[j].weight && items@[j].id == s[j].id,
                ids_positional(s),
                bl@ == dom_seq(s, a as int, b as int),
            decreases n - b,
        {
            if a != b {
                if items[a].value >= items[b].value && items[a].weight <= items[b].weight {
                    let id = items[b].id;
                    bl.push(id);
                }
            }
            b = b + 1;
        }
        items[a].block_list = bl;
        proof {
            lemma_dom_seq_agree(s, items@, a as int, n as int);
        }
        a = a + 1;
    }
    proof {
        assert forall|j: int| 0 <= j < n implies (#[trigger] items@[j]).block_list@ == dom_seq(
            items@,
            j,
            n as int,
        ) by {
            lemma_dom_seq_agree(s, items@, j, n as int);
        }
    }
}

/// Removing one item takes exactly its contribution out of the suffix sums
/// before its position.
pub proof fn lemma_sums_remove(s: Seq<Item>, m: int, i: int)
    requires
        0 <= m < s.len(),
        0 <= i <= m,
    ensures
        sum_values_from(s.remove(m), i) == sum_values_from(s, i) - s[m].value,
        sum_weights_from(s.remove(m), i) == sum_weights_from(s, i) - s[m].weight,
    decreases m - i,
{
    if i == m {
        lemma_sums_remove_tail(s, m, m);
    } else {
        lemma_sums_remove(s, m, i + 1);
        assert(s.remove(m)[i] == s[i]);
    }
}

proof fn lemma_sums_remove_tail(s: Seq<Item>, m: int, i: int)
    requires
        0 <= m < s.len(),
        m <= i <= s.len() - 1,
    ensures
        sum_values_from(s.remove(m), i) == sum_values_from(s, i + 1),
        sum_weights_from(s.remove(m), i) == sum_weights_from(s, i + 1),
    decreases s.len() - i,
{
    if i < s.len() - 1 {
        lemma_sums_remove_tail(s, m, i + 1);
        assert(s.remove(m)[i] == s[i + 1]);
    }
}

/// Reorder the catalog so items with longer block lists — the ones that
/// dominate more others — come first: the same stock in a new order, with
/// the lengths non-increasing along the catalog.
pub fn reorder_by_block_len(items: &mut Vec<Item>)
    ensures
        final(items)@.len() == old(items)@.len(),
        forall|a: int, b: int|
            0 <= a < b < final(items)@.len() ==> (#[trigger] final(items)@[a]).block_list@.len()
                >= (#[trigger] final(items)@[b]).block_list@.len(),
        forall|j: int|
            0 <= j < final(items)@.len() ==> old(items)@.contains(#[trigger] final(items)@[j]),
        sum_values_from(final(items)@, 0) == sum_values_from(old(items)@, 0),
        sum_weights_from(final(items)@, 0) == sum_weights_from(old(items)@, 0),
        stock_of(final(items)@).to_multiset() == stock_of(old(items)@).to_multiset(),
{
    broadcast use vstd::multiset::group_multiset_axioms;

    let ghost orig = old(items)@;
    let mut pool: Vec<Item> = Vec::new();
    core::mem::swap(items, &mut pool);
    proof {
        assert(stock_of(items@).to_multiset() =~= Multiset::<(i64, i64)>::empty()) by {
            stock_of(items@).to_multiset_ensures();
            assert(stock_of(items@).len() == 0);
            assert(forall|x: (i64, i64)| !stock_of(items@).contains(x));
        }
    }
    while pool.len() > 0
        invariant
            items@.len() + pool@.len() == orig.len(),
            sum_values_from(items@, 0) + sum_values_from(pool@, 0) == sum_values_from(orig, 0),
            sum_weights_from(items@, 0) + sum_weights_from(pool@, 0) == sum_weights_from(
                orig,
                0,
            ),
            stock_of(items@).to_multiset().add(stock_of(pool@).to_multiset()) == stock_of(
                orig,
            ).to_multiset(),
            forall|j: int| 0 <= j < items@.len() ==> orig.contains(#[trigger] items@[j]),
            forall|j: int| 0 <= j < pool@.len() ==> orig.contains(#[trigger] pool@[j]),
            forall|a: int, b: int|
                0 <= a < b < items@.len() ==> (#[trigger] items@[a]).block_list@.len()
                    >= (#[trigger] items@[b]).block_list@.len(),
            forall|a: int, b: int|
                0 <= a < items@.len() && 0 <= b < pool@.len() ==> (#[trigger] items@[a]).block_list@.len()
                    >= (#[trigger] pool@[b]).block_list@.len(),
        decreases pool@.len(),
    {
        let mut m: usize = 0;
        let mut t: usize = 1;
        while t < pool.len()
            invariant
                pool@.len() > 0,
                0 <= m < t <= pool@.len(),
                forall|x: int|
                    0 <= x < t ==> (#[trigger] pool@[x]).block_list@.len()
                        <= pool@[m as int].block_list@.len(),
            decreases pool@.len() - t,
        {
            if pool[t].block_list.len() > pool[m].block_list.len() {
                m = t;
            }
            t = t + 1;
        }
        let ghost before_pool = pool@;
        let ghost before_out = items@;
        let chosen = pool.remove(m);
        proof {
            lemma_sums_remove(before_pool, m as int, 0);
            crate::items::lemma_sums_push(before_out, chosen, 0);
            // Stock bookkeeping: one pair moves from the pool to the output.
            let pair = (chosen.value, chosen.weight);
            assert(stock_of(pool@) =~= stock_of(before_pool).remove(m as int));
            stock_of(before_pool).to_multiset_ensures();
            assert(stock_of(before_pool)[m as int] == pair);
            assert(stock_of(pool@).to_multiset() == stock_of(before_pool).to_multiset().remove(
                pair,
            ));
            assert(stock_of(before_out.push(chosen)) =~= stock_of(before_out).push(pair));
            stock_of(before_out).to_multiset_ensures();
            assert(stock_of(before_out.push(chosen)).to_multiset() =~= stock_of(
                before_out,
            ).to_multiset().insert(pair));
            assert(stock_of(before_pool).contains(pair));
            assert(stock_of(before_pool).to_multiset().count(pair) > 0);
            assert(stock_of(before_out).to_multiset().insert(pair).add(
                stock_of(before_pool).to_multiset().remove(pair),
            ) =~= stock_of(before_out).to_multiset().add(stock_of(before_pool).to_multiset()));
            assert forall|j: int| 0 <= j < pool@.len() implies orig.contains(
                #[trigger] pool@[j],
            ) by {
                if j < m {
                    assert(pool@[j] == before_pool[j]);
                } else {
                    assert(pool@[j] == before_pool[j + 1]);
                }
            }
        }
        items.push(chosen);
        proof {
            assert forall|a: int, b: int|
                0 <= a < items@.len() && 0 <= b < pool@.len() implies (
            #[trigger] items@[a]).block_list@.len() >= (#[trigger] pool@[b]).block_list@.len() by {
                if b < m {
                    assert(pool@[b] == before_pool[b]);
                } else {
                    assert(pool@[b] == before_pool[b + 1]);
                }
                if a < before_out.len() {
                    assert(items@[a] == before_out[a]);
                } else {
                    assert(items@[a] == chosen);
                }
            }
        }
    }
    proof {
        assert(stock_of(pool@).to_multiset() =~= Multiset::<(i64, i64)>::empty()) by {
            stock_of(pool@).to_multiset_ensures();
            assert(stock_of(pool@).len() == 0);
            assert(forall|x: (i64, i64)| !stock_of(pool@).contains(x));
        }
        assert(stock_of(items@).to_multiset() =~= stock_of(items@).to_multiset().add(
            Multiset::<(i64, i64)>::empty(),
        ));
    }
}

/// The sorted variant of Rod's technique: build block lists, reorder by
/// dominance reach, refresh the identifiers and the lists against the new
/// order, then run the dominance-pruned search on the reordered catalog.
/// Reordering the stock does not move the optimum, so the returned value is
/// the exact optimum of the original catalog.
pub fn rods_technique_sorted(items: &mut Vec<Item>, allowed_weight: i64) -> (r: (Vec<Item>, i64,
    i64))
    requires
        catalog_ok(old(items)@),
        old(items)@.len() <= 62,
        0 <= allowed_weight,
        ids_positional(old(items)@),
        none_blocked(old(items)@),
    ensures
        search_result_ok(old(items)@, allowed_weight as int, r.0@, r.1 as int),
        final(items)@.len() == old(items)@.len(),
        stock_of(final(items)@).to_multiset() == stock_of(old(items)@).to_multiset(),
        ids_positional(final(items)@),
        none_blocked(final(items)@),
        blists_ok(final(items)@),
        forall|a: int, b: int|
            0 <= a < b < final(items)@.len() ==> (#[trigger] final(items)@[a]).block_list@.len()
                >= (#[trigger] final(items)@[b]).block_list@.len(),
        r.0@.len() == 0 || r.0@.len() == old(items)@.len(),
        forall|j: int|
            0 <= j < r.0@.len() ==> (#[trigger] r.0@[j]).value == final(items)@[j].value
                && r.0@[j].weight == final(items)@[j].weight && r.0@[j].id
                == final(items)@[j].id && r.0@[j].block_list@ == Seq::<usize>::empty(),
        r.0@.len() != 0 ==> stock_of(r.0@).to_multiset() == stock_of(old(items)@).to_multiset(),
{
    let ghost s = old(items)@;
    let ghost cap = allowed_weight as int;
    make_block_lists(items);
    let ghost s1 = items@;
    proof {
        lemma_stock_sums_agree(s, s1, 0);
    }
    reorder_by_block_len(items);
    let ghost s2 = items@;
    proof {
        assert forall|j: int| 0 <= j < s2.len() implies 0 <= (#[trigger] s2[j]).value && 1
            <= s2[j].weight && s2[j].blocked_by is None by {
            let prev = items@;
            let k = choose|k: int| 0 <= k < prev.len() && prev[k] == s2[j];
        }
    }
    // Refresh the identifiers to the new positions.
    let mut i: usize = 0;
    while i < items.len()
        invariant
            items@.len() == s2.len(),
            0 <= i <= s2.len(),
            forall|j: int| 0 <= j < i ==> (#[trigger] items@[j]).id == j,
            forall|j: int|
                0 <= j < s2.len() ==> {
                    let a = s2[j];
                    let b = #[trigger] items@[j];
                    b.value == a.value && b.weight == a.weight && b.is_selected == a.is_selected
                        && b.blocked_by == a.blocked_by
                },
        decreases s2.len() - i,
    {
        items[i].id = i;
        i = i + 1;
    }
    let ghost s3 = items@;
    proof {
        lemma_stock_sums_agree(s2, s3, 0);
        assert(catalog_ok(s3));
        assert(ids_positional(s3));
    }
    make_block_lists(items);
    let ghost s4 = items@;
    proof {
        lemma_stock_sums_agree(s3, s4, 0);
        assert(catalog_ok(s4));
        assert(ids_positional(s4));
        assert forall|j: int| 0 <= j < s4.len() implies #[trigger] blocked_entry_ok(s4, 0, j) by {
            assert(s4[j].blocked_by == s3[j].blocked_by);
            if has_excl_dominator(s4, 0, j) {
                let k = choose|k: int|
                    0 <= k < 0 && k != j && !(#[trigger] s4[k]).is_selected && dominates(
                        s4[k],
                        s4[j],
                    );
            }
        }
        assert(blocking_ok(s4, 0));
        assert(sel_values_prefix(s4, 0) == 0 && sel_weights_prefix(s4, 0) == 0);
    }
    let total = sum_values(items, true);
    let r = do_rods_technique(items, allowed_weight, 0, 0, 0, total, 0);
    proof {
        let n = s.len() as int;
        lemma_rods_opt_nonneg(s4, 0, cap);
        crate::exchange::lemma_rods_complete(s4, cap);
        // The stock ran unchanged through both block-list passes and the
        // identifier refresh, and the reorder only permuted it.
        assert(stock_of(s1) =~= stock_of(s));
        assert(stock_of(s3) =~= stock_of(s2));
        assert(stock_of(s4) =~= stock_of(s3));
        crate::exchange::lemma_opt_permutation(s4, s, cap);
        if r.0@.len() == 0 {
            assert(r.1 == 0);
            assert(sel_weights_from(r.0@, 0) == 0);
            assert(sel_values_from(r.0@, 0) == 0);
        }
        // The search leaves stock, identifiers, lists and marks as the
        // rebuild produced them.
        assert(stock_of(final(items)@) =~= stock_of(s4));
        assert(none_blocked(final(items)@)) by {
            assert(forall|j: int|
                0 <= j < n ==> (#[trigger] final(items)@[j]).blocked_by == s4[j].blocked_by);
        }
        assert forall|a: int| 0 <= a < n implies (#[trigger] final(items)@[a]).block_list@
            == dom_seq(final(items)@, a, n) by {
            assert(final(items)@[a].block_list@ == s4[a].block_list@);
            lemma_dom_seq_agree(s4, final(items)@, a, n);
        }
        // The recomputed list lengths equal the carried ones the reorder
        // sorted by: the dominance relation counts stock pairs, and the
        // stock multiset never changed.
        assert forall|x: int| 0 <= x < n implies dom_seq(s2, x, n).len() == (
        #[trigger] s2[x].block_list@).len() by {
            assert(s1.contains(s2[x]));
            let q = choose|q: int| 0 <= q < s1.len() && s1[q] == s2[x];
            assert(s2[x].block_list@ == dom_seq(s1, q, n));
            lemma_dom_seq_len(s1, q, n);
            lemma_dom_seq_len(s2, x, n);
            assert(stock_of(s2).to_multiset() == stock_of(s1).to_multiset());
            lemma_dom_count_permutation(
                stock_of(s1),
                stock_of(s2),
                (s1[q].value, s1[q].weight),
            );
        }
        assert forall|a: int, b: int|
            0 <= a < b < n implies (#[trigger] final(items)@[a]).block_list@.len() >= (
        #[trigger] final(items)@[b]).block_list@.len() by {
            assert(final(items)@[a].block_list@ == s4[a].block_list@);
            assert(final(items)@[b].block_list@ == s4[b].block_list@);
            lemma_dom_seq_agree(s2, s4, a, n);
            lemma_dom_seq_agree(s2, s4, b, n);
            assert(s2[a].block_list@.len() >= s2[b].block_list@.len());
        }
        // The returned copy's stock is the reordered stock: the same
        // multiset the catalog started with.
        if r.0@.len() != 0 {
            assert(stock_of(r.0@) =~= stock_of(s4));
        }
    }
    r
}

/// Depth-first search with dominance pruning.  Like branch-and-bound, but
/// an item currently blocked by an excluded dominator never has its include
/// branch tried — so a blocked frontier item is never selected in the
/// returned copy; while the frontier item's exclude branch runs, everything
/// it dominates and is not yet blocked is marked as blocked by it, and the
/// marks are released — restoring the exact prior state — when that branch
/// returns.
#[verifier::rlimit(100)]
pub fn do_rods_technique(
    items: &mut Vec<Item>,
    allowed_weight: i64,
    best_value: i64,
    current_value: i64,
    current_weight: i64,
    remaining_value: i64,
    next_index: usize,
) -> (r: (Vec<Item>, i64, i64))
    requires
        catalog_ok(old(items)@),
        next_index <= old(items)@.len(),
        old(items)@.len() <= 62,
        0 <= allowed_weight,
        0 <= best_value,
        current_value == sel_values_prefix(old(items)@, next_index as int),
        current_weight == sel_weights_prefix(old(items)@, next_index as int),
        current_weight <= allowed_weight,
        remaining_value == sum_values_from(old(items)@, next_index as int),
        ids_positional(old(items)@),
        blists_ok(old(items)@),
        blocking_ok(old(items)@, next_index as int),
    ensures
        final(items)@.len() == old(items)@.len(),
        forall|j: int| 0 <= j < next_index ==> final(items)@[j] == old(items)@[j],
        forall|j: int|
            next_index <= j < old(items)@.len() ==> (final(items)@[j] == old(items)@[j]
                || final(items)@[j] == deselected(old(items)@[j])),
        ({
            let s = old(items)@;
            let i = next_index as int;
            let rb = current_value + rods_opt(s, i, allowed_weight - current_weight);
            &&& current_value <= r.1 <= rb
            &&& rb > best_value ==> r.1 == rb
            &&& r.0@.len() == 0 ==> r.1 <= best_value
            &&& r.0@.len() != 0 ==> {
                &&& r.0@.len() == s.len()
                &&& forall|j: int|
                    0 <= j < s.len() ==> (#[trigger] r.0@[j]).value == s[j].value
                        && r.0@[j].weight == s[j].weight && r.0@[j].id == s[j].id
                        && r.0@[j].block_list@ == Seq::<usize>::empty()
                &&& forall|j: int|
                    0 <= j < i ==> (#[trigger] r.0@[j]).is_selected == s[j].is_selected
                &&& sel_weights_from(r.0@, 0) <= allowed_weight
                &&& sel_values_from(r.0@, 0) == r.1
            }
            &&& 1 <= r.2 <= pow2((s.len() - i + 1) as nat) - 1
            &&& (i < s.len() && current_value + remaining_value <= best_value) ==> {
                &&& r.0@.len() == 0
                &&& r.1 == current_value
                &&& r.2 == 1
                &&& final(items)@ == old(items)@
            }
            &&& (i < s.len() && s[i].blocked_by is Some) ==> (r.0@.len() == 0
                || !r.0@[i].is_selected)
        }),
    decreases old(items)@.len() - next_index,
{
    let ghost s = old(items)@;
    let ghost i = next_index as int;
    let ghost n = s.len() as int;
    let ghost cap = allowed_weight as int;
    proof {
        lemma_prefix_sums_nonneg(s, i);
        lemma_suffix_sums_nonneg(s, i);
        lemma_sums_bounds(s, i);
        lemma_prefix_suffix_split(s, i);
        lemma_prefix_le_stock(s, i);
        lemma_pow2_le63((n - i + 1) as nat);
        lemma_pow2_le63((n - i) as nat);
    }
    if next_index >= items.len() {
        let sol = copy_items(items);
        proof {
            lemma_prefix_suffix_split(s, n);
            lemma_sel_sums_agree(s, sol@, 0);
        }
        (sol, current_value, 1)
    } else {
        proof {
            lemma_rods_opt_nonneg(s, i, cap - current_weight);
            lemma_rods_opt_admissible(s, i, cap - current_weight);
            lemma_suffix_sums_nonneg(s, i + 1);
            assert(sum_values_from(s, i) == s[i].value + sum_values_from(s, i + 1));
            assert(sum_weights_from(s, i) == s[i].weight + sum_weights_from(s, i + 1));
        }
        if current_value + remaining_value <= best_value {
            // The admissible bound cannot beat the best known value: prune.
            return (Vec::new(), current_value, 1);
        }
        let mut best = best_value;
        let ghost s_t = s.update(i, Item { is_selected: true, ..s[i] });
        let ghost s_x = s.update(i, deselected(s[i]));
        let ghost rb_inc = current_value + s[i].value + rods_opt(
            s_t,
            i + 1,
            cap - current_weight - s[i].weight,
        );
        let ghost rb_exc = current_value + rods_opt(s_x, i + 1, cap - current_weight);
        let mut included_solution: Vec<Item> = Vec::new();
        let mut included_value: i64 = 0;
        let mut included_calls: i64 = 1;
        let unblocked = items[next_index].blocked_by.is_none();
        proof {
            assert(blocked_entry_ok(s, i, i));
            if !unblocked {
                let k = s[i].blocked_by.unwrap();
                assert(0 <= k < i && k != i && !s[k as int].is_selected && dominates(
                    s[k as int],
                    s[i],
                ));
                assert(has_excl_dominator(s, i, i));
            }
        }
        let tried_include = unblocked && current_weight + items[next_index].weight
            <= allowed_weight;
        if tried_include {
            items[next_index].is_selected = true;
            proof {
                assert(items@ =~= s_t);
                lemma_stock_sums_agree(s, s_t, 0);
                lemma_stock_sums_agree(s, s_t, i + 1);
                lemma_prefix_sums_agree(s, s_t, i);
                assert(sel_weights_prefix(s_t, i + 1) == current_weight + s[i].weight);
                assert(sel_values_prefix(s_t, i + 1) == current_value + s[i].value);
                lemma_blocking_include(s, i);
                assert forall|a: int| 0 <= a < n implies (#[trigger] s_t[a]).block_list@
                    == dom_seq(s_t, a, n) by {
                    lemma_dom_seq_agree(s, s_t, a, n);
                }
            }
            let (sol, val, calls) = do_rods_technique(
                items,
                allowed_weight,
                best,
                current_value + items[next_index].value,
                current_weight + items[next_index].weight,
                remaining_value - items[next_index].value,
                next_index + 1,
            );
            included_solution = sol;
            included_value = val;
            included_calls = calls;
            if included_value > best {
                best = included_value;
            }
        }
        let ghost t1 = items@;
        proof {
            assert(t1.len() == n);
            assert(forall|j: int| 0 <= j < i ==> t1[j] == s[j]);
            assert(forall|j: int|
                i < j < n ==> (t1[j] == s[j] || t1[j] == deselected(s[j])));
            assert(forall|j: int| 0 <= j < n ==> (#[trigger] t1[j]).blocked_by
                == s[j].blocked_by);
            assert(forall|j: int| 0 <= j < n ==> (#[trigger] t1[j]).value == s[j].value
                && t1[j].weight == s[j].weight && t1[j].id == s[j].id && t1[j].block_list
                == s[j].block_list);
        }
        // Mark phase: everything the frontier item dominates and that is not
        // yet blocked becomes blocked by it.
        let ghost blist = s[i].block_list@;
        let marker = items[next_index].id;
        proof {
            assert(blist == dom_seq(s, i, n));
            assert(marker == i);
        }
        let mut t: usize = 0;
        while t < items[next_index].block_list.len()
            invariant
                items@.len() == n,
                0 <= i < n <= 62,
                next_index as int == i,
                marker == i,
                0 <= t <= blist.len(),
                blocking_ok(s, i),
                s.len() == n,
                blist == dom_seq(s, i, n),
                items@[i].block_list@ == blist,
                forall|j: int| 0 <= j < n ==> (#[trigger] items@[j]).value == s[j].value
                    && items@[j].weight == s[j].weight && items@[j].id == s[j].id
                    && items@[j].block_list == s[j].block_list,
                forall|j: int| 0 <= j < n ==> (#[trigger] items@[j]).is_selected
                    == t1[j].is_selected,
                forall|j: int|
                    0 <= j < n ==> (#[trigger] items@[j]).blocked_by == (if s[j].blocked_by
                        is Some {
                        s[j].blocked_by
                    } else if blist.take(t as int).contains(j as usize) {
                        Some(i as usize)
                    } else {
                        None
                    }),
            decreases blist.len() - t,
        {
            let target = items[next_index].block_list[t];
            proof {
                assert(blist[t as int] == target);
                assert(blist.contains(target));
                lemma_dom_seq_contains(s, i, n, target);
                assert(target < n && target != i && dominates(s[i], s[target as int]));
                assert(blist.take(t + 1) =~= blist.take(t as int).push(target));
            }
            if items[target].blocked_by.is_none() {
                items[target].blocked_by = Some(marker);
            }
            proof {
                assert forall|j: int| 0 <= j < n implies (#[trigger] items@[j]).blocked_by == (
                if s[j].blocked_by is Some {
                    s[j].blocked_by
                } else if blist.take(t + 1).contains(j as usize) {
                    Some(i as usize)
                } else {
                    None
                }) by {
                    lemma_push_contains(blist.take(t as int), target, j as usize);
                }
            }
            t = t + 1;
        }
        items[next_index].is_selected = false;
        let ghost m = items@;
        proof {
            assert(blist.take(blist.len() as int) =~= blist);
            assert forall|j: int| 0 <= j < n implies (#[trigger] m[j]).blocked_by == (if s[j].blocked_by
                is Some {
                s[j].blocked_by
            } else if j != i && dominates(s[i], s[j]) {
                Some(i as usize)
            } else {
                None
            }) by {
                lemma_dom_seq_contains(s, i, n, j as usize);
            }
            lemma_blocking_exclude(s, m, i);
            lemma_stock_sums_agree(s, m, 0);
            lemma_stock_sums_agree(s, m, i + 1);
            lemma_prefix_sums_agree(s, m, i);
            assert(sel_weights_prefix(m, i + 1) == current_weight);
            assert(sel_values_prefix(m, i + 1) == current_value);
            assert forall|a: int| 0 <= a < n implies (#[trigger] m[a]).block_list@ == dom_seq(
                m,
                a,
                n,
            ) by {
                lemma_dom_seq_agree(s, m, a, n);
            }
        }
        let (excluded_solution, excluded_value, excluded_calls) = do_rods_technique(
            items,
            allowed_weight,
            best,
            current_value,
            current_weight,
            remaining_value - items[next_index].value,
            next_index + 1,
        );
        proof {
            lemma_rods_opt_agree(m, s_x, i + 1, cap - current_weight);
        }
        let ghost t2 = items@;
        // Release phase: clear exactly the marks this call made.
        let mut u: usize = 0;
        while u < items[next_index].block_list.len()
            invariant
                items@.len() == n,
                0 <= i < n <= 62,
                next_index as int == i,
                marker == i,
                0 <= u <= blist.len(),
                blocking_ok(s, i),
                s.len() == n,
                t2.len() == n,
                blist == dom_seq(s, i, n),
                items@[i].block_list@ == blist,
                forall|j: int| 0 <= j < n ==> (#[trigger] items@[j]).value == t2[j].value
                    && items@[j].weight == t2[j].weight && items@[j].id == t2[j].id
                    && items@[j].block_list == t2[j].block_list && items@[j].is_selected
                    == t2[j].is_selected,
                forall|j: int| 0 <= j < n ==> (#[trigger] t2[j]).blocked_by == m[j].blocked_by,
                forall|j: int| 0 <= j < n ==> (#[trigger] t2[j]).id == s[j].id,
                forall|j: int|
                    0 <= j < n ==> (#[trigger] m[j]).blocked_by == (if s[j].blocked_by is Some {
                        s[j].blocked_by
                    } else if j != i && dominates(s[i], s[j]) {
                        Some(i as usize)
                    } else {
                        None
                    }),
                forall|j: int|
                    0 <= j < n ==> (#[trigger] items@[j]).blocked_by == (
                    if blist.take(u as int).contains(j as usize) {
                        s[j].blocked_by
                    } else {
                        t2[j].blocked_by
                    }),
            decreases blist.len() - u,
        {
            let target = items[next_index].block_list[u];
            proof {
                assert(blist[u as int] == target);
                assert(blist.contains(target));
                lemma_dom_seq_contains(s, i, n, target);
                assert(target < n && target != i && dominates(s[i], s[target as int]));
                assert(blist.take(u + 1) =~= blist.take(u as int).push(target));
                assert(blocked_entry_ok(s, i, target as int));
            }
            let bb = items[target].blocked_by;
            match bb {
                Some(k) => {
                    if k == marker {
                        items[target].blocked_by = None;
                        proof {
                            // A pre-existing mark cannot name the frontier
                            // item, so this mark was ours and `None` is its
                            // prior state.
                            assert(s[target as int].blocked_by is None);
                        }
                    } else {
                        proof {
                            assert(items@[target as int].blocked_by == s[target as int].blocked_by);
                        }
                    }
                },
                None => {
                    proof {
                        assert(items@[target as int].blocked_by == s[target as int].blocked_by);
                    }
                },
            }
            proof {
                assert forall|j: int| 0 <= j < n implies (#[trigger] items@[j]).blocked_by == (
                if blist.take(u + 1).contains(j as usize) {
                    s[j].blocked_by
                } else {
                    t2[j].blocked_by
                }) by {
                    lemma_push_contains(blist.take(u as int), target, j as usize);
                }
            }
            u = u + 1;
        }
        proof {
            assert(blist.take(blist.len() as int) =~= blist);
            // Everything this call marked is released; everything else never
            // changed its mark.
            assert forall|j: int| 0 <= j < n implies (#[trigger] items@[j]).blocked_by
                == s[j].blocked_by by {
                lemma_dom_seq_contains(s, i, n, j as usize);
                assert(blocked_entry_ok(s, i, j));
            }
            assert(forall|j: int| 0 <= j < i ==> final(items)@[j] == s[j]);
            assert(final(items)@[i] == deselected(s[i]));
            assert(forall|j: int|
                i < j < n ==> (final(items)@[j] == s[j] || final(items)@[j] == deselected(s[j])));
            lemma_rods_opt_nonneg(s_x, i + 1, cap - current_weight);
            lemma_rods_opt_nonneg(s_t, i + 1, cap - current_weight - s[i].weight);
            assert(pow2((n - i + 1) as nat) == 2 * pow2((n - i) as nat)) by {
                vstd::arithmetic::power2::lemma_pow2_adds(1, (n - i) as nat);
                vstd::arithmetic::power2::lemma2_to64();
            }
            if !has_excl_dominator(s, i, i) && s[i].weight <= cap - current_weight {
                assert(rods_opt(s, i, cap - current_weight) == if rb_inc >= rb_exc {
                    rb_inc - current_value
                } else {
                    rb_exc - current_value
                });
            } else {
                assert(rods_opt(s, i, cap - current_weight) == rb_exc - current_value);
            }
        }
        if included_value >= excluded_value {
            (included_solution, included_value, included_calls + excluded_calls + 1)
        } else {
            (excluded_solution, excluded_value, excluded_calls + included_calls + 1)
        }
    }
}

/// Rod's technique over the whole catalog: build the block lists, then run
/// the dominance-pruned search.  The pruning is complete, so the returned
/// value is the exact optimum, like the other strategies'.
pub fn rods_technique(items: &mut Vec<Item>, allowed_weight: i64) -> (r: (Vec<Item>, i64, i64))
    requires
        catalog_ok(old(items)@),
        old(items)@.len() <= 62,
        0 <= allowed_weight,
        ids_positional(old(items)@),
        none_blocked(old(items)@),
    ensures
        search_result_ok(old(items)@, allowed_weight as int, r.0@, r.1 as int),
        r.1 == rods_opt(old(items)@, 0, allowed_weight as int),
        r.0@.len() == 0 || r.0@.len() == old(items)@.len(),
        forall|j: int|
            0 <= j < r.0@.len() ==> (#[trigger] r.0@[j]).value == old(items)@[j].value
                && r.0@[j].weight == old(items)@[j].weight && r.0@[j].id == old(items)@[j].id
                && r.0@[j].block_list@ == Seq::<usize>::empty(),
        final(items)@.len() == old(items)@.len(),
        forall|j: int|
            0 <= j < old(items)@.len() ==> {
                let a = old(items)@[j];
                let b = #[trigger] final(items)@[j];
                b.id == a.id && b.value == a.value && b.weight == a.weight && (b.is_selected
                    == a.is_selected || !b.is_selected)
            },
        none_blocked(final(items)@),
        blists_ok(final(items)@),
        1 <= r.2 <= pow2((old(items)@.len() + 1) as nat) - 1,
{
    let ghost s = old(items)@;
    let ghost cap = allowed_weight as int;
    make_block_lists(items);
    let ghost s1 = items@;
    proof {
        lemma_stock_sums_agree(s, s1, 0);
        assert(catalog_ok(s1));
        assert(ids_positional(s1));
        assert forall|j: int| 0 <= j < s1.len() implies #[trigger] blocked_entry_ok(s1, 0, j) by {
            assert(s[j].blocked_by is None);
            if has_excl_dominator(s1, 0, j) {
                let k = choose|k: int|
                    0 <= k < 0 && k != j && !(#[trigger] s1[k]).is_selected && dominates(
                        s1[k],
                        s1[j],
                    );
            }
        }
        assert(blocking_ok(s1, 0));
        assert(sel_values_prefix(s1, 0) == 0 && sel_weights_prefix(s1, 0) == 0);
    }
    let total = sum_values(items, true);
    let r = do_rods_technique(items, allowed_weight, 0, 0, 0, total, 0);
    proof {
        lemma_rods_opt_nonneg(s1, 0, cap);
        lemma_rods_opt_agree(s1, s, 0, cap);
        crate::exchange::lemma_rods_complete(s, cap);
        if r.0@.len() == 0 {
            assert(r.1 == 0);
            assert(sel_weights_from(r.0@, 0) == 0);
            assert(sel_values_from(r.0@, 0) == 0);
        }
        // The run tears its scratch state down: marks are released, lists
        // still describe the dominance relation, and the stock never moved.
        assert(none_blocked(final(items)@)) by {
            assert(forall|j: int|
                0 <= j < s.len() ==> (#[trigger] final(items)@[j]).blocked_by
                    == s1[j].blocked_by);
        }
        assert forall|a: int| 0 <= a < s.len() implies (#[trigger] final(items)@[a]).block_list@
            == dom_seq(final(items)@, a, s.len() as int) by {
            assert(final(items)@[a].block_list@ == s1[a].block_list@);
            lemma_dom_seq_agree(s1, final(items)@, a, s.len() as int);
        }
    }
    r
}

} // verus!
