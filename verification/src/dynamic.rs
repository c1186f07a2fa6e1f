//! Dynamic programming: bottom-up tabulation over item prefixes and
//! capacities, then a backward reconstruction along parent pointers.  The
//! value table is proved to hold the exact prefix optima, and the
//! reconstruction is proved to produce a feasible selection worth the final
//! table entry, which equals the same optimum the search strategies return.

use vstd::prelude::*;

use crate::items::{
    catalog_ok, copy_items, item_copied, lemma_sel_sums_agree, lemma_stock_sums_agree,
    lemma_suffix_sums_nonneg, sel_values_from, sel_weights_from, sum_values_from, values_ok,
    weights_ok, Item,
};
use crate::exhaustive::search_result_ok;
use crate::optimum::{lemma_opt_from_nonneg, opt_from};

verus! {

/// The best total value obtainable from the first `m` items within
/// capacity `cap`: the same optimum as `opt_from`, built up from the other
/// end, which is the order the table fills in.
pub open spec fn opt_pre(s: Seq<Item>, m: int, cap: int) -> int
    decreases m,
{
    if m <= 0 || m > s.len() {
        0
    } else {
        let without = opt_pre(s, m - 1, cap);
        if s[m - 1].weight <= cap {
            let with = s[m - 1].value + opt_pre(s, m - 1, cap - s[m - 1].weight);
            if with >= without {
                with
            } else {
                without
            }
        } else {
            without
        }
    }
}

/// The prefix optimum is non-negative and bounded by the sum of the first
/// `m` values.
pub proof fn lemma_opt_pre_bounds(s: Seq<Item>, m: int, cap: int)
    requires
        values_ok(s),
        weights_ok(s),
        0 <= m <= s.len(),
    ensures
        0 <= opt_pre(s, m, cap) <= sum_values_from(s, 0) - sum_values_from(s, m),
    decreases m,
{
    lemma_suffix_sums_nonneg(s, m);
    if m > 0 {
        lemma_opt_pre_bounds(s, m - 1, cap);
        if s[m - 1].weight <= cap {
            lemma_opt_pre_bounds(s, m - 1, cap - s[m - 1].weight);
        }
        assert(sum_values_from(s, m - 1) == s[m - 1].value + sum_values_from(s, m));
    }
}

/// Peeling the optimum from the front instead of the back: deciding the
/// first undecided item first gives the same value as deciding the last
/// one first.
#[verifier::rlimit(100)]
proof fn lemma_opt_window_front(s: Seq<Item>, lo: int, hi: int, cap: int)
    requires
        weights_ok(s),
        0 <= lo <= hi <= s.len(),
    ensures
        opt_window(s, lo, hi, cap) == (if lo == hi {
            0
        } else if s[lo].weight <= cap {
            let taken = s[lo].value + opt_window(s, lo + 1, hi, cap - s[lo].weight);
            let skip = opt_window(s, lo + 1, hi, cap);
            if taken >= skip {
                taken
            } else {
                skip
            }
        } else {
            opt_window(s, lo + 1, hi, cap)
        }),
    decreases hi - lo,
{
    if hi - lo == 1 {
        assert(opt_window(s, lo, lo, cap) == 0);
        assert(opt_window(s, lo + 1, hi, cap) == 0);
        assert(opt_window(s, lo, lo, cap - s[lo].weight) == 0);
        assert(opt_window(s, lo + 1, hi, cap - s[lo].weight) == 0);
    } else if hi - lo >= 2 {
        let vl = s[lo].value;
        let wl = s[lo].weight;
        let vh = s[hi - 1].value;
        let wh = s[hi - 1].weight;
        lemma_opt_window_front(s, lo, hi - 1, cap);
        lemma_opt_window_front(s, lo, hi - 1, cap - wh);
        let a = opt_window(s, lo + 1, hi - 1, cap);
        let b = opt_window(s, lo + 1, hi - 1, cap - wl);
        let c = opt_window(s, lo + 1, hi - 1, cap - wh);
        let d = opt_window(s, lo + 1, hi - 1, cap - wl - wh);
        assert(opt_window(s, lo + 1, hi, cap) == (if wh <= cap {
            let with = vh + c;
            if with >= a {
                with
            } else {
                a
            }
        } else {
            a
        }));
        assert(opt_window(s, lo + 1, hi, cap - wl) == (if wh <= cap - wl {
            let with = vh + d;
            if with >= b {
                with
            } else {
                b
            }
        } else {
            b
        }));
        assert(opt_window(s, lo, hi, cap) == (if wh <= cap {
            let with = vh + opt_window(s, lo, hi - 1, cap - wh);
            let without = opt_window(s, lo, hi - 1, cap);
            if with >= without {
                with
            } else {
                without
            }
        } else {
            opt_window(s, lo, hi - 1, cap)
        }));
    }
}

/// The best total value obtainable from the items `s[lo..hi]` within
/// capacity `cap`, recursing on the last item of the window.
pub open spec fn opt_window(s: Seq<Item>, lo: int, hi: int, cap: int) -> int
    decreases hi - lo,
{
    if lo < 0 || lo >= hi || hi > s.len() {
        0
    } else {
        let without = opt_window(s, lo, hi - 1, cap);
        if s[hi - 1].weight <= cap {
            let with = s[hi - 1].value + opt_window(s, lo, hi - 1, cap - s[hi - 1].weight);
            if with >= without {
                with
            } else {
                without
            }
        } else {
            without
        }
    }
}

/// A whole-catalog window is the prefix optimum.
proof fn lemma_opt_window_is_pre(s: Seq<Item>, m: int, cap: int)
    requires
        0 <= m <= s.len(),
    ensures
        opt_window(s, 0, m, cap) == opt_pre(s, m, cap),
    decreases m,
{
    if m > 0 {
        lemma_opt_window_is_pre(s, m - 1, cap);
        if s[m - 1].weight <= cap {
            lemma_opt_window_is_pre(s, m - 1, cap - s[m - 1].weight);
        }
    }
}

/// The table's prefix optimum agrees with the suffix optimum the search
/// strategies are specified against: both are the optimum of the whole
/// catalog.
pub proof fn lemma_opt_pre_is_opt_from(s: Seq<Item>, i: int, cap: int)
    requires
        weights_ok(s),
        0 <= i <= s.len(),
    ensures
        opt_window(s, i, s.len() as int, cap) == opt_from(s, i, cap),
    decreases s.len() - i,
{
    let n = s.len() as int;
    lemma_opt_window_front(s, i, n, cap);
    if i < n {
        lemma_opt_pre_is_opt_from(s, i + 1, cap);
        if s[i].weight <= cap {
            lemma_opt_pre_is_opt_from(s, i + 1, cap - s[i].weight);
        }
    }
}

/// The whole-catalog corollary: the prefix optimum over all items equals
/// the optimum every search strategy returns.
pub proof fn lemma_opt_pre_complete(s: Seq<Item>, cap: int)
    requires
        weights_ok(s),
    ensures
        opt_pre(s, s.len() as int, cap) == opt_from(s, 0, cap),
{
    lemma_opt_window_is_pre(s, s.len() as int, cap);
    lemma_opt_pre_is_opt_from(s, 0, cap);
}

/// Whether the reconstruction takes item `m - 1` when solving the first
/// `m` items at capacity `cap`.  The base row takes its item whenever it
/// fits; every later row takes its item only when doing so is strictly
/// better — on ties the item is excluded, the opposite tie-break from the
/// search strategies, as the parent pointers record it.
pub open spec fn dp_take(s: Seq<Item>, m: int, cap: int) -> bool {
    if m == 1 {
        s[0].weight <= cap
    } else {
        opt_pre(s, m, cap) != opt_pre(s, m - 1, cap)
    }
}

/// The capacity the backward walk holds when `m` items remain to decide.
pub open spec fn dp_cap(s: Seq<Item>, cap: int, m: int, n: int) -> int
    decreases n - m,
{
    if m >= n {
        cap
    } else {
        let c = dp_cap(s, cap, m + 1, n);
        if dp_take(s, m + 1, c) {
            c - s[m].weight
        } else {
            c
        }
    }
}

/// The selection flag the reconstruction leaves on item `j`.
pub open spec fn dp_selected(s: Seq<Item>, cap: int, j: int, n: int) -> bool {
    dp_take(s, j + 1, dp_cap(s, cap, j + 1, n))
}

/// What one filled table row must say.  Row `i` at capacity `w` holds the
/// optimum over the first `i + 1` items; its parent pointer either equals
/// `w` (the item is excluded and the row above holds the same value), or
/// points at the reduced capacity the item was taken at — encoded as `-1`
/// in the base row, whose "row above" is empty.
pub open spec fn row_ok(s: Seq<Item>, i: int, sv: Seq<i64>, pw: Seq<i64>, width: int) -> bool {
    &&& sv.len() == width
    &&& pw.len() == width
    &&& forall|w: int| 0 <= w < width ==> (#[trigger] sv[w]) == opt_pre(s, i + 1, w)
    &&& forall|w: int| 0 <= w < width ==> #[trigger] row_case(s, i, pw, w)
}

/// The base row of the table: at capacity `w` the first item alone is worth
/// its value when it fits and nothing otherwise, with the parent pointer
/// sentinel `-1` recording that it was taken.
pub fn dp_base_row(value: i64, weight: i64, width: usize) -> (r: (Vec<i64>, Vec<i64>))
    requires
        0 <= value,
        1 <= weight,
        width <= i64::MAX,
    ensures
        r.0@.len() == width,
        r.1@.len() == width,
        forall|w: int| 0 <= w < width ==> (#[trigger] r.0@[w]) == (if weight <= w {
            value
        } else {
            0
        }),
        forall|w: int| 0 <= w < width ==> (#[trigger] r.1@[w]) == (if weight <= w {
            -1
        } else {
            w
        }),
{
    let mut sv: Vec<i64> = Vec::new();
    let mut pw: Vec<i64> = Vec::new();
    let mut w: usize = 0;
    while w < width
        invariant
            0 <= w <= width,
            width <= i64::MAX,
            0 <= value,
            1 <= weight,
            sv@.len() == w,
            pw@.len() == w,
            forall|x: int| 0 <= x < w ==> (#[trigger] sv@[x]) == (if weight <= x {
                value
            } else {
                0
            }),
            forall|x: int| 0 <= x < w ==> (#[trigger] pw@[x]) == (if weight <= x {
                -1
            } else {
                x
            }),
        decreases width - w,
    {
        if weight <= w as i64 {
            sv.push(value);
            pw.push(-1);
        } else {
            sv.push(0);
            pw.push(w as i64);
        }
        w = w + 1;
    }
    (sv, pw)
}

/// Solve the whole catalog with the classic two-table tabulation and
/// reconstruct an optimal selection by walking the parent pointers.  Always
/// reports one call.
#[verifier::rlimit(100)]
pub fn dynamic_programming(items: &mut Vec<Item>, allowed_weight: i64) -> (r: (Vec<Item>, i64, i64))
    requires
        catalog_ok(old(items)@),
        0 <= allowed_weight,
        allowed_weight + 1 <= usize::MAX,
        allowed_weight < i64::MAX,
    ensures
        search_result_ok(old(items)@, allowed_weight as int, r.0@, r.1 as int),
        r.0@.len() == old(items)@.len(),
        forall|j: int| 0 <= j < old(items)@.len() ==> item_copied(final(items)@[j], #[trigger] r.0@[j]),
        forall|j: int|
            0 <= j < old(items)@.len() ==> (#[trigger] r.0@[j]).is_selected == dp_selected(
                old(items)@,
                allowed_weight as int,
                j,
                old(items)@.len() as int,
            ),
        final(items)@.len() == old(items)@.len(),
        forall|j: int|
            0 <= j < old(items)@.len() ==> {
                let a = old(items)@[j];
                let b = #[trigger] final(items)@[j];
                b.id == a.id && b.value == a.value && b.weight == a.weight && b.blocked_by
                    == a.blocked_by && b.block_list == a.block_list
            },
        r.2 == 1,
{
    let ghost s = old(items)@;
    let ghost cap = allowed_weight as int;
    let num_items = items.len();
    let ghost n = num_items as int;
    proof {
        lemma_opt_from_nonneg(s, 0, cap);
    }
    if num_items == 0 {
        let sol = copy_items(items);
        return (sol, 0, 1);
    }
    let width: usize = (allowed_weight as usize) + 1;
    let mut sv: Vec<Vec<i64>> = Vec::new();
    let mut pw: Vec<Vec<i64>> = Vec::new();
    let (sv0, pw0) = dp_base_row(items[0].value, items[0].weight, width);
    proof {
        assert forall|w: int| 0 <= w < width implies (#[trigger] sv0@[w]) == opt_pre(s, 1, w) by {
            assert(opt_pre(s, 0, w) == 0);
            assert(opt_pre(s, 0, w - s[0].weight) == 0);
        }
        assert forall|w: int| 0 <= w < width implies #[trigger] row_case(s, 0, pw0@, w) by {
            assert(opt_pre(s, 0, w) == 0);
            assert(opt_pre(s, 0, w - s[0].weight) == 0);
            assert(sv0@[w] == opt_pre(s, 1, w));
        }
        assert(row_ok(s, 0, sv0@, pw0@, width as int));
    }
    sv.push(sv0);
    pw.push(pw0);
    let mut i: usize = 1;
    while i < num_items
        invariant
            1 <= i <= n,
            n == s.len(),
            items@ == s,
            catalog_ok(s),
            num_items == n,
            0 <= cap,
            allowed_weight == cap,
            width == cap + 1,
            width <= usize::MAX,
            sv@.len() == i,
            pw@.len() == i,
            forall|r0: int|
                0 <= r0 < i ==> row_ok(s, r0, (#[trigger] sv@[r0])@, pw@[r0]@, width as int),
        decreases n - i,
    {
        let mut svr: Vec<i64> = Vec::new();
        let mut pwr: Vec<i64> = Vec::new();
        let value_i = items[i].value;
        let weight_i = items[i].weight;
        let mut w: usize = 0;
        while w < width
            invariant
                1 <= i < n,
                n == s.len(),
                items@ == s,
                catalog_ok(s),
                value_i == s[i as int].value,
                weight_i == s[i as int].weight,
                width <= usize::MAX,
                width <= i64::MAX + 1,
                0 <= w <= width,
                sv@.len() == i,
                pw@.len() == i,
                forall|r0: int|
                    0 <= r0 < i ==> row_ok(s, r0, (#[trigger] sv@[r0])@, pw@[r0]@, width as int),
                svr@.len() == w,
                pwr@.len() == w,
                forall|x: int| 0 <= x < w ==> (#[trigger] svr@[x]) == opt_pre(s, i + 1, x),
                forall|x: int| 0 <= x < w ==> #[trigger] row_case(s, i as int, pwr@, x),
            decreases width - w,
        {
            proof {
                assert(row_ok(s, i - 1, sv@[i - 1]@, pw@[i - 1]@, width as int));
                lemma_opt_pre_bounds(s, i as int, w as int);
                lemma_suffix_sums_nonneg(s, i as int);
                lemma_suffix_sums_nonneg(s, i + 1);
                assert(sum_values_from(s, i as int) == s[i as int].value + sum_values_from(
                    s,
                    i + 1,
                ));
                if weight_i <= w as i64 {
                    lemma_opt_pre_bounds(s, i as int, w - weight_i);
                }
            }
            let ghost pwr_prev = pwr@;
            let value_without = sv[i - 1][w];
            let mut value_with: i64 = 0;
            if weight_i <= w as i64 {
                value_with = sv[i - 1][w - weight_i as usize] + value_i;
            }
            if value_without >= value_with {
                svr.push(value_without);
                pwr.push(w as i64);
            } else {
                svr.push(value_with);
                pwr.push(w as i64 - weight_i);
            }
            proof {
                assert(opt_pre(s, i + 1, w as int) == svr@[w as int]);
                assert(row_case(s, i as int, pwr@, w as int));
                assert forall|x: int| 0 <= x < w implies #[trigger] row_case(
                    s,
                    i as int,
                    pwr@,
                    x,
                ) by {
                    assert(pwr@[x] == pwr_prev[x]);
                    assert(row_case(s, i as int, pwr_prev, x));
                }
            }
            w = w + 1;
        }
        sv.push(svr);
        pw.push(pwr);
        i = i + 1;
    }
    // Reconstruction: walk the rows from the last item down, following the
    // parent pointers.
    let mut bi: usize = num_items;
    let mut back_w: i64 = allowed_weight;
    while bi > 0
        invariant
            0 <= bi <= n,
            n == s.len(),
            num_items == n,
            catalog_ok(s),
            0 <= cap,
            allowed_weight == cap,
            width == cap + 1,
            width <= usize::MAX,
            sv@.len() == n,
            pw@.len() == n,
            forall|r0: int|
                0 <= r0 < n ==> row_ok(s, r0, (#[trigger] sv@[r0])@, pw@[r0]@, width as int),
            items@.len() == n,
            forall|j: int| 0 <= j < bi ==> #[trigger] items@[j] == s[j],
            forall|j: int|
                bi <= j < n ==> {
                    let a = s[j];
                    let b = #[trigger] items@[j];
                    b.id == a.id && b.value == a.value && b.weight == a.weight && b.blocked_by
                        == a.blocked_by && b.block_list == a.block_list
                },
            forall|j: int|
                bi <= j < n ==> (#[trigger] items@[j]).is_selected == dp_selected(s, cap, j, n),
            1 <= bi ==> back_w == dp_cap(s, cap, bi as int, n),
            0 <= back_w <= cap,
            opt_pre(s, bi as int, back_w as int) + sel_values_from(items@, bi as int) == opt_pre(
                s,
                n,
                cap,
            ),
            sel_weights_from(items@, bi as int) + back_w <= cap,
        decreases bi,
    {
        proof {
            assert(row_ok(s, bi - 1, sv@[bi - 1]@, pw@[bi - 1]@, width as int));
            assert(row_case(s, bi - 1, pw@[bi - 1]@, back_w as int));
        }
        let ghost before = items@;
        let pw_val = pw[bi - 1][back_w as usize];
        proof {
            if bi >= 2 {
                assert(dp_cap(s, cap, bi - 1, n) == (if dp_take(s, bi as int, back_w as int) {
                    back_w - s[bi - 1].weight
                } else {
                    back_w as int
                }));
            }
        }
        if back_w == pw_val {
            items[bi - 1].is_selected = false;
            proof {
                assert(!dp_take(s, bi as int, back_w as int));
                assert(items@[bi - 1].is_selected == dp_selected(s, cap, bi - 1, n));
                lemma_sel_sums_agree(before, items@, bi as int);
                assert(sel_values_from(items@, bi - 1) == sel_values_from(items@, bi as int));
                assert(sel_weights_from(items@, bi - 1) == sel_weights_from(items@, bi as int));
            }
        } else {
            items[bi - 1].is_selected = true;
            proof {
                assert(dp_take(s, bi as int, back_w as int));
                assert(items@[bi - 1].is_selected == dp_selected(s, cap, bi - 1, n));
                lemma_sel_sums_agree(before, items@, bi as int);
                assert(sel_values_from(items@, bi - 1) == s[bi - 1].value + sel_values_from(
                    items@,
                    bi as int,
                ));
                assert(sel_weights_from(items@, bi - 1) == s[bi - 1].weight + sel_weights_from(
                    items@,
                    bi as int,
                ));
            }
            back_w = pw_val;
            if bi == 1 {
                // The base row records a taken item with the sentinel; the
                // walk is over, so pin the capacity for the invariant.
                back_w = 0;
                proof {
                    assert(opt_pre(s, 0, 0) == 0);
                }
            }
        }
        bi = bi - 1;
    }
    let total = sv[num_items - 1][allowed_weight as usize];
    let sol = copy_items(items);
    proof {
        assert(opt_pre(s, 0, back_w as int) == 0);
        lemma_opt_pre_complete(s, cap);
        lemma_sel_sums_agree(items@, sol@, 0);
        assert(total == opt_pre(s, n, cap));
        assert(sel_values_from(sol@, 0) == total);
        assert(sel_weights_from(sol@, 0) <= cap);
    }
    (sol, total, 1)
}

/// The parent-pointer case split of one table cell, shared by the filling
/// loops and the reconstruction.
pub open spec fn row_case(s: Seq<Item>, i: int, pw: Seq<i64>, w: int) -> bool {
    (pw[w] == w && opt_pre(s, i + 1, w) == opt_pre(s, i, w) && !dp_take(s, i + 1, w)) || (pw[w]
        == (if i == 0 {
        -1
    } else {
        w - s[i].weight
    }) && s[i].weight <= w && opt_pre(s, i + 1, w) == s[i].value + opt_pre(s, i, w - s[i].weight)
        && dp_take(s, i + 1, w))
}

} // verus!
