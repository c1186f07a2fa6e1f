//! Verified sorting: quicksort over integers — proved to sort a permutation
//! of its input — and a counting sort over customer records keyed by their
//! purchase count.

use vstd::prelude::*;

use vstd::multiset::Multiset;
use vstd::seq_lib::to_multiset_update;

verus! {

/// The entries of `s[lo..hi]` are in non-decreasing order.
pub open spec fn sorted_range(s: Seq<i32>, lo: int, hi: int) -> bool {
    forall|x: int, y: int| lo <= x < y < hi ==> s[x] <= s[y]
}

/// Swapping two entries leaves the multiset of entries unchanged.
proof fn lemma_swap_multiset(s: Seq<i32>, i: int, j: int)
    requires
        0 <= i < s.len(),
        0 <= j < s.len(),
    ensures
        s.update(i, s[j]).update(j, s[i]).to_multiset() == s.to_multiset(),
{
    broadcast use vstd::multiset::group_multiset_axioms;

    if i == j {
        assert(s.update(i, s[j]).update(j, s[i]) =~= s);
    } else {
        let s1 = s.update(i, s[j]);
        to_multiset_update(s, i, s[j]);
        to_multiset_update(s1, j, s[i]);
        assert(s1[j] == s[j]);
        s.to_multiset_ensures();
        assert(s.contains(s[i]));
        assert(s.contains(s[j]));
        assert(s.to_multiset().count(s[i]) > 0);
        assert(s.to_multiset().count(s[j]) > 0);
        assert(s1.update(j, s[i]).to_multiset() =~= s.to_multiset());
    }
}

/// Swapping two entries inside a window leaves the window's multiset
/// unchanged.
proof fn lemma_swap_in_range(s: Seq<i32>, lo: int, hi: int, a: int, b: int)
    requires
        0 <= lo <= a < hi,
        lo <= b < hi,
        hi <= s.len(),
    ensures
        s.update(a, s[b]).update(b, s[a]).subrange(lo, hi).to_multiset() == s.subrange(
            lo,
            hi,
        ).to_multiset(),
{
    let w = s.subrange(lo, hi);
    assert(s.update(a, s[b]).update(b, s[a]).subrange(lo, hi) =~= w.update(a - lo, w[b - lo]).update(
        b - lo,
        w[a - lo],
    ));
    lemma_swap_multiset(w, a - lo, b - lo);
}

/// A window splits into two at any midpoint, and so does its multiset.
proof fn lemma_multiset_split(s: Seq<i32>, lo: int, m: int, hi: int)
    requires
        0 <= lo <= m <= hi <= s.len(),
    ensures
        s.subrange(lo, hi).to_multiset() == s.subrange(lo, m).to_multiset().add(
            s.subrange(m, hi).to_multiset(),
        ),
    decreases hi - m,
{
    broadcast use vstd::multiset::group_multiset_axioms;

    if m == hi {
        let e = s.subrange(m, hi);
        assert(e.len() == 0);
        e.to_multiset_ensures();
        assert(e.to_multiset() =~= Multiset::<i32>::empty()) by {
            assert(forall|a: i32| !e.contains(a));
        }
        assert(s.subrange(lo, hi).to_multiset() =~= s.subrange(lo, m).to_multiset().add(
            Multiset::<i32>::empty(),
        ));
    } else {
        lemma_multiset_split(s, lo, m, hi - 1);
        assert(s.subrange(lo, hi) =~= s.subrange(lo, hi - 1).push(s[hi - 1]));
        assert(s.subrange(m, hi) =~= s.subrange(m, hi - 1).push(s[hi - 1]));
        s.subrange(lo, hi - 1).to_multiset_ensures();
        s.subrange(m, hi - 1).to_multiset_ensures();
        assert(s.subrange(lo, m).to_multiset().add(
            s.subrange(m, hi - 1).to_multiset().insert(s[hi - 1]),
        ) =~= s.subrange(lo, m).to_multiset().add(s.subrange(m, hi - 1).to_multiset()).insert(
            s[hi - 1],
        ));
    }
}

/// An upper bound on a window survives any rearrangement of its multiset.
proof fn lemma_bound_transfer_le(a: Seq<i32>, b: Seq<i32>, lo: int, hi: int, x: i32)
    requires
        0 <= lo <= hi <= a.len(),
        hi <= b.len(),
        a.subrange(lo, hi).to_multiset() == b.subrange(lo, hi).to_multiset(),
        forall|k: int| lo <= k < hi ==> a[k] <= x,
    ensures
        forall|k: int| lo <= k < hi ==> b[k] <= x,
{
    assert forall|k: int| lo <= k < hi implies b[k] <= x by {
        let wb = b.subrange(lo, hi);
        let wa = a.subrange(lo, hi);
        assert(wb[k - lo] == b[k]);
        assert(wb.contains(b[k]));
        wb.to_multiset_ensures();
        wa.to_multiset_ensures();
        assert(wb.to_multiset().count(b[k]) > 0);
        assert(wa.to_multiset().count(b[k]) > 0);
        assert(wa.contains(b[k]));
        let t = choose|t: int| 0 <= t < wa.len() && wa[t] == b[k];
        assert(a[lo + t] == b[k]);
    }
}

/// A strict lower bound on a window survives any rearrangement of its
/// multiset.
proof fn lemma_bound_transfer_gt(a: Seq<i32>, b: Seq<i32>, lo: int, hi: int, x: i32)
    requires
        0 <= lo <= hi <= a.len(),
        hi <= b.len(),
        a.subrange(lo, hi).to_multiset() == b.subrange(lo, hi).to_multiset(),
        forall|k: int| lo <= k < hi ==> a[k] > x,
    ensures
        forall|k: int| lo <= k < hi ==> b[k] > x,
{
    assert forall|k: int| lo <= k < hi implies b[k] > x by {
        let wb = b.subrange(lo, hi);
        let wa = a.subrange(lo, hi);
        assert(wb[k - lo] == b[k]);
        assert(wb.contains(b[k]));
        wb.to_multiset_ensures();
        wa.to_multiset_ensures();
        assert(wb.to_multiset().count(b[k]) > 0);
        assert(wa.to_multiset().count(b[k]) > 0);
        assert(wa.contains(b[k]));
        let t = choose|t: int| 0 <= t < wa.len() && wa[t] == b[k];
        assert(a[lo + t] == b[k]);
    }
}

/// Swap two entries of the vector.
fn swap_elems(vec: &mut Vec<i32>, a: usize, b: usize)
    requires
        a < old(vec)@.len(),
        b < old(vec)@.len(),
    ensures
        final(vec)@ == old(vec)@.update(a as int, old(vec)@[b as int]).update(
            b as int,
            old(vec)@[a as int],
        ),
{
    let x = vec[a];
    let y = vec[b];
    vec[a] = y;
    vec[b] = x;
}

/// Partition the window `[lo, hi)` around its last entry: afterwards that
/// pivot entry sits at the returned index, everything before it in the
/// window is no larger, and everything after it is strictly larger.  The
/// window keeps its multiset; the rest of the vector is untouched.
pub fn partition(vec: &mut Vec<i32>, lo: usize, hi: usize) -> (p: usize)
    requires
        lo < hi <= old(vec)@.len(),
    ensures
        final(vec)@.len() == old(vec)@.len(),
        forall|k: int| 0 <= k < old(vec)@.len() && !(lo <= k < hi) ==> final(vec)@[k] == old(
            vec,
        )@[k],
        lo <= p < hi,
        final(vec)@.subrange(lo as int, hi as int).to_multiset() == old(vec)@.subrange(
            lo as int,
            hi as int,
        ).to_multiset(),
        final(vec)@[p as int] == old(vec)@[hi - 1],
        forall|k: int| lo <= k < p ==> final(vec)@[k] <= final(vec)@[p as int],
        forall|k: int| p < k < hi ==> final(vec)@[k] > final(vec)@[p as int],
{
    let ghost orig = old(vec)@;
    let pivot = vec[hi - 1];
    let mut i: usize = lo;
    let mut j: usize = lo;
    while j < hi - 1
        invariant
            lo <= i <= j <= hi - 1,
            hi <= vec@.len(),
            lo < hi,
            vec@.len() == orig.len(),
            vec@[hi - 1] == pivot,
            pivot == orig[hi - 1],
            forall|k: int| 0 <= k < orig.len() && !(lo <= k < hi) ==> vec@[k] == orig[k],
            vec@.subrange(lo as int, hi as int).to_multiset() == orig.subrange(
                lo as int,
                hi as int,
            ).to_multiset(),
            forall|k: int| lo <= k < i ==> vec@[k] <= pivot,
            forall|k: int| i <= k < j ==> vec@[k] > pivot,
        decreases hi - 1 - j,
    {
        if vec[j] <= pivot {
            let ghost before = vec@;
            proof {
                lemma_swap_in_range(before, lo as int, hi as int, i as int, j as int);
            }
            swap_elems(vec, i, j);
            i = i + 1;
        }
        j = j + 1;
    }
    let ghost before = vec@;
    proof {
        lemma_swap_in_range(before, lo as int, hi as int, i as int, hi - 1);
    }
    swap_elems(vec, i, hi - 1);
    i
}

/// Quicksort the window `[lo, hi)` in place: afterwards the window is
/// sorted and holds the same multiset of entries, and nothing outside it
/// has moved.
pub fn do_quicksort(vec: &mut Vec<i32>, lo: usize, hi: usize)
    requires
        lo <= hi <= old(vec)@.len(),
    ensures
        final(vec)@.len() == old(vec)@.len(),
        forall|k: int| 0 <= k < old(vec)@.len() && !(lo <= k < hi) ==> final(vec)@[k] == old(
            vec,
        )@[k],
        final(vec)@.subrange(lo as int, hi as int).to_multiset() == old(vec)@.subrange(
            lo as int,
            hi as int,
        ).to_multiset(),
        sorted_range(final(vec)@, lo as int, hi as int),
    decreases hi - lo,
{
    let ghost orig = old(vec)@;
    if hi - lo < 2 {
        return ;
    }
    let p = partition(vec, lo, hi);
    let ghost v1 = vec@;
    let ghost pivot = v1[p as int];
    do_quicksort(vec, lo, p);
    let ghost v2 = vec@;
    proof {
        assert(v2[p as int] == pivot);
        lemma_bound_transfer_le(v1, v2, lo as int, p as int, pivot);
    }
    do_quicksort(vec, p + 1, hi);
    let ghost v3 = vec@;
    proof {
        assert(v3[p as int] == pivot);
        assert(forall|k: int| lo <= k < p ==> v3[k] == v2[k]);
        assert(forall|k: int| lo <= k < p ==> v3[k] <= pivot);
        assert(v2.subrange(p + 1, hi as int) =~= v1.subrange(p + 1, hi as int));
        lemma_bound_transfer_gt(v1, v3, p + 1, hi as int, pivot);
        // Sortedness of the whole window from the three pieces.
        assert(sorted_range(v3, lo as int, p as int)) by {
            assert(forall|x: int, y: int|
                lo <= x < y < p ==> v3[x] == v2[x] && v3[y] == v2[y]);
        }
        assert forall|x: int, y: int| lo <= x < y < hi implies v3[x] <= v3[y] by {
            if y <= p {
                if y < p {
                } else {
                    assert(v3[x] <= pivot);
                }
            } else {
                if x < p {
                    assert(v3[x] <= pivot && pivot < v3[y]);
                } else if x == p {
                    assert(pivot < v3[y]);
                }
            }
        }
        // The window's multiset is preserved through both recursive sorts.
        lemma_multiset_split(v1, lo as int, p as int, hi as int);
        lemma_multiset_split(v1, p as int, p + 1, hi as int);
        lemma_multiset_split(v3, lo as int, p as int, hi as int);
        lemma_multiset_split(v3, p as int, p + 1, hi as int);
        assert(v3.subrange(lo as int, p as int).to_multiset() == v1.subrange(
            lo as int,
            p as int,
        ).to_multiset()) by {
            assert(v3.subrange(lo as int, p as int) =~= v2.subrange(lo as int, p as int));
        }
        assert(v3.subrange(p as int, p + 1).to_multiset() == v1.subrange(
            p as int,
            p + 1,
        ).to_multiset()) by {
            assert(v3.subrange(p as int, p + 1) =~= v1.subrange(p as int, p + 1));
        }
        assert(v3.subrange(p + 1, hi as int).to_multiset() == v1.subrange(
            p + 1,
            hi as int,
        ).to_multiset()) by {
            assert(v2.subrange(p + 1, hi as int) =~= v1.subrange(p + 1, hi as int));
        }
    }
}

/// Quicksort a whole vector: the result is sorted and a permutation of the
/// input.
pub fn quicksort(vec: &mut Vec<i32>)
    ensures
        final(vec)@.len() == old(vec)@.len(),
        final(vec)@.to_multiset() == old(vec)@.to_multiset(),
        sorted_range(final(vec)@, 0, final(vec)@.len() as int),
{
    let n = vec.len();
    do_quicksort(vec, 0, n);
    proof {
        assert(final(vec)@.subrange(0, n as int) =~= final(vec)@);
        assert(old(vec)@.subrange(0, n as int) =~= old(vec)@);
    }
}

/// A customer record: an identifier and how many purchases they made.
pub struct Customer {
    pub id: String,
    pub num_purchases: i32,
}

/// How many of the first `j` records have a purchase count below `bound`.
pub open spec fn count_below(s: Seq<Customer>, j: int, bound: int) -> int
    decreases j,
{
    if j <= 0 {
        0
    } else {
        count_below(s, j - 1, bound) + (if s[j - 1].num_purchases < bound {
            1int
        } else {
            0int
        })
    }
}

/// How many of the first `j` records have a purchase count of exactly
/// `val`.
pub open spec fn count_eq(s: Seq<Customer>, j: int, val: int) -> int
    decreases j,
{
    if j <= 0 {
        0
    } else {
        count_eq(s, j - 1, val) + (if s[j - 1].num_purchases == val {
            1int
        } else {
            0int
        })
    }
}

/// Nothing counts below a bound of zero when every entry is non-negative.
proof fn lemma_count_below_zero(s: Seq<Customer>, j: int)
    requires
        forall|t: int| 0 <= t < s.len() ==> 0 <= (#[trigger] s[t]).num_purchases,
        j <= s.len(),
    ensures
        count_below(s, j, 0) == 0,
    decreases j,
{
    if j > 0 {
        lemma_count_below_zero(s, j - 1);
    }
}

/// Counting below a bound splits into counting below the predecessor and
/// counting the exact predecessor value.
proof fn lemma_count_split(s: Seq<Customer>, j: int, bound: int)
    requires
        1 <= bound,
    ensures
        count_below(s, j, bound) == count_below(s, j, bound - 1) + count_eq(s, j, bound - 1),
    decreases j,
{
    if j > 0 {
        lemma_count_split(s, j - 1, bound);
    }
}

/// When every purchase count is below the bound, the count below it covers
/// every record.
proof fn lemma_count_all(s: Seq<Customer>, j: int, bound: int)
    requires
        0 <= j <= s.len(),
        forall|t: int| 0 <= t < s.len() ==> (#[trigger] s[t]).num_purchases < bound,
    ensures
        count_below(s, j, bound) == j,
    decreases j,
{
    if j > 0 {
        lemma_count_all(s, j - 1, bound);
    }
}

/// The view of a record: its identifier's characters and its purchase
/// count.
pub open spec fn customer_views(s: Seq<Customer>) -> Seq<(Seq<char>, i32)> {
    Seq::new(s.len(), |i: int| (s[i].id@, s[i].num_purchases))
}

/// The records among the first `u` whose purchase count is exactly `val`,
/// in their original order.
pub open spec fn bucket_prefix(cv: Seq<(Seq<char>, i32)>, val: int, u: int) -> Seq<
    (Seq<char>, i32),
>
    decreases u,
{
    if u <= 0 {
        Seq::empty()
    } else {
        let rest = bucket_prefix(cv, val, u - 1);
        if cv[u - 1].1 == val {
            rest.push(cv[u - 1])
        } else {
            rest
        }
    }
}

/// The buckets for every value below `v`, concatenated in value order: the
/// stable counting-sort of the records with counts below `v`.
pub open spec fn buckets_below(cv: Seq<(Seq<char>, i32)>, v: int, u: int) -> Seq<
    (Seq<char>, i32),
>
    decreases v,
{
    if v <= 0 {
        Seq::empty()
    } else {
        buckets_below(cv, v - 1, u) + bucket_prefix(cv, v - 1, u)
    }
}

/// Sort customer records by purchase count with a counting pass per value.
/// The result is pinned exactly: it reads as the input's buckets in value
/// order, each bucket keeping the input order — so it is a stable
/// permutation of the input, sorted by purchase count.
pub fn counting_sort(vec: &Vec<Customer>, max: i32) -> (r: Vec<Customer>)
    requires
        0 < max,
        forall|t: int| 0 <= t < vec@.len() ==> 0 <= (#[trigger] vec@[t]).num_purchases < max,
    ensures
        r@.len() == vec@.len(),
        customer_views(r@) == buckets_below(
            customer_views(vec@),
            max as int,
            vec@.len() as int,
        ),
        forall|x: int, y: int|
            0 <= x < y < r@.len() ==> (#[trigger] r@[x]).num_purchases <= (
            #[trigger] r@[y]).num_purchases,
        forall|t: int|
            0 <= t < r@.len() ==> exists|u: int|
                0 <= u < vec@.len() && (#[trigger] r@[t]).num_purchases
                    == vec@[u].num_purchases && r@[t].id@ == vec@[u].id@,
{
    let ghost s = vec@;
    proof {
        lemma_count_below_zero(s, s.len() as int);
    }
    let mut rvec: Vec<Customer> = Vec::new();
    proof {
        assert(customer_views(rvec@) =~= Seq::<(Seq<char>, i32)>::empty());
    }
    let mut val: i32 = 0;
    while val < max
        invariant
            vec@ == s,
            0 <= val <= max,
            forall|t: int| 0 <= t < s.len() ==> 0 <= (#[trigger] s[t]).num_purchases < max,
            rvec@.len() == count_below(s, s.len() as int, val as int),
            customer_views(rvec@) == buckets_below(customer_views(s), val as int, s.len() as int),
            forall|t: int| 0 <= t < rvec@.len() ==> (#[trigger] rvec@[t]).num_purchases < val,
            forall|x: int, y: int|
                0 <= x < y < rvec@.len() ==> (#[trigger] rvec@[x]).num_purchases <= (
                #[trigger] rvec@[y]).num_purchases,
            forall|t: int|
                0 <= t < rvec@.len() ==> exists|u: int|
                    0 <= u < s.len() && (#[trigger] rvec@[t]).num_purchases
                        == s[u].num_purchases && rvec@[t].id@ == s[u].id@,
        decreases max - val,
    {
        let mut u: usize = 0;
        while u < vec.len()
            invariant
                vec@ == s,
                0 <= u <= s.len(),
                0 <= val < max,
                forall|t: int| 0 <= t < s.len() ==> 0 <= (#[trigger] s[t]).num_purchases < max,
                rvec@.len() == count_below(s, s.len() as int, val as int) + count_eq(
                    s,
                    u as int,
                    val as int,
                ),
                customer_views(rvec@) == buckets_below(
                    customer_views(s),
                    val as int,
                    s.len() as int,
                ) + bucket_prefix(customer_views(s), val as int, u as int),
                forall|t: int| 0 <= t < rvec@.len() ==> (#[trigger] rvec@[t]).num_purchases
                    <= val,
                forall|x: int, y: int|
                    0 <= x < y < rvec@.len() ==> (#[trigger] rvec@[x]).num_purchases <= (
                    #[trigger] rvec@[y]).num_purchases,
                forall|t: int|
                    0 <= t < rvec@.len() ==> exists|uu: int|
                        0 <= uu < s.len() && (#[trigger] rvec@[t]).num_purchases
                            == s[uu].num_purchases && rvec@[t].id@ == s[uu].id@,
            decreases s.len() - u,
        {
            let ghost before = rvec@;
            if vec[u].num_purchases == val {
                let copied = Customer { id: vec[u].id.clone(), num_purchases: vec[u].num_purchases };
                proof {
                    assert(copied.id@ == s[u as int].id@);
                }
                rvec.push(copied);
                proof {
                    let t = rvec@.len() - 1;
                    assert(rvec@[t].num_purchases == s[u as int].num_purchases && rvec@[t].id@
                        == s[u as int].id@);
                    assert(customer_views(rvec@) =~= customer_views(before).push(
                        (s[u as int].id@, s[u as int].num_purchases),
                    ));
                    assert(customer_views(s)[u as int] == (
                        s[u as int].id@,
                        s[u as int].num_purchases,
                    ));
                }
            } else {
                proof {
                    assert(customer_views(s)[u as int].1 != val);
                }
            }
            u = u + 1;
        }
        proof {
            lemma_count_split(s, s.len() as int, val + 1);
            assert(buckets_below(customer_views(s), val + 1, s.len() as int) == buckets_below(
                customer_views(s),
                val as int,
                s.len() as int,
            ) + bucket_prefix(customer_views(s), val as int, s.len() as int));
        }
        val = val + 1;
    }
    proof {
        lemma_count_all(s, s.len() as int, max as int);
    }
    rvec
}

} // verus!
