//! Linear and binary search over a vector, each returning the index found —
//! or `-1` — together with the number of comparisons made.

use vstd::prelude::*;

use vstd::arithmetic::power2::{lemma2_to64, lemma_pow2_adds, pow2};

verus! {

/// Scan the vector front to back.  Returns the index of the first
/// occurrence of `target` and the number of tests made, or `-1` and one
/// test per element when it is absent.
pub fn linear_search(vec: &Vec<i32>, target: i32) -> (r: (i32, i32))
    requires
        vec@.len() < 0x8000_0000,
    ensures
        -1 <= r.0 < vec@.len(),
        r.0 == -1 ==> r.1 == vec@.len() && (forall|j: int| 0 <= j < vec@.len() ==> vec@[j]
            != target),
        r.0 >= 0 ==> vec@[r.0 as int] == target && r.1 == r.0 + 1 && (forall|j: int|
            0 <= j < r.0 ==> vec@[j] != target),
{
    let mut num_tests: i32 = 0;
    let mut i: usize = 0;
    while i < vec.len()
        invariant
            vec@.len() < 0x8000_0000,
            0 <= i <= vec@.len(),
            num_tests == i,
            forall|j: int| 0 <= j < i ==> vec@[j] != target,
        decreases vec@.len() - i,
    {
        num_tests = num_tests + 1;
        if vec[i] == target {
            return (i as i32, num_tests);
        }
        i = i + 1;
    }
    (-1, num_tests)
}

/// Binary search over a sorted vector.  Returns an index holding `target`
/// and the number of probes, or `-1` when the target is absent.  Each probe
/// at least halves the window, so the count is logarithmic: one less than
/// it, as an exponent of two, stays within the length.
pub fn binary_search(vec: &Vec<i32>, target: i32) -> (r: (i32, i32))
    requires
        vec@.len() < 0x8000_0000,
        forall|i: int, j: int| 0 <= i < j < vec@.len() ==> vec@[i] <= vec@[j],
    ensures
        -1 <= r.0 < vec@.len(),
        r.0 >= 0 ==> vec@[r.0 as int] == target,
        r.0 == -1 ==> forall|j: int| 0 <= j < vec@.len() ==> vec@[j] != target,
        0 <= r.1 <= vec@.len(),
        r.1 == 0 || pow2((r.1 - 1) as nat) <= vec@.len(),
{
    let ghost n = vec@.len() as int;
    let mut lo: usize = 0;
    let mut hi: usize = vec.len();
    let mut num_tests: i32 = 0;
    proof {
        lemma2_to64();
        assert(pow2(0) == 1);
        assert((hi - lo) * pow2(0nat) == hi - lo) by (nonlinear_arith)
            requires
                pow2(0nat) == 1,
        ;
    }
    while lo < hi
        invariant
            n == vec@.len(),
            vec@.len() < 0x8000_0000,
            0 <= lo <= hi <= vec@.len(),
            forall|i: int, j: int| 0 <= i < j < vec@.len() ==> vec@[i] <= vec@[j],
            forall|j: int| 0 <= j < vec@.len() && !(lo <= j < hi) ==> vec@[j] != target,
            0 <= num_tests,
            num_tests + hi - lo <= vec@.len(),
            (hi - lo) * pow2(num_tests as nat) <= n,
            num_tests == 0 || pow2((num_tests - 1) as nat) <= n,
        decreases hi - lo,
    {
        proof {
            vstd::arithmetic::power2::lemma_pow2_pos(num_tests as nat);
            assert(pow2(num_tests as nat) <= (hi - lo) * pow2(num_tests as nat))
                by (nonlinear_arith)
                requires
                    1 <= hi - lo,
                    0 < pow2(num_tests as nat),
            ;
        }
        num_tests = num_tests + 1;
        let index = lo + (hi - lo) / 2;
        proof {
            lemma_pow2_adds(1, (num_tests - 1) as nat);
            lemma2_to64();
            assert(pow2(num_tests as nat) == 2 * pow2((num_tests - 1) as nat));
        }
        if vec[index] == target {
            return (index as i32, num_tests);
        } else {
            let ghost w_old = hi - lo;
            if vec[index] < target {
                lo = index + 1;
            } else {
                hi = index;
            }
            proof {
                assert(2 * (hi - lo) <= w_old);
                assert((hi - lo) * pow2(num_tests as nat) <= n) by (nonlinear_arith)
                    requires
                        2 * (hi - lo) <= w_old,
                        pow2(num_tests as nat) == 2 * pow2((num_tests - 1) as nat),
                        w_old * pow2((num_tests - 1) as nat) <= n,
                        0 < pow2((num_tests - 1) as nat),
                ;
            }
        }
    }
    (-1, num_tests)
}

} // verus!
