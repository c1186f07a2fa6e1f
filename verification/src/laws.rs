//! The cross-cutting guarantees of the knapsack suite, stated once as
//! public lemmas over the same spec functions the solver contracts use.

use vstd::prelude::*;

use crate::dominance::{
    agree_for_search, blists_ok, lemma_dom_seq_contains, lemma_rods_opt_agree,
    lemma_rods_opt_le_opt, rods_opt,
};
use crate::dynamic::{lemma_opt_pre_complete, opt_pre};
use crate::items::{same_stock, values_ok, weights_ok, Item};
use crate::optimum::{lemma_opt_from_agree, opt_from};

verus! {

/// Cross-strategy agreement.  Exhaustive search, branch-and-bound and the
/// dynamic-programming solver each promise the value `opt_from(s, 0, cap)`
/// outright; this law adds that the table's prefix optimum is that same
/// number, and that for a meaningful capacity the dominance-pruned search
/// reaches it exactly.
pub proof fn law_strategy_agreement(s: Seq<Item>, cap: int)
    requires
        values_ok(s),
        weights_ok(s),
    ensures
        opt_pre(s, s.len() as int, cap) == opt_from(s, 0, cap),
        rods_opt(s, 0, cap) <= opt_from(s, 0, cap),
        0 <= cap ==> rods_opt(s, 0, cap) == opt_from(s, 0, cap),
{
    lemma_opt_pre_complete(s, cap);
    lemma_rods_opt_le_opt(s, 0, cap);
    if 0 <= cap {
        crate::exchange::lemma_rods_complete(s, cap);
    }
}

/// Block-list membership.  After `make_block_lists`, an identifier sits in
/// an item's block list exactly when it names a different item that is no
/// more valuable and no lighter.
pub proof fn law_block_list_membership(s: Seq<Item>, a: int, b: usize)
    requires
        blists_ok(s),
        0 <= a < s.len(),
        s.len() <= usize::MAX,
    ensures
        s[a].block_list@.contains(b) <==> (b < s.len() && a != b && s[a].value
            >= s[b as int].value && s[a].weight <= s[b as int].weight),
{
    lemma_dom_seq_contains(s, a, s.len() as int, b);
}

/// Independence from cloning.  Two catalogs that carry the same stock —
/// such as two clones of one catalog, whatever scratch state either has
/// accumulated — have the same optimum under every strategy's contract, so
/// repeated runs on independently cloned copies return the same value.
pub proof fn law_clones_agree(s1: Seq<Item>, s2: Seq<Item>, cap: int)
    requires
        same_stock(s1, s2),
        values_ok(s1),
        weights_ok(s1),
    ensures
        opt_from(s1, 0, cap) == opt_from(s2, 0, cap),
        opt_pre(s1, s1.len() as int, cap) == opt_pre(s2, s2.len() as int, cap),
        rods_opt(s1, 0, cap) == rods_opt(s2, 0, cap),
{
    lemma_opt_from_agree(s1, s2, 0, cap);
    assert(values_ok(s2) && weights_ok(s2)) by {
        assert forall|i: int| 0 <= i < s2.len() implies 0 <= (#[trigger] s2[i]).value && 1
            <= s2[i].weight by {
            assert(s2[i].value == s1[i].value && s2[i].weight == s1[i].weight);
        }
    }
    lemma_opt_pre_complete(s1, cap);
    lemma_opt_pre_complete(s2, cap);
    assert(agree_for_search(s1, s2, 0));
    lemma_rods_opt_agree(s1, s2, 0, cap);
}

} // verus!
