use classic_algos::branch_bound::branch_and_bound;
use classic_algos::dominance::{make_block_lists, reorder_by_block_len, rods_technique, rods_technique_sorted};
use classic_algos::dynamic::{dp_base_row, dynamic_programming};
use classic_algos::exhaustive::exhaustive_search;
use classic_algos::items::{copy_items, solution_value, sum_values, sum_weights, Item};

fn item(id: usize, value: i64, weight: i64) -> Item {
    Item { id, value, weight, is_selected: false, blocked_by: None, block_list: Vec::new() }
}

fn catalog(pairs: &[(i64, i64)]) -> Vec<Item> {
    let mut items = Vec::new();
    for (i, (v, w)) in pairs.iter().enumerate() {
        items.push(item(i, *v, *w));
    }
    items
}

fn selected_weight(solution: &Vec<Item>) -> i64 {
    sum_weights(solution, false)
}

#[test]
fn three_item_catalog_all_strategies_agree() {
    let pairs = [(60, 10), (100, 20), (120, 30)];
    let allowed = 50;

    let (sol_ex, val_ex, calls_ex) = exhaustive_search(&mut catalog(&pairs), allowed);
    assert_eq!(val_ex, 220);
    assert_eq!(calls_ex, 15);
    assert_eq!(selected_weight(&sol_ex), 50);
    assert!(!sol_ex[0].is_selected && sol_ex[1].is_selected && sol_ex[2].is_selected);

    let (sol_bb, val_bb, _) = branch_and_bound(&mut catalog(&pairs), allowed);
    assert_eq!(val_bb, 220);
    assert!(selected_weight(&sol_bb) <= allowed);

    let (sol_rt, val_rt, _) = rods_technique(&mut catalog(&pairs), allowed);
    assert_eq!(val_rt, 220);
    assert!(selected_weight(&sol_rt) <= allowed);

    let (sol_rs, val_rs, _) = rods_technique_sorted(&mut catalog(&pairs), allowed);
    assert_eq!(val_rs, 220);
    assert!(selected_weight(&sol_rs) <= allowed);

    let (sol_dp, val_dp, calls_dp) = dynamic_programming(&mut catalog(&pairs), allowed);
    assert_eq!(val_dp, 220);
    assert_eq!(calls_dp, 1);
    assert_eq!(selected_weight(&sol_dp), 50);
}

#[test]
fn empty_catalog_gives_zero_and_empty_solution() {
    let allowed = 7;
    let (sol, val, _) = exhaustive_search(&mut Vec::new(), allowed);
    assert_eq!(val, 0);
    assert_eq!(sol.len(), 0);
    let (_, val, _) = branch_and_bound(&mut Vec::new(), allowed);
    assert_eq!(val, 0);
    let (_, val, _) = rods_technique(&mut Vec::new(), allowed);
    assert_eq!(val, 0);
    let (_, val, _) = rods_technique_sorted(&mut Vec::new(), allowed);
    assert_eq!(val, 0);
    let (sol, val, _) = dynamic_programming(&mut Vec::new(), allowed);
    assert_eq!(val, 0);
    assert_eq!(sol.len(), 0);
}

#[test]
fn single_too_heavy_item_is_excluded() {
    let pairs = [(5, 10)];
    let allowed = 5;
    let (sol, val, _) = exhaustive_search(&mut catalog(&pairs), allowed);
    assert_eq!(val, 0);
    assert!(!sol[0].is_selected);
    let (_, val, _) = branch_and_bound(&mut catalog(&pairs), allowed);
    assert_eq!(val, 0);
    let (_, val, _) = rods_technique(&mut catalog(&pairs), allowed);
    assert_eq!(val, 0);
    let (_, val, _) = rods_technique_sorted(&mut catalog(&pairs), allowed);
    assert_eq!(val, 0);
    let (_, val, _) = dynamic_programming(&mut catalog(&pairs), allowed);
    assert_eq!(val, 0);
}

#[test]
fn strategies_agree_on_a_larger_catalog() {
    let pairs = [(7, 3), (2, 1), (9, 5), (4, 2), (4, 2), (10, 6), (1, 1), (3, 4)];
    let allowed = 11;
    let (_, val_ex, _) = exhaustive_search(&mut catalog(&pairs), allowed);
    let (_, val_bb, _) = branch_and_bound(&mut catalog(&pairs), allowed);
    let (_, val_rt, _) = rods_technique(&mut catalog(&pairs), allowed);
    let (_, val_rs, _) = rods_technique_sorted(&mut catalog(&pairs), allowed);
    let (_, val_dp, _) = dynamic_programming(&mut catalog(&pairs), allowed);
    assert_eq!(val_ex, val_bb);
    assert_eq!(val_ex, val_rt);
    assert_eq!(val_ex, val_rs);
    assert_eq!(val_ex, val_dp);
}

#[test]
fn repeated_runs_on_cloned_catalogs_are_identical() {
    let pairs = [(6, 2), (5, 3), (8, 4), (3, 1)];
    let allowed = 7;
    for run in [
        rods_technique as fn(&mut Vec<Item>, i64) -> (Vec<Item>, i64, i64),
        rods_technique_sorted,
        exhaustive_search,
        branch_and_bound,
        dynamic_programming,
    ] {
        let (sol1, val1, calls1) = run(&mut catalog(&pairs), allowed);
        let (sol2, val2, calls2) = run(&mut catalog(&pairs), allowed);
        assert_eq!(val1, val2);
        assert_eq!(calls1, calls2);
        assert_eq!(sol1.len(), sol2.len());
        for (a, b) in sol1.iter().zip(sol2.iter()) {
            assert_eq!(a.value, b.value);
            assert_eq!(a.weight, b.weight);
            assert_eq!(a.is_selected, b.is_selected);
        }
    }
}

#[test]
fn identical_items_dominate_each_other_yet_both_fit() {
    // Two equal items each dominate the other; the pruned searches must
    // still take both when they fit.
    let pairs = [(5, 2), (5, 2)];
    let allowed = 4;
    let (_, val_ex, _) = exhaustive_search(&mut catalog(&pairs), allowed);
    let (_, val_rt, _) = rods_technique(&mut catalog(&pairs), allowed);
    let (_, val_rs, _) = rods_technique_sorted(&mut catalog(&pairs), allowed);
    let (_, val_dp, _) = dynamic_programming(&mut catalog(&pairs), allowed);
    assert_eq!(val_ex, 10);
    assert_eq!(val_rt, 10);
    assert_eq!(val_rs, 10);
    assert_eq!(val_dp, 10);
    // With room for only one of them, one is taken.
    let (_, val_one, _) = rods_technique(&mut catalog(&pairs), 2);
    assert_eq!(val_one, 5);
}

#[test]
fn zero_allowance_takes_nothing() {
    let pairs = [(60, 10), (100, 20)];
    let (sol, val, _) = exhaustive_search(&mut catalog(&pairs), 0);
    assert_eq!(val, 0);
    assert_eq!(selected_weight(&sol), 0);
    let (_, val, _) = branch_and_bound(&mut catalog(&pairs), 0);
    assert_eq!(val, 0);
    let (_, val, _) = rods_technique(&mut catalog(&pairs), 0);
    assert_eq!(val, 0);
    let (_, val, _) = rods_technique_sorted(&mut catalog(&pairs), 0);
    assert_eq!(val, 0);
    let (_, val, _) = dynamic_programming(&mut catalog(&pairs), 0);
    assert_eq!(val, 0);
}

#[test]
fn block_lists_hold_exactly_the_dominated_items() {
    let pairs = [(60, 10), (100, 20), (60, 15), (100, 10)];
    let mut items = catalog(&pairs);
    make_block_lists(&mut items);
    // Item 0 dominates only item 2 (same value, lighter).
    assert_eq!(items[0].block_list, vec![2]);
    // Item 1 dominates nothing: everything lighter is allowed to survive.
    assert_eq!(items[1].block_list, Vec::<usize>::new());
    // Item 2 dominates nothing.
    assert_eq!(items[2].block_list, Vec::<usize>::new());
    // Item 3 dominates 0 (same weight, more value), 1 (same value, lighter)
    // and 2 (more value, lighter).
    assert_eq!(items[3].block_list, vec![0, 1, 2]);
}

#[test]
fn reorder_sorts_by_block_list_length() {
    let pairs = [(60, 10), (100, 20), (60, 15), (100, 10)];
    let mut items = catalog(&pairs);
    make_block_lists(&mut items);
    reorder_by_block_len(&mut items);
    for w in items.windows(2) {
        assert!(w[0].block_list.len() >= w[1].block_list.len());
    }
    assert_eq!(items[0].block_list.len(), 3);
}

#[test]
fn dp_tie_breaks_toward_exclusion_of_later_items() {
    // Two equal items, room for one: the table's tie rule keeps the earlier
    // item (the base row takes when it fits; later rows exclude on ties).
    let pairs = [(3, 2), (3, 2)];
    let (sol, val, calls) = dynamic_programming(&mut catalog(&pairs), 2);
    assert_eq!(val, 3);
    assert!(sol[0].is_selected);
    assert!(!sol[1].is_selected);
    assert_eq!(calls, 1);
    // The search strategies break the same tie the other way.
    let (sol_ex, val_ex, _) = exhaustive_search(&mut catalog(&pairs), 2);
    assert_eq!(val_ex, 3);
    assert!(sol_ex[0].is_selected);
    assert!(!sol_ex[1].is_selected);
}

#[test]
fn dp_base_row_boundary() {
    let (values, prev) = dp_base_row(60, 10, 16);
    for w in 0..10 {
        assert_eq!(values[w], 0);
        assert_eq!(prev[w], w as i64);
    }
    for w in 10..16 {
        assert_eq!(values[w], 60);
        assert_eq!(prev[w], -1);
    }
}

#[test]
fn catalog_queries_sum_and_score() {
    let pairs = [(60, 10), (100, 20), (120, 30)];
    let mut items = catalog(&pairs);
    assert_eq!(sum_values(&items, true), 280);
    assert_eq!(sum_weights(&items, true), 60);
    assert_eq!(sum_values(&items, false), 0);
    items[1].is_selected = true;
    items[2].is_selected = true;
    assert_eq!(sum_values(&items, false), 220);
    assert_eq!(sum_weights(&items, false), 50);
    assert_eq!(solution_value(&items, 50), 220);
    assert_eq!(solution_value(&items, 49), -1);
    let copied = copy_items(&items);
    assert_eq!(copied.len(), 3);
    assert_eq!(copied[1].value, 100);
    assert!(copied[1].is_selected);
    assert!(copied[1].block_list.is_empty());
}
