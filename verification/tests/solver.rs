use bounded_knapsack::solver::{CheckError, Problem, Solution, Thing, UncheckedProblem};

fn thing(name: &str, value: u64, num: usize, costs: Vec<usize>) -> Thing {
    Thing { name: name.to_string(), value, num, costs }
}

fn solve(things: Vec<Thing>, costs: Vec<usize>) -> Solution {
    UncheckedProblem { things, costs }.check().unwrap().solve()
}

fn clone_things(items: &[Thing]) -> Vec<Thing> {
    items
        .iter()
        .map(|t| Thing {
            name: t.name.clone(),
            value: t.value,
            num: t.num,
            costs: t.costs.clone(),
        })
        .collect()
}

fn quantity(sol: &Solution, name: &str) -> usize {
    sol.chosen
        .iter()
        .find(|(n, _)| n == name)
        .map(|(_, q)| *q)
        .unwrap()
}

#[test]
fn one_dimension_count_limited() {
    // bound [10], item A: value 6, count 5, cost [2]: all five copies fit
    let sol = solve(vec![thing("A", 6, 5, vec![2])], vec![10]);
    assert_eq!(sol.value, 30);
    assert_eq!(quantity(&sol, "A"), 5);
}

#[test]
fn one_dimension_picks_the_better_item() {
    // brute force over 3 qa + 4 qb <= 5 gives qb = 1
    let sol = solve(
        vec![thing("A", 4, 10, vec![3]), thing("B", 5, 10, vec![4])],
        vec![5],
    );
    assert_eq!(sol.value, 5);
    assert_eq!(quantity(&sol, "A"), 0);
    assert_eq!(quantity(&sol, "B"), 1);
}

#[test]
fn two_dimensions_bound_limited() {
    // bound [2, 2] admits only two copies of X even though five are usable
    let sol = solve(vec![thing("X", 3, 5, vec![1, 1])], vec![2, 2]);
    assert_eq!(sol.value, 6);
    assert_eq!(quantity(&sol, "X"), 2);
}

#[test]
fn zero_capacity_collapses_to_nothing() {
    let sol = solve(vec![thing("Y", 9, 7, vec![1])], vec![0]);
    assert_eq!(sol.value, 0);
    assert_eq!(quantity(&sol, "Y"), 0);
}

#[test]
fn zero_count_item_still_appears() {
    let sol = solve(
        vec![thing("Z", 100, 0, vec![1]), thing("A", 6, 5, vec![2])],
        vec![10],
    );
    assert_eq!(sol.value, 30);
    assert_eq!(quantity(&sol, "Z"), 0);
    assert_eq!(quantity(&sol, "A"), 5);
}

#[test]
fn no_items_at_all() {
    let sol = solve(vec![], vec![4]);
    assert_eq!(sol.value, 0);
    assert!(sol.chosen.is_empty());
}

#[test]
fn value_matches_recomputation() {
    let items = vec![
        thing("a", 7, 3, vec![2, 1]),
        thing("b", 4, 2, vec![1, 2]),
        thing("c", 9, 1, vec![3, 3]),
    ];
    let sol = solve(clone_things(&items), vec![5, 5]);
    let mut total = 0u64;
    for (name, q) in &sol.chosen {
        let it = items.iter().find(|t| &t.name == name).unwrap();
        total += it.value * (*q as u64);
    }
    assert_eq!(sol.value, total);
}

#[test]
fn quantities_stay_within_counts_and_bounds() {
    let items = vec![
        thing("a", 5, 4, vec![1, 2]),
        thing("b", 3, 9, vec![2, 1]),
        thing("c", 8, 2, vec![3, 3]),
    ];
    let bounds = vec![6, 7];
    let sol = solve(clone_things(&items), bounds.clone());
    let mut used = vec![0usize; bounds.len()];
    for (name, q) in &sol.chosen {
        let it = items.iter().find(|t| &t.name == name).unwrap();
        assert!(*q <= it.num);
        for (d, c) in it.costs.iter().enumerate() {
            used[d] += c * q;
        }
    }
    for d in 0..bounds.len() {
        assert!(used[d] <= bounds[d]);
    }
}

#[test]
fn zero_count_leaves_tables_untouched() {
    let mut p = Problem::new(vec![], vec![3]);
    let mut q = Problem::new(vec![], vec![3]);
    let tk_q = q.multi_pack(&[1], 5, 3);
    assert!(tk_q.iter().any(|&t| t > 0));
    let dp_before = p.dp.clone();
    let tk = p.multi_pack(&[1], 5, 0);
    assert_eq!(p.dp, dp_before);
    assert!(tk.iter().all(|&t| t == 0));
}

#[test]
fn single_count_equals_one_pass() {
    let mut a = Problem::new(vec![], vec![4]);
    let mut b = Problem::new(vec![], vec![4]);
    let tk_a = a.multi_pack(&[2], 5, 1);
    let mut tk_b = vec![0usize; 5];
    b.zero_one_pack(&[2], 5, 1, &mut tk_b);
    assert_eq!(a.dp, b.dp);
    assert_eq!(tk_a, tk_b);
}

#[test]
fn solving_twice_gives_the_same_answer() {
    let items = vec![thing("a", 4, 10, vec![3]), thing("b", 5, 10, vec![4])];
    let s1 = solve(clone_things(&items), vec![5]);
    let s2 = solve(clone_things(&items), vec![5]);
    assert_eq!(s1.value, s2.value);
    assert_eq!(s1.chosen, s2.chosen);
}

#[test]
fn duplicate_names_keep_both_entries() {
    let sol = solve(
        vec![thing("same", 1, 1, vec![1]), thing("same", 2, 1, vec![1])],
        vec![2],
    );
    assert_eq!(sol.chosen.len(), 2);
    assert_eq!(sol.chosen[0].0, "same");
    assert_eq!(sol.chosen[1].0, "same");
}

#[test]
fn empty_bound_vector_is_rejected() {
    let r = UncheckedProblem { things: vec![thing("a", 1, 1, vec![])], costs: vec![] }.check();
    assert_eq!(r.err().unwrap(), CheckError::InvalidDimensions);
}

#[test]
fn mismatched_cost_length_is_rejected() {
    let r = UncheckedProblem { things: vec![thing("a", 1, 1, vec![1])], costs: vec![1, 1] }.check();
    assert_eq!(r.err().unwrap(), CheckError::DimensionMismatch);
}

#[test]
fn oversized_index_space_is_rejected() {
    let r = UncheckedProblem { things: vec![], costs: vec![usize::MAX, usize::MAX] }.check();
    assert_eq!(r.err().unwrap(), CheckError::CapacityTooLarge);
}

#[test]
fn oversized_item_is_rejected() {
    let r = UncheckedProblem {
        things: vec![thing("a", 1, usize::MAX, vec![1])],
        costs: vec![1],
    }
    .check();
    assert_eq!(r.err().unwrap(), CheckError::ItemTooLarge);
}

#[test]
fn oversized_total_value_is_rejected() {
    let r = UncheckedProblem {
        things: vec![
            thing("a", u64::MAX / 2, 3, vec![1]),
            thing("b", u64::MAX / 2, 3, vec![1]),
        ],
        costs: vec![1],
    }
    .check();
    assert_eq!(r.err().unwrap(), CheckError::ValueTooLarge);
}

#[test]
fn check_accepts_a_valid_problem() {
    let r = UncheckedProblem { things: vec![thing("a", 6, 5, vec![2])], costs: vec![10] }.check();
    let p = r.unwrap();
    assert_eq!(p.costs.0, vec![10]);
    assert_eq!(p.dp.len(), 11);
    assert!(p.dp.iter().all(|&x| x == 0));
}

#[test]
fn value_table_entries_never_decrease() {
    // a pass with positive value only raises entries
    let mut p = Problem::new(vec![], vec![6]);
    let _ = p.multi_pack(&[2], 3, 2);
    let before = p.dp.clone();
    let _ = p.multi_pack(&[3], 5, 1);
    for (a, b) in before.iter().zip(p.dp.iter()) {
        assert!(b >= a);
    }
}
