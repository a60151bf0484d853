use bounded_knapsack::index::Costs;

#[test]
fn end_is_product_minus_one() {
    let c = Costs(vec![10]);
    assert_eq!(c.end(), 10);
    let c = Costs(vec![2, 3]);
    assert_eq!(c.end(), 11);
    let c = Costs(vec![0]);
    assert_eq!(c.end(), 0);
    let c = Costs(vec![1, 1, 1]);
    assert_eq!(c.end(), 7);
}

#[test]
fn iter_covers_the_whole_index_space() {
    let c = Costs(vec![2, 3]);
    let r = c.iter();
    assert_eq!(*r.start(), 0);
    assert_eq!(*r.end(), 11);
    assert_eq!(r.count(), 12);
}

#[test]
fn encode_decode_round_trip() {
    let c = Costs(vec![2, 3]);
    for i in 0..12 {
        let vec = c.to_cost(i);
        assert_eq!(c.to_idx(&vec), i);
    }
}

#[test]
fn decode_encode_round_trip() {
    let c = Costs(vec![2, 3]);
    for a in 0..=2 {
        for b in 0..=3 {
            let v = vec![a, b];
            assert_eq!(c.to_cost(c.to_idx(&v)), v);
        }
    }
}

#[test]
fn to_idx_is_mixed_radix() {
    let c = Costs(vec![2, 3]);
    // dimension 0 is the most significant digit, radix of dimension 1 is 4
    assert_eq!(c.to_idx(&[0, 0]), 0);
    assert_eq!(c.to_idx(&[0, 3]), 3);
    assert_eq!(c.to_idx(&[1, 0]), 4);
    assert_eq!(c.to_idx(&[2, 3]), 11);
}

#[test]
fn to_cost_extracts_digits() {
    let c = Costs(vec![2, 3]);
    assert_eq!(c.to_cost(0), vec![0, 0]);
    assert_eq!(c.to_cost(5), vec![1, 1]);
    assert_eq!(c.to_cost(11), vec![2, 3]);
}

#[test]
fn validate_sub_feasible() {
    let c = Costs(vec![2, 3]);
    // spending [1, 2] out of budget [2, 3] lands on the index of [1, 1]
    assert_eq!(c.validate_sub(&[2, 3], &[1, 2]), Some(c.to_idx(&[1, 1])));
    // spending nothing stays in place
    assert_eq!(c.validate_sub(&[1, 2], &[0, 0]), Some(c.to_idx(&[1, 2])));
}

#[test]
fn validate_sub_infeasible() {
    let c = Costs(vec![2, 3]);
    assert_eq!(c.validate_sub(&[2, 3], &[3, 0]), None);
    assert_eq!(c.validate_sub(&[1, 1], &[0, 2]), None);
}

#[test]
fn single_dimension_index_is_identity() {
    let c = Costs(vec![7]);
    for i in 0..=7 {
        assert_eq!(c.to_idx(&[i]), i);
        assert_eq!(c.to_cost(i), vec![i]);
    }
}
