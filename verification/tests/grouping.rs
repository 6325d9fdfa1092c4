use pdf2ptext::grouping::group_by;

#[test]
fn run_length_groups_are_not_merged_across_breaks() {
    let groups = group_by(vec![1u32, 1, 1, 2, 1], |x: &u32| *x);
    assert_eq!(groups, vec![vec![1u32, 1, 1], vec![2], vec![1]]);
}

#[test]
fn grouping_is_lossless_and_order_preserving() {
    let input = vec![3u32, 3, 5, 5, 5, 2, 3, 3];
    let groups = group_by(input.clone(), |x: &u32| *x);
    let flattened: Vec<u32> = groups.iter().flatten().copied().collect();
    assert_eq!(flattened, input);
    for pair in groups.windows(2) {
        assert_ne!(pair[0][0], pair[1][0]);
    }
    for g in &groups {
        assert!(!g.is_empty());
        for x in g {
            assert_eq!(*x, g[0]);
        }
    }
}

#[test]
fn grouping_by_a_key_function_uses_the_key_not_the_item() {
    let groups = group_by(vec![10u32, 20, 21, 31], |x: &u32| *x / 10);
    assert_eq!(groups, vec![vec![10u32], vec![20, 21], vec![31]]);
}

#[test]
fn grouping_empty_input_yields_no_groups() {
    let groups = group_by(Vec::<u32>::new(), |x: &u32| *x);
    assert!(groups.is_empty());
}

#[test]
fn grouping_single_item_yields_one_group() {
    let groups = group_by(vec![7u32], |x: &u32| *x);
    assert_eq!(groups, vec![vec![7u32]]);
}
