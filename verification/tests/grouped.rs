use sortby::SortByError;
use sortby::column::{Column, concat_lists};
use sortby::expr::{Expr, PhysicalExpr, UpdateGroups};
use sortby::groups::GroupsType;
use sortby::sortby::{
    SortByExpr, SortMultipleOptions, SortOptions, check_groups, prepare_bool_vec,
    sort_lists_by, update_groups_sort_by,
};

fn col(xs: &[i64]) -> Column {
    Column { values: xs.iter().map(|&x| Some(x)).collect() }
}

fn opts(descending: Vec<bool>, nulls_last: Vec<bool>) -> SortMultipleOptions {
    SortMultipleOptions {
        descending,
        nulls_last,
        multithreaded: false,
        maintain_order: false,
        limit: None,
    }
}

fn expr() -> Expr {
    Expr { name: String::from("sort_by") }
}

fn idx_groups(gs: &[&[usize]]) -> GroupsType {
    GroupsType::Idx(
        gs.iter()
            .map(|g| (if g.is_empty() { 0 } else { g[0] }, g.to_vec()))
            .collect(),
    )
}

fn group_vectors(g: &GroupsType) -> Vec<Vec<usize>> {
    match g {
        GroupsType::Idx(gs) => gs.iter().map(|(_, idx)| idx.clone()).collect(),
        GroupsType::Slice(gs) => gs
            .iter()
            .map(|&(first, len)| (first..first + len).collect())
            .collect(),
    }
}

#[test]
fn end_to_end_grouped_scenario() {
    // Groups {A: [0,1], B: [2,3]}, key [5,1,9,2], ascending: group A reorders
    // to [1,0], group B to [3,2]; group identities and sizes unchanged.
    let groups = idx_groups(&[&[0, 1], &[2, 3]]);
    let input = col(&[10, 20, 30, 40]);
    let key = col(&[5, 1, 9, 2]);
    let sbe = SortByExpr::new(
        PhysicalExpr::Values(input.clone()),
        vec![PhysicalExpr::Values(key)],
        expr(),
        opts(vec![false], vec![false]),
    );
    let ac = sbe.evaluate_on_groups(&groups).unwrap();
    assert_eq!(ac.values.values, input.values);
    let gv = group_vectors(&ac.groups);
    assert_eq!(gv, vec![vec![1, 0], vec![3, 2]]);
    assert!(matches!(ac.update_groups, UpdateGroups::No));
}

#[test]
fn group_order_and_sizes_preserved() {
    let groups = idx_groups(&[&[3, 0], &[2], &[1, 4]]);
    let input = col(&[9, 8, 7, 6, 5]);
    let key = col(&[1, 9, 5, 2, 3]);
    let sbe = SortByExpr::new(
        PhysicalExpr::Values(input),
        vec![PhysicalExpr::Values(key)],
        expr(),
        opts(vec![false], vec![false]),
    );
    let ac = sbe.evaluate_on_groups(&groups).unwrap();
    let before = group_vectors(&groups);
    let after = group_vectors(&ac.groups);
    assert_eq!(after.len(), before.len());
    for (b, a) in before.iter().zip(after.iter()) {
        assert_eq!(a.len(), b.len());
        let mut bs = b.clone();
        let mut asrt = a.clone();
        bs.sort();
        asrt.sort();
        // Same members per group: only intra-group order changed.
        assert_eq!(bs, asrt);
    }
    // Key values 1 < 2 within group 0: row 3 (key 2) after row 0 (key 1).
    assert_eq!(after[0], vec![0, 3]);
    assert_eq!(after[1], vec![2]);
    // Rows 1 and 4 carry keys 9 and 3: ascending order puts row 4 first.
    assert_eq!(after[2], vec![4, 1]);
}

#[test]
fn consistency_check_failure() {
    // Key-side partition [[0,1],[2]] against input-side [[0],[1,2]]: the
    // grouped single-key evaluation fails with the group-mismatch error.
    let groups = idx_groups(&[&[0], &[1, 2]]);
    let input_vals = col(&[10, 20, 30]);
    let key_vals = col(&[3, 2, 1]);
    let sbe = SortByExpr::new(
        PhysicalExpr::Grouped { values: input_vals, groups: idx_groups(&[&[0], &[1, 2]]) },
        vec![PhysicalExpr::Grouped { values: key_vals, groups: idx_groups(&[&[0, 1], &[2]]) }],
        expr(),
        opts(vec![false], vec![false]),
    );
    assert_eq!(
        sbe.evaluate_on_groups(&groups).unwrap_err(),
        SortByError::GroupsMismatch
    );
}

#[test]
fn key_length_must_match_input_length() {
    let groups = idx_groups(&[&[0, 1], &[2, 3]]);
    let input = col(&[1, 2, 3, 4]);
    let key = col(&[1, 2, 3]);
    let sbe = SortByExpr::new(
        PhysicalExpr::Values(input),
        vec![PhysicalExpr::Values(key)],
        expr(),
        opts(vec![false], vec![false]),
    );
    assert_eq!(
        sbe.evaluate_on_groups(&groups).unwrap_err(),
        SortByError::KeyLengthMismatch {
            key_len: 3,
            input_len: 4,
            expr: String::from("sort_by"),
        }
    );
}

#[test]
fn empty_group_is_a_compute_error() {
    let groups = GroupsType::Idx(vec![(0, vec![0, 1]), (0, vec![])]);
    let input = col(&[1, 2]);
    let key = col(&[2, 1]);
    let sbe = SortByExpr::new(
        PhysicalExpr::Values(input),
        vec![PhysicalExpr::Values(key)],
        expr(),
        opts(vec![false], vec![false]),
    );
    assert_eq!(
        sbe.evaluate_on_groups(&groups).unwrap_err(),
        SortByError::GroupsMismatch
    );
}

#[test]
fn grouped_multi_key_sorts_each_group_lexicographically() {
    let groups = idx_groups(&[&[0, 1, 2], &[3, 4]]);
    let input = col(&[1, 2, 3, 4, 5]);
    let a = col(&[1, 1, 0, 2, 1]);
    let b = col(&[5, 4, 9, 0, 0]);
    let sbe = SortByExpr::new(
        PhysicalExpr::Values(input),
        vec![PhysicalExpr::Values(a), PhysicalExpr::Values(b)],
        expr(),
        opts(vec![false, false], vec![false, false]),
    );
    let ac = sbe.evaluate_on_groups(&groups).unwrap();
    let after = group_vectors(&ac.groups);
    // Group 0 rows by (a,b): row 2 (0,9), row 1 (1,4), row 0 (1,5).
    assert_eq!(after[0], vec![2, 1, 0]);
    // Group 1 rows by (a,b): row 4 (1,0), row 3 (2,0).
    assert_eq!(after[1], vec![4, 3]);
}

#[test]
fn grouped_sort_on_slice_partition() {
    let groups = GroupsType::Slice(vec![(0, 2), (2, 2)]);
    let input = col(&[10, 20, 30, 40]);
    let key = col(&[2, 1, 1, 2]);
    let sbe = SortByExpr::new(
        PhysicalExpr::Values(input),
        vec![PhysicalExpr::Values(key)],
        expr(),
        opts(vec![false], vec![false]),
    );
    let ac = sbe.evaluate_on_groups(&groups).unwrap();
    let after = group_vectors(&ac.groups);
    assert_eq!(after, vec![vec![1, 0], vec![2, 3]]);
}

#[test]
fn fallback_path_sorts_per_group_lists() {
    // The input was already restructured by a prior aggregation: its values
    // sit in per-group order. Each group's list is reordered by the key.
    let groups = idx_groups(&[&[0, 1], &[2, 3]]);
    let input = PhysicalExpr::Reordered {
        values: col(&[30, 10, 20, 40]),
        status: UpdateGroups::WithSeriesLen,
    };
    let key = col(&[2, 1, 9, 5]);
    let sbe = SortByExpr::new(
        input,
        vec![PhysicalExpr::Values(key)],
        expr(),
        opts(vec![false], vec![false]),
    );
    let ac = sbe.evaluate_on_groups(&groups).unwrap();
    // Group 0 list [30,10] sorted by keys [2,1] -> [10,30];
    // group 1 list [20,40] sorted by keys [9,5] -> [40,20].
    assert_eq!(
        ac.values.values,
        vec![Some(10), Some(30), Some(40), Some(20)]
    );
    assert!(matches!(ac.update_groups, UpdateGroups::WithSeriesLen));
    let after = group_vectors(&ac.groups);
    assert_eq!(after, vec![vec![0, 1], vec![2, 3]]);
}

#[test]
fn reordered_key_explodes_input_values() {
    // The key expression was itself reordered by a prior aggregation: the
    // input's aggregated values are re-exploded to per-group order before
    // the new partition is attached.
    let groups = idx_groups(&[&[1, 0], &[2, 3]]);
    let input = col(&[10, 20, 30, 40]);
    let key = PhysicalExpr::Reordered {
        values: col(&[5, 1, 9, 2]),
        status: UpdateGroups::WithSeriesLen,
    };
    let sbe = SortByExpr::new(
        PhysicalExpr::Values(input),
        vec![key],
        expr(),
        opts(vec![false], vec![false]),
    );
    let ac = sbe.evaluate_on_groups(&groups).unwrap();
    // Input exploded in group order: rows 1,0 then 2,3.
    assert_eq!(
        ac.values.values,
        vec![Some(20), Some(10), Some(30), Some(40)]
    );
    // Key positions (exploded order) per group: [5,1] -> [1,0]; [9,2] -> [3,2].
    let after = group_vectors(&ac.groups);
    assert_eq!(after, vec![vec![1, 0], vec![3, 2]]);
}

#[test]
fn check_groups_requires_equal_counts_and_sizes() {
    let a = idx_groups(&[&[0, 1], &[2]]);
    let b = GroupsType::Slice(vec![(5, 2), (0, 1)]);
    assert!(check_groups(&a, &b).is_ok());
    let c = idx_groups(&[&[0], &[1, 2]]);
    assert_eq!(check_groups(&a, &c).unwrap_err(), SortByError::GroupsMismatch);
    // A different number of groups fails even where the common prefix agrees.
    let longer = idx_groups(&[&[0, 1], &[2], &[3, 4]]);
    assert_eq!(
        check_groups(&a, &longer).unwrap_err(),
        SortByError::GroupsMismatch
    );
}

#[test]
fn update_groups_sort_by_sorts_each_group() {
    let groups = idx_groups(&[&[0, 1, 2]]);
    let key = col(&[3, 1, 2]);
    let o = SortOptions {
        descending: false,
        nulls_last: false,
        multithreaded: false,
        maintain_order: false,
    };
    let new_groups = update_groups_sort_by(&groups, &key, &o).unwrap();
    assert_eq!(group_vectors(&new_groups), vec![vec![1, 2, 0]]);
    match &new_groups {
        GroupsType::Idx(gs) => assert_eq!(gs[0].0, 1),
        GroupsType::Slice(_) => panic!("expected the explicit representation"),
    }
}

#[test]
fn sort_lists_by_handles_absent_and_mismatched_lists() {
    let in_lists = vec![Some(col(&[3, 1])), None, Some(col(&[5]))];
    let by_lists = vec![Some(col(&[2, 1])), Some(col(&[7])), Some(col(&[9]))];
    let out = sort_lists_by(&in_lists, &by_lists, false).unwrap();
    assert_eq!(out[0].as_ref().unwrap().values, vec![Some(1), Some(3)]);
    assert!(out[1].is_none());
    assert_eq!(out[2].as_ref().unwrap().values, vec![Some(5)]);

    let bad_in = vec![Some(col(&[1, 2]))];
    let bad_by = vec![Some(col(&[1, 2, 3]))];
    assert_eq!(
        sort_lists_by(&bad_in, &bad_by, false).unwrap_err(),
        SortByError::ListLengthMismatch { in_len: 2, by_len: 3 }
    );
}

#[test]
fn prepare_bool_vec_broadcast_rules() {
    // Zero flags default to false for every key.
    assert_eq!(prepare_bool_vec(&vec![], 3), vec![false, false, false]);
    // A full-length list maps one to one.
    assert_eq!(prepare_bool_vec(&vec![true, false], 2), vec![true, false]);
    // Any other length repeats the first element, silently.
    assert_eq!(prepare_bool_vec(&vec![true, false], 3), vec![true, true, true]);
}

#[test]
fn into_sliceable_keeps_rows() {
    let contiguous = idx_groups(&[&[0, 1], &[2, 3]]);
    let before = group_vectors(&contiguous);
    let s = contiguous.into_sliceable();
    assert!(matches!(s, GroupsType::Slice(_)));
    assert_eq!(group_vectors(&s), before);

    let scattered = idx_groups(&[&[1, 0]]);
    let s2 = scattered.into_sliceable();
    assert!(matches!(s2, GroupsType::Idx(_)));
    assert_eq!(group_vectors(&s2), vec![vec![1, 0]]);
}

#[test]
fn fallback_with_no_flags_defaults_to_ascending() {
    // Zero supplied flags default every key to false, also on the fallback
    // path taken for a restructured input.
    let groups = idx_groups(&[&[0, 1]]);
    let input = PhysicalExpr::Reordered {
        values: col(&[30, 10]),
        status: UpdateGroups::WithSeriesLen,
    };
    let key = col(&[2, 1]);
    let sbe = SortByExpr::new(
        input,
        vec![PhysicalExpr::Values(key)],
        expr(),
        opts(vec![], vec![]),
    );
    let ac = sbe.evaluate_on_groups(&groups).unwrap();
    assert_eq!(ac.values.values, vec![Some(10), Some(30)]);
}

#[test]
fn grouped_ties_keep_member_order() {
    // Stability within a group: equal keys keep the group's member order.
    let groups = idx_groups(&[&[2, 0, 1]]);
    let input = col(&[1, 2, 3]);
    let key = col(&[5, 5, 5]);
    let sbe = SortByExpr::new(
        PhysicalExpr::Values(input),
        vec![PhysicalExpr::Values(key)],
        expr(),
        opts(vec![false], vec![false]),
    );
    let ac = sbe.evaluate_on_groups(&groups).unwrap();
    assert_eq!(group_vectors(&ac.groups), vec![vec![2, 0, 1]]);
}

#[test]
fn differing_group_counts_fail_grouped_evaluation() {
    // A key partition with more groups than the input partition fails, even
    // though the common prefix agrees in size.
    let groups = idx_groups(&[&[0], &[1]]);
    let sbe = SortByExpr::new(
        PhysicalExpr::Grouped { values: col(&[10, 20]), groups: idx_groups(&[&[0]]) },
        vec![PhysicalExpr::Grouped { values: col(&[2, 1]), groups: idx_groups(&[&[0], &[1]]) }],
        expr(),
        opts(vec![false], vec![false]),
    );
    assert_eq!(
        sbe.evaluate_on_groups(&groups).unwrap_err(),
        SortByError::GroupsMismatch
    );
}

#[test]
fn concat_lists_flattens_in_group_order() {
    let lists = vec![Some(col(&[1, 2])), None, Some(col(&[3]))];
    let c = concat_lists(&lists);
    assert_eq!(c.values, vec![Some(1), Some(2), Some(3)]);
}
