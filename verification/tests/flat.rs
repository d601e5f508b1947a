use sortby::SortByError;
use sortby::column::Column;
use sortby::expr::{Expr, PhysicalExpr};
use sortby::sortby::{SortByExpr, SortMultipleOptions, SortOptions};
use sortby::argsort::{arg_sort, arg_sort_multi};

fn col(xs: &[i64]) -> Column {
    Column { values: xs.iter().map(|&x| Some(x)).collect() }
}

fn opts(descending: Vec<bool>, nulls_last: Vec<bool>) -> SortMultipleOptions {
    SortMultipleOptions {
        descending,
        nulls_last,
        multithreaded: false,
        maintain_order: false,
        limit: None,
    }
}

fn expr() -> Expr {
    Expr { name: String::from("sort_by") }
}

fn sorted_values(c: &Column) -> Vec<Option<i64>> {
    let mut v = c.values.clone();
    v.sort();
    v
}

#[test]
fn identity_on_empty_keys() {
    let input = col(&[4, 2, 7, 1]);
    let sbe = SortByExpr::new(
        PhysicalExpr::Values(input.clone()),
        Vec::new(),
        expr(),
        opts(vec![], vec![]),
    );
    let out = sbe.evaluate().unwrap();
    assert_eq!(out.values, input.values);
}

#[test]
fn end_to_end_single_key_ascending() {
    let input = col(&[10, 20, 30, 40]);
    let key = col(&[2, 1, 4, 3]);
    let sbe = SortByExpr::new(
        PhysicalExpr::Values(input),
        vec![PhysicalExpr::Values(key)],
        expr(),
        opts(vec![false], vec![false]),
    );
    let out = sbe.evaluate().unwrap();
    assert_eq!(out.values, vec![Some(20), Some(10), Some(40), Some(30)]);
}

#[test]
fn permutation_validity_multiset_preserved() {
    let input = col(&[3, 1, 2, 1]);
    let key = col(&[3, 1, 2, 1]);
    let sbe = SortByExpr::new(
        PhysicalExpr::Values(input.clone()),
        vec![PhysicalExpr::Values(key)],
        expr(),
        opts(vec![false], vec![false]),
    );
    let out = sbe.evaluate().unwrap();
    assert_eq!(out.values, vec![Some(1), Some(1), Some(2), Some(3)]);
    // The output is a reordering of the input: same multiset of values.
    assert_eq!(sorted_values(&out), sorted_values(&input));
    // Re-sorting with the inverse flag recovers the same multiset again.
    let back = SortByExpr::new(
        PhysicalExpr::Values(out.clone()),
        vec![PhysicalExpr::Values(out)],
        expr(),
        opts(vec![true], vec![false]),
    )
    .evaluate()
    .unwrap();
    assert_eq!(sorted_values(&back), sorted_values(&input));
}

#[test]
fn single_key_descending() {
    let input = col(&[10, 20, 30]);
    let key = col(&[1, 3, 2]);
    let sbe = SortByExpr::new(
        PhysicalExpr::Values(input),
        vec![PhysicalExpr::Values(key)],
        expr(),
        opts(vec![true], vec![false]),
    );
    let out = sbe.evaluate().unwrap();
    assert_eq!(out.values, vec![Some(20), Some(30), Some(10)]);
}

#[test]
fn nulls_first_by_default_and_last_on_request() {
    let key = Column { values: vec![Some(1), None, Some(0)] };
    let first = arg_sort(&key, false, false);
    assert_eq!(first, vec![1, 2, 0]);
    let last = arg_sort(&key, false, true);
    assert_eq!(last, vec![2, 0, 1]);
}

#[test]
fn permutation_length_mismatch_is_error() {
    let input = col(&[10, 20, 30]);
    let key = col(&[1, 2]);
    let sbe = SortByExpr::new(
        PhysicalExpr::Values(input),
        vec![PhysicalExpr::Values(key)],
        expr(),
        opts(vec![false], vec![false]),
    );
    assert_eq!(
        sbe.evaluate().unwrap_err(),
        SortByError::PermutationMismatch {
            idx_len: 2,
            series_len: 3,
            expr: String::from("sort_by"),
        }
    );
}

#[test]
fn non_scalar_length_one_key_may_not_broadcast() {
    // One key of length 5, then a length-1 key from a non-scalar source:
    // a shape-mismatch error, not a silent broadcast.
    let input = col(&[1, 2, 3, 4, 5]);
    let long_key = col(&[5, 4, 3, 2, 1]);
    let short_key = col(&[9]);
    let sbe = SortByExpr::new(
        PhysicalExpr::Values(input),
        vec![PhysicalExpr::Values(long_key), PhysicalExpr::Values(short_key)],
        expr(),
        opts(vec![false, false], vec![false, false]),
    );
    assert_eq!(sbe.evaluate().unwrap_err(), SortByError::NonScalarBroadcast);
}

#[test]
fn scalar_length_one_key_broadcasts() {
    let input = col(&[10, 20, 30]);
    let long_key = col(&[3, 1, 2]);
    let sbe = SortByExpr::new(
        PhysicalExpr::Values(input),
        vec![PhysicalExpr::Values(long_key), PhysicalExpr::Scalar(Some(5))],
        expr(),
        opts(vec![false, false], vec![false, false]),
    );
    let out = sbe.evaluate().unwrap();
    assert_eq!(out.values, vec![Some(20), Some(30), Some(10)]);
}

#[test]
fn broadcast_length_disagreement_is_error() {
    let input = col(&[1, 2, 3]);
    let a = col(&[1, 2, 3]);
    let b = col(&[1, 2, 3, 4, 5]);
    let sbe = SortByExpr::new(
        PhysicalExpr::Values(input),
        vec![PhysicalExpr::Values(a), PhysicalExpr::Values(b)],
        expr(),
        opts(vec![false, false], vec![false, false]),
    );
    assert_eq!(
        sbe.evaluate().unwrap_err(),
        SortByError::BroadcastMismatch { broadcast_len: 3, key_len: 5 }
    );
}

#[test]
fn retroactive_broadcast_of_earlier_length_one_key() {
    // The first key has length 1 while the broadcast length is still 1; the
    // second key sets the length to 4, and the first is stretched after the
    // fact. All first-key values tie, so the second key decides the order.
    let input = col(&[10, 20, 30, 40]);
    let first = col(&[7]);
    let second = col(&[4, 3, 2, 1]);
    let sbe = SortByExpr::new(
        PhysicalExpr::Values(input),
        vec![PhysicalExpr::Values(first), PhysicalExpr::Values(second)],
        expr(),
        opts(vec![false, false], vec![false, false]),
    );
    let out = sbe.evaluate().unwrap();
    assert_eq!(out.values, vec![Some(40), Some(30), Some(20), Some(10)]);
}

#[test]
fn multi_key_lexicographic_order() {
    // First key primary, second key breaks ties.
    let input = col(&[1, 2, 3, 4]);
    let a = col(&[2, 1, 2, 1]);
    let b = col(&[1, 2, 0, 1]);
    let sbe = SortByExpr::new(
        PhysicalExpr::Values(input),
        vec![PhysicalExpr::Values(a), PhysicalExpr::Values(b)],
        expr(),
        opts(vec![false, false], vec![false, false]),
    );
    let out = sbe.evaluate().unwrap();
    // Rows ordered by (a, b): (1,1)->4, (1,2)->2, (2,0)->3, (2,1)->1.
    assert_eq!(out.values, vec![Some(4), Some(2), Some(3), Some(1)]);
}

#[test]
fn multi_key_per_key_descending_flags() {
    let input = col(&[1, 2, 3, 4]);
    let a = col(&[1, 1, 2, 2]);
    let b = col(&[1, 2, 1, 2]);
    let sbe = SortByExpr::new(
        PhysicalExpr::Values(input),
        vec![PhysicalExpr::Values(a), PhysicalExpr::Values(b)],
        expr(),
        opts(vec![false, true], vec![false, false]),
    );
    let out = sbe.evaluate().unwrap();
    // a ascending, b descending: (1,2)->2, (1,1)->1, (2,2)->4, (2,1)->3.
    assert_eq!(out.values, vec![Some(2), Some(1), Some(4), Some(3)]);
}

#[test]
fn arg_sort_multi_on_equal_rows_is_a_permutation() {
    let a = Column { values: vec![Some(1), Some(1), Some(1)] };
    let perm = arg_sort_multi(&vec![a], &vec![false], &vec![false]);
    let mut sorted = perm.clone();
    sorted.sort();
    assert_eq!(sorted, vec![0, 1, 2]);
}

#[test]
fn sort_options_from_multiple_takes_first_flags() {
    let o = opts(vec![true, false], vec![true]);
    let s = SortOptions::from_multiple(&o);
    assert!(s.descending);
    assert!(s.nulls_last);
    let e = opts(vec![], vec![]);
    let s2 = SortOptions::from_multiple(&e);
    assert!(!s2.descending);
    assert!(!s2.nulls_last);
}

#[test]
fn equal_keys_keep_original_order() {
    // The sort is stable: rows whose keys tie keep their original order.
    let input = col(&[10, 20, 30, 40]);
    let key = col(&[2, 1, 2, 1]);
    let sbe = SortByExpr::new(
        PhysicalExpr::Values(input),
        vec![PhysicalExpr::Values(key)],
        expr(),
        opts(vec![false], vec![false]),
    );
    let out = sbe.evaluate().unwrap();
    // Ties (rows 1,3 with key 1; rows 0,2 with key 2) stay in row order.
    assert_eq!(out.values, vec![Some(20), Some(40), Some(10), Some(30)]);
    let all_equal = col(&[7, 7, 7]);
    let id = SortByExpr::new(
        PhysicalExpr::Values(col(&[1, 2, 3])),
        vec![PhysicalExpr::Values(all_equal)],
        expr(),
        opts(vec![false], vec![false]),
    )
    .evaluate()
    .unwrap();
    assert_eq!(id.values, vec![Some(1), Some(2), Some(3)]);
}

#[test]
fn empty_column_sorts_to_empty() {
    let sbe = SortByExpr::new(
        PhysicalExpr::Values(col(&[])),
        vec![PhysicalExpr::Values(col(&[]))],
        expr(),
        opts(vec![false], vec![false]),
    );
    let out = sbe.evaluate().unwrap();
    assert!(out.values.is_empty());
}

#[test]
fn facade_identity_bits() {
    let sbe = SortByExpr::new(
        PhysicalExpr::Values(col(&[1])),
        vec![],
        Expr { name: String::from("named") },
        opts(vec![], vec![]),
    );
    assert!(!sbe.is_scalar());
    assert_eq!(sbe.as_expression().unwrap().name, "named");
}
