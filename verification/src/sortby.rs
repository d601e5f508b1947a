//! The sort-by evaluator: per-key flag broadcasting, the group-consistency
//! check, the per-group permutation engine, the ungrouped fallback, and the
//! `SortByExpr` façade.

use vstd::prelude::*;
use crate::SortByError;
use crate::column::{Column, concat_lists};
use crate::gather::{gather_seq, is_perm_of, lemma_gather_perm_ms, lemma_perm_bounds};
use crate::groups::{GroupsType, GroupsIndicator, groups_in_bounds, slice_group_view};
use crate::order::{cmp_val, lex_cmp, key_views, lemma_lex_congruence};
use crate::argsort::{arg_sort, arg_sort_multi};

verus! {

/// One `descending` / `nulls_last` flag pair plus the engine-wide toggles,
/// for a single-key sort. The index sort here is stable whatever the
/// `maintain_order` toggle says, so a stable-sort request is always honored.
#[derive(Debug, Clone, Copy)]
pub struct SortOptions {
    pub descending: bool,
    pub nulls_last: bool,
    pub multithreaded: bool,
    pub maintain_order: bool,
}

/// Per-key flag lists plus the engine-wide toggles, for a multi-key sort.
/// `limit` is an optional result-size bound, unused at group granularity.
#[derive(Debug, Clone)]
pub struct SortMultipleOptions {
    pub descending: Vec<bool>,
    pub nulls_last: Vec<bool>,
    pub multithreaded: bool,
    pub maintain_order: bool,
    pub limit: Option<usize>,
}

impl SortOptions {
    /// The single-key options induced by multi-key options: the first flag of
    /// each list, or `false` where the list is empty.
    pub fn from_multiple(o: &SortMultipleOptions) -> (r: SortOptions)
        ensures
            r.descending == (if o.descending@.len() > 0 { o.descending@[0] } else { false }),
            r.nulls_last == (if o.nulls_last@.len() > 0 { o.nulls_last@[0] } else { false }),
            r.multithreaded == o.multithreaded,
            r.maintain_order == o.maintain_order,
    {
        SortOptions {
            descending: if o.descending.len() > 0 { o.descending[0] } else { false },
            nulls_last: if o.nulls_last.len() > 0 { o.nulls_last[0] } else { false },
            multithreaded: o.multithreaded,
            maintain_order: o.maintain_order,
        }
    }
}

/// The per-key broadcast of a flag list: a full-length list maps one to one,
/// an empty list defaults every key to `false`, and any other length repeats
/// the first element over all keys.
pub open spec fn prepare_bool_spec(values: Seq<bool>, by_len: nat) -> Seq<bool> {
    if values.len() == by_len {
        values
    } else if values.len() == 0 {
        Seq::new(by_len, |i: int| false)
    } else {
        Seq::new(by_len, |i: int| values[0])
    }
}

/// Broadcasts a flag list over `by_len` keys (see `prepare_bool_spec`).
pub fn prepare_bool_vec(values: &Vec<bool>, by_len: usize) -> (r: Vec<bool>)
    ensures
        r@ == prepare_bool_spec(values@, by_len as nat),
        r@.len() == by_len,
{
    if values.len() == by_len {
        let mut r: Vec<bool> = Vec::new();
        let mut i: usize = 0;
        while i < values.len()
            invariant
                0 <= i <= values@.len(),
                r@ =~= values@.subrange(0, i as int),
            decreases values@.len() - i,
        {
            r.push(values[i]);
            i = i + 1;
        }
        assert(r@ =~= values@);
        r
    } else {
        let fill = if values.len() == 0 { false } else { values[0] };
        let mut r: Vec<bool> = Vec::new();
        let mut i: usize = 0;
        while i < by_len
            invariant
                0 <= i <= by_len,
                fill == (if values@.len() == 0 { false } else { values@[0] }),
                r@ =~= Seq::new(i as nat, |j: int| fill),
            decreases by_len - i,
        {
            r.push(fill);
            assert(r@ =~= Seq::new((i + 1) as nat, |j: int| fill));
            i = i + 1;
        }
        assert(r@ =~= prepare_bool_spec(values@, by_len as nat));
        r
    }
}

/// The two partitions agree: the same number of groups and, group for
/// group, the same member count.
pub open spec fn groups_consistent(a: Seq<Seq<usize>>, b: Seq<Seq<usize>>) -> bool {
    &&& a.len() == b.len()
    &&& forall|g: int| 0 <= g < a.len() ==> (#[trigger] a[g]).len() == b[g].len()
}

/// Checks that the two partitions have the same number of groups and,
/// group for group in iteration order, the same member count; any
/// disagreement fails.
pub fn check_groups(a: &GroupsType, b: &GroupsType) -> (r: Result<(), SortByError>)
    ensures
        r matches Ok(_) <==> groups_consistent(a@, b@),
        r matches Err(e) ==> e == SortByError::GroupsMismatch,
{
    let n = a.len();
    if n != b.len() {
        return Err(SortByError::GroupsMismatch);
    }
    let mut g: usize = 0;
    while g < n
        invariant
            0 <= g <= n,
            n == a@.len(),
            a@.len() == b@.len(),
            forall|h: int| 0 <= h < g as int ==> (#[trigger] a@[h]).len() == b@[h].len(),
        decreases n - g,
    {
        if a.group_len_at(g) != b.group_len_at(g) {
            return Err(SortByError::GroupsMismatch);
        }
        g = g + 1;
    }
    Ok(())
}

/// Maps locally sorted positions back to the group's own indices:
/// `r[i] = idx[sorted_idx[i]]`.
pub fn map_sorted_indices_to_group_idx(sorted_idx: &Vec<usize>, idx: &Vec<usize>) -> (r: Vec<usize>)
    requires
        forall|i: int| 0 <= i < sorted_idx@.len() ==> (#[trigger] sorted_idx@[i]) < idx@.len(),
    ensures
        r@ == gather_seq(idx@, sorted_idx@),
{
    let mut r: Vec<usize> = Vec::new();
    let mut i: usize = 0;
    while i < sorted_idx.len()
        invariant
            0 <= i <= sorted_idx@.len(),
            forall|j: int| 0 <= j < sorted_idx@.len() ==> (#[trigger] sorted_idx@[j]) < idx@.len(),
            r@ =~= gather_seq(idx@, sorted_idx@).subrange(0, i as int),
        decreases sorted_idx@.len() - i,
    {
        r.push(idx[sorted_idx[i]]);
        i = i + 1;
    }
    assert(r@ =~= gather_seq(idx@, sorted_idx@));
    r
}

/// Maps locally sorted positions back into a contiguous group:
/// `r[i] = first + sorted_idx[i]`.
pub fn map_sorted_indices_to_group_slice(sorted_idx: &Vec<usize>, first: usize) -> (r: Vec<usize>)
    requires
        forall|i: int| 0 <= i < sorted_idx@.len()
            ==> first + (#[trigger] sorted_idx@[i]) <= usize::MAX,
    ensures
        r@.len() == sorted_idx@.len(),
        forall|i: int| 0 <= i < r@.len()
            ==> (#[trigger] r@[i]) == first + sorted_idx@[i],
{
    let mut r: Vec<usize> = Vec::new();
    let mut i: usize = 0;
    while i < sorted_idx.len()
        invariant
            0 <= i <= sorted_idx@.len(),
            forall|j: int| 0 <= j < sorted_idx@.len()
                ==> first + (#[trigger] sorted_idx@[j]) <= usize::MAX,
            r@.len() == i,
            forall|j: int| 0 <= j < i as int
                ==> (#[trigger] r@[j]) == first + sorted_idx@[j],
        decreases sorted_idx@.len() - i,
    {
        r.push(first + sorted_idx[i]);
        i = i + 1;
    }
    r
}

/// The rows of one group are sorted under one key column's order.
pub open spec fn group_sorted_by(
    s: Seq<Option<i64>>,
    rows: Seq<usize>,
    descending: bool,
    nulls_last: bool,
) -> bool {
    forall|i: int, j: int| 0 <= i < j < rows.len()
        ==> cmp_val(s[#[trigger] rows[i] as int], s[#[trigger] rows[j] as int],
                descending, nulls_last) <= 0
}

/// Rows of one group with equal key values keep ascending positions: the
/// sort of the group is stable.
pub open spec fn group_stable_by(
    s: Seq<Option<i64>>,
    rows: Seq<usize>,
    descending: bool,
    nulls_last: bool,
) -> bool {
    forall|i: int, j: int| 0 <= i < j < rows.len()
        ==> (cmp_val(s[#[trigger] rows[i] as int], s[#[trigger] rows[j] as int],
                descending, nulls_last) == 0 ==> rows[i] < rows[j])
}

/// Rows of one group whose whole key tuples compare equal keep ascending
/// positions: the lexicographic sort of the group is stable.
pub open spec fn group_lex_stable(
    kv: Seq<Seq<Option<i64>>>,
    descending: Seq<bool>,
    nulls_last: Seq<bool>,
    rows: Seq<usize>,
) -> bool {
    forall|i: int, j: int| 0 <= i < j < rows.len()
        ==> (lex_cmp(kv, descending, nulls_last,
                #[trigger] rows[i] as int, #[trigger] rows[j] as int) == 0
            ==> rows[i] < rows[j])
}

/// The views of each key column restricted to one group's rows.
pub open spec fn gathered_key_views(
    kv: Seq<Seq<Option<i64>>>,
    rows: Seq<usize>,
) -> Seq<Seq<Option<i64>>> {
    Seq::new(kv.len(), |k: int| gather_seq(kv[k], rows))
}

/// One group of a new partition: the old group's rows gathered through a
/// permutation that sorts them by one key, stably.
pub open spec fn stable_sorted_group(
    s: Seq<Option<i64>>,
    old_rows: Seq<usize>,
    new_rows: Seq<usize>,
    descending: bool,
    nulls_last: bool,
) -> bool {
    exists|q: Seq<usize>| #![trigger gather_seq(old_rows, q)]
        is_perm_of(q, old_rows.len())
        && new_rows == gather_seq(old_rows, q)
        && group_stable_by(gather_seq(s, old_rows), q, descending, nulls_last)
}

/// One group of a new partition: the old group's rows gathered through a
/// permutation that sorts them lexicographically by several keys, stably.
pub open spec fn stable_lex_sorted_group(
    kv: Seq<Seq<Option<i64>>>,
    old_rows: Seq<usize>,
    new_rows: Seq<usize>,
    descending: Seq<bool>,
    nulls_last: Seq<bool>,
) -> bool {
    exists|q: Seq<usize>| #![trigger gather_seq(old_rows, q)]
        is_perm_of(q, old_rows.len())
        && new_rows == gather_seq(old_rows, q)
        && group_lex_stable(gathered_key_views(kv, old_rows), descending, nulls_last, q)
}

/// The rows of one group are sorted under the lexicographic order of several
/// key columns.
pub open spec fn group_lex_sorted(
    kv: Seq<Seq<Option<i64>>>,
    descending: Seq<bool>,
    nulls_last: Seq<bool>,
    rows: Seq<usize>,
) -> bool {
    forall|i: int, j: int| 0 <= i < j < rows.len()
        ==> lex_cmp(kv, descending, nulls_last,
                #[trigger] rows[i] as int, #[trigger] rows[j] as int) <= 0
}

/// Sorts one group's own rows by the key column restricted to that group,
/// yielding the group's new first index and index vector. An empty group is
/// rejected as a malformed partition.
pub fn sort_by_groups_single_by(
    indicator: &GroupsIndicator,
    sort_by_s: &Column,
    options: &SortOptions,
) -> (r: Result<(usize, Vec<usize>), SortByError>)
    requires
        indicator.rep_wf(),
        forall|i: int| 0 <= i < indicator.rows().len()
            ==> (#[trigger] indicator.rows()[i]) < sort_by_s@.len(),
    ensures
        r matches Ok(p) ==> ({
            &&& indicator.rows().len() > 0
            &&& p.1@.len() == indicator.rows().len()
            &&& p.0 == p.1@[0]
            &&& p.1@.to_multiset() == indicator.rows().to_multiset()
            &&& group_sorted_by(sort_by_s@, p.1@, options.descending, options.nulls_last)
            &&& forall|i: int| 0 <= i < p.1@.len() ==> (#[trigger] p.1@[i]) < sort_by_s@.len()
            &&& stable_sorted_group(sort_by_s@, indicator.rows(), p.1@,
                    options.descending, options.nulls_last)
        }),
        r matches Err(e) ==> e == SortByError::GroupsMismatch,
        (r matches Err(_)) <==> indicator.rows().len() == 0,
{
    match indicator {
        GroupsIndicator::Idx(_, idx) => {
            proof {
                assert(indicator.rows() == idx@);
                assert(forall|i: int| 0 <= i < idx@.len()
                    ==> (#[trigger] idx@[i]) < sort_by_s@.len());
            }
            let group = sort_by_s.gather(idx);
            let sorted_idx = arg_sort(&group, options.descending, options.nulls_last);
            let new_idx = map_sorted_indices_to_group_idx(&sorted_idx, idx);
            if new_idx.len() == 0 {
                return Err(SortByError::GroupsMismatch);
            }
            let first = new_idx[0];
            proof {
                lemma_gather_perm_ms(idx@, sorted_idx@);
                assert forall|i: int, j: int| 0 <= i < j < new_idx@.len() implies
                    cmp_val(sort_by_s@[#[trigger] new_idx@[i] as int],
                        sort_by_s@[#[trigger] new_idx@[j] as int],
                        options.descending, options.nulls_last) <= 0 by {
                    assert(new_idx@[i] == idx@[sorted_idx@[i] as int]);
                    assert(new_idx@[j] == idx@[sorted_idx@[j] as int]);
                    assert(group@[sorted_idx@[i] as int]
                        == sort_by_s@[idx@[sorted_idx@[i] as int] as int]);
                    assert(group@[sorted_idx@[j] as int]
                        == sort_by_s@[idx@[sorted_idx@[j] as int] as int]);
                }
                assert forall|i: int| 0 <= i < new_idx@.len() implies
                    (#[trigger] new_idx@[i]) < sort_by_s@.len() by {
                    assert(new_idx@[i] == idx@[sorted_idx@[i] as int]);
                }
                assert(group@ == gather_seq(sort_by_s@, indicator.rows()));
                assert(group_stable_by(gather_seq(sort_by_s@, indicator.rows()),
                    sorted_idx@, options.descending, options.nulls_last));
                assert(new_idx@ == gather_seq(indicator.rows(), sorted_idx@));
                assert(stable_sorted_group(sort_by_s@, indicator.rows(), new_idx@,
                    options.descending, options.nulls_last));
            }
            Ok((first, new_idx))
        },
        GroupsIndicator::Slice(first0, len0) => {
            let first0 = *first0;
            let len0 = *len0;
            if len0 == 0 {
                return Err(SortByError::GroupsMismatch);
            }
            let ghost rows = slice_group_view(first0, len0);
            proof {
                assert(rows == indicator.rows());
                assert(indicator.rows()[len0 - 1] < sort_by_s@.len());
                assert(rows[len0 - 1] == (first0 + (len0 - 1)) as usize);
                assert(first0 + len0 <= usize::MAX + 1);
                assert((first0 + (len0 - 1)) as usize == first0 as int + (len0 - 1));
                assert(rows[len0 - 1] < sort_by_s@.len());
            }
            let group = sort_by_s.slice(first0, len0);
            let sorted_idx = arg_sort(&group, options.descending, options.nulls_last);
            proof {
                assert forall|i: int| 0 <= i < sorted_idx@.len() implies
                    first0 + (#[trigger] sorted_idx@[i]) <= usize::MAX by {
                    assert(sorted_idx@[i] < len0);
                }
            }
            let new_idx = map_sorted_indices_to_group_slice(&sorted_idx, first0);
            if new_idx.len() == 0 {
                return Err(SortByError::GroupsMismatch);
            }
            let first = new_idx[0];
            proof {
                assert(new_idx@ =~= gather_seq(rows, sorted_idx@));
                lemma_gather_perm_ms(rows, sorted_idx@);
                assert forall|i: int, j: int| 0 <= i < j < new_idx@.len() implies
                    cmp_val(sort_by_s@[#[trigger] new_idx@[i] as int],
                        sort_by_s@[#[trigger] new_idx@[j] as int],
                        options.descending, options.nulls_last) <= 0 by {
                    assert(new_idx@[i] == first0 + sorted_idx@[i]);
                    assert(new_idx@[j] == first0 + sorted_idx@[j]);
                    assert(group@[sorted_idx@[i] as int]
                        == sort_by_s@[first0 + sorted_idx@[i] as int]);
                    assert(group@[sorted_idx@[j] as int]
                        == sort_by_s@[first0 + sorted_idx@[j] as int]);
                }
                assert forall|i: int| 0 <= i < new_idx@.len() implies
                    (#[trigger] new_idx@[i]) < sort_by_s@.len() by {
                    assert(new_idx@[i] == rows[i] || new_idx@[i] == first0 + sorted_idx@[i]);
                    assert(rows[sorted_idx@[i] as int] == (first0 + sorted_idx@[i]) as usize);
                }
                assert forall|k: int| 0 <= k < rows.len() implies
                    gather_seq(sort_by_s@, rows)[k] == group@[k] by {
                    assert(rows[k] == (first0 + k) as usize);
                }
                assert(group@ =~= gather_seq(sort_by_s@, indicator.rows()));
                assert(group_stable_by(gather_seq(sort_by_s@, indicator.rows()),
                    sorted_idx@, options.descending, options.nulls_last));
                assert(new_idx@ == gather_seq(indicator.rows(), sorted_idx@));
                assert(stable_sorted_group(sort_by_s@, indicator.rows(), new_idx@,
                    options.descending, options.nulls_last));
            }
            Ok((first, new_idx))
        },
    }
}

/// Re-sorts every group of a partition by the key column restricted to that
/// group. The result is an explicit partition with the same group count,
/// the same per-group sizes, and the same per-group members, each group's
/// rows now ordered by the key.
pub fn update_groups_sort_by(
    groups: &GroupsType,
    sort_by_s: &Column,
    options: &SortOptions,
) -> (r: Result<GroupsType, SortByError>)
    requires
        groups.rep_wf(),
        groups_in_bounds(groups@, sort_by_s@.len()),
    ensures
        r matches Ok(new) ==> ({
            &&& new@.len() == groups@.len()
            &&& forall|g: int| 0 <= g < new@.len()
                ==> (#[trigger] new@[g]).len() == groups@[g].len()
            &&& forall|g: int| 0 <= g < new@.len()
                ==> (#[trigger] new@[g]).to_multiset() == groups@[g].to_multiset()
            &&& forall|g: int| 0 <= g < new@.len()
                ==> group_sorted_by(sort_by_s@, #[trigger] new@[g],
                        options.descending, options.nulls_last)
            &&& forall|g: int| 0 <= g < new@.len()
                ==> stable_sorted_group(sort_by_s@, groups@[g], #[trigger] new@[g],
                        options.descending, options.nulls_last)
            &&& groups_in_bounds(new@, sort_by_s@.len())
            &&& new is Idx
            &&& new.rep_wf()
        }),
        r matches Err(e) ==> e == SortByError::GroupsMismatch,
        (r matches Err(_)) <==> (exists|g: int|
            0 <= g < groups@.len() && (#[trigger] groups@[g]).len() == 0),
{
    let n = groups.len();
    let mut out: Vec<(usize, Vec<usize>)> = Vec::new();
    let mut g: usize = 0;
    while g < n
        invariant
            0 <= g <= n,
            n == groups@.len(),
            groups.rep_wf(),
            groups_in_bounds(groups@, sort_by_s@.len()),
            out@.len() == g,
            forall|h: int| 0 <= h < g as int
                ==> ((#[trigger] out@[h]).1@.len() == groups@[h].len()
                    && out@[h].1@.to_multiset() == groups@[h].to_multiset()
                    && group_sorted_by(sort_by_s@, out@[h].1@,
                        options.descending, options.nulls_last)
                    && (forall|i: int| 0 <= i < out@[h].1@.len()
                        ==> (#[trigger] out@[h].1@[i]) < sort_by_s@.len())
                    && groups@[h].len() > 0),
            forall|h: int| 0 <= h < g as int ==> (#[trigger] groups@[h]).len() > 0,
            forall|h: int| 0 <= h < g as int
                ==> stable_sorted_group(sort_by_s@, groups@[h], (#[trigger] out@[h]).1@,
                        options.descending, options.nulls_last),
        decreases n - g,
    {
        let indicator = groups.indicator_at(g);
        let res = sort_by_groups_single_by(&indicator, sort_by_s, options);
        match res {
            Ok(p) => {
                proof {
                    assert(stable_sorted_group(sort_by_s@, groups@[g as int], p.1@,
                        options.descending, options.nulls_last));
                }
                out.push((p.0, p.1));
            },
            Err(e) => {
                proof {
                    assert(groups@[g as int].len() == 0);
                }
                return Err(e);
            },
        }
        g = g + 1;
    }
    let r = GroupsType::Idx(out);
    proof {
        assert(r@.len() == groups@.len());
        assert forall|g2: int| 0 <= g2 < r@.len() implies
            (#[trigger] r@[g2]).len() == groups@[g2].len()
            && r@[g2].to_multiset() == groups@[g2].to_multiset()
            && group_sorted_by(sort_by_s@, r@[g2],
                options.descending, options.nulls_last)
            && stable_sorted_group(sort_by_s@, groups@[g2], r@[g2],
                options.descending, options.nulls_last) by {
            assert(r@[g2] == out@[g2].1@);
        }
        assert forall|g2: int, i: int|
            0 <= g2 < r@.len() && 0 <= i < r@[g2].len()
            implies (#[trigger] r@[g2][i]) < sort_by_s@.len() by {
        }
    }
    Ok(r)
}

/// Sorts one group's own rows by several key columns restricted to that
/// group, compared lexicographically. The sort is stable, so `maintain_order`
/// is honored whether or not it is set; the iteration over groups is already
/// data-parallel in spirit, so the per-group sort itself is single-threaded.
pub fn sort_by_groups_multiple_by(
    indicator: &GroupsIndicator,
    sort_by_s: &Vec<Column>,
    descending: &Vec<bool>,
    nulls_last: &Vec<bool>,
    multithreaded: bool,
    maintain_order: bool,
) -> (r: Result<(usize, Vec<usize>), SortByError>)
    requires
        indicator.rep_wf(),
        sort_by_s@.len() >= 1,
        descending@.len() == sort_by_s@.len(),
        nulls_last@.len() == sort_by_s@.len(),
        forall|k: int| 0 <= k < sort_by_s@.len()
            ==> (#[trigger] sort_by_s@[k])@.len() == sort_by_s@[0]@.len(),
        forall|i: int| 0 <= i < indicator.rows().len()
            ==> (#[trigger] indicator.rows()[i]) < sort_by_s@[0]@.len(),
    ensures
        r matches Ok(p) ==> ({
            &&& indicator.rows().len() > 0
            &&& p.1@.len() == indicator.rows().len()
            &&& p.0 == p.1@[0]
            &&& p.1@.to_multiset() == indicator.rows().to_multiset()
            &&& group_lex_sorted(key_views(sort_by_s@), descending@, nulls_last@, p.1@)
            &&& forall|i: int| 0 <= i < p.1@.len()
                ==> (#[trigger] p.1@[i]) < sort_by_s@[0]@.len()
            &&& stable_lex_sorted_group(key_views(sort_by_s@), indicator.rows(), p.1@,
                    descending@, nulls_last@)
        }),
        r matches Err(e) ==> e == SortByError::GroupsMismatch,
        (r matches Err(_)) <==> indicator.rows().len() == 0,
{
    let ghost kvg = key_views(sort_by_s@);
    match indicator {
        GroupsIndicator::Idx(_, idx) => {
            if idx.len() == 0 {
                return Err(SortByError::GroupsMismatch);
            }
            proof {
                assert(indicator.rows() == idx@);
                assert(forall|i: int| 0 <= i < idx@.len()
                    ==> (#[trigger] idx@[i]) < sort_by_s@[0]@.len());
            }
            let mut groups_cols: Vec<Column> = Vec::new();
            let mut k: usize = 0;
            while k < sort_by_s.len()
                invariant
                    0 <= k <= sort_by_s@.len(),
                    forall|k2: int| 0 <= k2 < sort_by_s@.len()
                        ==> (#[trigger] sort_by_s@[k2])@.len() == sort_by_s@[0]@.len(),
                    forall|i: int| 0 <= i < idx@.len()
                        ==> (#[trigger] idx@[i]) < sort_by_s@[0]@.len(),
                    groups_cols@.len() == k,
                    forall|k2: int| 0 <= k2 < k as int
                        ==> (#[trigger] groups_cols@[k2])@
                            == gather_seq(sort_by_s@[k2]@, idx@),
                decreases sort_by_s@.len() - k,
            {
                groups_cols.push(sort_by_s[k].gather(idx));
                k = k + 1;
            }
            proof {
                assert(groups_cols@.len() == sort_by_s@.len());
                assert(groups_cols@[0]@.len() == idx@.len());
                assert forall|k2: int| 0 <= k2 < groups_cols@.len() implies
                    (#[trigger] groups_cols@[k2])@.len() == groups_cols@[0]@.len() by {}
            }
            let sorted_idx = arg_sort_multi(&groups_cols, descending, nulls_last);
            let new_idx = map_sorted_indices_to_group_idx(&sorted_idx, idx);
            let first = new_idx[0];
            proof {
                lemma_gather_perm_ms(idx@, sorted_idx@);
                let kvl = key_views(groups_cols@);
                assert forall|i: int, j: int| 0 <= i < j < new_idx@.len() implies
                    lex_cmp(kvg, descending@, nulls_last@,
                        #[trigger] new_idx@[i] as int, #[trigger] new_idx@[j] as int) <= 0 by {
                    assert(new_idx@[i] == idx@[sorted_idx@[i] as int]);
                    assert(new_idx@[j] == idx@[sorted_idx@[j] as int]);
                    assert forall|k2: int| 0 <= k2 < kvl.len() implies
                        (#[trigger] kvl[k2])[sorted_idx@[i] as int]
                            == kvg[k2][new_idx@[i] as int]
                        && kvl[k2][sorted_idx@[j] as int]
                            == kvg[k2][new_idx@[j] as int] by {
                        assert(kvl[k2] == groups_cols@[k2]@);
                        assert(kvg[k2] == sort_by_s@[k2]@);
                        assert(groups_cols@[k2]@[sorted_idx@[i] as int]
                            == sort_by_s@[k2]@[idx@[sorted_idx@[i] as int] as int]);
                        assert(groups_cols@[k2]@[sorted_idx@[j] as int]
                            == sort_by_s@[k2]@[idx@[sorted_idx@[j] as int] as int]);
                    }
                    lemma_lex_congruence(kvl, kvg, descending@, nulls_last@,
                        sorted_idx@[i] as int, sorted_idx@[j] as int,
                        new_idx@[i] as int, new_idx@[j] as int, 0);
                    assert(lex_cmp(kvl, descending@, nulls_last@,
                        sorted_idx@[i] as int, sorted_idx@[j] as int) <= 0);
                }
                assert forall|i: int| 0 <= i < new_idx@.len() implies
                    (#[trigger] new_idx@[i]) < sort_by_s@[0]@.len() by {
                    assert(new_idx@[i] == idx@[sorted_idx@[i] as int]);
                }
                let gkv = gathered_key_views(kvg, indicator.rows());
                assert forall|k2: int| 0 <= k2 < kvl.len() implies
                    #[trigger] kvl[k2] == gkv[k2] by {
                    assert(kvl[k2] == groups_cols@[k2]@);
                    assert(gkv[k2] == gather_seq(kvg[k2], idx@));
                    assert(groups_cols@[k2]@ == gather_seq(sort_by_s@[k2]@, idx@));
                    assert(kvg[k2] == sort_by_s@[k2]@);
                }
                assert(kvl =~= gkv);
                assert(group_lex_stable(kvl, descending@, nulls_last@, sorted_idx@));
                assert(new_idx@ == gather_seq(indicator.rows(), sorted_idx@));
                assert(stable_lex_sorted_group(kvg, indicator.rows(), new_idx@,
                    descending@, nulls_last@));
            }
            Ok((first, new_idx))
        },
        GroupsIndicator::Slice(first0, len0) => {
            let first0 = *first0;
            let len0 = *len0;
            if len0 == 0 {
                return Err(SortByError::GroupsMismatch);
            }
            let ghost rows = slice_group_view(first0, len0);
            proof {
                assert(rows == indicator.rows());
                assert(indicator.rows()[len0 - 1] < sort_by_s@[0]@.len());
                assert(rows[len0 - 1] == (first0 + (len0 - 1)) as usize);
                assert(first0 + len0 <= usize::MAX + 1);
                assert((first0 + (len0 - 1)) as usize == first0 as int + (len0 - 1));
                assert(rows[len0 - 1] < sort_by_s@[0]@.len());
            }
            let mut groups_cols: Vec<Column> = Vec::new();
            let mut k: usize = 0;
            while k < sort_by_s.len()
                invariant
                    0 <= k <= sort_by_s@.len(),
                    forall|k2: int| 0 <= k2 < sort_by_s@.len()
                        ==> (#[trigger] sort_by_s@[k2])@.len() == sort_by_s@[0]@.len(),
                    first0 + len0 <= sort_by_s@[0]@.len(),
                    groups_cols@.len() == k,
                    forall|k2: int| 0 <= k2 < k as int
                        ==> (#[trigger] groups_cols@[k2])@
                            == sort_by_s@[k2]@.subrange(first0 as int,
                                first0 as int + len0 as int),
                decreases sort_by_s@.len() - k,
            {
                groups_cols.push(sort_by_s[k].slice(first0, len0));
                k = k + 1;
            }
            proof {
                assert(groups_cols@.len() == sort_by_s@.len());
                assert(groups_cols@[0]@.len() == len0);
                assert forall|k2: int| 0 <= k2 < groups_cols@.len() implies
                    (#[trigger] groups_cols@[k2])@.len() == groups_cols@[0]@.len() by {}
            }
            let sorted_idx = arg_sort_multi(&groups_cols, descending, nulls_last);
            proof {
                assert forall|i: int| 0 <= i < sorted_idx@.len() implies
                    first0 + (#[trigger] sorted_idx@[i]) <= usize::MAX by {
                    assert(sorted_idx@[i] < len0);
                }
            }
            let new_idx = map_sorted_indices_to_group_slice(&sorted_idx, first0);
            let first = new_idx[0];
            proof {
                assert(new_idx@ =~= gather_seq(rows, sorted_idx@));
                lemma_gather_perm_ms(rows, sorted_idx@);
                let kvl = key_views(groups_cols@);
                assert forall|i: int, j: int| 0 <= i < j < new_idx@.len() implies
                    lex_cmp(kvg, descending@, nulls_last@,
                        #[trigger] new_idx@[i] as int, #[trigger] new_idx@[j] as int) <= 0 by {
                    assert(new_idx@[i] == first0 + sorted_idx@[i]);
                    assert(new_idx@[j] == first0 + sorted_idx@[j]);
                    assert forall|k2: int| 0 <= k2 < kvl.len() implies
                        (#[trigger] kvl[k2])[sorted_idx@[i] as int]
                            == kvg[k2][new_idx@[i] as int]
                        && kvl[k2][sorted_idx@[j] as int]
                            == kvg[k2][new_idx@[j] as int] by {
                        assert(kvl[k2] == groups_cols@[k2]@);
                        assert(kvg[k2] == sort_by_s@[k2]@);
                    }
                    lemma_lex_congruence(kvl, kvg, descending@, nulls_last@,
                        sorted_idx@[i] as int, sorted_idx@[j] as int,
                        new_idx@[i] as int, new_idx@[j] as int, 0);
                    assert(lex_cmp(kvl, descending@, nulls_last@,
                        sorted_idx@[i] as int, sorted_idx@[j] as int) <= 0);
                }
                assert forall|i: int| 0 <= i < new_idx@.len() implies
                    (#[trigger] new_idx@[i]) < sort_by_s@[0]@.len() by {
                    assert(new_idx@[i] == first0 + sorted_idx@[i]);
                    assert(sorted_idx@[i] < len0);
                }
                let gkv = gathered_key_views(kvg, indicator.rows());
                assert forall|k2: int| 0 <= k2 < kvl.len() implies
                    #[trigger] kvl[k2] == gkv[k2] by {
                    assert(kvl[k2] == groups_cols@[k2]@);
                    assert(gkv[k2] == gather_seq(kvg[k2], rows));
                    assert(kvg[k2] == sort_by_s@[k2]@);
                    assert forall|t: int| 0 <= t < rows.len() implies
                        gather_seq(kvg[k2], rows)[t] == groups_cols@[k2]@[t] by {
                        assert(rows[t] == (first0 + t) as usize);
                        assert(groups_cols@[k2]@[t] == sort_by_s@[k2]@[first0 + t]);
                    }
                    assert(kvl[k2] =~= gkv[k2]);
                }
                assert(kvl =~= gkv);
                assert(group_lex_stable(kvl, descending@, nulls_last@, sorted_idx@));
                assert(new_idx@ == gather_seq(indicator.rows(), sorted_idx@));
                assert(stable_lex_sorted_group(kvg, indicator.rows(), new_idx@,
                    descending@, nulls_last@));
            }
            Ok((first, new_idx))
        },
    }
}

/// The flattening of per-group value sequences, in group order.
pub open spec fn flatten_lists(ls: Seq<Seq<Option<i64>>>) -> Seq<Option<i64>>
    decreases ls.len(),
{
    if ls.len() == 0 {
        Seq::empty()
    } else {
        flatten_lists(ls.drop_last()) + ls.last()
    }
}

/// Concatenating materialized lists that all hold the given sequences yields
/// their flattening.
pub proof fn lemma_concat_matches(lists: Seq<Option<Column>>, ls: Seq<Seq<Option<i64>>>)
    requires
        lists.len() == ls.len(),
        forall|g: int| 0 <= g < lists.len()
            ==> ((#[trigger] lists[g]) matches Option::Some(c) && c@ == ls[g]),
    ensures
        crate::column::concat_lists_spec(lists) == flatten_lists(ls),
    decreases lists.len(),
{
    if lists.len() > 0 {
        lemma_concat_matches(lists.drop_last(), ls.drop_last());
        assert(lists.last() matches Option::Some(c) && c@ == ls.last());
    }
}

/// Both per-group entries are present but their lengths disagree.
pub open spec fn list_pair_mismatch(a: Option<Column>, b: Option<Column>) -> bool {
    match (a, b) {
        (Option::Some(av), Option::Some(bv)) => av@.len() != bv@.len(),
        _ => false,
    }
}

/// What one group position of the fallback result holds: where both entries
/// are present, a reordering of the input list sorted by the key list; where
/// either is absent, an absent result.
pub open spec fn sorted_list_entry(
    a: Option<Column>,
    b: Option<Column>,
    out: Option<Column>,
    descending: bool,
) -> bool {
    match (a, b) {
        (Option::Some(av), Option::Some(bv)) => {
            &&& av@.len() == bv@.len()
            &&& match out {
                Option::Some(cv) => {
                    &&& cv@.len() == av@.len()
                    &&& cv@.to_multiset() == av@.to_multiset()
                    &&& exists|p: Seq<usize>| #[trigger] is_perm_of(p, av@.len())
                        && cv@ == gather_seq(av@, p)
                        && (forall|i: int, j: int| 0 <= i < j < p.len()
                            ==> cmp_val(bv@[p[i] as int], bv@[p[j] as int],
                                    descending, false) <= 0)
                },
                Option::None => false,
            }
        },
        _ => out is None,
    }
}

/// One group's fallback result: a reordering of the input list whose
/// positions are sorted by the key list.
pub open spec fn fallback_group_ok(
    in_list: Seq<Option<i64>>,
    by_list: Seq<Option<i64>>,
    out_chunk: Seq<Option<i64>>,
    descending: bool,
) -> bool {
    exists|p: Seq<usize>| #![trigger gather_seq(in_list, p)]
        is_perm_of(p, in_list.len())
        && out_chunk == gather_seq(in_list, p)
        && (forall|i: int, j: int| 0 <= i < j < p.len()
            ==> cmp_val(by_list[p[i] as int], by_list[p[j] as int],
                    descending, false) <= 0)
}

/// Sorts paired per-group lists: for each group position, the input list is
/// gathered by the argsort of the key list; an absent list on either side
/// yields an absent result. Lists of unequal length are a compute error.
pub fn sort_lists_by(
    in_lists: &Vec<Option<Column>>,
    by_lists: &Vec<Option<Column>>,
    descending: bool,
) -> (r: Result<Vec<Option<Column>>, SortByError>)
    requires
        in_lists@.len() == by_lists@.len(),
    ensures
        r matches Ok(out) ==> ({
            &&& out@.len() == in_lists@.len()
            &&& forall|g: int| 0 <= g < out@.len()
                ==> sorted_list_entry(in_lists@[g], by_lists@[g],
                        #[trigger] out@[g], descending)
        }),
        r matches Err(e) ==> e matches SortByError::ListLengthMismatch { .. },
        (r matches Err(_)) <==> (exists|g: int| 0 <= g < in_lists@.len()
            && list_pair_mismatch(#[trigger] in_lists@[g], by_lists@[g])),
{
    let n = in_lists.len();
    let mut out: Vec<Option<Column>> = Vec::new();
    let mut g: usize = 0;
    while g < n
        invariant
            0 <= g <= n,
            n == in_lists@.len(),
            in_lists@.len() == by_lists@.len(),
            out@.len() == g,
            forall|h: int| 0 <= h < g as int
                ==> sorted_list_entry(in_lists@[h], by_lists@[h],
                        #[trigger] out@[h], descending),
            forall|h: int| 0 <= h < g as int
                ==> !list_pair_mismatch(#[trigger] in_lists@[h], by_lists@[h]),
        decreases n - g,
    {
        let entry: Option<Column> = match (&in_lists[g], &by_lists[g]) {
            (Option::Some(a), Option::Some(b)) => {
                if a.len() != b.len() {
                    proof {
                        assert(list_pair_mismatch(in_lists@[g as int], by_lists@[g as int]));
                    }
                    return Err(SortByError::ListLengthMismatch {
                        in_len: a.len(),
                        by_len: b.len(),
                    });
                }
                let p = arg_sort(b, descending, false);
                proof {
                    lemma_perm_bounds(p@, b@.len());
                }
                let c = a.gather(&p);
                proof {
                    lemma_gather_perm_ms(a@, p@);
                    assert(sorted_list_entry(in_lists@[g as int], by_lists@[g as int],
                        Option::Some(c), descending));
                }
                Option::Some(c)
            },
            _ => Option::None,
        };
        out.push(entry);
        g = g + 1;
    }
    Ok(out)
}

/// The length and scalar-ness of each key expression's evaluated column.
pub open spec fn key_meta(by: Seq<crate::expr::PhysicalExpr>) -> Seq<(nat, bool)> {
    by.map(|k: int, e: crate::expr::PhysicalExpr| (e.flat_spec().len(), e.is_scalar_spec()))
}

/// The broadcast pass over the key lengths, from key `i` on, with running
/// broadcast length `b`: a length-1 key under an established broadcast length
/// must be scalar; a disagreeing key either sets the length (while it is
/// still one) or is an error.
pub open spec fn broadcast_fold(ks: Seq<(nat, bool)>, i: int, b: nat) -> Result<nat, SortByError>
    decreases ks.len() - i,
{
    if i < 0 || i >= ks.len() {
        Ok(b)
    } else {
        let l = ks[i].0;
        let scalar = ks[i].1;
        if l == 1 && b != 1 {
            if scalar {
                broadcast_fold(ks, i + 1, b)
            } else {
                Err(SortByError::NonScalarBroadcast)
            }
        } else if b != l {
            if b == 1 {
                broadcast_fold(ks, i + 1, l)
            } else {
                Err(SortByError::BroadcastMismatch {
                    broadcast_len: b as usize,
                    key_len: l as usize,
                })
            }
        } else {
            broadcast_fold(ks, i + 1, b)
        }
    }
}

/// A key column stretched to the broadcast length: kept if it already has
/// that length, else its first value repeated.
pub open spec fn broadcast_col(v: Seq<Option<i64>>, b: nat) -> Seq<Option<i64>> {
    if v.len() == b {
        v
    } else {
        Seq::new(b, |i: int| v[0])
    }
}

/// The views of all key columns after broadcasting.
pub open spec fn broadcast_views(by: Seq<crate::expr::PhysicalExpr>, b: nat) -> Seq<Seq<Option<i64>>> {
    Seq::new(by.len(), |k: int| broadcast_col(by[k].flat_spec(), b))
}

/// The sort-by expression: an input expression, one or more key expressions,
/// the expression's identity, and the sort configuration.
pub struct SortByExpr {
    pub input: crate::expr::PhysicalExpr,
    pub by: Vec<crate::expr::PhysicalExpr>,
    pub expr: crate::expr::Expr,
    pub sort_options: SortMultipleOptions,
}

impl SortByExpr {
    pub fn new(
        input: crate::expr::PhysicalExpr,
        by: Vec<crate::expr::PhysicalExpr>,
        expr: crate::expr::Expr,
        sort_options: SortMultipleOptions,
    ) -> (r: Self)
        ensures
            r.input == input,
            r.by == by,
            r.expr == expr,
            r.sort_options == sort_options,
    {
        Self { input, by, expr, sort_options }
    }

    /// The expression's identity.
    pub fn as_expression(&self) -> (r: Option<&crate::expr::Expr>)
        ensures
            r matches Option::Some(e) && *e == self.expr,
    {
        Option::Some(&self.expr)
    }

    /// A sort-by never produces a scalar.
    pub fn is_scalar(&self) -> (r: bool)
        ensures
            !r,
    {
        false
    }

    /// Flat, ungrouped evaluation: with no keys the input column is returned
    /// unchanged; with keys, the input is gathered by the permutation that
    /// sorts the (broadcast) key columns, and every length disagreement is a
    /// shape-mismatch error.
    pub fn evaluate(&self) -> (r: Result<Column, SortByError>)
        ensures
            ({
                let input_v = self.input.flat_spec();
                let nkeys = self.by@.len();
                if nkeys == 0 {
                    r matches Ok(c) && c@ == input_v
                } else if nkeys == 1 {
                    let kv0 = self.by@[0].flat_spec();
                    let d0 = if self.sort_options.descending@.len() > 0 {
                        self.sort_options.descending@[0]
                    } else {
                        false
                    };
                    let n0 = if self.sort_options.nulls_last@.len() > 0 {
                        self.sort_options.nulls_last@[0]
                    } else {
                        false
                    };
                    if kv0.len() == input_v.len() {
                        r matches Ok(c) && c@.to_multiset() == input_v.to_multiset()
                            && exists|p: Seq<usize>| #[trigger] is_perm_of(p, input_v.len())
                                && c@ == gather_seq(input_v, p)
                                && group_sorted_by(kv0, p, d0, n0)
                                && group_stable_by(kv0, p, d0, n0)
                    } else {
                        r == Err::<Column, SortByError>(SortByError::PermutationMismatch {
                            idx_len: kv0.len() as usize,
                            series_len: input_v.len() as usize,
                            expr: self.expr.name,
                        })
                    }
                } else {
                    let ks = key_meta(self.by@);
                    let dd = prepare_bool_spec(self.sort_options.descending@, nkeys);
                    let nn = prepare_bool_spec(self.sort_options.nulls_last@, nkeys);
                    match broadcast_fold(ks, 0, 1) {
                        Result::Err(e) => r == Err::<Column, SortByError>(e),
                        Result::Ok(b) => {
                            if b == input_v.len() {
                                r matches Ok(c) && c@.to_multiset() == input_v.to_multiset()
                                    && exists|p: Seq<usize>| #[trigger] is_perm_of(p, input_v.len())
                                        && c@ == gather_seq(input_v, p)
                                        && group_lex_sorted(broadcast_views(self.by@, b), dd, nn, p)
                                        && group_lex_stable(broadcast_views(self.by@, b), dd, nn, p)
                            } else {
                                r == Err::<Column, SortByError>(SortByError::PermutationMismatch {
                                    idx_len: b as usize,
                                    series_len: input_v.len() as usize,
                                    expr: self.expr.name,
                                })
                            }
                        },
                    }
                }
            }),
    {
        if self.by.len() == 0 {
            // Sorting by zero keys returns the input unchanged.
            return Ok(self.input.evaluate());
        }
        if self.by.len() == 1 {
            let series = self.input.evaluate();
            let s_sort_by = self.by[0].evaluate();
            let opts = SortOptions::from_multiple(&self.sort_options);
            let sorted_idx = arg_sort(&s_sort_by, opts.descending, opts.nulls_last);
            if sorted_idx.len() != series.len() {
                return Err(SortByError::PermutationMismatch {
                    idx_len: sorted_idx.len(),
                    series_len: series.len(),
                    expr: self.expr.name.clone(),
                });
            }
            proof {
                lemma_perm_bounds(sorted_idx@, s_sort_by@.len());
            }
            let c = series.gather(&sorted_idx);
            proof {
                lemma_gather_perm_ms(series@, sorted_idx@);
                assert(group_sorted_by(s_sort_by@, sorted_idx@,
                    opts.descending, opts.nulls_last));
                assert(group_stable_by(s_sort_by@, sorted_idx@,
                    opts.descending, opts.nulls_last));
            }
            return Ok(c);
        }
        let series = self.input.evaluate();
        let nkeys = self.by.len();
        let descending = prepare_bool_vec(&self.sort_options.descending, nkeys);
        let nulls_last = prepare_bool_vec(&self.sort_options.nulls_last, nkeys);
        let ghost ks = key_meta(self.by@);
        let mut needs_broadcast = false;
        let mut broadcast_length: usize = 1;
        let mut s_sort_by: Vec<Column> = Vec::new();
        let mut i: usize = 0;
        while i < nkeys
            invariant
                0 <= i <= nkeys,
                nkeys == self.by@.len(),
                nkeys >= 2,
                ks == key_meta(self.by@),
                s_sort_by@.len() == i,
                broadcast_fold(ks, 0, 1)
                    == broadcast_fold(ks, i as int, broadcast_length as nat),
                broadcast_length == 1 ==> forall|k: int| 0 <= k < i as int
                    ==> (#[trigger] self.by@[k]).flat_spec().len() == 1,
                forall|k: int| 0 <= k < i as int ==>
                    ((#[trigger] s_sort_by@[k])@
                        == broadcast_col(self.by@[k].flat_spec(), broadcast_length as nat)
                     || (s_sort_by@[k]@ == self.by@[k].flat_spec()
                         && self.by@[k].flat_spec().len() == 1
                         && broadcast_length != 1
                         && needs_broadcast)),
                !needs_broadcast ==> forall|k: int| 0 <= k < i as int ==>
                    (#[trigger] s_sort_by@[k])@
                        == broadcast_col(self.by@[k].flat_spec(), broadcast_length as nat),
            decreases nkeys - i,
        {
            let column = self.by[i].evaluate();
            proof {
                assert(ks[i as int] == (self.by@[i as int].flat_spec().len(),
                    self.by@[i as int].is_scalar_spec()));
            }
            if column.len() == 1 && broadcast_length != 1 {
                if !self.by[i].is_scalar() {
                    proof {
                        assert(broadcast_fold(ks, i as int, broadcast_length as nat)
                            == Err::<nat, SortByError>(SortByError::NonScalarBroadcast));
                    }
                    return Err(SortByError::NonScalarBroadcast);
                }
                let stretched = column.new_from_index(0, broadcast_length);
                proof {
                    assert(stretched@ =~= broadcast_col(self.by@[i as int].flat_spec(),
                        broadcast_length as nat));
                }
                s_sort_by.push(stretched);
            } else {
                if broadcast_length != column.len() {
                    if broadcast_length != 1 {
                        proof {
                            assert(broadcast_fold(ks, i as int, broadcast_length as nat)
                                == Err::<nat, SortByError>(SortByError::BroadcastMismatch {
                                    broadcast_len: broadcast_length,
                                    key_len: column@.len() as usize,
                                }));
                        }
                        return Err(SortByError::BroadcastMismatch {
                            broadcast_len: broadcast_length,
                            key_len: column.len(),
                        });
                    }
                    if i > 0 {
                        needs_broadcast = true;
                    }
                    broadcast_length = column.len();
                }
                proof {
                    assert(column@ =~= broadcast_col(self.by@[i as int].flat_spec(),
                        broadcast_length as nat));
                }
                s_sort_by.push(column);
            }
            i = i + 1;
        }
        let ghost b = broadcast_length as nat;
        proof {
            assert(broadcast_fold(ks, nkeys as int, b) == Ok::<nat, SortByError>(b));
            assert(broadcast_fold(ks, 0, 1) == Ok::<nat, SortByError>(b));
        }
        // Retroactive pass: stretch the keys that were processed before the
        // broadcast length was discovered.
        let mut final_cols: Vec<Column> = Vec::new();
        let mut k: usize = 0;
        while k < nkeys
            invariant
                0 <= k <= nkeys,
                nkeys == self.by@.len(),
                s_sort_by@.len() == nkeys,
                b == broadcast_length as nat,
                final_cols@.len() == k,
                forall|k2: int| 0 <= k2 < nkeys as int ==>
                    ((#[trigger] s_sort_by@[k2])@
                        == broadcast_col(self.by@[k2].flat_spec(), b)
                     || (s_sort_by@[k2]@ == self.by@[k2].flat_spec()
                         && self.by@[k2].flat_spec().len() == 1
                         && broadcast_length != 1)),
                forall|k2: int| 0 <= k2 < k as int ==>
                    (#[trigger] final_cols@[k2])@
                        == broadcast_col(self.by@[k2].flat_spec(), b),
            decreases nkeys - k,
        {
            let c = &s_sort_by[k];
            if c.len() != broadcast_length {
                proof {
                    assert(s_sort_by@[k as int]@ == self.by@[k as int].flat_spec());
                    assert(c@.len() == 1);
                }
                let stretched = c.new_from_index(0, broadcast_length);
                proof {
                    assert(stretched@ =~= broadcast_col(self.by@[k as int].flat_spec(), b));
                }
                final_cols.push(stretched);
            } else {
                final_cols.push(c.duplicate());
            }
            k = k + 1;
        }
        proof {
            assert forall|k2: int| 0 <= k2 < nkeys as int implies
                (#[trigger] final_cols@[k2])@.len() == b by {
                assert(final_cols@[k2]@ == broadcast_col(self.by@[k2].flat_spec(), b));
            }
            assert(key_views(final_cols@) =~= broadcast_views(self.by@, b));
        }
        let sorted_idx = arg_sort_multi(&final_cols, &descending, &nulls_last);
        if sorted_idx.len() != series.len() {
            proof {
                assert(sorted_idx@.len() == b);
            }
            return Err(SortByError::PermutationMismatch {
                idx_len: sorted_idx.len(),
                series_len: series.len(),
                expr: self.expr.name.clone(),
            });
        }
        proof {
            lemma_perm_bounds(sorted_idx@, b);
        }
        let c = series.gather(&sorted_idx);
        proof {
            lemma_gather_perm_ms(series@, sorted_idx@);
            assert(group_lex_sorted(broadcast_views(self.by@, b), descending@, nulls_last@,
                sorted_idx@));
            assert(group_lex_stable(broadcast_views(self.by@, b), descending@, nulls_last@,
                sorted_idx@));
        }
        Ok(c)
    }
}

/// The values of chunk `g` sit contiguously inside the concatenation, at the
/// offset given by the chunks before it.
pub proof fn lemma_concat_chunk(lists: Seq<Option<Column>>, g: int)
    requires
        0 <= g < lists.len(),
    ensures
        ({
            let off = crate::column::concat_lists_spec(lists.subrange(0, g)).len();
            let whole = crate::column::concat_lists_spec(lists);
            match lists[g] {
                Option::Some(c) => off + c@.len() <= whole.len()
                    && whole.subrange(off as int, off as int + c@.len() as int) == c@,
                Option::None => off <= whole.len(),
            }
        }),
    decreases lists.len(),
{
    let off = crate::column::concat_lists_spec(lists.subrange(0, g)).len();
    let whole = crate::column::concat_lists_spec(lists);
    if g == lists.len() - 1 {
        assert(lists.drop_last() =~= lists.subrange(0, g));
        match lists[g] {
            Option::Some(c) => {
                assert(whole == crate::column::concat_lists_spec(lists.subrange(0, g)) + c@);
                assert(whole.subrange(off as int, off as int + c@.len() as int) =~= c@);
            },
            Option::None => {
                assert(whole == crate::column::concat_lists_spec(lists.subrange(0, g))
                    + Seq::<Option<i64>>::empty());
            },
        }
    } else {
        lemma_concat_chunk(lists.drop_last(), g);
        assert(lists.drop_last().subrange(0, g) =~= lists.subrange(0, g));
        let prefix = crate::column::concat_lists_spec(lists.drop_last());
        match lists.last() {
            Option::Some(c2) => { assert(whole == prefix + c2@); },
            Option::None => {
                assert(whole == prefix + Seq::<Option<i64>>::empty());
                assert(whole =~= prefix);
            },
        }
        match lists[g] {
            Option::Some(c) => {
                assert(prefix.subrange(off as int, off as int + c@.len() as int) == c@);
                assert(whole.subrange(off as int, off as int + c@.len() as int)
                    =~= prefix.subrange(off as int, off as int + c@.len() as int));
            },
            Option::None => {},
        }
    }
}

/// The ungrouped fallback: both sides are materialized as one list per
/// group, each input list is reordered by the argsort of its key list, and
/// the reconstructed lists replace the input's value column in exploded
/// order; group count and group sizes are unchanged.
pub fn sort_by_groups_no_match_single(
    ac_in: crate::expr::AggregationContext,
    ac_by: crate::expr::AggregationContext,
    descending: bool,
) -> (r: Result<crate::expr::AggregationContext, SortByError>)
    requires
        ac_in.wf(),
        ac_by.wf(),
        ac_in.groups@.len() == ac_by.groups@.len(),
    ensures
        r matches Ok(ac) ==> ({
            let in_ls = ac_in.agg_lists_spec();
            let by_ls = ac_by.agg_lists_spec();
            &&& ac.groups@.len() == ac_in.groups@.len()
            &&& forall|g: int| 0 <= g < ac.groups@.len()
                ==> (#[trigger] ac.groups@[g]).len() == in_ls[g].len()
            &&& ac.update_groups == crate::expr::UpdateGroups::WithSeriesLen
            &&& ac.wf()
            &&& forall|g: int| 0 <= g < ac.groups@.len()
                ==> gather_seq(ac.values@, #[trigger] ac.groups@[g]).to_multiset()
                    == in_ls[g].to_multiset()
            &&& forall|g: int| #![trigger ac.groups@[g]] 0 <= g < ac.groups@.len()
                ==> fallback_group_ok(in_ls[g], by_ls[g],
                        gather_seq(ac.values@, ac.groups@[g]), descending)
        }),
        r matches Err(e) ==> e matches SortByError::ListLengthMismatch { .. },
        (r matches Err(_)) <==> (exists|g: int| 0 <= g < ac_in.groups@.len()
            && (#[trigger] ac_in.agg_lists_spec()[g]).len()
                != ac_by.agg_lists_spec()[g].len()),
{
    let in_lists = ac_in.aggregated();
    let by_lists = ac_by.aggregated();
    let ghost in_ls = ac_in.agg_lists_spec();
    let ghost by_ls = ac_by.agg_lists_spec();
    proof {
        assert forall|g: int| 0 <= g < in_lists@.len() implies
            (list_pair_mismatch(#[trigger] in_lists@[g], by_lists@[g])
                <==> in_ls[g].len() != by_ls[g].len()) by {
            assert(in_lists@[g] matches Option::Some(c) && c@ == in_ls[g]);
            assert(by_lists@[g] matches Option::Some(c) && c@ == by_ls[g]);
        }
    }
    let sorted = match sort_lists_by(&in_lists, &by_lists, descending) {
        Ok(s) => {
            proof {
                assert forall|g: int| 0 <= g < in_ls.len() implies
                    (#[trigger] in_ls[g]).len() == by_ls[g].len() by {
                    assert(!list_pair_mismatch(in_lists@[g], by_lists@[g]));
                }
            }
            s
        },
        Err(e) => {
            proof {
                let g = choose|g: int| 0 <= g < in_lists@.len()
                    && list_pair_mismatch(#[trigger] in_lists@[g], by_lists@[g]);
                assert(in_ls[g].len() != by_ls[g].len());
            }
            return Err(e);
        },
    };
    let values = concat_lists(&sorted);
    let vlen = values.len();
    let ghost whole = crate::column::concat_lists_spec(sorted@);
    let n = in_lists.len();
    let mut slices: Vec<(usize, usize)> = Vec::new();
    let mut off: usize = 0;
    let mut g: usize = 0;
    while g < n
        invariant
            0 <= g <= n,
            n == sorted@.len(),
            n == in_lists@.len(),
            in_lists@.len() == by_lists@.len(),
            n == in_ls.len(),
            vlen == values@.len(),
            values@ == whole,
            whole == crate::column::concat_lists_spec(sorted@),
            forall|h: int| 0 <= h < n as int
                ==> sorted_list_entry(in_lists@[h], by_lists@[h],
                        #[trigger] sorted@[h], descending),
            forall|h: int| 0 <= h < n as int
                ==> ((#[trigger] in_lists@[h]) matches Option::Some(c)
                    && c@ == in_ls[h]),
            forall|h: int| 0 <= h < n as int
                ==> ((#[trigger] by_lists@[h]) matches Option::Some(c)
                    && c@ == by_ls[h]),
            off == crate::column::concat_lists_spec(sorted@.subrange(0, g as int)).len(),
            off <= vlen,
            slices@.len() == g,
            forall|h: int| 0 <= h < g as int
                ==> ((#[trigger] slices@[h]).1 == in_ls[h].len()
                    && slices@[h].0 + slices@[h].1 <= vlen
                    && gather_seq(values@, slice_group_view(slices@[h].0, slices@[h].1))
                        == whole.subrange(slices@[h].0 as int,
                            slices@[h].0 as int + slices@[h].1 as int)
                    && whole.subrange(slices@[h].0 as int,
                            slices@[h].0 as int + slices@[h].1 as int)
                        == (match sorted@[h] {
                            Option::Some(c) => c@,
                            Option::None => Seq::<Option<i64>>::empty(),
                        })),
        decreases n - g,
    {
        let size = match (&in_lists[g], &by_lists[g]) {
            (Option::Some(a), _) => a.len(),
            _ => 0,
        };
        proof {
            lemma_concat_chunk(sorted@, g as int);
            assert(sorted@[g as int] matches Option::Some(c) && c@.len() == in_ls[g as int].len());
            assert(size == in_ls[g as int].len());
            assert(sorted@.subrange(0, g as int + 1).drop_last() =~= sorted@.subrange(0, g as int));
        }
        slices.push((off, size));
        proof {
            let c = sorted@[g as int]->Some_0;
            assert(off + size <= vlen);
            assert(whole.subrange(off as int, off as int + size as int) == c@);
            assert forall|j: int| 0 <= j < size as int implies
                gather_seq(values@, slice_group_view(off, size))[j]
                    == whole.subrange(off as int, off as int + size as int)[j] by {
                assert(slice_group_view(off, size)[j] == (off + j) as usize);
            }
            assert(gather_seq(values@, slice_group_view(off, size))
                =~= whole.subrange(off as int, off as int + size as int));
        }
        off = off + size;
        g = g + 1;
    }
    let ac = crate::expr::AggregationContext {
        values,
        groups: GroupsType::Slice(slices),
        update_groups: crate::expr::UpdateGroups::WithSeriesLen,
    };
    proof {
        assert(ac.groups@.len() == n);
        assert forall|g2: int| 0 <= g2 < n as int implies
            (#[trigger] ac.groups@[g2]) == slice_group_view(slices@[g2].0, slices@[g2].1) by {}
        assert forall|g2: int, i: int|
            0 <= g2 < ac.groups@.len() && 0 <= i < ac.groups@[g2].len()
            implies (#[trigger] ac.groups@[g2][i]) < ac.values@.len() by {
            assert(ac.groups@[g2] == slice_group_view(slices@[g2].0, slices@[g2].1));
            assert(ac.groups@[g2][i] == (slices@[g2].0 + i) as usize);
            assert(slices@[g2].0 + slices@[g2].1 <= vlen);
        }
        assert(ac.groups.rep_wf());
        assert forall|g2: int| 0 <= g2 < ac.groups@.len() implies
            (#[trigger] ac.groups@[g2]).len() == in_ls[g2].len() by {
            assert(ac.groups@[g2] == slice_group_view(slices@[g2].0, slices@[g2].1));
        }
        assert forall|g2: int| #![trigger ac.groups@[g2]] 0 <= g2 < n as int implies
            gather_seq(ac.values@, ac.groups@[g2]).to_multiset()
                == in_ls[g2].to_multiset() by {
            assert(sorted_list_entry(in_lists@[g2], by_lists@[g2], sorted@[g2], descending));
            let cv = sorted@[g2]->Some_0;
            assert(gather_seq(ac.values@, ac.groups@[g2]) == cv@);
            assert(in_lists@[g2] matches Option::Some(a) && a@ == in_ls[g2]);
        }
        assert forall|g2: int| #![trigger ac.groups@[g2]] 0 <= g2 < ac.groups@.len() implies
            fallback_group_ok(in_ls[g2], by_ls[g2],
                gather_seq(ac.values@, ac.groups@[g2]), descending) by {
            assert(sorted_list_entry(in_lists@[g2], by_lists@[g2], sorted@[g2], descending));
            let cv = sorted@[g2]->Some_0;
            assert(gather_seq(ac.values@, ac.groups@[g2]) == cv@);
            let av = in_lists@[g2]->Some_0;
            let bv = by_lists@[g2]->Some_0;
            assert(av@ == ac_in.agg_lists_spec()[g2]);
            assert(bv@ == ac_by.agg_lists_spec()[g2]);
            let p = choose|p: Seq<usize>| #[trigger] is_perm_of(p, av@.len())
                && cv@ == gather_seq(av@, p)
                && (forall|i: int, j: int| 0 <= i < j < p.len()
                    ==> cmp_val(bv@[p[i] as int], bv@[p[j] as int],
                            descending, false) <= 0);
            assert(gather_seq(in_ls[g2], p) == cv@);
            assert(fallback_group_ok(in_ls[g2], by_ls[g2], cv@, descending));
        }
    }
    Ok(ac)
}

impl SortByExpr {
    /// What grouped evaluation requires of the expression and the partition:
    /// at least one key, sub-expressions coherent with the partition, and,
    /// where the input was already restructured, a usable first flag and
    /// matching group counts for the fallback.
    pub open spec fn grouped_wf(&self, groups: GroupsType) -> bool {
        &&& self.by@.len() >= 1
        &&& self.input.wf()
        &&& self.input.compatible(groups)
        &&& forall|k: int| 0 <= k < self.by@.len()
            ==> (#[trigger] self.by@[k]).wf() && self.by@[k].compatible(groups)
        &&& (self.input.status_spec() != crate::expr::UpdateGroups::No
            ==> self.by@[0].ctx_groups_spec(groups).len()
                == self.input.ctx_groups_spec(groups).len())
    }

    /// Grouped evaluation: every group's member rows are reordered by the
    /// keys while group count, group order and group sizes are preserved;
    /// key/input length disagreements, partition disagreements and empty
    /// groups are errors.
    pub fn evaluate_on_groups(&self, groups: &GroupsType) -> (r: Result<crate::expr::AggregationContext, SortByError>)
        requires
            self.grouped_wf(*groups),
        ensures
            ({
                let nkeys = self.by@.len();
                let in_vals = self.input.flat_spec();
                let in_gv = self.input.ctx_groups_spec(*groups);
                let key_gv = self.by@[0].ctx_groups_spec(*groups);
                let kv0 = self.by@[0].flat_spec();
                let kv_all = Seq::new(nkeys, |k: int| self.by@[k].flat_spec());
                let dd = prepare_bool_spec(self.sort_options.descending@, nkeys);
                let nn = prepare_bool_spec(self.sort_options.nulls_last@, nkeys);
                let keys_ok = forall|k: int| 0 <= k < nkeys
                    ==> (#[trigger] self.by@[k]).flat_spec().len() == in_vals.len();
                if !keys_ok {
                    r matches Err(e) && e matches SortByError::KeyLengthMismatch { expr, .. }
                        && expr == self.expr.name
                } else if nkeys == 1 && self.input.status_spec() != crate::expr::UpdateGroups::No {
                    if exists|g: int| 0 <= g < in_gv.len()
                        && (#[trigger] in_gv[g]).len() != key_gv[g].len() {
                        r matches Err(e) && e matches SortByError::ListLengthMismatch { .. }
                    } else {
                        r matches Ok(ac) && ({
                            &&& ac.groups@.len() == in_gv.len()
                            &&& forall|g: int| 0 <= g < ac.groups@.len()
                                ==> (#[trigger] ac.groups@[g]).len() == in_gv[g].len()
                            &&& ac.update_groups == crate::expr::UpdateGroups::WithSeriesLen
                            &&& forall|g: int| 0 <= g < ac.groups@.len()
                                ==> gather_seq(ac.values@, #[trigger] ac.groups@[g]).to_multiset()
                                    == gather_seq(in_vals, in_gv[g]).to_multiset()
                            &&& forall|g: int| #![trigger ac.groups@[g]]
                                0 <= g < ac.groups@.len()
                                ==> fallback_group_ok(gather_seq(in_vals, in_gv[g]),
                                        gather_seq(kv0, key_gv[g]),
                                        gather_seq(ac.values@, ac.groups@[g]),
                                        dd[0])
                        })
                    }
                } else {
                    let empty_exists = exists|g: int| 0 <= g < key_gv.len()
                        && (#[trigger] key_gv[g]).len() == 0;
                    if nkeys == 1 && !groups_consistent(key_gv, in_gv) {
                        r == Err::<crate::expr::AggregationContext, SortByError>(
                            SortByError::GroupsMismatch)
                    } else if empty_exists {
                        r == Err::<crate::expr::AggregationContext, SortByError>(
                            SortByError::GroupsMismatch)
                    } else {
                        r matches Ok(ac) && ({
                            &&& ac.update_groups == crate::expr::UpdateGroups::No
                            &&& ac.groups@.len() == key_gv.len()
                            &&& forall|g: int| 0 <= g < ac.groups@.len()
                                ==> (#[trigger] ac.groups@[g]).len() == key_gv[g].len()
                            &&& forall|g: int| 0 <= g < ac.groups@.len()
                                ==> (#[trigger] ac.groups@[g]).to_multiset()
                                    == key_gv[g].to_multiset()
                            &&& (nkeys == 1 ==> forall|g: int| 0 <= g < ac.groups@.len()
                                ==> group_sorted_by(kv0, #[trigger] ac.groups@[g],
                                        dd[0], nn[0]))
                            &&& (nkeys > 1 ==> forall|g: int| 0 <= g < ac.groups@.len()
                                ==> group_lex_sorted(kv_all, dd, nn,
                                        #[trigger] ac.groups@[g]))
                            &&& (nkeys == 1 ==> forall|g: int| 0 <= g < ac.groups@.len()
                                ==> stable_sorted_group(kv0, key_gv[g],
                                        #[trigger] ac.groups@[g], dd[0], nn[0]))
                            &&& (nkeys > 1 ==> forall|g: int| 0 <= g < ac.groups@.len()
                                ==> stable_lex_sorted_group(kv_all, key_gv[g],
                                        #[trigger] ac.groups@[g], dd, nn))
                            &&& ac.values@ == (
                                if self.by@[0].status_spec() != crate::expr::UpdateGroups::No {
                                    flatten_lists(Seq::new(in_gv.len(),
                                        |g: int| gather_seq(in_vals, in_gv[g])))
                                } else {
                                    in_vals
                                })
                        })
                    }
                }
            }),
    {
        let ghost in_vals = self.input.flat_spec();
        let ghost in_gv = self.input.ctx_groups_spec(*groups);
        let ghost key_gv = self.by@[0].ctx_groups_spec(*groups);
        let ac_in = self.input.evaluate_on_groups(groups);
        let nkeys = self.by.len();
        let descending = prepare_bool_vec(&self.sort_options.descending, nkeys);
        let nulls_last = prepare_bool_vec(&self.sort_options.nulls_last, nkeys);

        let mut ac_sort_by: Vec<crate::expr::AggregationContext> = Vec::new();
        let mut k: usize = 0;
        while k < nkeys
            invariant
                0 <= k <= nkeys,
                nkeys == self.by@.len(),
                self.grouped_wf(*groups),
                ac_sort_by@.len() == k,
                forall|h: int| 0 <= h < k as int ==> ({
                    &&& (#[trigger] ac_sort_by@[h]).values@ == self.by@[h].flat_spec()
                    &&& ac_sort_by@[h].groups@ == self.by@[h].ctx_groups_spec(*groups)
                    &&& ac_sort_by@[h].update_groups == self.by@[h].status_spec()
                    &&& ac_sort_by@[h].wf()
                }),
            decreases nkeys - k,
        {
            proof {
                assert(self.by@[k as int].wf() && self.by@[k as int].compatible(*groups));
            }
            ac_sort_by.push(self.by[k].evaluate_on_groups(groups));
            k = k + 1;
        }

        let mut sort_by_s: Vec<Column> = Vec::new();
        k = 0;
        while k < nkeys
            invariant
                0 <= k <= nkeys,
                nkeys == self.by@.len(),
                ac_sort_by@.len() == nkeys,
                forall|h: int| 0 <= h < nkeys as int
                    ==> (#[trigger] ac_sort_by@[h]).values@ == self.by@[h].flat_spec(),
                sort_by_s@.len() == k,
                forall|h: int| 0 <= h < k as int
                    ==> (#[trigger] sort_by_s@[h])@ == self.by@[h].flat_spec(),
            decreases nkeys - k,
        {
            sort_by_s.push(ac_sort_by[k].values.duplicate());
            k = k + 1;
        }

        // Every key must produce the same number of rows as the input.
        let in_len = ac_in.values.len();
        k = 0;
        while k < nkeys
            invariant
                0 <= k <= nkeys,
                nkeys == self.by@.len(),
                in_len == self.input.flat_spec().len(),
                sort_by_s@.len() == nkeys,
                forall|h: int| 0 <= h < nkeys as int
                    ==> (#[trigger] sort_by_s@[h])@ == self.by@[h].flat_spec(),
                forall|h: int| 0 <= h < k as int
                    ==> (#[trigger] self.by@[h]).flat_spec().len()
                        == self.input.flat_spec().len(),
            decreases nkeys - k,
        {
            if sort_by_s[k].len() != in_len {
                return Err(SortByError::KeyLengthMismatch {
                    key_len: sort_by_s[k].len(),
                    input_len: in_len,
                    expr: self.expr.name.clone(),
                });
            }
            k = k + 1;
        }

        let ordered_by_group_operation = matches!(ac_sort_by[0].update_groups,
            crate::expr::UpdateGroups::WithSeriesLen | crate::expr::UpdateGroups::WithGroupsLen);

        let new_groups: GroupsType;
        if nkeys == 1 {
            let ac_by0 = match ac_sort_by.pop() {
                Option::Some(a) => a,
                Option::None => {
                    proof { assert(false); }
                    return Err(SortByError::GroupsMismatch);
                },
            };
            // The input's values no longer align with its raw rows: take the
            // slower, fully materialized path.
            if !matches!(ac_in.update_groups, crate::expr::UpdateGroups::No) {
                proof {
                    assert(ac_in.groups@.len() == ac_by0.groups@.len());
                    assert forall|g: int| 0 <= g < ac_in.groups@.len() implies
                        (#[trigger] ac_in.agg_lists_spec()[g]).len() == in_gv[g].len()
                        && ac_by0.agg_lists_spec()[g].len() == key_gv[g].len() by {}
                }
                let ghost in_ls0 = ac_in.agg_lists_spec();
                let ghost by_ls0 = ac_by0.agg_lists_spec();
                let res = sort_by_groups_no_match_single(ac_in, ac_by0, descending[0]);
                proof {
                    match res {
                        Result::Ok(ref ac2) => {
                            assert forall|g: int| 0 <= g < in_gv.len() implies
                                (#[trigger] in_gv[g]).len() == key_gv[g].len() by {
                                assert(in_ls0[g].len() == in_gv[g].len());
                                assert(by_ls0[g].len() == key_gv[g].len());
                                assert(!(in_ls0[g].len() != by_ls0[g].len()));
                            }
                            assert forall|g: int| #![trigger ac2.groups@[g]]
                                0 <= g < ac2.groups@.len() implies
                                fallback_group_ok(gather_seq(in_vals, in_gv[g]),
                                    gather_seq(self.by@[0].flat_spec(), key_gv[g]),
                                    gather_seq(ac2.values@, ac2.groups@[g]),
                                    descending@[0]) by {
                                assert(in_ls0[g] == gather_seq(in_vals, in_gv[g]));
                                assert(by_ls0[g]
                                    == gather_seq(self.by@[0].flat_spec(), key_gv[g]));
                                assert(fallback_group_ok(in_ls0[g], by_ls0[g],
                                    gather_seq(ac2.values@, ac2.groups@[g]),
                                    descending@[0]));
                            }
                        },
                        Result::Err(_) => {
                            let g = choose|g: int| 0 <= g < in_ls0.len()
                                && (#[trigger] in_ls0[g]).len() != by_ls0[g].len();
                            assert(in_gv[g].len() != key_gv[g].len());
                            assert(exists|g2: int| 0 <= g2 < in_gv.len()
                                && (#[trigger] in_gv[g2]).len() != key_gv[g2].len());
                        },
                    }
                }
                return res;
            }
            let sort_by_s0 = &sort_by_s[0];
            match check_groups(&ac_by0.groups, &ac_in.groups) {
                Ok(_) => {},
                Err(e) => {
                    return Err(e);
                },
            }
            let opts = SortOptions {
                descending: descending[0],
                nulls_last: nulls_last[0],
                multithreaded: true,
                maintain_order: false,
            };
            new_groups = match update_groups_sort_by(&ac_by0.groups, sort_by_s0, &opts) {
                Ok(gg) => gg,
                Err(e) => {
                    return Err(e);
                },
            };
        } else {
            let ghost kv_all = Seq::new(self.by@.len(), |k2: int| self.by@[k2].flat_spec());
            proof {
                assert(key_views(sort_by_s@) =~= kv_all);
                assert(forall|h: int| 0 <= h < nkeys as int
                    ==> (#[trigger] sort_by_s@[h])@.len() == sort_by_s@[0]@.len());
            }
            let key_groups_n = ac_sort_by[0].groups.len();
            let mut out: Vec<(usize, Vec<usize>)> = Vec::new();
            let mut g: usize = 0;
            while g < key_groups_n
                invariant
                    0 <= g <= key_groups_n,
                    nkeys == self.by@.len(),
                    nkeys >= 2,
                    ac_sort_by@.len() == nkeys,
                    ac_sort_by@[0].groups@ == key_gv,
                    ac_sort_by@[0].values@ == self.by@[0].flat_spec(),
                    ac_sort_by@[0].wf(),
                    key_groups_n == key_gv.len(),
                    key_gv == self.by@[0].ctx_groups_spec(*groups),
                    descending@.len() == nkeys,
                    nulls_last@.len() == nkeys,
                    sort_by_s@.len() == nkeys,
                    kv_all == Seq::new(self.by@.len(), |k2: int| self.by@[k2].flat_spec()),
                    key_views(sort_by_s@) == kv_all,
                    forall|h: int| 0 <= h < nkeys as int
                        ==> (#[trigger] sort_by_s@[h])@ == self.by@[h].flat_spec(),
                    forall|h: int| 0 <= h < nkeys as int
                        ==> (#[trigger] self.by@[h]).flat_spec().len()
                            == self.input.flat_spec().len(),
                    out@.len() == g,
                    forall|h: int| 0 <= h < g as int
                        ==> ((#[trigger] out@[h]).1@.len() == key_gv[h].len()
                            && out@[h].1@.to_multiset() == key_gv[h].to_multiset()
                            && group_lex_sorted(kv_all, descending@, nulls_last@,
                                out@[h].1@)
                            && stable_lex_sorted_group(kv_all, key_gv[h], out@[h].1@,
                                descending@, nulls_last@)),
                    forall|h: int| 0 <= h < g as int
                        ==> (#[trigger] key_gv[h]).len() > 0,
                decreases key_groups_n - g,
            {
                let indicator = ac_sort_by[0].groups.indicator_at(g);
                proof {
                    assert(indicator.rows() == key_gv[g as int]);
                    assert(sort_by_s@[0]@.len() == self.by@[0].flat_spec().len());
                    assert forall|i: int| 0 <= i < indicator.rows().len() implies
                        (#[trigger] indicator.rows()[i]) < sort_by_s@[0]@.len() by {
                        assert(key_gv[g as int][i] < self.by@[0].flat_spec().len());
                    }
                }
                match sort_by_groups_multiple_by(&indicator, &sort_by_s, &descending,
                    &nulls_last, self.sort_options.multithreaded,
                    self.sort_options.maintain_order) {
                    Ok(p) => {
                        proof {
                            assert(stable_lex_sorted_group(kv_all, key_gv[g as int], p.1@,
                                descending@, nulls_last@));
                        }
                        out.push((p.0, p.1));
                    },
                    Err(e) => {
                        proof {
                            assert(key_gv[g as int].len() == 0);
                            assert(self.by@[0].ctx_groups_spec(*groups)[g as int].len() == 0);
                            assert(exists|g2: int|
                                0 <= g2 < self.by@[0].ctx_groups_spec(*groups).len()
                                && (#[trigger] self.by@[0].ctx_groups_spec(*groups)[g2]).len()
                                    == 0);
                            assert(e == SortByError::GroupsMismatch);
                        }
                        return Err(e);
                    },
                }
                g = g + 1;
            }
            let ng = GroupsType::Idx(out);
            proof {
                assert(ng@.len() == key_gv.len());
                assert forall|g2: int| 0 <= g2 < ng@.len() implies
                    (#[trigger] ng@[g2]).len() == key_gv[g2].len()
                    && ng@[g2].to_multiset() == key_gv[g2].to_multiset()
                    && group_lex_sorted(kv_all, descending@, nulls_last@, ng@[g2])
                    && stable_lex_sorted_group(kv_all, key_gv[g2], ng@[g2],
                        descending@, nulls_last@) by {
                    assert(ng@[g2] == out@[g2].1@);
                }
            }
            new_groups = ng;
        }
        let mut ac = ac_in;
        if ordered_by_group_operation {
            // The key was reordered by a prior aggregation: re-explode the
            // input's aggregated values to match that order.
            let lists = ac.aggregated();
            proof {
                lemma_concat_matches(lists@, ac.agg_lists_spec());
                assert(ac.agg_lists_spec()
                    =~= Seq::new(in_gv.len(), |g: int| gather_seq(in_vals, in_gv[g])));
            }
            let exploded = concat_lists(&lists);
            ac.values = exploded;
        }
        ac.groups = new_groups.into_sliceable();
        ac.update_groups = crate::expr::UpdateGroups::No;
        Ok(ac)
    }
}

} // verus!
