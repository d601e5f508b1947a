//! Sub-expressions and the aggregation context.
//!
//! A sub-expression is an external collaborator of the sort-by evaluator: all
//! the evaluator reads from it is the column it evaluates to, the partition
//! that column carries in a grouping context, and its alignment status. The
//! model therefore represents a sub-expression by those evaluation results.

use vstd::prelude::*;
use crate::column::Column;
use crate::gather::gather_seq;
use crate::groups::{GroupsType, GroupsIndicator, groups_in_bounds, slice_group_view};

verus! {

/// How an evaluated column currently relates to the partition it carries.
#[derive(Debug, Clone, Copy, PartialEq, Eq, Structural)]
pub enum UpdateGroups {
    /// The values align one-to-one with the original input's row order.
    No,
    /// The column holds one aggregated value per group.
    WithGroupsLen,
    /// The values were already permuted or exploded into per-group order by a
    /// previous aggregation.
    WithSeriesLen,
}

/// The identity of an expression, used for diagnostics.
#[derive(Debug, Clone)]
pub struct Expr {
    pub name: String,
}

/// A sub-expression, represented by what it evaluates to.
#[derive(Debug, Clone)]
pub enum PhysicalExpr {
    /// Evaluates to this column, row-aligned with the input rows; in a
    /// grouping context it keeps the partition it is handed.
    Values(Column),
    /// A scalar literal: evaluates to a length-1 column and may broadcast.
    Scalar(Option<i64>),
    /// In a grouping context this expression produces its own partition
    /// (for example an inner group-by).
    Grouped { values: Column, groups: GroupsType },
    /// Its grouped values were already restructured by a prior aggregation;
    /// the status says how (it is never `No`).
    Reordered { values: Column, status: UpdateGroups },
}

/// The total number of rows of the first `g` groups.
pub open spec fn groups_offset(gv: Seq<Seq<usize>>, g: int) -> int
    decreases g,
{
    if g <= 0 {
        0
    } else {
        groups_offset(gv, g - 1) + gv[g - 1].len()
    }
}

pub proof fn lemma_groups_offset_nonneg(gv: Seq<Seq<usize>>, g: int)
    ensures
        0 <= groups_offset(gv, g),
    decreases g,
{
    if g > 0 {
        lemma_groups_offset_nonneg(gv, g - 1);
    }
}

pub proof fn lemma_groups_offset_monotone(gv: Seq<Seq<usize>>, g: int, h: int)
    requires
        0 <= g <= h,
    ensures
        groups_offset(gv, g) <= groups_offset(gv, h),
        0 <= groups_offset(gv, g),
    decreases h - g,
{
    lemma_groups_offset_nonneg(gv, g);
    if g < h {
        lemma_groups_offset_monotone(gv, g, h - 1);
    }
}

/// The partition that stands for a column exploded into per-group order:
/// group `g` holds the contiguous positions after the first `g` groups.
pub open spec fn exploded_groups(gv: Seq<Seq<usize>>) -> Seq<Seq<usize>> {
    Seq::new(gv.len(), |g: int| Seq::new(gv[g].len(), |j: int| (groups_offset(gv, g) + j) as usize))
}

/// The partition that pairs group `g` with the single position `g` (one
/// aggregated value per group).
pub open spec fn per_group_groups(n: nat) -> Seq<Seq<usize>> {
    Seq::new(n, |g: int| seq![g as usize])
}

impl PhysicalExpr {
    /// The column the expression evaluates to, flat.
    pub open spec fn flat_spec(&self) -> Seq<Option<i64>> {
        match self {
            PhysicalExpr::Values(c) => c@,
            PhysicalExpr::Scalar(v) => seq![*v],
            PhysicalExpr::Grouped { values, .. } => values@,
            PhysicalExpr::Reordered { values, .. } => values@,
        }
    }

    /// Whether the expression is declared scalar (permitted to broadcast).
    pub open spec fn is_scalar_spec(&self) -> bool {
        matches!(self, PhysicalExpr::Scalar(_))
    }

    /// The alignment status its grouped evaluation reports.
    pub open spec fn status_spec(&self) -> UpdateGroups {
        match self {
            PhysicalExpr::Reordered { status, .. } => *status,
            _ => UpdateGroups::No,
        }
    }

    /// The partition its grouped evaluation carries, given the partition it
    /// is evaluated against.
    pub open spec fn ctx_groups_spec(&self, groups: GroupsType) -> Seq<Seq<usize>> {
        match self {
            PhysicalExpr::Values(_) => groups@,
            PhysicalExpr::Scalar(_) => groups@,
            PhysicalExpr::Grouped { groups: own, .. } => own@,
            PhysicalExpr::Reordered { values, status } => match status {
                UpdateGroups::No => groups@,
                UpdateGroups::WithSeriesLen => exploded_groups(groups@),
                UpdateGroups::WithGroupsLen => per_group_groups(groups@.len()),
            },
        }
    }

    /// A well-formed expression: a restructured one really is restructured.
    pub open spec fn wf(&self) -> bool {
        match self {
            PhysicalExpr::Reordered { status, .. } => *status != UpdateGroups::No,
            _ => true,
        }
    }

    /// The expression's column and partition cohere with the partition it is
    /// evaluated against, so that every group indexes into the column.
    pub open spec fn compatible(&self, groups: GroupsType) -> bool {
        match self {
            PhysicalExpr::Values(c) => groups_in_bounds(groups@, c@.len()) && groups.rep_wf(),
            PhysicalExpr::Scalar(_) => groups_in_bounds(groups@, 1) && groups.rep_wf(),
            PhysicalExpr::Grouped { values, groups: own } => groups_in_bounds(own@, values@.len())
                && own.rep_wf(),
            PhysicalExpr::Reordered { values, status } => match status {
                UpdateGroups::No => true,
                UpdateGroups::WithSeriesLen => groups_offset(groups@, groups@.len() as int)
                    <= values@.len(),
                UpdateGroups::WithGroupsLen => groups@.len() == values@.len(),
            },
        }
    }

    /// Flat, ungrouped evaluation.
    pub fn evaluate(&self) -> (r: Column)
        ensures
            r@ == self.flat_spec(),
    {
        match self {
            PhysicalExpr::Values(c) => c.duplicate(),
            PhysicalExpr::Scalar(v) => {
                let mut values: Vec<Option<i64>> = Vec::new();
                values.push(*v);
                assert(values@ =~= seq![*v]);
                Column { values }
            },
            PhysicalExpr::Grouped { values, .. } => values.duplicate(),
            PhysicalExpr::Reordered { values, .. } => values.duplicate(),
        }
    }

    /// Whether the expression is declared scalar.
    pub fn is_scalar(&self) -> (r: bool)
        ensures
            r == self.is_scalar_spec(),
    {
        matches!(self, PhysicalExpr::Scalar(_))
    }

    /// Grouped evaluation: the evaluated column together with the partition
    /// it carries and its alignment status.
    pub fn evaluate_on_groups(&self, groups: &GroupsType) -> (r: AggregationContext)
        requires
            self.wf(),
            self.compatible(*groups),
        ensures
            r.values@ == self.flat_spec(),
            r.groups@ == self.ctx_groups_spec(*groups),
            r.update_groups == self.status_spec(),
            r.wf(),
    {
        match self {
            PhysicalExpr::Values(c) => {
                let r = AggregationContext {
                    values: c.duplicate(),
                    groups: groups.duplicate(),
                    update_groups: UpdateGroups::No,
                };
                proof {
                    assert(r.groups@ == groups@);
                    assert(r.values@.len() == c@.len());
                    assert(groups_in_bounds(r.groups@, r.values@.len()));
                    assert(r.groups.rep_wf());
                }
                r
            },
            PhysicalExpr::Scalar(v) => {
                let mut values: Vec<Option<i64>> = Vec::new();
                values.push(*v);
                assert(values@ =~= seq![*v]);
                AggregationContext {
                    values: Column { values },
                    groups: groups.duplicate(),
                    update_groups: UpdateGroups::No,
                }
            },
            PhysicalExpr::Grouped { values, groups: own } => AggregationContext {
                values: values.duplicate(),
                groups: own.duplicate(),
                update_groups: UpdateGroups::No,
            },
            PhysicalExpr::Reordered { values, status } => {
                match status {
                    UpdateGroups::No => {
                        // Excluded by well-formedness.
                        proof { assert(false); }
                        AggregationContext {
                            values: values.duplicate(),
                            groups: groups.duplicate(),
                            update_groups: UpdateGroups::No,
                        }
                    },
                    UpdateGroups::WithSeriesLen => {
                        let ghost gv = groups@;
                        let vlen = values.len();
                        let n = groups.len();
                        let mut slices: Vec<(usize, usize)> = Vec::new();
                        let mut off: usize = 0;
                        let mut g: usize = 0;
                        proof {
                            lemma_groups_offset_monotone(gv, 0, gv.len() as int);
                        }
                        while g < n
                            invariant
                                0 <= g <= n,
                                n == gv.len(),
                                gv == groups@,
                                vlen == values@.len(),
                                groups_offset(gv, gv.len() as int) <= values@.len(),
                                off == groups_offset(gv, g as int),
                                off <= values@.len(),
                                slices@.len() == g,
                                forall|h: int| 0 <= h < g as int
                                    ==> slice_group_view(#[trigger] slices@[h].0, slices@[h].1)
                                        =~= exploded_groups(gv)[h],
                                forall|h: int| 0 <= h < g as int
                                    ==> (#[trigger] slices@[h]).0 + slices@[h].1
                                        <= values@.len(),
                            decreases n - g,
                        {
                            let size = groups.group_len_at(g);
                            proof {
                                lemma_groups_offset_monotone(gv, g as int + 1, gv.len() as int);
                                assert(groups_offset(gv, g as int + 1)
                                    == off + gv[g as int].len());
                            }
                            slices.push((off, size));
                            proof {
                                assert(slice_group_view(off, size)
                                    =~= exploded_groups(gv)[g as int]);
                            }
                            off = off + size;
                            g = g + 1;
                        }
                        let r = AggregationContext {
                            values: values.duplicate(),
                            groups: GroupsType::Slice(slices),
                            update_groups: UpdateGroups::WithSeriesLen,
                        };
                        proof {
                            assert(r.groups@ =~= exploded_groups(gv));
                            lemma_exploded_in_bounds(gv, values@.len());
                            assert(r.groups.rep_wf());
                        }
                        r
                    },
                    UpdateGroups::WithGroupsLen => {
                        let n = groups.len();
                        let mut gs: Vec<(usize, Vec<usize>)> = Vec::new();
                        let mut g: usize = 0;
                        while g < n
                            invariant
                                0 <= g <= n,
                                gs@.len() == g,
                                forall|h: int| 0 <= h < g as int
                                    ==> (#[trigger] gs@[h].1)@ =~= seq![h as usize],
                            decreases n - g,
                        {
                            let mut idx: Vec<usize> = Vec::new();
                            idx.push(g);
                            assert(idx@ =~= seq![g as usize]);
                            gs.push((g, idx));
                            g = g + 1;
                        }
                        let r = AggregationContext {
                            values: values.duplicate(),
                            groups: GroupsType::Idx(gs),
                            update_groups: UpdateGroups::WithGroupsLen,
                        };
                        proof {
                            assert(r.groups@ =~= per_group_groups(groups@.len()));
                            assert forall|g2: int, i: int|
                                0 <= g2 < r.groups@.len() && 0 <= i < r.groups@[g2].len()
                                implies (#[trigger] r.groups@[g2][i]) < r.values@.len() by {
                                assert(r.groups@[g2] == seq![g2 as usize]);
                                assert(r.groups@[g2][i] == g2 as usize);
                            }
                        }
                        r
                    },
                }
            },
        }
    }
}

/// Every position of the exploded partition is below the total size, hence
/// below the column length.
pub proof fn lemma_exploded_in_bounds(gv: Seq<Seq<usize>>, len: nat)
    requires
        groups_offset(gv, gv.len() as int) <= len,
        len <= usize::MAX,
    ensures
        groups_in_bounds(exploded_groups(gv), len),
{
    let ex = exploded_groups(gv);
    assert forall|g: int, i: int|
        0 <= g < ex.len() && 0 <= i < ex[g].len()
        implies (#[trigger] ex[g][i]) < len by {
        lemma_groups_offset_monotone(gv, 0, g);
        lemma_groups_offset_monotone(gv, g + 1, gv.len() as int);
        assert(groups_offset(gv, g + 1) == groups_offset(gv, g) + gv[g].len());
        assert(groups_offset(gv, g) + i < len);
        assert(ex[g][i] == (groups_offset(gv, g) + i) as usize);
    }
}

/// An evaluated column coupled with the partition currently associated with
/// it and the status describing how the two align.
#[derive(Debug, Clone)]
pub struct AggregationContext {
    pub values: Column,
    pub groups: GroupsType,
    pub update_groups: UpdateGroups,
}

impl AggregationContext {
    /// Every group of the partition indexes into the column, and no slice
    /// group wraps around the index range.
    pub open spec fn wf(&self) -> bool {
        groups_in_bounds(self.groups@, self.values@.len()) && self.groups.rep_wf()
    }

    /// The per-group value lists of this context: group `g`'s list holds the
    /// column's values at the rows of group `g`.
    pub open spec fn agg_lists_spec(&self) -> Seq<Seq<Option<i64>>> {
        Seq::new(self.groups@.len(), |g: int| gather_seq(self.values@, self.groups@[g]))
    }

    /// Materializes the context as one list of values per group.
    pub fn aggregated(&self) -> (r: Vec<Option<Column>>)
        requires
            self.wf(),
        ensures
            r@.len() == self.groups@.len(),
            forall|g: int| 0 <= g < r@.len()
                ==> ((#[trigger] r@[g]) matches Option::Some(c)
                    && c@ == self.agg_lists_spec()[g]),
    {
        let n = self.groups.len();
        let mut r: Vec<Option<Column>> = Vec::new();
        let mut g: usize = 0;
        while g < n
            invariant
                0 <= g <= n,
                n == self.groups@.len(),
                self.wf(),
                r@.len() == g,
                forall|h: int| 0 <= h < g as int
                    ==> ((#[trigger] r@[h]) matches Option::Some(c)
                        && c@ == self.agg_lists_spec()[h]),
            decreases n - g,
        {
            let ind = self.groups.indicator_at(g);
            let chunk: Column = match &ind {
                GroupsIndicator::Idx(_, idx) => {
                    assert(forall|i: int| 0 <= i < idx@.len()
                        ==> (#[trigger] idx@[i]) < self.values@.len());
                    self.values.gather(idx)
                },
                GroupsIndicator::Slice(first, len) => {
                    let first = *first;
                    let len = *len;
    if len == 0 {
                        let empty: Vec<Option<i64>> = Vec::new();
                        assert(empty@ =~= gather_seq(self.values@, slice_group_view(first, 0)));
                        Column { values: empty }
                    } else {
                        proof {
                            assert(self.groups@[g as int] == slice_group_view(first, len));
                            assert(slice_group_view(first, len)[len - 1]
                                == (first + (len - 1)) as usize);
                            assert(first + len <= usize::MAX + 1);
                            assert((first + (len - 1)) as usize == first as int + (len - 1));
                            assert(slice_group_view(first, len)[len - 1] < self.values@.len());
                        }
                        assert(first + len <= self.values@.len());
                        let c = self.values.slice(first, len);
                        proof {
                            assert(c@ =~= gather_seq(self.values@, slice_group_view(first, len)));
                        }
                        c
                    }
                },
            };
            proof {
                assert(chunk@ == self.agg_lists_spec()[g as int]);
            }
            r.push(Option::Some(chunk));
            g = g + 1;
        }
        r
    }
}

} // verus!
