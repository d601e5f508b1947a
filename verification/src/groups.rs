//! The partition model: an ordered sequence of groups of row indices, in
//! either the explicit (index vector) or the sliceable (contiguous range)
//! representation, and the per-group view used while iterating it.

use vstd::prelude::*;

verus! {

/// A partition of row indices into ordered groups.
///
/// In the explicit representation each group is `(first_index, index_vector)`;
/// in the sliceable representation each group is `(first_offset, length)` and
/// stands for the contiguous rows `first_offset .. first_offset + length`.
#[derive(Debug, Clone)]
pub enum GroupsType {
    Idx(Vec<(usize, Vec<usize>)>),
    Slice(Vec<(usize, usize)>),
}

/// The rows of one slice group, as a sequence of indices.
pub open spec fn slice_group_view(first: usize, len: usize) -> Seq<usize> {
    Seq::new(len as nat, |j: int| (first + j) as usize)
}

impl View for GroupsType {
    type V = Seq<Seq<usize>>;

    /// Every group as the sequence of its row indices, in group order.
    open spec fn view(&self) -> Seq<Seq<usize>> {
        match self {
            GroupsType::Idx(gs) => gs@.map(|i: int, g: (usize, Vec<usize>)| g.1@),
            GroupsType::Slice(gs) => gs@.map(|i: int, g: (usize, usize)| slice_group_view(g.0, g.1)),
        }
    }
}

/// All indices of all groups are below `len`.
pub open spec fn groups_in_bounds(gv: Seq<Seq<usize>>, len: nat) -> bool {
    forall|g: int, i: int|
        0 <= g < gv.len() && 0 <= i < gv[g].len() ==> (#[trigger] gv[g][i]) < len
}

/// Every group is non-empty and its rows are contiguous and ascending, so
/// the partition can be held in the sliceable representation.
pub open spec fn all_groups_contiguous(gv: Seq<Seq<usize>>) -> bool {
    forall|g: int| 0 <= g < gv.len()
        ==> ((#[trigger] gv[g]).len() > 0
            && forall|i: int| 0 <= i < gv[g].len()
                ==> (#[trigger] gv[g][i]) as int == gv[g][0] + i)
}

/// A read-only view of one group, matching the partition's representation.
#[derive(Debug, Clone)]
pub enum GroupsIndicator {
    Idx(usize, Vec<usize>),
    Slice(usize, usize),
}

impl GroupsIndicator {
    /// The rows of the group, as a sequence of indices.
    pub open spec fn rows(&self) -> Seq<usize> {
        match self {
            GroupsIndicator::Idx(_, idx) => idx@,
            GroupsIndicator::Slice(first, len) => slice_group_view(*first, *len),
        }
    }

    /// A slice group does not wrap around the index range.
    pub open spec fn rep_wf(&self) -> bool {
        match self {
            GroupsIndicator::Idx(_, _) => true,
            GroupsIndicator::Slice(first, len) => *first + *len <= usize::MAX + 1,
        }
    }
}

impl GroupsType {
    /// No slice group wraps around the index range, so the view of every
    /// group honestly lists its rows.
    pub open spec fn rep_wf(&self) -> bool {
        match self {
            GroupsType::Idx(_) => true,
            GroupsType::Slice(gs) => forall|g: int| 0 <= g < gs@.len()
                ==> (#[trigger] gs@[g]).0 + gs@[g].1 <= usize::MAX + 1,
        }
    }

    /// The number of groups.
    pub fn len(&self) -> (r: usize)
        ensures
            r == self@.len(),
    {
        match self {
            GroupsType::Idx(gs) => gs.len(),
            GroupsType::Slice(gs) => gs.len(),
        }
    }

    /// The indicator of group `g`.
    pub fn indicator_at(&self, g: usize) -> (r: GroupsIndicator)
        requires
            g < self@.len(),
        ensures
            r.rows() == self@[g as int],
            self.rep_wf() ==> r.rep_wf(),
    {
        match self {
            GroupsType::Idx(gs) => {
                let first = gs[g].0;
                let idx = &gs[g].1;
                let mut copy: Vec<usize> = Vec::new();
                let mut i: usize = 0;
                while i < idx.len()
                    invariant
                        0 <= i <= idx@.len(),
                        copy@ =~= idx@.subrange(0, i as int),
                    decreases idx@.len() - i,
                {
                    copy.push(idx[i]);
                    i = i + 1;
                }
                assert(copy@ =~= idx@);
                GroupsIndicator::Idx(first, copy)
            },
            GroupsType::Slice(gs) => {
                let (first, len) = gs[g];
                GroupsIndicator::Slice(first, len)
            },
        }
    }

    /// The size of group `g`.
    pub fn group_len_at(&self, g: usize) -> (r: usize)
        requires
            g < self@.len(),
        ensures
            r == self@[g as int].len(),
    {
        match self {
            GroupsType::Idx(gs) => gs[g].1.len(),
            GroupsType::Slice(gs) => gs[g].1,
        }
    }

    /// A copy of the partition holding the same groups.
    pub fn duplicate(&self) -> (r: GroupsType)
        ensures
            r@ == self@,
            r.rep_wf() <==> self.rep_wf(),
    {
        match self {
            GroupsType::Idx(gs) => {
                let mut copy: Vec<(usize, Vec<usize>)> = Vec::new();
                let mut g: usize = 0;
                while g < gs.len()
                    invariant
                        0 <= g <= gs@.len(),
                        copy@.len() == g,
                        forall|h: int| 0 <= h < g as int
                            ==> (#[trigger] copy@[h]).0 == gs@[h].0
                                && copy@[h].1@ == gs@[h].1@,
                    decreases gs@.len() - g,
                {
                    let first = gs[g].0;
                    let idx = &gs[g].1;
                    let mut ic: Vec<usize> = Vec::new();
                    let mut i: usize = 0;
                    while i < idx.len()
                        invariant
                            0 <= i <= idx@.len(),
                            ic@ =~= idx@.subrange(0, i as int),
                        decreases idx@.len() - i,
                    {
                        ic.push(idx[i]);
                        i = i + 1;
                    }
                    assert(ic@ =~= idx@);
                    copy.push((first, ic));
                    g = g + 1;
                }
                let r = GroupsType::Idx(copy);
                proof {
                    assert(forall|h: int| 0 <= h < r@.len() ==> #[trigger] r@[h] == self@[h]);
                    assert(r@ =~= self@);
                }
                r
            },
            GroupsType::Slice(gs) => {
                let mut copy: Vec<(usize, usize)> = Vec::new();
                let mut g: usize = 0;
                while g < gs.len()
                    invariant
                        0 <= g <= gs@.len(),
                        copy@ =~= gs@.subrange(0, g as int),
                    decreases gs@.len() - g,
                {
                    copy.push(gs[g]);
                    g = g + 1;
                }
                assert(copy@ =~= gs@);
                let r = GroupsType::Slice(copy);
                proof {
                    assert(r@ =~= self@);
                }
                r
            },
        }
    }

    /// Converts to the sliceable representation where every group's rows are
    /// already contiguous and ascending; otherwise keeps the representation.
    /// The rows of every group are unchanged either way.
    pub fn into_sliceable(self) -> (r: GroupsType)
        ensures
            r@ == self@,
            self.rep_wf() ==> r.rep_wf(),
            all_groups_contiguous(self@) ==> r is Slice,
    {
        match self {
            GroupsType::Idx(gs) => {
                let ghost orig = GroupsType::Idx(gs)@;
                let mut slices: Vec<(usize, usize)> = Vec::new();
                let mut g: usize = 0;
                let mut ok = true;
                while g < gs.len()
                    invariant
                        0 <= g <= gs@.len(),
                        orig == GroupsType::Idx(gs)@,
                        all_groups_contiguous(orig) ==> ok,
                        ok ==> slices@.len() == g,
                        ok ==> forall|h: int| 0 <= h < g as int
                            ==> slice_group_view(#[trigger] slices@[h].0, slices@[h].1)
                                =~= orig[h],
                        ok ==> forall|h: int| 0 <= h < g as int
                            ==> (#[trigger] slices@[h]).0 + slices@[h].1 <= usize::MAX + 1,
                    decreases gs@.len() - g,
                {
                    let idx = &gs[g].1;
                    proof {
                        if all_groups_contiguous(orig) {
                            assert(orig[g as int] == gs@[g as int].1@);
                            assert(orig[g as int].len() > 0);
                        }
                    }
                    if idx.len() == 0 {
                        ok = false;
                    } else {
                        let first = idx[0];
                        let len = idx.len();
                        let mut contiguous = true;
                        let mut i: usize = 1;
                        while i < len
                            invariant
                                1 <= i <= len,
                                len == idx@.len(),
                                0 <= g < gs@.len(),
                                orig == GroupsType::Idx(gs)@,
                                idx@ == gs@[g as int].1@,
                                first == idx@[0],
                                contiguous ==> forall|j: int| 0 <= j < i as int
                                    ==> (#[trigger] idx@[j]) as int == first as int + j,
                                all_groups_contiguous(orig) ==> contiguous,
                            decreases len - i,
                        {
                            proof {
                                if all_groups_contiguous(orig) {
                                    assert(orig[g as int] == idx@);
                                    assert(orig[g as int][i as int] as int
                                        == orig[g as int][0] + i);
                                    assert(orig[g as int][i - 1] as int
                                        == orig[g as int][0] + (i - 1));
                                }
                            }
                            if idx[i - 1] == usize::MAX || idx[i] != idx[i - 1] + 1 {
                                contiguous = false;
                            }
                            i = i + 1;
                        }
                        if contiguous {
                            slices.push((first, len));
                            proof {
                                if ok {
                                    assert(slice_group_view(first, len) =~= orig[g as int]);
                                    assert(idx@[len - 1] as int == first as int + (len - 1));
                                }
                            }
                        } else {
                            ok = false;
                        }
                    }
                    g = g + 1;
                }
                if ok {
                    let r = GroupsType::Slice(slices);
                    proof {
                        assert(forall|h: int| 0 <= h < orig.len()
                            ==> #[trigger] r@[h] =~= orig[h]);
                        assert(r@ =~= orig);
                    }
                    r
                } else {
                    GroupsType::Idx(gs)
                }
            },
            GroupsType::Slice(gs) => GroupsType::Slice(gs),
        }
    }
}

} // verus!
