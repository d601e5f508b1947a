//! The column model: an immutable sequence of optional values, with the
//! primitive column-algebra operations the sorts rely on (gather, slice,
//! broadcast by repetition, concatenation).

use vstd::prelude::*;
use crate::gather::gather_seq;

verus! {

/// A column of optional values. An absent entry is a null.
#[derive(Debug, Clone)]
pub struct Column {
    pub values: Vec<Option<i64>>,
}

impl View for Column {
    type V = Seq<Option<i64>>;

    open spec fn view(&self) -> Seq<Option<i64>> {
        self.values@
    }
}

impl Column {
    /// A column holding the given values.
    pub fn new(values: Vec<Option<i64>>) -> (r: Column)
        ensures
            r@ == values@,
    {
        Column { values }
    }

    /// The number of rows.
    pub fn len(&self) -> (r: usize)
        ensures
            r == self@.len(),
    {
        self.values.len()
    }

    /// The column whose `i`-th row is `self[idx[i]]`.
    pub fn gather(&self, idx: &Vec<usize>) -> (r: Column)
        requires
            forall|i: int| 0 <= i < idx@.len() ==> (#[trigger] idx@[i]) < self@.len(),
        ensures
            r@ == gather_seq(self@, idx@),
    {
        let mut values: Vec<Option<i64>> = Vec::new();
        let mut i: usize = 0;
        while i < idx.len()
            invariant
                0 <= i <= idx@.len(),
                forall|j: int| 0 <= j < idx@.len() ==> (#[trigger] idx@[j]) < self@.len(),
                values@ =~= gather_seq(self@, idx@).subrange(0, i as int),
            decreases idx@.len() - i,
        {
            values.push(self.values[idx[i]]);
            i = i + 1;
        }
        assert(values@ =~= gather_seq(self@, idx@));
        Column { values }
    }

    /// The contiguous rows `offset .. offset + length`.
    pub fn slice(&self, offset: usize, length: usize) -> (r: Column)
        requires
            offset + length <= self@.len(),
        ensures
            r@ == self@.subrange(offset as int, offset as int + length as int),
    {
        let n = self.values.len();
        let mut values: Vec<Option<i64>> = Vec::new();
        let mut i: usize = 0;
        while i < length
            invariant
                0 <= i <= length,
                offset + length <= n,
                n == self@.len(),
                values@ =~= self@.subrange(offset as int, offset as int + i as int),
            decreases length - i,
        {
            values.push(self.values[offset + i]);
            i = i + 1;
        }
        Column { values }
    }

    /// A copy of the column holding the same values.
    pub fn duplicate(&self) -> (r: Column)
        ensures
            r@ == self@,
    {
        let mut values: Vec<Option<i64>> = Vec::new();
        let mut i: usize = 0;
        while i < self.values.len()
            invariant
                0 <= i <= self@.len(),
                values@ =~= self@.subrange(0, i as int),
            decreases self@.len() - i,
        {
            values.push(self.values[i]);
            i = i + 1;
        }
        assert(values@ =~= self@);
        Column { values }
    }

    /// The column that repeats the value at row `index` until it has the
    /// given length (scalar broadcast).
    pub fn new_from_index(&self, index: usize, length: usize) -> (r: Column)
        requires
            index < self@.len(),
        ensures
            r@ == Seq::new(length as nat, |i: int| self@[index as int]),
    {
        let v = self.values[index];
        let mut values: Vec<Option<i64>> = Vec::new();
        let mut i: usize = 0;
        while i < length
            invariant
                0 <= i <= length,
                index < self@.len(),
                v == self@[index as int],
                values@ =~= Seq::new(i as nat, |j: int| self@[index as int]),
            decreases length - i,
        {
            values.push(v);
            i = i + 1;
        }
        assert(values@ =~= Seq::new(length as nat, |i: int| self@[index as int]));
        Column { values }
    }
}

/// The flattening of per-group value lists into one flat column: absent lists
/// contribute nothing.
pub open spec fn concat_lists_spec(lists: Seq<Option<Column>>) -> Seq<Option<i64>>
    decreases lists.len(),
{
    if lists.len() == 0 {
        Seq::empty()
    } else {
        concat_lists_spec(lists.drop_last()) + (match lists.last() {
            Option::Some(c) => c@,
            Option::None => Seq::empty(),
        })
    }
}

/// Concatenates per-group value lists back into one flat column (explosion).
pub fn concat_lists(lists: &Vec<Option<Column>>) -> (r: Column)
    ensures
        r@ == concat_lists_spec(lists@),
{
    let mut values: Vec<Option<i64>> = Vec::new();
    let mut g: usize = 0;
    while g < lists.len()
        invariant
            0 <= g <= lists@.len(),
            values@ =~= concat_lists_spec(lists@.subrange(0, g as int)),
        decreases lists@.len() - g,
    {
        match &lists[g] {
            Option::Some(c) => {
                let mut i: usize = 0;
                while i < c.values.len()
                    invariant
                        0 <= i <= c@.len(),
                        lists@[g as int] matches Option::Some(cc) && cc@ == c@,
                        0 <= g < lists@.len(),
                        values@ =~= concat_lists_spec(lists@.subrange(0, g as int))
                            + c@.subrange(0, i as int),
                    decreases c@.len() - i,
                {
                    values.push(c.values[i]);
                    i = i + 1;
                }
                assert(lists@.subrange(0, g as int + 1).drop_last()
                    =~= lists@.subrange(0, g as int));
                assert(values@ =~= concat_lists_spec(lists@.subrange(0, g as int + 1)));
            },
            Option::None => {
                proof {
                    assert(lists@.subrange(0, g as int + 1).drop_last()
                        =~= lists@.subrange(0, g as int));
                    assert(values@ =~= concat_lists_spec(lists@.subrange(0, g as int + 1)));
                }
            },
        }
        g = g + 1;
    }
    assert(lists@.subrange(0, lists@.len() as int) =~= lists@);
    Column { values }
}

} // verus!
