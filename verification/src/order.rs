//! The comparison order used by the sorts: a per-key three-way comparison over
//! optional values with `descending` and `nulls_last` flags, and its
//! lexicographic extension over several keys.

use vstd::prelude::*;
use crate::column::Column;

verus! {

/// The rank of a value under one key's flags. Ranks order exactly as the key
/// orders: nulls rank below every value unless `nulls_last`, and `descending`
/// reverses the order of present values.
pub open spec fn rank(a: Option<i64>, descending: bool, nulls_last: bool) -> int {
    match a {
        Option::None => if nulls_last { 0x8000_0000_0000_0001 } else { -0x8000_0000_0000_0001 },
        Option::Some(x) => if descending { -(x as int) } else { x as int },
    }
}

/// Three-way comparison of two values under one key's flags.
pub open spec fn cmp_val(a: Option<i64>, b: Option<i64>, descending: bool, nulls_last: bool) -> int {
    let ra = rank(a, descending, nulls_last);
    let rb = rank(b, descending, nulls_last);
    if ra < rb { -1 } else if ra == rb { 0 } else { 1 }
}

/// Lexicographic three-way comparison of rows `a` and `b` across the keys
/// `k, k+1, ...`: the first key on which the rows differ decides.
pub open spec fn lex_cmp_from(
    keys: Seq<Seq<Option<i64>>>,
    descending: Seq<bool>,
    nulls_last: Seq<bool>,
    a: int,
    b: int,
    k: int,
) -> int
    decreases keys.len() - k,
{
    if k < 0 || k >= keys.len() {
        0
    } else {
        let c = cmp_val(keys[k][a], keys[k][b], descending[k], nulls_last[k]);
        if c != 0 { c } else { lex_cmp_from(keys, descending, nulls_last, a, b, k + 1) }
    }
}

/// Lexicographic comparison of rows `a` and `b` across all keys in order.
pub open spec fn lex_cmp(
    keys: Seq<Seq<Option<i64>>>,
    descending: Seq<bool>,
    nulls_last: Seq<bool>,
    a: int,
    b: int,
) -> int {
    lex_cmp_from(keys, descending, nulls_last, a, b, 0)
}

/// The views of a vector of key columns.
pub open spec fn key_views(keys: Seq<Column>) -> Seq<Seq<Option<i64>>> {
    keys.map(|i: int, c: Column| c@)
}

/// Swapping the rows flips the sign of the lexicographic comparison.
pub proof fn lemma_lex_antisym(
    keys: Seq<Seq<Option<i64>>>,
    descending: Seq<bool>,
    nulls_last: Seq<bool>,
    a: int,
    b: int,
    k: int,
)
    ensures
        lex_cmp_from(keys, descending, nulls_last, a, b, k)
            == -lex_cmp_from(keys, descending, nulls_last, b, a, k),
    decreases keys.len() - k,
{
    if 0 <= k < keys.len() {
        lemma_lex_antisym(keys, descending, nulls_last, a, b, k + 1);
    }
}

/// The lexicographic order is transitive.
pub proof fn lemma_lex_trans(
    keys: Seq<Seq<Option<i64>>>,
    descending: Seq<bool>,
    nulls_last: Seq<bool>,
    a: int,
    b: int,
    c: int,
    k: int,
)
    requires
        lex_cmp_from(keys, descending, nulls_last, a, b, k) <= 0,
        lex_cmp_from(keys, descending, nulls_last, b, c, k) <= 0,
    ensures
        lex_cmp_from(keys, descending, nulls_last, a, c, k) <= 0,
    decreases keys.len() - k,
{
    if 0 <= k < keys.len() {
        let cab = cmp_val(keys[k][a], keys[k][b], descending[k], nulls_last[k]);
        let cbc = cmp_val(keys[k][b], keys[k][c], descending[k], nulls_last[k]);
        if cab == 0 && cbc == 0 {
            lemma_lex_trans(keys, descending, nulls_last, a, b, c, k + 1);
        }
    }
}

/// The strict part of the lexicographic order composes with the non-strict
/// part.
pub proof fn lemma_lex_trans_strict(
    keys: Seq<Seq<Option<i64>>>,
    descending: Seq<bool>,
    nulls_last: Seq<bool>,
    a: int,
    b: int,
    c: int,
    k: int,
)
    requires
        lex_cmp_from(keys, descending, nulls_last, a, b, k) < 0,
        lex_cmp_from(keys, descending, nulls_last, b, c, k) <= 0,
    ensures
        lex_cmp_from(keys, descending, nulls_last, a, c, k) < 0,
{
    lemma_lex_trans(keys, descending, nulls_last, a, b, c, k);
    if lex_cmp_from(keys, descending, nulls_last, a, c, k) == 0 {
        lemma_lex_antisym(keys, descending, nulls_last, a, c, k);
        lemma_lex_trans(keys, descending, nulls_last, b, c, a, k);
        lemma_lex_antisym(keys, descending, nulls_last, a, b, k);
        assert(false);
    }
}

/// Rows that hold the same values under every key compare the same way.
pub proof fn lemma_lex_congruence(
    keys1: Seq<Seq<Option<i64>>>,
    keys2: Seq<Seq<Option<i64>>>,
    descending: Seq<bool>,
    nulls_last: Seq<bool>,
    a1: int,
    b1: int,
    a2: int,
    b2: int,
    k: int,
)
    requires
        keys1.len() == keys2.len(),
        forall|k2: int| k <= k2 < keys1.len()
            ==> (#[trigger] keys1[k2])[a1] == keys2[k2][a2] && keys1[k2][b1] == keys2[k2][b2],
    ensures
        lex_cmp_from(keys1, descending, nulls_last, a1, b1, k)
            == lex_cmp_from(keys2, descending, nulls_last, a2, b2, k),
    decreases keys1.len() - k,
{
    if 0 <= k < keys1.len() {
        lemma_lex_congruence(keys1, keys2, descending, nulls_last, a1, b1, a2, b2, k + 1);
    }
}

/// Executable three-way comparison of two values under one key's flags.
pub fn cmp_val_exec(a: Option<i64>, b: Option<i64>, descending: bool, nulls_last: bool) -> (r: i32)
    ensures
        r as int == cmp_val(a, b, descending, nulls_last),
{
    match (a, b) {
        (Option::None, Option::None) => 0,
        (Option::None, Option::Some(_)) => if nulls_last { 1 } else { -1 },
        (Option::Some(_), Option::None) => if nulls_last { -1 } else { 1 },
        (Option::Some(x), Option::Some(y)) => {
            if x == y {
                0
            } else if x < y {
                if descending { 1 } else { -1 }
            } else {
                if descending { -1 } else { 1 }
            }
        },
    }
}

/// Executable lexicographic comparison of rows `a` and `b` across all keys.
pub fn lex_cmp_exec(
    keys: &Vec<Column>,
    descending: &Vec<bool>,
    nulls_last: &Vec<bool>,
    a: usize,
    b: usize,
) -> (r: i32)
    requires
        descending@.len() == keys@.len(),
        nulls_last@.len() == keys@.len(),
        forall|k: int| 0 <= k < keys@.len() ==> a < (#[trigger] keys@[k])@.len(),
        forall|k: int| 0 <= k < keys@.len() ==> b < (#[trigger] keys@[k])@.len(),
    ensures
        r as int == lex_cmp(key_views(keys@), descending@, nulls_last@, a as int, b as int),
{
    let ghost kv = key_views(keys@);
    let mut k: usize = 0;
    while k < keys.len()
        invariant
            0 <= k <= keys@.len(),
            descending@.len() == keys@.len(),
            nulls_last@.len() == keys@.len(),
            forall|j: int| 0 <= j < keys@.len() ==> a < (#[trigger] keys@[j])@.len(),
            forall|j: int| 0 <= j < keys@.len() ==> b < (#[trigger] keys@[j])@.len(),
            kv == key_views(keys@),
            lex_cmp_from(kv, descending@, nulls_last@, a as int, b as int, 0)
                == lex_cmp_from(kv, descending@, nulls_last@, a as int, b as int, k as int),
        decreases keys@.len() - k,
    {
        let c = cmp_val_exec(keys[k].values[a], keys[k].values[b], descending[k], nulls_last[k]);
        assert(kv[k as int] == keys@[k as int]@);
        if c != 0 {
            return c;
        }
        k = k + 1;
    }
    0
}

} // verus!
