//! The index-sort primitive: a stable selection argsort producing, for one or
//! several key columns, the permutation of row positions that sorts them.

use vstd::prelude::*;
use vstd::multiset::Multiset;
use vstd::seq_lib::group_to_multiset_ensures;
use crate::column::Column;
use crate::gather::{identity_seq, is_perm_of, lemma_perm_bounds};
use crate::order::{cmp_val, lex_cmp, key_views, lex_cmp_exec, lemma_lex_antisym, lemma_lex_trans,
    lemma_lex_trans_strict};

verus! {

broadcast use vstd::multiset::group_multiset_axioms;

/// The permutation of `0 .. height` that sorts the rows of `keys`
/// lexicographically, the first key primary, honoring each key's
/// `descending` and `nulls_last` flag. The sort is stable: rows whose keys
/// compare equal keep their original relative order, so a stable-sort
/// request (`maintain_order`) is always honored.
pub fn arg_sort_multi(
    keys: &Vec<Column>,
    descending: &Vec<bool>,
    nulls_last: &Vec<bool>,
) -> (perm: Vec<usize>)
    requires
        keys@.len() >= 1,
        descending@.len() == keys@.len(),
        nulls_last@.len() == keys@.len(),
        forall|k: int| 0 <= k < keys@.len()
            ==> (#[trigger] keys@[k])@.len() == keys@[0]@.len(),
    ensures
        is_perm_of(perm@, keys@[0]@.len()),
        perm@.len() == keys@[0]@.len(),
        forall|i: int| 0 <= i < perm@.len() ==> (#[trigger] perm@[i]) < perm@.len(),
        forall|i: int, j: int| 0 <= i < j < perm@.len()
            ==> lex_cmp(key_views(keys@), descending@, nulls_last@,
                    #[trigger] perm@[i] as int, #[trigger] perm@[j] as int) <= 0,
        forall|i: int, j: int| 0 <= i < j < perm@.len()
            ==> (lex_cmp(key_views(keys@), descending@, nulls_last@,
                    #[trigger] perm@[i] as int, #[trigger] perm@[j] as int) == 0
                ==> perm@[i] < perm@[j]),
{
    let n = keys[0].values.len();
    let ghost kv = key_views(keys@);

    let mut rest: Vec<usize> = Vec::new();
    let mut i: usize = 0;
    while i < n
        invariant
            0 <= i <= n,
            rest@ =~= identity_seq(i as nat),
        decreases n - i,
    {
        rest.push(i);
        assert(rest@ =~= identity_seq((i + 1) as nat));
        i = i + 1;
    }

    let mut perm: Vec<usize> = Vec::new();
    proof {
        broadcast use group_to_multiset_ensures;
        assert(perm@.to_multiset().add(rest@.to_multiset())
            =~= identity_seq(n as nat).to_multiset());
        assert forall|i2: int, j2: int| 0 <= i2 < j2 < rest@.len() implies
            (#[trigger] rest@[i2]) < (#[trigger] rest@[j2]) by {
            assert(rest@[i2] == i2 as usize);
            assert(rest@[j2] == j2 as usize);
        }
    }
    while rest.len() > 0
        invariant
            n == keys@[0]@.len(),
            keys@.len() >= 1,
            descending@.len() == keys@.len(),
            nulls_last@.len() == keys@.len(),
            forall|k: int| 0 <= k < keys@.len()
                ==> (#[trigger] keys@[k])@.len() == keys@[0]@.len(),
            kv == key_views(keys@),
            perm@.to_multiset().add(rest@.to_multiset())
                == identity_seq(n as nat).to_multiset(),
            forall|i: int| 0 <= i < rest@.len() ==> (#[trigger] rest@[i]) < n,
            forall|i: int| 0 <= i < perm@.len() ==> (#[trigger] perm@[i]) < n,
            perm@.len() + rest@.len() == n,
            forall|i: int, j: int| 0 <= i < j < perm@.len()
                ==> lex_cmp(kv, descending@, nulls_last@,
                        #[trigger] perm@[i] as int, #[trigger] perm@[j] as int) <= 0,
            forall|i: int, j: int|
                0 <= i < perm@.len() && 0 <= j < rest@.len()
                ==> lex_cmp(kv, descending@, nulls_last@,
                        #[trigger] perm@[i] as int, #[trigger] rest@[j] as int) <= 0,
            forall|i: int, j: int| 0 <= i < j < rest@.len()
                ==> (#[trigger] rest@[i]) < (#[trigger] rest@[j]),
            forall|i: int, j: int| 0 <= i < j < perm@.len()
                ==> (lex_cmp(kv, descending@, nulls_last@,
                        #[trigger] perm@[i] as int, #[trigger] perm@[j] as int) == 0
                    ==> perm@[i] < perm@[j]),
            forall|i: int, j: int|
                0 <= i < perm@.len() && 0 <= j < rest@.len()
                ==> (lex_cmp(kv, descending@, nulls_last@,
                        #[trigger] perm@[i] as int, #[trigger] rest@[j] as int) == 0
                    ==> perm@[i] < rest@[j]),
        decreases rest@.len(),
    {
        // Find the position of the least remaining row.
        proof {
            lemma_lex_antisym(kv, descending@, nulls_last@,
                rest@[0] as int, rest@[0] as int, 0);
        }
        let mut m: usize = 0;
        let mut j: usize = 1;
        while j < rest.len()
            invariant
                0 <= m < j <= rest@.len(),
                rest@.len() > 0,
                n == keys@[0]@.len(),
                keys@.len() >= 1,
                descending@.len() == keys@.len(),
                nulls_last@.len() == keys@.len(),
                forall|k: int| 0 <= k < keys@.len()
                    ==> (#[trigger] keys@[k])@.len() == keys@[0]@.len(),
                kv == key_views(keys@),
                forall|i: int| 0 <= i < rest@.len() ==> (#[trigger] rest@[i]) < n,
                forall|t: int| 0 <= t < j
                    ==> lex_cmp(kv, descending@, nulls_last@,
                            rest@[m as int] as int, #[trigger] rest@[t] as int) <= 0,
                forall|t: int| 0 <= t < m as int
                    ==> lex_cmp(kv, descending@, nulls_last@,
                            rest@[m as int] as int, #[trigger] rest@[t] as int) < 0,
            decreases rest@.len() - j,
        {
            let c = lex_cmp_exec(keys, descending, nulls_last, rest[j], rest[m]);
            if c < 0 {
                proof {
                    assert forall|t: int| 0 <= t <= j as int implies
                        lex_cmp(kv, descending@, nulls_last@,
                            rest@[j as int] as int, #[trigger] rest@[t] as int) <= 0 by {
                        if t < j as int {
                            lemma_lex_trans(kv, descending@, nulls_last@,
                                rest@[j as int] as int, rest@[m as int] as int,
                                rest@[t] as int, 0);
                        } else {
                            lemma_lex_antisym(kv, descending@, nulls_last@,
                                rest@[j as int] as int, rest@[j as int] as int, 0);
                        }
                    }
                    assert forall|t: int| 0 <= t < j as int implies
                        lex_cmp(kv, descending@, nulls_last@,
                            rest@[j as int] as int, #[trigger] rest@[t] as int) < 0 by {
                        if t != m as int {
                            lemma_lex_trans_strict(kv, descending@, nulls_last@,
                                rest@[j as int] as int, rest@[m as int] as int,
                                rest@[t] as int, 0);
                        }
                    }
                }
                m = j;
            } else {
                proof {
                    lemma_lex_antisym(kv, descending@, nulls_last@,
                        rest@[j as int] as int, rest@[m as int] as int, 0);
                }
            }
            j = j + 1;
        }
        // The chosen row is the first minimal remaining row.
        assert(forall|t: int| 0 <= t < rest@.len()
            ==> lex_cmp(kv, descending@, nulls_last@,
                    rest@[m as int] as int, #[trigger] rest@[t] as int) <= 0);
        assert(forall|t: int| 0 <= t < m as int
            ==> lex_cmp(kv, descending@, nulls_last@,
                    rest@[m as int] as int, #[trigger] rest@[t] as int) < 0);
        let ghost old_perm = perm@;
        let ghost old_rest = rest@;
        let x = rest.remove(m);
        perm.push(x);
        proof {
            broadcast use group_to_multiset_ensures;
            assert(rest@ == old_rest.remove(m as int));
            assert(perm@ == old_perm.push(x));
            assert(rest@.to_multiset() == old_rest.to_multiset().remove(x));
            assert(perm@.to_multiset() =~= old_perm.to_multiset().insert(x));
            assert(old_rest.to_multiset().count(x) > 0) by {
                assert(old_rest.contains(old_rest[m as int]));
            }
            assert(perm@.to_multiset().add(rest@.to_multiset())
                =~= identity_seq(n as nat).to_multiset()) by {
                assert forall|a: usize|
                    perm@.to_multiset().add(rest@.to_multiset()).count(a)
                        == identity_seq(n as nat).to_multiset().count(a) by {
                    assert(old_perm.to_multiset().add(old_rest.to_multiset()).count(a)
                        == identity_seq(n as nat).to_multiset().count(a));
                }
            }
            assert forall|i: int| 0 <= i < rest@.len() implies (#[trigger] rest@[i]) < n by {
                assert(rest@[i] == old_rest[if i < m as int { i } else { i + 1 }]);
            }
            assert forall|i: int, j2: int|
                0 <= i < perm@.len() && 0 <= j2 < rest@.len() implies
                lex_cmp(kv, descending@, nulls_last@,
                    #[trigger] perm@[i] as int, #[trigger] rest@[j2] as int) <= 0 by {
                let orig = if j2 < m as int { j2 } else { j2 + 1 };
                assert(rest@[j2] == old_rest[orig]);
                if i < old_perm.len() {
                    assert(perm@[i] == old_perm[i]);
                } else {
                    assert(perm@[i] == x);
                }
            }
            assert forall|i: int, j2: int| 0 <= i < j2 < perm@.len() implies
                lex_cmp(kv, descending@, nulls_last@,
                    #[trigger] perm@[i] as int, #[trigger] perm@[j2] as int) <= 0 by {
                if j2 == perm@.len() - 1 {
                    assert(perm@[j2] == x);
                    assert(old_rest[m as int] == x);
                    assert(perm@[i] == old_perm[i]);
                }
            }
            assert forall|i2: int, j2: int| 0 <= i2 < j2 < rest@.len() implies
                (#[trigger] rest@[i2]) < (#[trigger] rest@[j2]) by {
                assert(rest@[i2] == old_rest[if i2 < m as int { i2 } else { i2 + 1 }]);
                assert(rest@[j2] == old_rest[if j2 < m as int { j2 } else { j2 + 1 }]);
            }
            assert forall|i: int, j2: int| 0 <= i < j2 < perm@.len()
                && lex_cmp(kv, descending@, nulls_last@,
                    #[trigger] perm@[i] as int, #[trigger] perm@[j2] as int) == 0 implies
                perm@[i] < perm@[j2] by {
                if j2 == perm@.len() - 1 {
                    assert(perm@[j2] == x);
                    assert(old_rest[m as int] == x);
                    assert(perm@[i] == old_perm[i]);
                }
            }
            assert forall|i: int, j2: int|
                0 <= i < perm@.len() && 0 <= j2 < rest@.len()
                && lex_cmp(kv, descending@, nulls_last@,
                    #[trigger] perm@[i] as int, #[trigger] rest@[j2] as int) == 0 implies
                perm@[i] < rest@[j2] by {
                let orig = if j2 < m as int { j2 } else { j2 + 1 };
                assert(rest@[j2] == old_rest[orig]);
                if i < old_perm.len() {
                    assert(perm@[i] == old_perm[i]);
                } else {
                    assert(perm@[i] == x);
                    // A tie with the chosen row lies after it in the remaining
                    // list, whose entries ascend.
                    assert(orig != m as int);
                    if orig < m as int {
                        assert(lex_cmp(kv, descending@, nulls_last@,
                            old_rest[m as int] as int, old_rest[orig] as int) < 0);
                        assert(false);
                    }
                    assert(old_rest[m as int] < old_rest[orig]);
                }
            }
        }
    }
    proof {
        broadcast use group_to_multiset_ensures;
        assert(rest@.to_multiset() =~= Multiset::<usize>::empty());
        assert(perm@.to_multiset().add(Multiset::<usize>::empty())
            =~= perm@.to_multiset());
        assert(is_perm_of(perm@, n as nat));
        lemma_perm_bounds(perm@, n as nat);
    }
    perm
}

/// The single-key argsort: the permutation of `0 .. len` that sorts one
/// column under one `descending` / `nulls_last` flag pair. Stable: rows with
/// equal values keep their original relative order.
pub fn arg_sort(column: &Column, descending: bool, nulls_last: bool) -> (perm: Vec<usize>)
    ensures
        is_perm_of(perm@, column@.len()),
        perm@.len() == column@.len(),
        forall|i: int| 0 <= i < perm@.len() ==> (#[trigger] perm@[i]) < perm@.len(),
        forall|i: int, j: int| 0 <= i < j < perm@.len()
            ==> cmp_val(column@[#[trigger] perm@[i] as int], column@[#[trigger] perm@[j] as int],
                    descending, nulls_last) <= 0,
        forall|i: int, j: int| 0 <= i < j < perm@.len()
            ==> (cmp_val(column@[#[trigger] perm@[i] as int],
                    column@[#[trigger] perm@[j] as int],
                    descending, nulls_last) == 0 ==> perm@[i] < perm@[j]),
{
    let mut vals: Vec<Option<i64>> = Vec::new();
    let mut i: usize = 0;
    while i < column.values.len()
        invariant
            0 <= i <= column@.len(),
            vals@ =~= column@.subrange(0, i as int),
        decreases column@.len() - i,
    {
        vals.push(column.values[i]);
        i = i + 1;
    }
    assert(vals@ =~= column@);
    let mut keys: Vec<Column> = Vec::new();
    keys.push(Column { values: vals });
    let mut d: Vec<bool> = Vec::new();
    d.push(descending);
    let mut nl: Vec<bool> = Vec::new();
    nl.push(nulls_last);
    let perm = arg_sort_multi(&keys, &d, &nl);
    proof {
        let kv = key_views(keys@);
        assert(kv[0] == column@);
        assert forall|i: int, j: int| 0 <= i < j < perm@.len() implies
            cmp_val(column@[#[trigger] perm@[i] as int], column@[#[trigger] perm@[j] as int],
                descending, nulls_last) <= 0 by {
            assert(lex_cmp(kv, d@, nl@, perm@[i] as int, perm@[j] as int) <= 0);
            let c = cmp_val(kv[0][perm@[i] as int], kv[0][perm@[j] as int], d@[0], nl@[0]);
            if c != 0 {
                assert(lex_cmp(kv, d@, nl@, perm@[i] as int, perm@[j] as int) == c);
            }
        }
        assert forall|i: int, j: int| 0 <= i < j < perm@.len()
            && cmp_val(column@[#[trigger] perm@[i] as int],
                column@[#[trigger] perm@[j] as int],
                descending, nulls_last) == 0 implies perm@[i] < perm@[j] by {
            let c = cmp_val(kv[0][perm@[i] as int], kv[0][perm@[j] as int], d@[0], nl@[0]);
            assert(c == 0);
            assert(crate::order::lex_cmp_from(kv, d@, nl@,
                perm@[i] as int, perm@[j] as int, 1) == 0);
            assert(lex_cmp(kv, d@, nl@, perm@[i] as int, perm@[j] as int) == 0);
        }
    }
    perm
}

} // verus!
