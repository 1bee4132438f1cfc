//! Name tables: association lists from names to values where a later entry
//! for a name shadows an earlier one.

use vstd::prelude::*;

verus! {

/// The value that the latest entry named `k` holds.
pub open spec fn table_get<I>(t: Seq<(String, I)>, k: Seq<char>) -> Option<I>
    decreases t.len(),
{
    if t.len() == 0 {
        None
    } else if t.last().0@ == k {
        Some(t.last().1)
    } else {
        table_get(t.drop_last(), k)
    }
}

/// Every value that a lookup can return was stored in some entry.
pub proof fn lemma_table_get_entry<I>(t: Seq<(String, I)>, k: Seq<char>)
    ensures
        table_get(t, k) matches Some(v) ==> exists|i: int|
            0 <= i < t.len() && #[trigger] t[i] == (t[i].0, v) && t[i].0@ == k,
    decreases t.len(),
{
    if t.len() > 0 && t.last().0@ != k {
        lemma_table_get_entry(t.drop_last(), k);
        if let Some(v) = table_get(t, k) {
            let i = choose|i: int|
                0 <= i < t.drop_last().len() && #[trigger] t.drop_last()[i] == (
                t.drop_last()[i].0,
                v,
            ) && t.drop_last()[i].0@ == k;
            assert(t[i] == t.drop_last()[i]);
        }
    } else if t.len() > 0 {
        assert(t[t.len() - 1] == t.last());
    }
}

/// Looks `k` up in `t`, latest entry first.
pub fn table_find<I: Copy>(t: &Vec<(String, I)>, k: &String) -> (r: Option<I>)
    ensures
        r == table_get(t@, k@),
{
    let mut i: usize = t.len();
    assert(t@.subrange(0, i as int) =~= t@);
    while i > 0
        invariant
            i <= t.len(),
            table_get(t@, k@) == table_get(t@.subrange(0, i as int), k@),
        decreases i,
    {
        let ghost prefix = t@.subrange(0, i as int);
        assert(prefix.drop_last() =~= t@.subrange(0, i - 1));
        if t[i - 1].0 == *k {
            return Some(t[i - 1].1);
        }
        i = i - 1;
    }
    assert(t@.subrange(0, 0) =~= Seq::<(String, I)>::empty());
    None
}

} // verus!

verus! {

/// The position of the latest entry named `k`.
pub fn table_position<I>(t: &Vec<(String, I)>, k: &String) -> (r: Option<usize>)
    ensures
        match r {
            Some(p) => p < t@.len() && t@[p as int].0@ == k@ && table_get(t@, k@) == Some(t@[p as int].1),
            None => table_get(t@, k@) is None,
        },
{
    let mut i: usize = t.len();
    assert(t@.subrange(0, i as int) =~= t@);
    while i > 0
        invariant
            i <= t.len(),
            table_get(t@, k@) == table_get(t@.subrange(0, i as int), k@),
        decreases i,
    {
        let ghost prefix = t@.subrange(0, i as int);
        assert(prefix.drop_last() =~= t@.subrange(0, i - 1));
        if t[i - 1].0 == *k {
            return Some(i - 1);
        }
        i = i - 1;
    }
    assert(t@.subrange(0, 0) =~= Seq::<(String, I)>::empty());
    None
}

} // verus!

verus! {

/// After an entry for `name` is pushed, `name` finds it and every other
/// name finds what it found before.
pub proof fn lemma_table_get_push<I>(old: Seq<(String, I)>, new: Seq<(String, I)>, name: Seq<char>, v: I, k: Seq<char>)
    requires
        new.len() == old.len() + 1,
        new.drop_last() == old,
        new.last().0@ == name,
        new.last().1 == v,
    ensures
        table_get(new, k) == if k == name {
            Some(v)
        } else {
            table_get(old, k)
        },
{
}

} // verus!

verus! {

/// A name that no lookup finds has no entry.
pub proof fn lemma_table_get_none<I>(t: Seq<(String, I)>, k: Seq<char>)
    requires
        table_get(t, k) is None,
    ensures
        forall|i: int| 0 <= i < t.len() ==> (#[trigger] t[i]).0@ != k,
    decreases t.len(),
{
    if t.len() > 0 {
        lemma_table_get_none(t.drop_last(), k);
        assert forall|i: int| 0 <= i < t.len() implies (#[trigger] t[i]).0@ != k by {
            if i < t.len() - 1 {
                assert(t[i] == t.drop_last()[i]);
            }
        }
    }
}

} // verus!
