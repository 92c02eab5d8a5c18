//! Lists of keyed entries and their duplicate elimination.
use vstd::prelude::*;

verus! {

/// The first position of an entry with key `k`, or -1.
pub open spec fn find_key<V>(s: Seq<(Seq<char>, V)>, k: Seq<char>) -> int
    decreases s.len(),
{
    if s.len() == 0 {
        -1
    } else {
        let r = find_key(s.drop_last(), k);
        if r >= 0 {
            r
        } else if s.last().0 == k {
            s.len() - 1
        } else {
            -1
        }
    }
}

/// Adds one entry to a duplicate-free list: it takes the place of an entry with the same
/// key, or goes to the end.
pub open spec fn dedup_step<V>(acc: Seq<(Seq<char>, V)>, item: (Seq<char>, V)) -> Seq<
    (Seq<char>, V),
> {
    let p = find_key(acc, item.0);
    if p >= 0 {
        acc.update(p, item)
    } else {
        acc.push(item)
    }
}

/// An entry list without duplicate keys: the order of first occurrences is kept and each
/// key holds the value that came last.
pub open spec fn dedup<V>(s: Seq<(Seq<char>, V)>) -> Seq<(Seq<char>, V)>
    decreases s.len(),
{
    if s.len() == 0 {
        Seq::empty()
    } else {
        dedup_step(dedup(s.drop_last()), s.last())
    }
}

/// No key occurs twice.
pub open spec fn keys_distinct<V>(s: Seq<(Seq<char>, V)>) -> bool {
    forall|i: int, j: int| 0 <= i < j < s.len() ==> s[i].0 != s[j].0
}

pub proof fn lemma_find_key<V>(s: Seq<(Seq<char>, V)>, k: Seq<char>)
    ensures
        -1 <= find_key(s, k) < s.len(),
        find_key(s, k) >= 0 ==> s[find_key(s, k)].0 == k,
        find_key(s, k) >= 0 ==> forall|j: int| 0 <= j < find_key(s, k) ==> s[j].0 != k,
        find_key(s, k) < 0 ==> forall|j: int| 0 <= j < s.len() ==> s[j].0 != k,
    decreases s.len(),
{
    if s.len() > 0 {
        lemma_find_key(s.drop_last(), k);
        assert(forall|j: int| 0 <= j < s.len() - 1 ==> s.drop_last()[j] == s[j]);
    }
}

pub proof fn lemma_dedup_distinct<V>(s: Seq<(Seq<char>, V)>)
    ensures
        keys_distinct(dedup(s)),
    decreases s.len(),
{
    if s.len() > 0 {
        lemma_dedup_distinct(s.drop_last());
        lemma_find_key(dedup(s.drop_last()), s.last().0);
    }
}

/// Every element of `dedup(s)` is an element of `s`.
pub proof fn lemma_dedup_elements<V>(s: Seq<(Seq<char>, V)>)
    ensures
        forall|i: int|
            0 <= i < dedup(s).len() ==> exists|j: int| 0 <= j < s.len() && s[j] == #[trigger] dedup(s)[i],
    decreases s.len(),
{
    if s.len() > 0 {
        lemma_dedup_elements(s.drop_last());
        let prev = dedup(s.drop_last());
        lemma_find_key(prev, s.last().0);
        assert forall|i: int| 0 <= i < dedup(s).len() implies exists|j: int|
            0 <= j < s.len() && s[j] == #[trigger] dedup(s)[i] by {
            if i < prev.len() && dedup(s)[i] == prev[i] {
                let j = choose|j: int| 0 <= j < s.drop_last().len() && s.drop_last()[j] == prev[i];
                assert(s[j] == dedup(s)[i]);
            } else {
                assert(s[s.len() - 1] == dedup(s)[i]);
            }
        }
    }
}

} // verus!
