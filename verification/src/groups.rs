//! Grouping of located items by key, to find the keys that occur more than
//! once.

use vstd::prelude::*;
use crate::bibtex::Location;
use crate::text::{lines, same_chars};

verus! {

/// The locations, among the first `n` items, of the items whose key is `k`,
/// in order.
pub open spec fn matching<K>(keys: Seq<K>, locs: Seq<Location>, k: K, n: nat) -> Seq<Location>
    decreases n,
{
    if n == 0 || n > keys.len() || n > locs.len() {
        Seq::empty()
    } else {
        let before = matching(keys, locs, k, (n - 1) as nat);
        if keys[n - 1] == k {
            before.push(locs[n - 1])
        } else {
            before
        }
    }
}

/// No item before item `j` has the key of item `j`.
pub open spec fn is_first<K>(keys: Seq<K>, j: int) -> bool {
    forall|i: int| 0 <= i < j ==> keys[i] != keys[j]
}

/// The groups of two or more items with the same key, each given by the index
/// of its first item and the locations of all its items in order; the groups
/// come in the order of their first items. Only groups that start among the
/// first `n` items are given.
pub open spec fn duplicates<K>(keys: Seq<K>, locs: Seq<Location>, n: nat) -> Seq<
    (int, Seq<Location>),
>
    decreases n,
{
    if n == 0 || n > keys.len() {
        Seq::empty()
    } else {
        let before = duplicates(keys, locs, (n - 1) as nat);
        let group = matching(keys, locs, keys[n - 1], keys.len());
        if is_first(keys, n - 1) && group.len() > 1 {
            before.push((n - 1, group))
        } else {
            before
        }
    }
}

/// What a list of keys holds: each key is a list of strings.
pub open spec fn key_views(keys: Seq<Vec<Vec<char>>>) -> Seq<Seq<Seq<char>>> {
    Seq::new(keys.len(), |i: int| lines(keys[i]@))
}

/// What a list of groups holds.
pub open spec fn group_views(groups: Seq<(usize, Vec<Location>)>) -> Seq<(int, Seq<Location>)> {
    Seq::new(groups.len(), |i: int| (groups[i].0 as int, groups[i].1@))
}

/// A list of keys that got one more holds what it held and the new key.
pub proof fn lemma_keys_push(keys: Seq<Vec<Vec<char>>>, key: Vec<Vec<char>>)
    ensures
        key_views(keys.push(key)) == key_views(keys).push(lines(key@)),
{
    assert(key_views(keys.push(key)) =~= key_views(keys).push(lines(key@)));
}

/// Whether the two keys are the same list of strings.
pub fn same_key(a: &Vec<Vec<char>>, b: &Vec<Vec<char>>) -> (r: bool)
    ensures
        r == (lines(a@) == lines(b@)),
{
    if a.len() != b.len() {
        assert(lines(a@).len() != lines(b@).len());
        return false;
    }
    let mut i: usize = 0;
    while i < a.len()
        invariant
            i <= a.len(),
            a.len() == b.len(),
            forall|j: int| 0 <= j < i ==> a@[j]@ == b@[j]@,
        decreases a.len() - i,
    {
        if !same_chars(&a[i], &b[i]) {
            assert(lines(a@)[i as int] != lines(b@)[i as int]);
            return false;
        }
        i += 1;
    }
    assert(lines(a@) =~= lines(b@));
    true
}

/// The groups of two or more items with the same key, in the order of their
/// first items, each with the index of its first item and the locations of
/// all its items in order.
pub fn duplicate_groups(keys: &Vec<Vec<Vec<char>>>, locs: &Vec<Location>) -> (r: Vec<
    (usize, Vec<Location>),
>)
    requires
        keys.len() == locs.len(),
    ensures
        group_views(r@) == duplicates(key_views(keys@), locs@, keys@.len()),
        forall|g: int| 0 <= g < r@.len() ==> (#[trigger] r@[g]).0 < keys@.len(),
{
    let ghost ks = key_views(keys@);
    let mut r: Vec<(usize, Vec<Location>)> = Vec::new();
    let mut j: usize = 0;
    while j < keys.len()
        invariant
            j <= keys.len(),
            keys.len() == locs.len(),
            ks == key_views(keys@),
            group_views(r@) == duplicates(ks, locs@, j as nat),
            forall|g: int| 0 <= g < r@.len() ==> (#[trigger] r@[g]).0 < keys@.len(),
        decreases keys.len() - j,
    {
        let mut first = true;
        let mut i: usize = 0;
        while i < j
            invariant
                i <= j < keys.len(),
                ks == key_views(keys@),
                first == (forall|m: int| 0 <= m < i ==> ks[m] != ks[j as int]),
            decreases j - i,
        {
            assert(ks[i as int] == lines(keys@[i as int]@));
            assert(ks[j as int] == lines(keys@[j as int]@));
            if same_key(&keys[i], &keys[j]) {
                first = false;
            }
            i += 1;
        }
        let mut group: Vec<Location> = Vec::new();
        let mut m: usize = 0;
        while m < keys.len()
            invariant
                m <= keys.len(),
                j < keys.len(),
                keys.len() == locs.len(),
                ks == key_views(keys@),
                group@ == matching(ks, locs@, ks[j as int], m as nat),
            decreases keys.len() - m,
        {
            assert(ks[m as int] == lines(keys@[m as int]@));
            assert(ks[j as int] == lines(keys@[j as int]@));
            if same_key(&keys[m], &keys[j]) {
                group.push(locs[m]);
            }
            m += 1;
        }
        let ghost before = group_views(r@);
        if first && group.len() > 1 {
            r.push((j, group));
            assert(group_views(r@) =~= before.push((j as int, group@)));
        }
        j += 1;
    }
    r
}

} // verus!
