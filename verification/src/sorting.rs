//! Putting a list in order without changing the order of what is equal.

use vstd::prelude::*;

verus! {

/// A value by which a list is put in order.
pub trait SortKey: Sized {
    /// What the value stands for.
    type Model;

    /// What the value stands for.
    spec fn model(&self) -> Self::Model;

    /// `a` comes strictly before `b`.
    spec fn precedes(a: Self::Model, b: Self::Model) -> bool;

    /// Whether `self` comes strictly before `other`.
    fn less(&self, other: &Self) -> (r: bool)
        ensures
            r == Self::precedes(self.model(), other.model()),
    ;
}

impl SortKey for i64 {
    type Model = int;

    open spec fn model(&self) -> int {
        *self as int
    }

    open spec fn precedes(a: int, b: int) -> bool {
        a < b
    }

    fn less(&self, other: &Self) -> (r: bool) {
        *self < *other
    }
}

/// What a list of keys stands for.
pub open spec fn models<K: SortKey>(keys: Seq<K>) -> Seq<K::Model> {
    Seq::new(keys.len(), |i: int| keys[i].model())
}

/// Where item `j` goes into the order made so far: from position `p` to the
/// left, past every item that it comes strictly before.
pub open spec fn insertion_point<K: SortKey>(
    keys: Seq<K::Model>,
    order: Seq<int>,
    j: int,
    p: nat,
) -> nat
    decreases p,
{
    if 0 < p <= order.len() && 0 <= order[p - 1] < keys.len() && 0 <= j < keys.len()
        && K::precedes(keys[j], keys[order[p - 1]]) {
        insertion_point::<K>(keys, order, j, (p - 1) as nat)
    } else {
        p
    }
}

/// The first `n` items in order, given by their indices: each item in turn
/// goes behind the items made out so far that do not come strictly after it.
/// So the keys never fall along the order, and items with equal keys stay in
/// the order they had.
pub open spec fn sorted_order<K: SortKey>(keys: Seq<K::Model>, n: nat) -> Seq<int>
    decreases n,
{
    if n == 0 || n > keys.len() {
        Seq::empty()
    } else {
        let before = sorted_order::<K>(keys, (n - 1) as nat);
        before.insert(insertion_point::<K>(keys, before, n - 1, before.len()) as int, n - 1)
    }
}

/// A list of indices as numbers.
pub open spec fn indices(order: Seq<usize>) -> Seq<int> {
    Seq::new(order.len(), |i: int| order[i] as int)
}

/// The indices of the items in order: see [`sorted_order`].
pub fn sort_order<K: SortKey>(keys: &Vec<K>) -> (r: Vec<usize>)
    ensures
        indices(r@) == sorted_order::<K>(models(keys@), keys@.len()),
        r@.len() == keys@.len(),
        forall|i: int| 0 <= i < r@.len() ==> #[trigger] r@[i] < keys@.len(),
{
    let mut r: Vec<usize> = Vec::new();
    let ghost ms = models(keys@);
    assert(indices(r@) =~= sorted_order::<K>(ms, 0));
    let mut n: usize = 0;
    while n < keys.len()
        invariant
            n <= keys.len(),
            r@.len() == n,
            ms == models(keys@),
            indices(r@) == sorted_order::<K>(ms, n as nat),
            forall|i: int| 0 <= i < r@.len() ==> #[trigger] r@[i] < n,
        decreases keys.len() - n,
    {
        let ghost before = indices(r@);
        let mut p: usize = r.len();
        while p > 0 && keys[n].less(&keys[r[p - 1]])
            invariant
                p <= r.len(),
                n < keys.len(),
                before == indices(r@),
                ms == models(keys@),
                forall|i: int| 0 <= i < r@.len() ==> #[trigger] r@[i] < n,
                insertion_point::<K>(ms, before, n as int, r@.len() as nat) == insertion_point::<K>(
                    ms,
                    before,
                    n as int,
                    p as nat,
                ),
            decreases p,
        {
            assert(before[p - 1] == r@[p - 1]);
            p -= 1;
        }
        proof {
            if p > 0 {
                assert(before[p - 1] == r@[p - 1]);
            }
            assert(insertion_point::<K>(ms, before, n as int, p as nat) == p);
        }
        r.insert(p, n);
        assert(indices(r@) =~= before.insert(p as int, n as int));
        n += 1;
    }
    r
}

/// The keys are in a strict order in which being neither before nor after
/// is being alike: nothing is before what is before it, and what is not after
/// a second thing that is not after a third is not after the third.
pub open spec fn strict_weak<K: SortKey>() -> bool {
    &&& forall|a: K::Model, b: K::Model| #[trigger] K::precedes(a, b) ==> !K::precedes(b, a)
    &&& forall|a: K::Model, b: K::Model, c: K::Model|
        !#[trigger] K::precedes(b, a) && !#[trigger] K::precedes(c, b) ==> !K::precedes(c, a)
}

/// The order names each of the first `n` items once.
pub open spec fn names_each_once(order: Seq<int>, n: nat) -> bool {
    &&& order.len() == n
    &&& forall|i: int| 0 <= i < order.len() ==> 0 <= #[trigger] order[i] < n
    &&& forall|i: int, j: int| 0 <= i < j < order.len() ==> order[i] != order[j]
}

/// Along the order no key comes before an earlier one, and of two items with
/// alike keys the one that stood first comes first.
pub open spec fn in_order<K: SortKey>(keys: Seq<K::Model>, order: Seq<int>) -> bool {
    forall|i: int, j: int|
        #![trigger order[i], order[j]]
        0 <= i < j < order.len() ==> {
            &&& !K::precedes(keys[order[j]], keys[order[i]])
            &&& !K::precedes(keys[order[i]], keys[order[j]]) ==> order[i] < order[j]
        }
}

/// Item `j` comes strictly before everything from its insertion point to
/// where the search started, and not before what stands in front of the
/// insertion point.
pub proof fn lemma_insertion_point<K: SortKey>(
    keys: Seq<K::Model>,
    order: Seq<int>,
    j: int,
    start: nat,
)
    requires
        0 <= j < keys.len(),
        start <= order.len(),
        forall|i: int| 0 <= i < order.len() ==> 0 <= #[trigger] order[i] < keys.len(),
    ensures
        insertion_point::<K>(keys, order, j, start) <= start,
        forall|q: int|
            insertion_point::<K>(keys, order, j, start) <= q < start ==> K::precedes(
                keys[j],
                keys[#[trigger] order[q]],
            ),
        insertion_point::<K>(keys, order, j, start) > 0 ==> !K::precedes(
            keys[j],
            keys[order[insertion_point::<K>(keys, order, j, start) - 1]],
        ),
    decreases start,
{
    if start > 0 && K::precedes(keys[j], keys[order[start - 1]]) {
        lemma_insertion_point::<K>(keys, order, j, (start - 1) as nat);
    }
}

/// Sorting gives an order: where the keys are in a strict order in which
/// being neither before nor after is being alike, [`sorted_order`] names each
/// item once, no key comes before an earlier one, and items with alike keys
/// keep the order they had.
pub proof fn law_sorted_order<K: SortKey>(keys: Seq<K::Model>, n: nat)
    requires
        strict_weak::<K>(),
        n <= keys.len(),
    ensures
        names_each_once(sorted_order::<K>(keys, n), n),
        in_order::<K>(keys, sorted_order::<K>(keys, n)),
    decreases n,
{
    if n > 0 {
        law_sorted_order::<K>(keys, (n - 1) as nat);
        let before = sorted_order::<K>(keys, (n - 1) as nat);
        let last = n - 1;
        lemma_insertion_point::<K>(keys, before, last, before.len());
        let p = insertion_point::<K>(keys, before, last, before.len()) as int;
        let now = before.insert(p, last);
        assert(now == sorted_order::<K>(keys, n));
        assert forall|i: int| 0 <= i < now.len() implies 0 <= #[trigger] now[i] < n by {
            if i < p {
                assert(now[i] == before[i]);
            } else if i > p {
                assert(now[i] == before[i - 1]);
            }
        }
        assert forall|i: int, j: int| 0 <= i < j < now.len() implies now[i] != now[j] by {
            let a = if i < p {
                i
            } else {
                i - 1
            };
            let b = if j < p {
                j
            } else {
                j - 1
            };
            if i != p {
                assert(now[i] == before[a]);
            }
            if j != p {
                assert(now[j] == before[b]);
            }
        }
        assert forall|i: int, j: int|
            #![trigger now[i], now[j]]
            0 <= i < j < now.len() implies {
            &&& !K::precedes(keys[now[j]], keys[now[i]])
            &&& !K::precedes(keys[now[i]], keys[now[j]]) ==> now[i] < now[j]
        } by {
            if j == p {
                assert(now[i] == before[i]);
                assert(!K::precedes(keys[last], keys[before[p - 1]]));
                if i < p - 1 {
                    assert(!K::precedes(keys[before[p - 1]], keys[before[i]]));
                }
            } else if i == p {
                assert(now[j] == before[j - 1]);
                assert(K::precedes(keys[last], keys[before[j - 1]]));
            } else {
                let a = if i < p {
                    i
                } else {
                    i - 1
                };
                let b = if j < p {
                    j
                } else {
                    j - 1
                };
                assert(now[i] == before[a]);
                assert(now[j] == before[b]);
            }
        }
    }
}

/// Numbers are in a strict order.
pub proof fn lemma_numbers_strict_weak()
    ensures
        strict_weak::<i64>(),
{
}

} // verus!
