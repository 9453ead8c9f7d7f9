//! Small sequence helpers used by the scorer.
use vstd::prelude::*;

verus! {

/// The integers `0, 1, ..., n - 1` in order (empty when `n <= 0`).
pub fn range(n: i32) -> (r: Vec<i32>)
    ensures
        r@.len() == (if n > 0 { n as int } else { 0 }),
        forall|i: int| 0 <= i < r@.len() ==> r@[i] == i,
{
    let mut res: Vec<i32> = Vec::new();
    let mut i: i32 = 0;
    while i < n
        invariant
            0 <= i,
            n > 0 ==> i <= n,
            n <= 0 ==> i == 0,
            res@.len() == i,
            forall|k: int| 0 <= k < res@.len() ==> res@[k] == k,
        decreases n - i,
    {
        res.push(i);
        i = i + 1;
    }
    res
}

/// Whether `predicate` holds of every element.
pub fn every<T, F>(arr: &[T], predicate: F) -> (r: bool)
    where
        F: Fn(&T) -> bool,
    requires
        forall|i: int| 0 <= i < arr@.len() ==> predicate.requires((&arr@[i],)),
    ensures
        r ==> forall|i: int| 0 <= i < arr@.len() ==> predicate.ensures((&arr@[i],), true),
        !r ==> exists|i: int| 0 <= i < arr@.len() && predicate.ensures((&arr@[i],), false),
{
    let mut i: usize = 0;
    while i < arr.len()
        invariant
            0 <= i <= arr@.len(),
            forall|k: int| 0 <= k < arr@.len() ==> predicate.requires((&arr@[k],)),
            forall|k: int| 0 <= k < i ==> predicate.ensures((&arr@[k],), true),
        decreases arr@.len() - i,
    {
        let b = predicate(&arr[i]);
        if !b {
            return false;
        }
        i = i + 1;
    }
    true
}

/// Whether `predicate` holds of some element.
pub fn some<T, F>(arr: &[T], predicate: F) -> (r: bool)
    where
        F: Fn(&T) -> bool,
    requires
        forall|i: int| 0 <= i < arr@.len() ==> predicate.requires((&arr@[i],)),
    ensures
        r ==> exists|i: int| 0 <= i < arr@.len() && predicate.ensures((&arr@[i],), true),
        !r ==> forall|i: int| 0 <= i < arr@.len() ==> predicate.ensures((&arr@[i],), false),
{
    let mut i: usize = 0;
    while i < arr.len()
        invariant
            0 <= i <= arr@.len(),
            forall|k: int| 0 <= k < arr@.len() ==> predicate.requires((&arr@[k],)),
            forall|k: int| 0 <= k < i ==> predicate.ensures((&arr@[k],), false),
        decreases arr@.len() - i,
    {
        let b = predicate(&arr[i]);
        if b {
            return true;
        }
        i = i + 1;
    }
    false
}

/// The longest prefix of `arr` on whose elements `predicate` holds.
pub fn take_while<T: Copy, F>(arr: &[T], predicate: F) -> (r: Vec<T>)
    where
        F: Fn(&T) -> bool,
    requires
        forall|i: int| 0 <= i < arr@.len() ==> predicate.requires((&arr@[i],)),
    ensures
        r@.len() <= arr@.len(),
        r@ == arr@.take(r@.len() as int),
        forall|i: int| 0 <= i < r@.len() ==> predicate.ensures((&arr@[i],), true),
        r@.len() < arr@.len() ==> predicate.ensures((&arr@[r@.len() as int],), false),
{
    let mut res: Vec<T> = Vec::new();
    let mut i: usize = 0;
    while i < arr.len()
        invariant
            0 <= i <= arr@.len(),
            res@ == arr@.take(i as int),
            forall|k: int| 0 <= k < arr@.len() ==> predicate.requires((&arr@[k],)),
            forall|k: int| 0 <= k < i ==> predicate.ensures((&arr@[k],), true),
        decreases arr@.len() - i,
    {
        let x = arr[i];
        if predicate(&x) {
            res.push(x);
        } else {
            return res;
        }
        i = i + 1;
        assert(res@ =~= arr@.take(i as int));
    }
    res
}

/// The elements of `arr1`, in order and with their repetitions, that occur in `arr2`.
pub fn intersection(arr1: &[char], arr2: &[char]) -> (r: Vec<char>)
    ensures
        r@ == arr1@.filter(|c: char| arr2@.contains(c)),
{
    let mut res: Vec<char> = Vec::new();
    let mut i: usize = 0;
    while i < arr1.len()
        invariant
            0 <= i <= arr1@.len(),
            res@ == arr1@.take(i as int).filter(|c: char| arr2@.contains(c)),
        decreases arr1@.len() - i,
    {
        let x = arr1[i];
        let inside = contains(arr2, x);
        reveal_with_fuel(Seq::filter, 1);
        assert(arr1@.take(i + 1).drop_last() =~= arr1@.take(i as int));
        if inside {
            res.push(x);
        }
        i = i + 1;
    }
    assert(arr1@.take(arr1@.len() as int) =~= arr1@);
    res
}

/// Whether `c` occurs in `arr`.
pub fn contains(arr: &[char], c: char) -> (r: bool)
    ensures
        r == arr@.contains(c),
{
    let mut i: usize = 0;
    while i < arr.len()
        invariant
            0 <= i <= arr@.len(),
            forall|k: int| 0 <= k < i ==> arr@[k] != c,
        decreases arr@.len() - i,
    {
        if arr[i] == c {
            return true;
        }
        i = i + 1;
    }
    false
}

/// The elements of `s`, each at its first occurrence only, in order.
pub open spec fn dedup(s: Seq<char>) -> Seq<char>
    decreases s.len(),
{
    if s.len() == 0 {
        Seq::empty()
    } else {
        let d = dedup(s.drop_last());
        if d.contains(s.last()) {
            d
        } else {
            d.push(s.last())
        }
    }
}

/// Appends to `res` each element of `arr` that it does not hold yet.
fn push_new(res: &mut Vec<char>, arr: &[char], pre: Ghost<Seq<char>>)
    requires
        old(res)@.no_duplicates(),
        old(res)@ == dedup(pre@),
    ensures
        final(res)@ == dedup(pre@ + arr@),
        final(res)@.no_duplicates(),
        final(res)@.to_set() == old(res)@.to_set() + arr@.to_set(),
        old(res)@.is_prefix_of(final(res)@),
{
    let ghost start = res@;
    let mut i: usize = 0;
    while i < arr.len()
        invariant
            0 <= i <= arr@.len(),
            res@.no_duplicates(),
            res@.to_set() =~= start.to_set() + arr@.take(i as int).to_set(),
            start.is_prefix_of(res@),
            res@ == dedup(pre@ + arr@.take(i as int)),
        decreases arr@.len() - i,
    {
        let x = arr[i];
        let ghost before = res@;
        proof {
            assert((pre@ + arr@.take(i + 1)).drop_last() =~= pre@ + arr@.take(i as int));
            assert((pre@ + arr@.take(i + 1)).last() == x);
        }
        if !contains(res.as_slice(), x) {
            res.push(x);
            proof {
                assert(res@.to_set() =~= before.to_set().insert(x)) by {
                    assert forall|c: char| res@.contains(c) <==> before.contains(c) || c == x by {
                        if res@.contains(c) {
                            let k = choose|k: int| 0 <= k < res@.len() && res@[k] == c;
                            if k < before.len() {
                                assert(before[k] == c);
                            }
                        }
                        if c == x {
                            assert(res@[before.len() as int] == x);
                        }
                        if before.contains(c) {
                            let k = choose|k: int| 0 <= k < before.len() && before[k] == c;
                            assert(res@[k] == c);
                        }
                    }
                }
            }
        } else {
            assert(before.to_set().contains(x));
        }
        proof {
            assert(arr@.take(i + 1) =~= arr@.take(i as int).push(x));
            arr@.take(i as int).lemma_push_to_set_commute(x);
        }
        i = i + 1;
        assert(res@.to_set() =~= start.to_set() + arr@.take(i as int).to_set());
    }
    assert(arr@.take(arr@.len() as int) =~= arr@);
}

/// The distinct elements of `arr1` then `arr2`, each once, in order of first occurrence.
pub fn union(arr1: &[char], arr2: &[char]) -> (r: Vec<char>)
    ensures
        r@ == dedup(arr1@ + arr2@),
        r@.no_duplicates(),
        r@.to_set() == arr1@.to_set() + arr2@.to_set(),
{
    let mut res: Vec<char> = Vec::new();
    assert(res@.to_set() =~= Set::<char>::empty());
    assert(res@ =~= dedup(Seq::<char>::empty()));
    push_new(&mut res, arr1, Ghost(Seq::empty()));
    assert(Seq::<char>::empty() + arr1@ =~= arr1@);
    push_new(&mut res, arr2, Ghost(arr1@));
    assert(res@.to_set() =~= arr1@.to_set() + arr2@.to_set());
    res
}

/// The distinct elements of `arr`, each once, in order of first occurrence.
pub fn uniq(arr: &[char]) -> (r: Vec<char>)
    ensures
        r@ == dedup(arr@),
        r@.no_duplicates(),
        r@.to_set() == arr@.to_set(),
{
    let mut res: Vec<char> = Vec::new();
    assert(res@.to_set() =~= Set::<char>::empty());
    assert(res@ =~= dedup(Seq::<char>::empty()));
    push_new(&mut res, arr, Ghost(Seq::empty()));
    assert(Seq::<char>::empty() + arr@ =~= arr@);
    assert(res@.to_set() =~= arr@.to_set());
    res
}

} // verus!
