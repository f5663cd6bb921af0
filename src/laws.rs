//! Identities on sequences behind the laws of [`crate::MagicList`]. Each
//! operation's contract states its result over the list's sequence of
//! elements (`split_at` gives two subranges, `concat` appends, `pop` takes
//! the last element, `insert` and `remove` act at a position); the facts
//! below, applied to those sequences, give the laws that relate the calls.
use vstd::prelude::*;

verus! {

/// The values that `k` successive calls of `pop` return from a sequence
/// whose elements are `s`, in the order they come out.
pub open spec fn popped<T>(s: Seq<T>, k: nat) -> Seq<T>
    decreases k,
{
    if k == 0 || s.len() == 0 {
        Seq::empty()
    } else {
        seq![s.last()] + popped(s.drop_last(), (k - 1) as nat)
    }
}

/// The elements after inserting each of `vs` at position 0, in order,
/// into a sequence whose elements are `s`.
pub open spec fn inserted_at_front<T>(s: Seq<T>, vs: Seq<T>) -> Seq<T>
    decreases vs.len(),
{
    if vs.len() == 0 {
        s
    } else {
        inserted_at_front(s.insert(0, vs[0]), vs.skip(1))
    }
}

/// The elements after splitting at every offset `0, 1, ..., k - 1` in turn
/// and joining the two parts again each time.
pub open spec fn split_and_rejoin_each<T>(s: Seq<T>, k: nat) -> Seq<T>
    decreases k,
{
    if k == 0 {
        s
    } else {
        let t = split_and_rejoin_each(s, (k - 1) as nat);
        let i = (k - 1) as int;
        t.subrange(0, i) + t.subrange(i, t.len() as int)
    }
}

pub open spec fn sorted(s: Seq<int>) -> bool {
    forall|a: int, b: int| 0 <= a < b < s.len() ==> s[a] <= s[b]
}

/// The two subranges that `split_at(i)` returns, appended as `concat` does,
/// give back the original elements in the original order.
pub proof fn split_then_concat<T>(s: Seq<T>, i: int)
    requires
        0 <= i <= s.len(),
    ensures
        s.subrange(0, i) + s.subrange(i, s.len() as int) == s,
        s.subrange(0, i).len() + s.subrange(i, s.len() as int).len() == s.len(),
{
    assert(s.subrange(0, i) + s.subrange(i, s.len() as int) =~= s);
}

/// Taking the two subranges at every offset from 0 to the length, one after
/// the other, and appending them again each time never changes the length
/// or the order of the elements.
pub proof fn split_and_rejoin_everywhere<T>(s: Seq<T>, k: nat)
    requires
        k <= s.len() + 1,
    ensures
        split_and_rejoin_each(s, k) == s,
    decreases k,
{
    if k > 0 {
        split_and_rejoin_everywhere(s, (k - 1) as nat);
        split_then_concat(s, k - 1);
    }
}

/// Appending values, as successive `push` calls do, and then taking the last
/// element as many times, as `pop` does, gives them back in reverse order.
pub proof fn push_then_pop<T>(s: Seq<T>, vs: Seq<T>)
    ensures
        popped(s + vs, vs.len()) == vs.reverse(),
    decreases vs.len(),
{
    if vs.len() == 0 {
        assert(vs.reverse() =~= Seq::<T>::empty());
    } else {
        let d = vs.drop_last();
        push_then_pop(s, d);
        assert((s + vs).drop_last() =~= s + d);
        assert((s + vs).last() == vs.last());
        assert(vs.reverse() =~= seq![vs.last()] + d.reverse());
    }
}

/// Inserting values one by one at position 0, as `insert(0, _)` does, leaves
/// them in reverse order in front of the elements already there.
pub proof fn insert_at_front<T>(s: Seq<T>, vs: Seq<T>)
    ensures
        inserted_at_front(s, vs) == vs.reverse() + s,
    decreases vs.len(),
{
    if vs.len() == 0 {
        assert(vs.reverse() + s =~= s);
    } else {
        let rest = vs.skip(1);
        insert_at_front(s.insert(0, vs[0]), rest);
        assert(rest.reverse() + s.insert(0, vs[0]) =~= vs.reverse() + s);
    }
}

/// Removing the element at a position, as `remove` does, and inserting it
/// there again, as `insert` does, leaves the sequence unchanged.
pub proof fn remove_then_insert<T>(s: Seq<T>, i: int)
    requires
        0 <= i < s.len(),
    ensures
        s.remove(i).insert(i, s[i]) == s,
{
    assert(s.remove(i).insert(i, s[i]) =~= s);
}

/// Inserting a value, as `insert` does, after every element not greater than
/// it and before every element greater than it (the position a binary search
/// through `index` finds) keeps a sorted sequence sorted.
pub proof fn insert_keeps_sorted(s: Seq<int>, k: int, x: int)
    requires
        sorted(s),
        0 <= k <= s.len(),
        forall|j: int| 0 <= j < k ==> s[j] <= x,
        forall|j: int| k <= j < s.len() ==> x < s[j],
    ensures
        sorted(s.insert(k, x)),
{
    let t = s.insert(k, x);
    assert forall|a: int, b: int| 0 <= a < b < t.len() implies t[a] <= t[b] by {
        if b < k {
        } else if b == k {
        } else if a < k {
            assert(s[a] <= s[b - 1]);
        } else if a == k {
        } else {
            assert(s[a - 1] <= s[b - 1]);
        }
    }
}

/// The subranges that `split_at` gives at 0 are nothing and everything; at
/// the length, everything and nothing.
pub proof fn split_at_ends<T>(s: Seq<T>)
    ensures
        s.subrange(0, 0) == Seq::<T>::empty(),
        s.subrange(0, s.len() as int) == s,
        s.subrange(s.len() as int, s.len() as int) == Seq::<T>::empty(),
{
    assert(s.subrange(0, 0) =~= Seq::<T>::empty());
    assert(s.subrange(0, s.len() as int) =~= s);
    assert(s.subrange(s.len() as int, s.len() as int) =~= Seq::<T>::empty());
}

} // verus!
