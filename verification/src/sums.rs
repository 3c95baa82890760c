//! Sums of sequences of sizes.
use vstd::prelude::*;

verus! {

/// The sum of the elements of `s`.
pub open spec fn total(s: Seq<nat>) -> nat
    decreases s.len(),
{
    if s.len() == 0 {
        0
    } else {
        total(s.drop_last()) + s.last()
    }
}

pub proof fn lemma_total_push(s: Seq<nat>, x: nat)
    ensures
        total(s.push(x)) == total(s) + x,
{
    assert(s.push(x).drop_last() =~= s);
}

pub proof fn lemma_total_concat(a: Seq<nat>, b: Seq<nat>)
    ensures
        total(a + b) == total(a) + total(b),
    decreases b.len(),
{
    if b.len() == 0 {
        assert(a + b =~= a);
    } else {
        assert((a + b).drop_last() =~= a + b.drop_last());
        lemma_total_concat(a, b.drop_last());
    }
}

/// Splitting a sum at one element.
pub proof fn lemma_total_split(s: Seq<nat>, i: int)
    requires
        0 <= i < s.len(),
    ensures
        total(s) == total(s.take(i)) + s[i] + total(s.skip(i + 1)),
{
    assert(s =~= s.take(i).push(s[i]) + s.skip(i + 1));
    lemma_total_concat(s.take(i).push(s[i]), s.skip(i + 1));
    lemma_total_push(s.take(i), s[i]);
}

pub proof fn lemma_total_remove(s: Seq<nat>, i: int)
    requires
        0 <= i < s.len(),
    ensures
        total(s) == total(s.remove(i)) + s[i],
{
    lemma_total_split(s, i);
    assert(s.remove(i) =~= s.take(i) + s.skip(i + 1));
    lemma_total_concat(s.take(i), s.skip(i + 1));
}

pub proof fn lemma_total_update(s: Seq<nat>, i: int, x: nat)
    requires
        0 <= i < s.len(),
    ensures
        total(s.update(i, x)) == total(s) - s[i] + x,
{
    lemma_total_split(s, i);
    let t = s.update(i, x);
    lemma_total_split(t, i);
    assert(t.take(i) =~= s.take(i));
    assert(t.skip(i + 1) =~= s.skip(i + 1));
}

/// The last element takes the place of the removed one.
pub proof fn lemma_total_swap_remove(s: Seq<nat>, i: int)
    requires
        0 <= i < s.len(),
    ensures
        total(s) == total(s.update(i, s.last()).drop_last()) + s[i],
{
    lemma_total_update(s, i, s.last());
    let t = s.update(i, s.last());
    assert(t.drop_last().push(t.last()) =~= t);
    lemma_total_push(t.drop_last(), t.last());
}

/// The order of the elements does not matter.
pub proof fn lemma_total_reverse(s: Seq<nat>)
    ensures
        total(s.reverse()) == total(s),
    decreases s.len(),
{
    if s.len() == 0 {
        assert(s.reverse() =~= s);
    } else {
        let front = s.drop_last();
        assert(s.reverse() =~= seq![s.last()] + front.reverse());
        lemma_total_concat(seq![s.last()], front.reverse());
        assert(seq![s.last()] =~= Seq::<nat>::empty().push(s.last()));
        lemma_total_push(Seq::empty(), s.last());
        lemma_total_reverse(front);
    }
}

/// A prefix sums to no more than the whole.
pub proof fn lemma_total_take(s: Seq<nat>, i: int)
    requires
        0 <= i <= s.len(),
    ensures
        total(s.take(i)) <= total(s),
{
    assert(s =~= s.take(i) + s.skip(i));
    lemma_total_concat(s.take(i), s.skip(i));
}

/// One more element of a prefix.
pub proof fn lemma_total_take_next(s: Seq<nat>, i: int)
    requires
        0 <= i < s.len(),
    ensures
        total(s.take(i + 1)) == total(s.take(i)) + s[i],
        total(s.take(i + 1)) <= total(s),
{
    assert(s.take(i + 1) =~= s.take(i).push(s[i]));
    lemma_total_push(s.take(i), s[i]);
    lemma_total_take(s, i + 1);
}

/// No element exceeds the sum.
pub proof fn lemma_total_member(s: Seq<nat>, i: int)
    requires
        0 <= i < s.len(),
    ensures
        s[i] <= total(s),
{
    lemma_total_split(s, i);
}

} // verus!
