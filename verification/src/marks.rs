//! Counting the set entries of a list of marks.

use vstd::prelude::*;

verus! {

/// How many entries of `s` are set.
pub open spec fn count_true(s: Seq<bool>) -> nat
    decreases s.len(),
{
    if s.len() == 0 {
        0
    } else {
        count_true(s.drop_last()) + if s.last() {
            1nat
        } else {
            0nat
        }
    }
}

/// No more entries are set than there are entries.
pub proof fn lemma_count_true_bound(s: Seq<bool>)
    ensures
        count_true(s) <= s.len(),
    decreases s.len(),
{
    if s.len() > 0 {
        lemma_count_true_bound(s.drop_last());
    }
}

/// Setting an entry that was not set adds one to the count.
pub proof fn lemma_count_true_set(s: Seq<bool>, i: int)
    requires
        0 <= i < s.len(),
        !s[i],
    ensures
        count_true(s.update(i, true)) == count_true(s) + 1,
    decreases s.len(),
{
    let t = s.update(i, true);
    if i == s.len() - 1 {
        assert(t.drop_last() =~= s.drop_last());
    } else {
        lemma_count_true_set(s.drop_last(), i);
        assert(t.drop_last() =~= s.drop_last().update(i, true));
    }
}

/// Clearing an entry that was set takes one from the count.
pub proof fn lemma_count_true_clear(s: Seq<bool>, i: int)
    requires
        0 <= i < s.len(),
        s[i],
    ensures
        count_true(s.update(i, false)) + 1 == count_true(s),
    decreases s.len(),
{
    let t = s.update(i, false);
    if i == s.len() - 1 {
        assert(t.drop_last() =~= s.drop_last());
    } else {
        lemma_count_true_clear(s.drop_last(), i);
        assert(t.drop_last() =~= s.drop_last().update(i, false));
    }
}

/// Where no entry is set the count is zero.
pub proof fn lemma_count_true_none(s: Seq<bool>)
    requires
        forall|i: int| 0 <= i < s.len() ==> !s[i],
    ensures
        count_true(s) == 0,
    decreases s.len(),
{
    if s.len() > 0 {
        lemma_count_true_none(s.drop_last());
    }
}

/// A list of marks that has every mark of another set counts at least as many.
pub proof fn lemma_count_true_grows(a: Seq<bool>, b: Seq<bool>)
    requires
        a.len() == b.len(),
        forall|i: int| 0 <= i < a.len() && a[i] ==> b[i],
    ensures
        count_true(a) <= count_true(b),
    decreases a.len(),
{
    if a.len() > 0 {
        lemma_count_true_grows(a.drop_last(), b.drop_last());
    }
}

/// A list that has every mark of another and one more counts more.
pub proof fn lemma_count_true_more(a: Seq<bool>, b: Seq<bool>, at: int)
    requires
        a.len() == b.len(),
        forall|i: int| 0 <= i < a.len() && a[i] ==> b[i],
        0 <= at < a.len(),
        !a[at],
        b[at],
    ensures
        count_true(a) < count_true(b),
{
    lemma_count_true_set(a, at);
    lemma_count_true_grows(a.update(at, true), b);
}

} // verus!
