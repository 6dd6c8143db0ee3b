//! A set of small integers kept as a row of flags, one per integer: how the
//! walks over a history remember which revisions they have already placed or
//! seen, and why each of them ends.

use vstd::prelude::*;

verus! {

/// How many flags are set.
pub open spec fn count(flags: Seq<bool>) -> nat
    decreases flags.len(),
{
    if flags.len() == 0 {
        0
    } else {
        count(flags.drop_last()) + if flags.last() {
            1nat
        } else {
            0nat
        }
    }
}

/// No more flags are set than there are.
pub proof fn lemma_count_bound(flags: Seq<bool>)
    ensures
        count(flags) <= flags.len(),
    decreases flags.len(),
{
    if flags.len() > 0 {
        lemma_count_bound(flags.drop_last());
    }
}

/// Setting a flag that was clear sets one more.
pub proof fn lemma_count_set(flags: Seq<bool>, i: int)
    requires
        0 <= i < flags.len(),
        !flags[i],
    ensures
        count(flags.update(i, true)) == count(flags) + 1,
    decreases flags.len(),
{
    let after = flags.update(i, true);
    if i == flags.len() - 1 {
        assert(after.drop_last() =~= flags.drop_last());
    } else {
        assert(after.drop_last() =~= flags.drop_last().update(i, true));
        lemma_count_set(flags.drop_last(), i);
    }
}

/// A row of `n` clear flags.
pub fn clear(n: usize) -> (flags: Vec<bool>)
    ensures
        flags@ == Seq::new(n as nat, |i: int| false),
        count(flags@) == 0,
{
    let mut flags: Vec<bool> = Vec::new();
    while flags.len() < n
        invariant
            flags.len() <= n,
            flags@ == Seq::new(flags.len() as nat, |i: int| false),
            count(flags@) == 0,
        decreases n - flags.len(),
    {
        proof {
            assert(flags@.push(false).drop_last() =~= flags@);
        }
        flags.push(false);
    }
    flags
}

} // verus!
