//! What to do with a batch of formatted manifests: which ones to write and
//! whether the run fails a check.

use vstd::prelude::*;

verus! {

/// The sum of `counts`, capped at the largest `usize`.
pub open spec fn capped_sum(counts: Seq<usize>) -> int
    decreases counts.len(),
{
    if counts.len() == 0 {
        0
    } else {
        let s = capped_sum(counts.drop_last()) + counts.last();
        if s > usize::MAX {
            usize::MAX as int
        } else {
            s
        }
    }
}

/// The changes of all manifests together.
pub fn total_changes(counts: &Vec<usize>) -> (r: usize)
    ensures
        r == capped_sum(counts@),
{
    let mut total: usize = 0;
    let mut i: usize = 0;
    while i < counts.len()
        invariant
            i <= counts@.len(),
            total == capped_sum(counts@.take(i as int)),
        decreases counts@.len() - i,
    {
        assert(counts@.take(i + 1).drop_last() =~= counts@.take(i as int));
        total = total.saturating_add(counts[i]);
        i = i + 1;
    }
    assert(counts@.take(i as int) =~= counts@);
    total
}

/// Whether a manifest is written: it changed, and the run neither only
/// shows nor only checks.
pub fn should_write(changes: usize, dry_run: bool, check: bool) -> (r: bool)
    ensures
        r == (changes > 0 && !dry_run && !check),
{
    changes > 0 && !dry_run && !check
}

/// Whether the run ends with a failure status: it checks, and some
/// manifest needs changes.
pub fn check_fails(total: usize, check: bool) -> (r: bool)
    ensures
        r == (check && total > 0),
{
    check && total > 0
}

} // verus!
