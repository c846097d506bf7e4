//! The usage of a directory is the sum of all that lies below it.
use vstd::prelude::*;

use crate::analytics::DirectoryRecord;
use crate::indexing;
use crate::order;
use crate::path;
use crate::sums;
use crate::tree;
use crate::tree::UsageStats;

verus! {

/// Whether directories are those of a walk from a root: no two have the same
/// path, and each but the root stands in another one.
pub open spec fn from_a_walk(directories: Seq<DirectoryRecord>, root: Seq<u8>) -> bool {
    &&& forall|i: int, j: int|
        0 <= i < j < directories.len() ==> !path::same_path(
            (#[trigger] directories[i]).path@,
            (#[trigger] directories[j]).path@,
        )
    &&& forall|i: int|
        0 <= i < directories.len() ==> path::path_starts_with(
            (#[trigger] directories[i]).path@,
            root,
        )
    &&& forall|i: int|
        0 <= i < directories.len() ==> path::same_path((#[trigger] directories[i]).path@, root)
            || has_parent(directories, i)
}

/// Whether the parent of a directory is among the directories.
pub open spec fn has_parent(directories: Seq<DirectoryRecord>, i: int) -> bool {
    exists|p: int|
        0 <= p < directories.len() && indexing::is_parent(
            (#[trigger] directories[p]).path@,
            directories[i].path@,
        )
}

/// Whether a directory is another one or lies below it.
pub open spec fn lies_in(directories: Seq<DirectoryRecord>, d: int, x: int) -> bool {
    path::path_starts_with(directories[x].path@, directories[d].path@)
}

/// What the first `n` directories hold themselves, as far as they lie in
/// directory `d`.
pub open spec fn usage_within(directories: Seq<DirectoryRecord>, d: int, n: nat) -> UsageStats
    decreases n,
{
    if n == 0 {
        UsageStats::zero()
    } else {
        let rest = usage_within(directories, d, (n - 1) as nat);
        if lies_in(directories, d, n - 1) {
            rest.plus(directories[n - 1].usage)
        } else {
            rest
        }
    }
}

/// What directory `x` adds to directory `d`.
pub open spec fn share(directories: Seq<DirectoryRecord>, which: int, d: int) -> spec_fn(int) -> nat {
    |x: int|
        if lies_in(directories, d, x) {
            sums::number(directories[x].usage, which)
        } else {
            0
        }
}

/// What all directories add to directory `d`.
spec fn total(directories: Seq<DirectoryRecord>, which: int, d: int) -> nat {
    sums::sum_of(share(directories, which, d), directories.len())
}

/// What lies in directory `d`, summed up one by one, is the capped total.
pub proof fn lemma_within(directories: Seq<DirectoryRecord>, which: int, d: int, n: nat)
    ensures
        sums::number(usage_within(directories, d, n), which) == tree::saturated(
            sums::sum_of(share(directories, which, d), n) as int,
        ),
    decreases n,
{
    sums::lemma_sum_step(share(directories, which, d), n);
    if n > 0 {
        lemma_within(directories, which, d, (n - 1) as nat);
    }
}

/// What directory `c` adds when it stands directly in directory `d`.
spec fn child_share(
    directories: Seq<DirectoryRecord>,
    root: Seq<u8>,
    which: int,
    d: int,
) -> spec_fn(int) -> nat {
    |c: int|
        if indexing::counts_in(directories, root, d, c) {
            sums::number(directories[c].usage, which)
        } else {
            0
        }
}

proof fn lemma_child_sum(
    directories: Seq<DirectoryRecord>,
    order: Seq<usize>,
    root: Seq<u8>,
    which: int,
    d: int,
    n: nat,
)
    ensures
        sums::number(indexing::child_sum(directories, order, root, d, n), which) == tree::saturated(
            sums::sum_of(|j: int| child_share(directories, root, which, d)(order[j] as int), n) as int,
        ),
    decreases n,
{
    let f = |j: int| child_share(directories, root, which, d)(order[j] as int);
    sums::lemma_sum_step(f, n);
    if n > 0 {
        lemma_child_sum(directories, order, root, which, d, (n - 1) as nat);
    }
}

/// Whether directory `x` lies in directory `d` and is not `d` itself.
spec fn lies_below(directories: Seq<DirectoryRecord>, d: int, x: int) -> bool {
    lies_in(directories, d, x) && x != d
}

/// What lies below a directory lies in one of those directly in it.
proof fn lemma_child_on_the_way(
    directories: Seq<DirectoryRecord>,
    root: Seq<u8>,
    d: int,
    x: int,
) -> (child: int)
    requires
        from_a_walk(directories, root),
        0 <= d < directories.len(),
        0 <= x < directories.len(),
        lies_below(directories, d, x),
    ensures
        0 <= child < directories.len(),
        indexing::counts_in(directories, root, d, child),
        lies_in(directories, child, x),
    decreases path::components(directories[x].path@).len(),
{
    let upper = path::components(directories[d].path@);
    let lower = path::components(directories[x].path@);
    assert(lower.len() > upper.len()) by {
        if lower.len() == upper.len() {
            assert(lower =~= upper);
            if d < x {
                assert(!path::same_path(directories[d].path@, directories[x].path@));
            } else {
                assert(!path::same_path(directories[x].path@, directories[d].path@));
            }
        }
    }
    assert(!path::same_path(directories[x].path@, root)) by {
        assert(path::path_starts_with(directories[d].path@, root));
    }
    assert(has_parent(directories, x));
    let p = choose|p: int|
        0 <= p < directories.len() && indexing::is_parent(
            (#[trigger] directories[p]).path@,
            directories[x].path@,
        );
    path::parent_drops_the_last_component(directories[x].path@);
    let middle = path::components(directories[p].path@);
    assert(middle == lower.drop_last());
    if lower.len() == upper.len() + 1 {
        assert(upper =~= middle);
        path::starts_with_is_reflexive(directories[x].path@);
        x
    } else {
        assert(upper =~= middle.subrange(0, upper.len() as int));
        assert(p != d);
        let child = lemma_child_on_the_way(directories, root, d, p);
        assert(path::path_starts_with(directories[x].path@, directories[p].path@)) by {
            assert(middle =~= lower.subrange(0, middle.len() as int));
        }
        path::starts_with_is_transitive(
            directories[x].path@,
            directories[p].path@,
            directories[child].path@,
        );
        child
    }
}

/// Directories directly in one directory have nothing in common.
proof fn lemma_one_child_on_the_way(
    directories: Seq<DirectoryRecord>,
    root: Seq<u8>,
    d: int,
    x: int,
    first: int,
    second: int,
)
    requires
        from_a_walk(directories, root),
        0 <= first < directories.len(),
        0 <= second < directories.len(),
        indexing::counts_in(directories, root, d, first),
        indexing::counts_in(directories, root, d, second),
        lies_in(directories, first, x),
        lies_in(directories, second, x),
    ensures
        first == second,
{
    path::parent_drops_the_last_component(directories[first].path@);
    path::parent_drops_the_last_component(directories[second].path@);
    let left = path::components(directories[first].path@);
    let right = path::components(directories[second].path@);
    assert(left =~= right);
    if first < second {
        assert(!path::same_path(directories[first].path@, directories[second].path@));
    } else if second < first {
        assert(!path::same_path(directories[second].path@, directories[first].path@));
    }
}

/// A directory directly in another one, and all in it, lies below that.
proof fn lemma_child_lies_below(
    directories: Seq<DirectoryRecord>,
    root: Seq<u8>,
    d: int,
    child: int,
    x: int,
)
    requires
        indexing::counts_in(directories, root, d, child),
        lies_in(directories, child, x),
    ensures
        lies_below(directories, d, x),
{
    path::parent_drops_the_last_component(directories[child].path@);
    let upper = path::components(directories[d].path@);
    let middle = path::components(directories[child].path@);
    assert(upper =~= middle.subrange(0, upper.len() as int));
    path::starts_with_is_transitive(
        directories[x].path@,
        directories[child].path@,
        directories[d].path@,
    );
}

/// The total of a directory is what it holds itself and the totals of the
/// directories directly in it.
proof fn lemma_total(directories: Seq<DirectoryRecord>, root: Seq<u8>, which: int, d: int)
    requires
        from_a_walk(directories, root),
        0 <= d < directories.len(),
    ensures
        total(directories, which, d) == sums::number(directories[d].usage, which) + sums::sum_of(
            |c: int|
                if indexing::counts_in(directories, root, d, c) {
                    total(directories, which, c)
                } else {
                    0
                },
            directories.len(),
        ),
{
    let n = directories.len();
    let own = |x: int|
        if x == d {
            sums::number(directories[d].usage, which)
        } else {
            0
        };
    let below = |x: int|
        if lies_below(directories, d, x) {
            sums::number(directories[x].usage, which)
        } else {
            0
        };
    path::starts_with_is_reflexive(directories[d].path@);
    sums::lemma_sum_same(share(directories, which, d), |x: int| own(x) + below(x), n);
    sums::lemma_sum_both(own, below, n);
    sums::lemma_sum_one(own, n, d);
    let through = |c: int, x: int|
        if indexing::counts_in(directories, root, d, c) && lies_in(directories, c, x) {
            sums::number(directories[x].usage, which)
        } else {
            0
        };
    sums::lemma_sum_swapped(through, n, n);
    let columns = |x: int| sums::sum_of(|c: int| through(c, x), n);
    assert forall|x: int| 0 <= x < n implies #[trigger] columns(x) == below(x) by {
        let column = |c: int| through(c, x);
        if lies_below(directories, d, x) {
            let child = lemma_child_on_the_way(directories, root, d, x);
            assert forall|c: int| 0 <= c < n && c != child implies #[trigger] column(c) == 0 by {
                if indexing::counts_in(directories, root, d, c) && lies_in(directories, c, x) {
                    lemma_one_child_on_the_way(directories, root, d, x, c, child);
                }
            }
            sums::lemma_sum_one(column, n, child);
        } else {
            assert forall|c: int| 0 <= c < n implies #[trigger] column(c) == 0 by {
                if indexing::counts_in(directories, root, d, c) && lies_in(directories, c, x) {
                    lemma_child_lies_below(directories, root, d, c, x);
                }
            }
            sums::lemma_sum_nothing(column, n);
        }
    }
    sums::lemma_sum_same(columns, below, n);
    let rows = |c: int| sums::sum_of(|x: int| through(c, x), n);
    let children = |c: int|
        if indexing::counts_in(directories, root, d, c) {
            total(directories, which, c)
        } else {
            0
        };
    assert forall|c: int| 0 <= c < n implies #[trigger] rows(c) == children(c) by {
        let row = |x: int| through(c, x);
        if indexing::counts_in(directories, root, d, c) {
            sums::lemma_sum_same(row, share(directories, which, c), n);
        } else {
            sums::lemma_sum_nothing(row, n);
        }
    }
    sums::lemma_sum_same(rows, children, n);
}

proof fn lemma_carried_up(
    before: Seq<DirectoryRecord>,
    after: Seq<DirectoryRecord>,
    root: Seq<u8>,
    which: int,
    deepest: nat,
    d: int,
)
    requires
        before.len() <= usize::MAX,
        from_a_walk(before, root),
        indexing::rolled_up(before, after, root),
        forall|i: int|
            0 <= i < before.len() ==> path::components((#[trigger] before[i]).path@).len()
                <= deepest,
        0 <= d < before.len(),
    ensures
        sums::number(after[d].usage, which) == tree::saturated(total(before, which, d) as int),
    decreases deepest - path::components(before[d].path@).len(),
{
    let n = before.len();
    let keys = indexing::depth_keys(before);
    let order = order::stable_order_exists(keys);
    assert(after[d].path == before[d].path);
    let carried = child_share(after, root, which, d);
    let totals = |c: int|
        if indexing::counts_in(before, root, d, c) {
            total(before, which, c)
        } else {
            0
        };
    lemma_child_sum(after, order, root, which, d, n);
    sums::lemma_sum_reordered(keys, order, carried);
    assert forall|c: int| 0 <= c < n implies #[trigger] carried(c) == totals(c) || carried(c)
        == tree::saturated(totals(c) as int) by {
        assert(after[c].path == before[c].path);
        if indexing::counts_in(before, root, d, c) {
            path::parent_drops_the_last_component(before[c].path@);
            lemma_carried_up(before, after, root, which, deepest, c);
        }
    }
    sums::lemma_sum_capped(totals, carried, n);
    lemma_total(before, root, which, d);
}

/// After the usages of all directories of a walk have been carried up, each
/// directory counts what it and all directories below it hold themselves.
pub proof fn directories_count_all_below_them(
    before: Seq<DirectoryRecord>,
    after: Seq<DirectoryRecord>,
    root: Seq<u8>,
    d: int,
)
    requires
        before.len() <= usize::MAX,
        from_a_walk(before, root),
        indexing::rolled_up(before, after, root),
        0 <= d < before.len(),
    ensures
        after[d].usage == usage_within(before, d, before.len()),
{
    let deepest = indexing::deepest_path(before);
    indexing::lemma_deepest_path(before);
    lemma_carried_up(before, after, root, 0, deepest, d);
    lemma_carried_up(before, after, root, 1, deepest, d);
    lemma_carried_up(before, after, root, 2, deepest, d);
    lemma_within(before, 0, d, before.len());
    lemma_within(before, 1, d, before.len());
    lemma_within(before, 2, d, before.len());
}

} // verus!
