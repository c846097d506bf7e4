//! What a whole walk leaves in the index: each file once, and each directory
//! with the sum of all that lies below it.
use vstd::prelude::*;

use crate::analytics::{DirectoryRecord, FileRecord};
use crate::indexing;
use crate::indexing::totals;
use crate::indexing::IndexScanModel;
use crate::lists;
use crate::order;
use crate::path;
use crate::path::FilePath;
use crate::scanner::{FileFacts, FileType, ScanOptions, WalkItem, WalkStep};
use crate::sums;
use crate::tree;
use crate::tree::UsageStats;

verus! {

/// A walk that builds an index: what it came upon, the states before and after
/// each item, and how each step ended.
pub struct IndexWalk {
    pub items: Seq<WalkItem>,
    pub states: Seq<IndexScanModel>,
    pub steps: Seq<WalkStep>,
    pub batches: Seq<Option<Seq<FileRecord>>>,
}

/// A walk that has not begun.
pub open spec fn begun(root: FilePath, options: ScanOptions) -> IndexScanModel {
    IndexScanModel {
        root,
        options,
        batch: Seq::empty(),
        directories: Seq::empty(),
        issues: Seq::empty(),
        mounts_skipped: 0,
    }
}

impl IndexWalk {
    /// Whether each state follows from the one before, from the beginning on.
    pub open spec fn is_walk(self, root: FilePath, options: ScanOptions) -> bool {
        &&& self.states.len() == self.items.len() + 1
        &&& self.steps.len() == self.items.len()
        &&& self.batches.len() == self.items.len()
        &&& self.states[0] == begun(root, options)
        &&& forall|k: int|
            0 <= k < self.items.len() ==> indexing::indexed(
                self.states[k],
                #[trigger] self.items[k],
                self.states[k + 1],
                self.steps[k],
                self.batches[k],
            )
    }
}

/// The files of the batches that were handed over.
pub open spec fn handed_over(batches: Seq<Option<Seq<FileRecord>>>) -> Seq<FileRecord>
    decreases batches.len(),
{
    if batches.len() == 0 {
        Seq::empty()
    } else {
        let rest = handed_over(batches.drop_last());
        match batches.last() {
            Some(files) => rest + files,
            None => rest,
        }
    }
}

/// The items that are regular files and do not lie elsewhere.
pub open spec fn regular(options: ScanOptions) -> spec_fn(WalkItem) -> bool {
    |item: WalkItem|
        match item {
            WalkItem::Entry { path, at_root, file_type, facts } => !facts.is_elsewhere(options)
                && !file_type.is_dir && file_type.is_file,
            _ => false,
        }
}

/// Whether a record describes the file that a walk came upon.
pub open spec fn records_item(record: FileRecord, item: WalkItem) -> bool {
    match item {
        WalkItem::Entry { path, at_root, file_type, facts } => indexing::records_file(
            record,
            path,
            file_type,
            facts,
        ),
        _ => false,
    }
}

/// Whether records describe the files that a walk came upon, one each.
pub open spec fn record_items(records: Seq<FileRecord>, items: Seq<WalkItem>) -> bool {
    &&& records.len() == items.len()
    &&& forall|i: int| 0 <= i < records.len() ==> records_item(#[trigger] records[i], items[i])
}

proof fn lemma_origin(walk: IndexWalk, root: FilePath, options: ScanOptions, k: int)
    requires
        walk.is_walk(root, options),
        0 <= k <= walk.items.len(),
    ensures
        walk.states[k].root == root,
        walk.states[k].options == options,
    decreases k,
{
    if k > 0 {
        lemma_origin(walk, root, options, k - 1);
        assert(indexing::indexed(
            walk.states[k - 1],
            walk.items[k - 1],
            walk.states[k],
            walk.steps[k - 1],
            walk.batches[k - 1],
        ));
    }
}

proof fn lemma_files(walk: IndexWalk, root: FilePath, options: ScanOptions, k: int)
    requires
        walk.is_walk(root, options),
        0 <= k <= walk.items.len(),
    ensures
        record_items(
            handed_over(walk.batches.take(k)) + walk.states[k].batch,
            walk.items.take(k).filter(regular(options)),
        ),
    decreases k,
{
    let after = handed_over(walk.batches.take(k)) + walk.states[k].batch;
    let found = walk.items.take(k).filter(regular(options));
    if k == 0 {
        reveal(Seq::filter);
        assert(walk.items.take(0) =~= Seq::empty());
    } else {
        let item = walk.items[k - 1];
        lemma_files(walk, root, options, k - 1);
        lemma_origin(walk, root, options, k - 1);
        lists::lemma_filter_step(walk.items, regular(options), k - 1);
        assert(walk.batches.take(k).drop_last() =~= walk.batches.take(k - 1));
        let before = handed_over(walk.batches.take(k - 1)) + walk.states[k - 1].batch;
        let earlier = walk.items.take(k - 1).filter(regular(options));
        match item {
            WalkItem::Entry { path, at_root, file_type, facts } => {
                if regular(options)(item) {
                    assert(exists|record: FileRecord| #[trigger]
                        indexing::records_file(record, path, file_type, facts) && after
                            =~= before.push(record));
                    let record = choose|record: FileRecord| #[trigger]
                        indexing::records_file(record, path, file_type, facts) && after
                            =~= before.push(record);
                    assert forall|i: int| 0 <= i < after.len() implies records_item(
                        #[trigger] after[i],
                        found[i],
                    ) by {
                        if i < before.len() {
                            assert(records_item(before[i], earlier[i]));
                        }
                    }
                } else {
                    assert(after =~= before);
                }
            },
            _ => {
                assert(after =~= before);
            },
        }
    }
}

/// Every regular file that a walk comes upon is in its batches once, in the
/// order of the walk. The last batch is the one that is left at the end.
pub proof fn every_file_is_indexed_once(walk: IndexWalk, root: FilePath, options: ScanOptions)
    requires
        walk.is_walk(root, options),
    ensures
        record_items(
            handed_over(walk.batches) + walk.states.last().batch,
            walk.items.filter(regular(options)),
        ),
{
    let n = walk.items.len() as int;
    lemma_files(walk, root, options, n);
    assert(walk.items.take(n) =~= walk.items);
    assert(walk.batches.take(n) =~= walk.batches);
}

/// The path of an entry that a walk comes upon.
pub open spec fn item_path(item: WalkItem) -> Seq<u8> {
    match item {
        WalkItem::Entry { path, at_root, file_type, facts } => path@,
        _ => Seq::empty(),
    }
}

/// Whether an item is a directory that is entered.
pub open spec fn is_entered(item: WalkItem, options: ScanOptions) -> bool {
    match item {
        WalkItem::Entry { path, at_root, file_type, facts } => !facts.is_elsewhere(options)
            && file_type.is_dir,
        _ => false,
    }
}

/// Whether an item is an entry other than a directory, and counts.
pub open spec fn is_counted(item: WalkItem, options: ScanOptions) -> bool {
    match item {
        WalkItem::Entry { path, at_root, file_type, facts } => !facts.is_elsewhere(options)
            && !file_type.is_dir,
        _ => false,
    }
}

/// What an item takes up.
pub open spec fn item_usage(item: WalkItem) -> UsageStats {
    match item {
        WalkItem::Entry { path, at_root, file_type, facts } => indexing::listed_usage(
            file_type,
            facts,
        ),
        _ => UsageStats::zero(),
    }
}

/// What the entries other than directories take up, as far as their paths are
/// wanted.
pub open spec fn usage_where(
    items: Seq<WalkItem>,
    options: ScanOptions,
    wanted: spec_fn(Seq<u8>) -> bool,
) -> UsageStats
    decreases items.len(),
{
    if items.len() == 0 {
        UsageStats::zero()
    } else {
        let rest = usage_where(items.drop_last(), options, wanted);
        if is_counted(items.last(), options) && wanted(item_path(items.last())) {
            rest.plus(item_usage(items.last()))
        } else {
            rest
        }
    }
}

/// The paths directly in a directory.
pub open spec fn directly_in(directory: Seq<u8>) -> spec_fn(Seq<u8>) -> bool {
    |path: Seq<u8>| indexing::is_parent(directory, path)
}

/// The paths below a directory.
pub open spec fn below(directory: Seq<u8>) -> spec_fn(Seq<u8>) -> bool {
    |path: Seq<u8>|
        path::path_starts_with(path, directory) && !path::same_path(path, directory)
}

/// Whether the directory that an item stands in was entered before.
pub open spec fn follows_parent(items: Seq<WalkItem>, options: ScanOptions, i: int) -> bool {
    exists|p: int|
        0 <= p < i && is_entered(#[trigger] items[p], options) && indexing::is_parent(
            item_path(items[p]),
            item_path(items[i]),
        )
}

/// Whether a walk enters each directory before it comes upon what is in it, and
/// begins with the root.
pub open spec fn parents_first(
    items: Seq<WalkItem>,
    root: Seq<u8>,
    options: ScanOptions,
) -> bool {
    forall|i: int|
        #![trigger items[i]]
        0 <= i < items.len() ==> {
            &&& is_entered(items[i], options) ==> path::same_path(item_path(items[i]), root)
                || follows_parent(items, options, i)
            &&& is_counted(items[i], options) ==> follows_parent(items, options, i)
        }
}

/// What holds of the directories after the first `k` items of a walk: they are
/// those entered, and each counts what stands directly in it.
spec fn directories_so_far(walk: IndexWalk, root: FilePath, options: ScanOptions, k: int) -> bool {
    let found = walk.states[k].directories;
    &&& totals::from_a_walk(found, root@)
    &&& forall|i: int|
        0 <= i < k && is_entered(#[trigger] walk.items[i], options) ==> indexing::has_directory(
            found,
            item_path(walk.items[i]),
        )
    &&& forall|d: int|
        0 <= d < found.len() ==> (#[trigger] found[d]).usage == usage_where(
            walk.items.take(k),
            options,
            directly_in(found[d].path@),
        )
}

proof fn lemma_same_directory(directories: Seq<DirectoryRecord>, left: Seq<u8>, right: Seq<u8>)
    requires
        path::same_path(left, right),
        indexing::has_directory(directories, left),
    ensures
        indexing::has_directory(directories, right),
{
    let i = choose|i: int|
        0 <= i < directories.len() && path::same_path((#[trigger] directories[i]).path@, left);
    assert(path::same_path(directories[i].path@, right));
}

/// Directories with the same paths are alike but for their usage.
proof fn lemma_same_paths(
    before: Seq<DirectoryRecord>,
    after: Seq<DirectoryRecord>,
    root: Seq<u8>,
    path: Seq<u8>,
)
    requires
        before.len() == after.len(),
        forall|i: int| 0 <= i < before.len() ==> (#[trigger] after[i]).path == before[i].path,
        totals::from_a_walk(before, root),
    ensures
        totals::from_a_walk(after, root),
        indexing::has_directory(before, path) ==> indexing::has_directory(after, path),
{
    assert forall|i: int, j: int| 0 <= i < j < after.len() implies !path::same_path(
        (#[trigger] after[i]).path@,
        (#[trigger] after[j]).path@,
    ) by {
        assert(!path::same_path(before[i].path@, before[j].path@));
    }
    assert forall|i: int| 0 <= i < after.len() implies path::path_starts_with(
        (#[trigger] after[i]).path@,
        root,
    ) by {
        assert(path::path_starts_with(before[i].path@, root));
    }
    assert forall|i: int| 0 <= i < after.len() implies path::same_path(
        (#[trigger] after[i]).path@,
        root,
    ) || totals::has_parent(after, i) by {
        assert(path::same_path(before[i].path@, root) || totals::has_parent(before, i));
        if totals::has_parent(before, i) {
            let p = choose|p: int|
                0 <= p < before.len() && indexing::is_parent(
                    (#[trigger] before[p]).path@,
                    before[i].path@,
                );
            assert(after[p].path == before[p].path);
        }
    }
    if indexing::has_directory(before, path) {
        let i = choose|i: int|
            0 <= i < before.len() && path::same_path((#[trigger] before[i]).path@, path);
        assert(after[i].path == before[i].path);
    }
}

/// The directories of a walk with one more that stands in one of them.
proof fn lemma_one_directory_more(
    before: Seq<DirectoryRecord>,
    record: DirectoryRecord,
    root: Seq<u8>,
)
    requires
        totals::from_a_walk(before, root),
        !indexing::has_directory(before, record.path@),
        path::same_path(record.path@, root) || exists|q: int|
            0 <= q < before.len() && indexing::is_parent(
                (#[trigger] before[q]).path@,
                record.path@,
            ),
    ensures
        totals::from_a_walk(before.push(record), root),
{
    let after = before.push(record);
    let last = before.len() as int;
    assert forall|i: int, j: int| 0 <= i < j < after.len() implies !path::same_path(
        (#[trigger] after[i]).path@,
        (#[trigger] after[j]).path@,
    ) by {
        if j < last {
            assert(!path::same_path(before[i].path@, before[j].path@));
        } else {
            assert(before[i] == after[i]);
        }
    }
    assert(path::path_starts_with(record.path@, root) && (path::same_path(record.path@, root)
        || totals::has_parent(after, last))) by {
        if path::same_path(record.path@, root) {
            path::starts_with_is_reflexive(root);
        } else {
            let q = choose|q: int|
                0 <= q < before.len() && indexing::is_parent(
                    (#[trigger] before[q]).path@,
                    record.path@,
                );
            assert(after[q] == before[q]);
            assert(indexing::is_parent(after[q].path@, after[last].path@));
            path::parent_drops_the_last_component(record.path@);
            let upper = path::components(before[q].path@);
            let lower = path::components(record.path@);
            assert(upper =~= lower.subrange(0, upper.len() as int));
            path::starts_with_is_transitive(record.path@, before[q].path@, root);
        }
    }
    assert forall|i: int| 0 <= i < after.len() implies path::path_starts_with(
        (#[trigger] after[i]).path@,
        root,
    ) by {
        if i < last {
            assert(path::path_starts_with(before[i].path@, root));
        }
    }
    assert forall|i: int| 0 <= i < after.len() implies path::same_path(
        (#[trigger] after[i]).path@,
        root,
    ) || totals::has_parent(after, i) by {
        if i < last {
            assert(path::same_path(before[i].path@, root) || totals::has_parent(before, i));
            if totals::has_parent(before, i) {
                let p = choose|p: int|
                    0 <= p < before.len() && indexing::is_parent(
                        (#[trigger] before[p]).path@,
                        before[i].path@,
                    );
                assert(after[p] == before[p]);
            }
        }
    }
}

/// Nothing stands in a directory that has not been entered yet.
proof fn lemma_nothing_yet(
    walk: IndexWalk,
    root: FilePath,
    options: ScanOptions,
    k: int,
    n: int,
    path: Seq<u8>,
)
    requires
        0 <= n <= k <= walk.items.len(),
        parents_first(walk.items, root@, options),
        directories_so_far(walk, root, options, k),
        !indexing::has_directory(walk.states[k].directories, path),
    ensures
        usage_where(walk.items.take(n), options, directly_in(path)) == UsageStats::zero(),
    decreases n,
{
    if n > 0 {
        lemma_nothing_yet(walk, root, options, k, n - 1, path);
        assert(walk.items.take(n).drop_last() =~= walk.items.take(n - 1));
        let item = walk.items[n - 1];
        if is_counted(item, options) && indexing::is_parent(path, item_path(item)) {
            assert(follows_parent(walk.items, options, n - 1));
            let p = choose|p: int|
                0 <= p < n - 1 && is_entered(#[trigger] walk.items[p], options)
                    && indexing::is_parent(item_path(walk.items[p]), item_path(item));
            lemma_same_directory(
                walk.states[k].directories,
                item_path(walk.items[p]),
                path,
            );
        }
    }
}

proof fn lemma_directories(walk: IndexWalk, root: FilePath, options: ScanOptions, k: int)
    requires
        walk.is_walk(root, options),
        parents_first(walk.items, root@, options),
        0 <= k <= walk.items.len(),
    ensures
        directories_so_far(walk, root, options, k),
    decreases k,
{
    if k > 0 {
        lemma_directories(walk, root, options, k - 1);
        lemma_origin(walk, root, options, k - 1);
        lemma_directory_step(walk, root, options, k - 1);
    }
}

proof fn lemma_directory_step(walk: IndexWalk, root: FilePath, options: ScanOptions, k: int)
    requires
        walk.is_walk(root, options),
        parents_first(walk.items, root@, options),
        0 <= k < walk.items.len(),
        walk.states[k].options == options,
        directories_so_far(walk, root, options, k),
    ensures
        directories_so_far(walk, root, options, k + 1),
{
    let item = walk.items[k];
    let found = walk.states[k].directories;
    let next = walk.states[k + 1].directories;
    assert(walk.items.take(k + 1).drop_last() =~= walk.items.take(k));
    match item {
        WalkItem::Entry { path, at_root, file_type, facts } => {
            if is_counted(item, options) {
                assert(next == indexing::credited(found, path@, item_usage(item)));
                lemma_same_paths(found, next, root@, path@);
                assert forall|i: int|
                    0 <= i < k + 1 && is_entered(
                        #[trigger] walk.items[i],
                        options,
                    ) implies indexing::has_directory(next, item_path(walk.items[i])) by {
                    lemma_same_paths(found, next, root@, item_path(walk.items[i]));
                }
                assert forall|d: int| 0 <= d < next.len() implies (#[trigger] next[d]).usage
                    == usage_where(
                    walk.items.take(k + 1),
                    options,
                    directly_in(next[d].path@),
                ) by {
                    assert(found[d].usage == usage_where(
                        walk.items.take(k),
                        options,
                        directly_in(found[d].path@),
                    ));
                }
            } else if is_entered(item, options) {
                if indexing::has_directory(found, path@) {
                    assert(next == found);
                } else {
                    let record = indexing::entered(path, facts);
                    assert(next == found.push(record));
                    lemma_entered(walk, root, options, k, record);
                }
            } else {
                assert(next == found);
            }
        },
        _ => {
            assert(next == found);
        },
    }
}

proof fn lemma_entered(
    walk: IndexWalk,
    root: FilePath,
    options: ScanOptions,
    k: int,
    record: DirectoryRecord,
)
    requires
        parents_first(walk.items, root@, options),
        0 <= k < walk.items.len(),
        directories_so_far(walk, root, options, k),
        is_entered(walk.items[k], options),
        record.path@ == item_path(walk.items[k]),
        record.usage == UsageStats::zero(),
        !indexing::has_directory(walk.states[k].directories, record.path@),
        walk.states[k + 1].directories == walk.states[k].directories.push(record),
    ensures
        directories_so_far(walk, root, options, k + 1),
{
    let found = walk.states[k].directories;
    let next = walk.states[k + 1].directories;
    let path = record.path@;
    assert(walk.items.take(k + 1).drop_last() =~= walk.items.take(k));
    if !path::same_path(path, root@) {
        assert(follows_parent(walk.items, options, k));
        let p = choose|p: int|
            0 <= p < k && is_entered(#[trigger] walk.items[p], options) && indexing::is_parent(
                item_path(walk.items[p]),
                path,
            );
        let q = choose|q: int|
            0 <= q < found.len() && path::same_path(
                (#[trigger] found[q]).path@,
                item_path(walk.items[p]),
            );
        assert(indexing::is_parent(found[q].path@, path));
    }
    lemma_one_directory_more(found, record, root@);
    lemma_nothing_yet(walk, root, options, k, k, path);
    assert forall|i: int|
        0 <= i < k + 1 && is_entered(
            #[trigger] walk.items[i],
            options,
        ) implies indexing::has_directory(next, item_path(walk.items[i])) by {
        if i < k {
            let d = choose|d: int|
                0 <= d < found.len() && path::same_path(
                    (#[trigger] found[d]).path@,
                    item_path(walk.items[i]),
                );
            assert(next[d] == found[d]);
        } else {
            assert(path::same_path(next[found.len() as int].path@, path));
        }
    }
    assert forall|d: int| 0 <= d < next.len() implies (#[trigger] next[d]).usage == usage_where(
        walk.items.take(k + 1),
        options,
        directly_in(next[d].path@),
    ) by {
        if d < found.len() {
            assert(found[d].usage == usage_where(
                walk.items.take(k),
                options,
                directly_in(found[d].path@),
            ));
        }
    }
}

/// What the item at a place adds to the entries whose paths are wanted.
spec fn item_share(
    items: Seq<WalkItem>,
    options: ScanOptions,
    wanted: spec_fn(Seq<u8>) -> bool,
    which: int,
) -> spec_fn(int) -> nat {
    |i: int|
        if is_counted(items[i], options) && wanted(item_path(items[i])) {
            sums::number(item_usage(items[i]), which)
        } else {
            0
        }
}

proof fn lemma_usage_where(
    items: Seq<WalkItem>,
    options: ScanOptions,
    wanted: spec_fn(Seq<u8>) -> bool,
    which: int,
)
    ensures
        sums::number(usage_where(items, options, wanted), which) == tree::saturated(
            sums::sum_of(item_share(items, options, wanted, which), items.len()) as int,
        ),
    decreases items.len(),
{
    let shares = item_share(items, options, wanted, which);
    sums::lemma_sum_step(shares, items.len());
    if items.len() > 0 {
        let fewer = items.drop_last();
        lemma_usage_where(fewer, options, wanted, which);
        sums::lemma_sum_same(item_share(fewer, options, wanted, which), shares, fewer.len());
    }
}

/// What stands directly in a directory lies below another one if and only if
/// the directory is that one or lies below it.
proof fn lemma_below(path: Seq<u8>, directory: Seq<u8>, upper: Seq<u8>)
    requires
        indexing::is_parent(directory, path),
    ensures
        below(upper)(path) == path::path_starts_with(directory, upper),
{
    path::parent_drops_the_last_component(path);
    let all = path::components(path);
    let middle = path::components(directory);
    let base = path::components(upper);
    assert(middle == all.drop_last());
    if path::path_starts_with(directory, upper) {
        assert(base =~= middle.subrange(0, base.len() as int));
        assert(base =~= all.subrange(0, base.len() as int));
    }
    if below(upper)(path) {
        assert(base =~= all.subrange(0, base.len() as int));
        if base.len() == all.len() {
            assert(base =~= all);
        }
        assert(base =~= middle.subrange(0, base.len() as int));
    }
}

/// The directory that an entry stands in is among the directories, once.
proof fn lemma_home(walk: IndexWalk, root: FilePath, options: ScanOptions, i: int) -> (home: int)
    requires
        parents_first(walk.items, root@, options),
        directories_so_far(walk, root, options, walk.items.len() as int),
        0 <= i < walk.items.len(),
        is_counted(walk.items[i], options),
    ensures
        ({
            let found = walk.states[walk.items.len() as int].directories;
            let path = item_path(walk.items[i]);
            &&& 0 <= home < found.len()
            &&& indexing::is_parent(found[home].path@, path)
            &&& forall|x: int|
                0 <= x < found.len() && x != home ==> !indexing::is_parent(
                    (#[trigger] found[x]).path@,
                    path,
                )
        }),
{
    let found = walk.states[walk.items.len() as int].directories;
    let path = item_path(walk.items[i]);
    assert(follows_parent(walk.items, options, i));
    let p = choose|p: int|
        0 <= p < i && is_entered(#[trigger] walk.items[p], options) && indexing::is_parent(
            item_path(walk.items[p]),
            path,
        );
    let home = choose|q: int|
        0 <= q < found.len() && path::same_path(
            (#[trigger] found[q]).path@,
            item_path(walk.items[p]),
        );
    assert(path::same_path(found[home].path@, item_path(walk.items[p])));
    assert forall|x: int| 0 <= x < found.len() && x != home implies !indexing::is_parent(
        (#[trigger] found[x]).path@,
        path,
    ) by {
        if x < home {
            assert(!path::same_path(found[x].path@, found[home].path@));
        } else {
            assert(!path::same_path(found[home].path@, found[x].path@));
        }
    }
    home
}

/// What the directories in one directory hold themselves is what lies below it.
#[verifier::spinoff_prover]
proof fn lemma_total_below(
    walk: IndexWalk,
    root: FilePath,
    options: ScanOptions,
    which: int,
    d: int,
)
    requires
        parents_first(walk.items, root@, options),
        directories_so_far(walk, root, options, walk.items.len() as int),
        0 <= d < walk.states[walk.items.len() as int].directories.len(),
    ensures
        ({
            let found = walk.states[walk.items.len() as int].directories;
            sums::number(totals::usage_within(found, d, found.len()), which) == sums::number(
                usage_where(walk.items, options, below(found[d].path@)),
                which,
            )
        }),
{
    let items = walk.items;
    let m = items.len();
    let found = walk.states[m as int].directories;
    let n = found.len();
    let upper = found[d].path@;
    let stated = totals::share(found, which, d);
    let table = |x: int, i: int|
        if totals::lies_in(found, d, x) && is_counted(items[i], options) && indexing::is_parent(
            found[x].path@,
            item_path(items[i]),
        ) {
            sums::number(item_usage(items[i]), which)
        } else {
            0
        };
    let groups = |x: int| sums::sum_of(|i: int| table(x, i), m);
    let columns = |i: int| sums::sum_of(|x: int| table(x, i), n);
    let wanted = item_share(items, options, below(upper), which);
    totals::lemma_within(found, which, d, n);
    lemma_usage_where(items, options, below(upper), which);
    assert(items.take(m as int) =~= items);
    assert forall|x: int| 0 <= x < n implies #[trigger] stated(x) == groups(x) || stated(x)
        == tree::saturated(groups(x) as int) by {
        let row = |i: int| table(x, i);
        if totals::lies_in(found, d, x) {
            let own = directly_in(found[x].path@);
            assert(found[x].usage == usage_where(items, options, own));
            lemma_usage_where(items, options, own, which);
            sums::lemma_sum_same(row, item_share(items, options, own, which), m);
        } else {
            sums::lemma_sum_nothing(row, m);
        }
    }
    sums::lemma_sum_capped(groups, stated, n);
    sums::lemma_sum_swapped(table, n, m);
    assert forall|i: int| 0 <= i < m implies #[trigger] columns(i) == wanted(i) by {
        let column = |x: int| table(x, i);
        if is_counted(items[i], options) {
            let home = lemma_home(walk, root, options, i);
            assert forall|x: int| 0 <= x < n && x != home implies #[trigger] column(x) == 0 by {
                assert(!indexing::is_parent(found[x].path@, item_path(items[i])));
            }
            sums::lemma_sum_one(column, n, home);
            lemma_below(item_path(items[i]), found[home].path@, upper);
        } else {
            sums::lemma_sum_nothing(column, n);
        }
    }
    sums::lemma_sum_same(columns, wanted, m);
}

/// At the end of a walk that enters each directory before what is in it, each
/// directory of the index holds the sum of all entries below it that are no
/// directories, and every directory that was entered is there.
pub proof fn finished_directories_hold_all_below_them(
    walk: IndexWalk,
    root: FilePath,
    options: ScanOptions,
    result: Seq<DirectoryRecord>,
)
    requires
        walk.is_walk(root, options),
        parents_first(walk.items, root@, options),
        walk.states.last().directories.len() <= usize::MAX,
        indexing::finished_directories(walk.states.last().directories, result, root@),
    ensures
        forall|r: int|
            0 <= r < result.len() ==> (#[trigger] result[r]).usage == usage_where(
                walk.items,
                options,
                below(result[r].path@),
            ),
        forall|i: int|
            0 <= i < walk.items.len() && is_entered(#[trigger] walk.items[i], options)
                ==> indexing::has_directory(result, item_path(walk.items[i])),
{
    let m = walk.items.len() as int;
    lemma_directories(walk, root, options, m);
    let found = walk.states[m].directories;
    assert(walk.states.last() == walk.states[m]);
    let rolled = choose|rolled: Seq<DirectoryRecord>| #[trigger]
        indexing::rolled_up(found, rolled, root@) && result == order::sorted_by(
            rolled,
            indexing::directory_keys(rolled),
        );
    let keys = indexing::directory_keys(rolled);
    let order = order::stable_order_exists(keys);
    order::sorting_keeps_the_items(rolled, keys);
    assert forall|r: int| 0 <= r < result.len() implies (#[trigger] result[r]).usage == usage_where(
        walk.items,
        options,
        below(result[r].path@),
    ) by {
        let d = order[r] as int;
        assert(result[r] == rolled[d]);
        assert(rolled[d].path == found[d].path);
        totals::directories_count_all_below_them(found, rolled, root@, d);
        lemma_total_below(walk, root, options, 0, d);
        lemma_total_below(walk, root, options, 1, d);
        lemma_total_below(walk, root, options, 2, d);
    }
    assert forall|i: int|
        0 <= i < walk.items.len() && is_entered(
            #[trigger] walk.items[i],
            options,
        ) implies indexing::has_directory(result, item_path(walk.items[i])) by {
        let d = choose|d: int|
            0 <= d < found.len() && path::same_path(
                (#[trigger] found[d]).path@,
                item_path(walk.items[i]),
            );
        assert(rolled[d].path == found[d].path);
        assert(rolled.contains(rolled[d]));
        assert(result.contains(rolled[d]));
        let r = choose|r: int| 0 <= r < result.len() && result[r] == rolled[d];
        assert(path::same_path(result[r].path@, item_path(walk.items[i])));
    }
}

/// One more entry of a walk that is no directory adds its length, the 512 bytes
/// of each of its blocks and, if it is a regular file, one file to what each
/// directory above it holds, and nothing to the others.
pub proof fn one_more_entry_counts_in_all_directories_above_it(
    items: Seq<WalkItem>,
    options: ScanOptions,
    path: FilePath,
    at_root: bool,
    file_type: FileType,
    facts: FileFacts,
    directory: Seq<u8>,
)
    requires
        !file_type.is_dir,
        !options.one_file_system || facts.identity.device == options.root_device,
    ensures
        ({
            let item = WalkItem::Entry { path, at_root, file_type, facts };
            let old = usage_where(items, options, below(directory));
            let new = usage_where(items.push(item), options, below(directory));
            let logical = old.logical + facts.length;
            let physical = old.physical + if 512 * facts.blocks <= u64::MAX {
                512 * facts.blocks
            } else {
                u64::MAX as int
            };
            let files = old.files + if file_type.is_file {
                1int
            } else {
                0int
            };
            if path::components(directory).is_prefix_of(path::components(path@))
                && path::components(directory).len() < path::components(path@).len() {
                &&& new.logical == if logical <= u64::MAX {
                    logical
                } else {
                    u64::MAX as int
                }
                &&& new.physical == if physical <= u64::MAX {
                    physical
                } else {
                    u64::MAX as int
                }
                &&& new.files == if files <= u64::MAX {
                    files
                } else {
                    u64::MAX as int
                }
            } else {
                new == old
            }
        }),
{
    let item = WalkItem::Entry { path, at_root, file_type, facts };
    assert(items.push(item).drop_last() =~= items);
    let upper = path::components(directory);
    let lower = path::components(path@);
    if upper.is_prefix_of(lower) && upper.len() == lower.len() {
        assert(upper =~= lower);
    }
}

/// Directories, problems and what lies elsewhere add nothing to what a
/// directory holds.
pub proof fn only_entries_count_in_directories(
    items: Seq<WalkItem>,
    options: ScanOptions,
    item: WalkItem,
    directory: Seq<u8>,
)
    requires
        match item {
            WalkItem::Entry { path, at_root, file_type, facts } => file_type.is_dir || (
            options.one_file_system && facts.identity.device != options.root_device),
            _ => true,
        },
    ensures
        usage_where(items.push(item), options, below(directory)) == usage_where(
            items,
            options,
            below(directory),
        ),
        usage_where(Seq::empty(), options, below(directory)) == UsageStats::zero(),
{
    assert(items.push(item).drop_last() =~= items);
}

} // verus!
