//! Building the index of a tree from a walk through it.
use vstd::prelude::*;

use crate::analytics;
use crate::analytics::{
    AnalysisIndex, AnalysisIssue, DirectoryRecord, DuplicateGroup, FileRecord, IndexModel,
    FILE_BATCH_SIZE,
};
use crate::order;
use crate::path;
use crate::path::FilePath;
use crate::scanner;
use crate::scanner::{FileFacts, FileType, ScanOptions, WalkItem, WalkStep};
use crate::table;
use crate::table::{PathKey, Table, TableKey};
use crate::tree;
use crate::tree::UsageStats;

pub mod totals;
pub mod walks;

verus! {

/// The state of a walk that builds an index.
#[derive(Debug)]
pub struct IndexScan {
    pub root: FilePath,
    pub options: ScanOptions,
    pub batch: Vec<FileRecord>,
    pub directories: Table<PathKey, DirectoryRecord>,
    pub issues: Vec<AnalysisIssue>,
    pub mounts_skipped: usize,
}

/// The directory records of a table.
pub open spec fn directory_records(entries: Seq<(PathKey, DirectoryRecord)>) -> Seq<DirectoryRecord> {
    Seq::new(entries.len(), |i: int| entries[i].1)
}

/// What a walk has found so far.
pub struct IndexScanModel {
    pub root: FilePath,
    pub options: ScanOptions,
    pub batch: Seq<FileRecord>,
    pub directories: Seq<DirectoryRecord>,
    pub issues: Seq<AnalysisIssue>,
    pub mounts_skipped: usize,
}

impl View for IndexScan {
    type V = IndexScanModel;

    open spec fn view(&self) -> IndexScanModel {
        IndexScanModel {
            root: self.root,
            options: self.options,
            batch: self.batch@,
            directories: directory_records(self.directories.entries@),
            issues: self.issues@,
            mounts_skipped: self.mounts_skipped,
        }
    }
}

/// Whether some directory has a path.
pub open spec fn has_directory(directories: Seq<DirectoryRecord>, path: Seq<u8>) -> bool {
    exists|i: int| 0 <= i < directories.len() && path::same_path((#[trigger] directories[i]).path@, path)
}

/// The record of a directory that was just entered.
pub open spec fn entered(path: FilePath, facts: FileFacts) -> DirectoryRecord {
    DirectoryRecord {
        path,
        usage: UsageStats::zero(),
        identity: facts.identity,
        modified_seconds: facts.identity.modified_seconds,
        modified_nanoseconds: facts.identity.modified_nanoseconds,
    }
}

/// What an entry takes up, as its type was listed.
pub open spec fn listed_usage(file_type: FileType, facts: FileFacts) -> UsageStats {
    UsageStats {
        logical: facts.length,
        physical: scanner::allocated(facts.blocks),
        files: if file_type.is_file {
            1
        } else {
            0
        },
    }
}

/// The directories with a usage counted in the one that is the parent of a
/// path.
pub open spec fn credited(
    directories: Seq<DirectoryRecord>,
    path: Seq<u8>,
    usage: UsageStats,
) -> Seq<DirectoryRecord> {
    Seq::new(
        directories.len(),
        |i: int|
            if is_parent(directories[i].path@, path) {
                DirectoryRecord { usage: directories[i].usage.plus(usage), ..directories[i] }
            } else {
                directories[i]
            },
    )
}

/// Whether a directory is the parent of a path.
pub open spec fn is_parent(directory: Seq<u8>, path: Seq<u8>) -> bool {
    match path::parent_of(path) {
        Some(parent) => path::same_path(directory, parent),
        None => false,
    }
}

/// Whether a record describes a regular file.
pub open spec fn records_file(
    record: FileRecord,
    path: FilePath,
    file_type: FileType,
    facts: FileFacts,
) -> bool {
    &&& record.path == path
    &&& record.usage == listed_usage(file_type, facts)
    &&& record.identity == facts.identity
    &&& record.modified_seconds == facts.identity.modified_seconds
    &&& record.modified_nanoseconds == facts.identity.modified_nanoseconds
    &&& tree::text_view(record.extension) == analytics::normal_extension(path@)
    &&& record.category == analytics::category_of(analytics::normal_extension(path@))
}

/// Whether a step of the walk turns one state into another. `full` is the
/// batch of files that is handed over when it has its full size.
pub open spec fn indexed(
    before: IndexScanModel,
    item: WalkItem,
    after: IndexScanModel,
    step: WalkStep,
    full: Option<Seq<FileRecord>>,
) -> bool {
    match item {
        WalkItem::Failed { place, at_root, message, cause } => {
            let spot = match place {
                Some(place) => place,
                None => before.root,
            };
            &&& after == IndexScanModel {
                issues: analytics::with_issue(before.issues, spot, message),
                ..before
            }
            &&& step == WalkStep::Continue
            &&& full is None
        },
        WalkItem::Unknown { path, failure } => {
            &&& after == IndexScanModel {
                issues: analytics::with_issue(before.issues, path, failure.message),
                ..before
            }
            &&& step == WalkStep::Continue
            &&& full is None
        },
        WalkItem::Entry { path, at_root, file_type, facts } => {
            if facts.is_elsewhere(before.options) {
                &&& after == IndexScanModel {
                    mounts_skipped: if file_type.is_dir {
                        (before.mounts_skipped + 1) as usize
                    } else {
                        before.mounts_skipped
                    },
                    ..before
                }
                &&& step == (if file_type.is_dir {
                    WalkStep::SkipDirectory
                } else {
                    WalkStep::Continue
                })
                &&& full is None
            } else if file_type.is_dir {
                &&& after == IndexScanModel {
                    directories: if has_directory(before.directories, path@) {
                        before.directories
                    } else {
                        before.directories.push(entered(path, facts))
                    },
                    ..before
                }
                &&& step == WalkStep::Continue
                &&& full is None
            } else {
                let counted = IndexScanModel {
                    directories: credited(
                        before.directories,
                        path@,
                        listed_usage(file_type, facts),
                    ),
                    ..before
                };
                &&& step == WalkStep::Continue
                &&& if file_type.is_file {
                    exists|record: FileRecord| #[trigger]
                        records_file(record, path, file_type, facts) && (if before.batch.len() + 1
                            >= FILE_BATCH_SIZE {
                            after == (IndexScanModel { batch: Seq::empty(), ..counted }) && full
                                == Some(before.batch.push(record))
                        } else {
                            after == (IndexScanModel {
                                batch: before.batch.push(record),
                                ..counted
                            }) && full is None
                        })
                } else {
                    after == counted && full is None
                }
            }
        },
    }
}

/// A key for a path.
pub fn key_of(path: &FilePath) -> (key: PathKey)
    ensures
        key.path == *path,
{
    PathKey { path: path.clone() }
}

impl IndexScan {
    pub open spec fn wf(self) -> bool {
        &&& self.directories.wf()
        &&& forall|i: int|
            0 <= i < self.directories.entries@.len() ==> (
            #[trigger] self.directories.entries@[i]).0.path == self.directories.entries@[i].1.path
        &&& self.batch@.len() < FILE_BATCH_SIZE
    }

    /// A walk that has not begun.
    pub fn new(root: FilePath, options: ScanOptions) -> (scan: Self)
        ensures
            scan.wf(),
            scan@ == (IndexScanModel {
                root,
                options,
                batch: Seq::empty(),
                directories: Seq::empty(),
                issues: Seq::empty(),
                mounts_skipped: 0,
            }),
    {
        let scan = IndexScan {
            root,
            options,
            batch: Vec::new(),
            directories: Table::new(),
            issues: Vec::new(),
            mounts_skipped: 0,
        };
        assert(scan@.batch =~= Seq::empty());
        assert(scan@.directories =~= Seq::empty());
        assert(scan@.issues =~= Seq::empty());
        scan
    }

    /// Counts a usage in the directory that is the parent of a path.
    fn credit(&mut self, path: &FilePath, usage: UsageStats)
        requires
            old(self).wf(),
        ensures
            final(self).wf(),
            final(self)@ == (IndexScanModel {
                directories: credited(old(self)@.directories, path@, usage),
                ..old(self)@
            }),
    {
        let ghost before = self@;
        let ghost entries = self.directories.entries@;
        let parent = match path.parent() {
            Some(parent) => parent,
            None => {
                assert(self@.directories =~= credited(before.directories, path@, usage));
                return ;
            },
        };
        let key = PathKey { path: parent };
        match self.directories.find(&key) {
            Some(place) => {
                let old_record: &DirectoryRecord = &self.directories.entries[place].1;
                let record = DirectoryRecord {
                    path: old_record.path.clone(),
                    usage: old_record.usage.saturating_add(usage),
                    identity: old_record.identity,
                    modified_seconds: old_record.modified_seconds,
                    modified_nanoseconds: old_record.modified_nanoseconds,
                };
                self.directories.set_value(place, record);
                proof {
                    table::lemma_place_of(entries, key);
                    assert forall|i: int| 0 <= i < entries.len() && i != place implies !is_parent(
                        before.directories[i].path@,
                        path@,
                    ) by {
                        assert(before.directories[i] == entries[i].1);
                        assert(entries[i].0.path == entries[i].1.path);
                        if entries[i].0.same_as(key) {
                            if i < place {
                                assert(!entries[i].0.same_as(entries[place as int].0));
                            } else {
                                assert(!entries[place as int].0.same_as(entries[i].0));
                            }
                        }
                    }
                    assert(entries[place as int].0.path == entries[place as int].1.path);
                    assert(self@.directories =~= credited(before.directories, path@, usage));
                }
            },
            None => {
                proof {
                    table::lemma_place_of(entries, key);
                    assert forall|i: int| 0 <= i < entries.len() implies !is_parent(
                        before.directories[i].path@,
                        path@,
                    ) by {
                        assert(entries[i].0.path == entries[i].1.path);
                        assert(!entries[i].0.same_as(key));
                    }
                    assert(self@.directories =~= credited(before.directories, path@, usage));
                }
            },
        }
    }

    /// Takes in one more item of the walk. A batch of files is handed over as
    /// soon as it is full.
    pub fn accept(&mut self, item: WalkItem) -> (result: (WalkStep, Option<Vec<FileRecord>>))
        requires
            old(self).wf(),
            old(self).mounts_skipped < usize::MAX,
        ensures
            final(self).wf(),
            indexed(
                old(self)@,
                item,
                final(self)@,
                result.0,
                match result.1 {
                    Some(files) => Some(files@),
                    None => None,
                },
            ),
    {
        let ghost before = self@;
        match item {
            WalkItem::Failed { place, at_root, message, cause } => {
                let spot: FilePath = match place {
                    Some(place) => place,
                    None => self.root.clone(),
                };
                analytics::push_issue(&mut self.issues, &spot, message);
                (WalkStep::Continue, None)
            },
            WalkItem::Unknown { path, failure } => {
                analytics::push_issue(&mut self.issues, &path, failure.message);
                (WalkStep::Continue, None)
            },
            WalkItem::Entry { path, at_root, file_type, facts } => {
                if facts.elsewhere(self.options) {
                    if file_type.is_dir {
                        self.mounts_skipped += 1;
                        return (WalkStep::SkipDirectory, None);
                    }
                    return (WalkStep::Continue, None);
                }
                if file_type.is_dir {
                    self.enter(path, facts);
                    return (WalkStep::Continue, None);
                }
                let usage = UsageStats {
                    logical: facts.length,
                    physical: scanner::physical_size(facts.blocks),
                    files: if file_type.is_file {
                        1
                    } else {
                        0
                    },
                };
                self.credit(&path, usage);
                if !file_type.is_file {
                    return (WalkStep::Continue, None);
                }
                let ghost counted = self@;
                let extension = analytics::normalized_extension(&path);
                let category = analytics::path_category(&path);
                let record = FileRecord {
                    path,
                    usage,
                    identity: facts.identity,
                    modified_seconds: facts.identity.modified_seconds,
                    modified_nanoseconds: facts.identity.modified_nanoseconds,
                    extension,
                    category,
                };
                assert(records_file(record, path, file_type, facts));
                self.batch.push(record);
                if self.batch.len() >= FILE_BATCH_SIZE {
                    let mut full: Vec<FileRecord> = Vec::new();
                    core::mem::swap(&mut full, &mut self.batch);
                    assert(self@.batch =~= Seq::empty());
                    return (WalkStep::Continue, Some(full));
                }
                (WalkStep::Continue, None)
            },
        }
    }

    fn enter(&mut self, path: FilePath, facts: FileFacts)
        requires
            old(self).wf(),
        ensures
            final(self).wf(),
            final(self)@ == (IndexScanModel {
                directories: if has_directory(old(self)@.directories, path@) {
                    old(self)@.directories
                } else {
                    old(self)@.directories.push(entered(path, facts))
                },
                ..old(self)@
            }),
    {
        let ghost before = self@;
        let ghost entries = self.directories.entries@;
        let key = key_of(&path);
        let known: bool = self.directories.find(&key).is_some();
        proof {
            table::lemma_place_of(entries, key);
            if known {
                let i = table::place_of(entries, key);
                assert(entries[i].0.path == entries[i].1.path);
                assert(path::same_path(before.directories[i].path@, path@));
            } else {
                assert(!has_directory(before.directories, path@)) by {
                    if has_directory(before.directories, path@) {
                        let i = choose|i: int|
                            0 <= i < before.directories.len() && path::same_path(
                                (#[trigger] before.directories[i]).path@,
                                path@,
                            );
                        assert(entries[i].0.path == entries[i].1.path);
                        assert(!entries[i].0.same_as(key));
                    }
                }
            }
        }
        if !known {
            let record = DirectoryRecord {
                path,
                usage: UsageStats::default(),
                identity: facts.identity,
                modified_seconds: facts.identity.modified_seconds,
                modified_nanoseconds: facts.identity.modified_nanoseconds,
            };
            self.directories.append(key, record);
            assert(self@.directories =~= before.directories.push(record));
        }
    }
}

/// The sort keys that put deep directories first.
pub open spec fn depth_keys(directories: Seq<DirectoryRecord>) -> Seq<Seq<u64>> {
    Seq::new(
        directories.len(),
        |i: int|
            seq![tree::saturated(u64::MAX - path::components(directories[i].path@).len())],
    )
}

/// The directories from the deepest up.
pub open spec fn deepest_first(directories: Seq<DirectoryRecord>) -> Seq<usize> {
    order::stable_order(depth_keys(directories))
}

/// Whether the usage of directory `c` counts in directory `d`: that of the
/// root counts nowhere.
pub open spec fn counts_in(directories: Seq<DirectoryRecord>, root: Seq<u8>, d: int, c: int) -> bool {
    &&& !path::same_path(directories[c].path@, root)
    &&& is_parent(directories[d].path@, directories[c].path@)
}

/// The sum of the usages of the directories directly in directory `d`, among
/// the first `n` in the given order.
pub open spec fn child_sum(
    directories: Seq<DirectoryRecord>,
    order: Seq<usize>,
    root: Seq<u8>,
    d: int,
    n: nat,
) -> UsageStats
    decreases n,
{
    if n == 0 {
        UsageStats::zero()
    } else {
        let rest = child_sum(directories, order, root, d, (n - 1) as nat);
        if counts_in(directories, root, d, order[n - 1] as int) {
            rest.plus(directories[order[n - 1] as int].usage)
        } else {
            rest
        }
    }
}

/// Whether the usages of directories were carried up: each directory counts
/// what it holds itself and all that its subdirectories count.
pub open spec fn rolled_up(
    before: Seq<DirectoryRecord>,
    after: Seq<DirectoryRecord>,
    root: Seq<u8>,
) -> bool {
    &&& after.len() == before.len()
    &&& forall|d: int|
        0 <= d < before.len() ==> #[trigger] after[d] == (DirectoryRecord {
            usage: before[d].usage.plus(
                child_sum(after, deepest_first(before), root, d, before.len()),
            ),
            ..before[d]
        })
}

/// A parent has one component less.
proof fn lemma_parent_depth(directory: Seq<u8>, path: Seq<u8>)
    requires
        is_parent(directory, path),
    ensures
        path::components(directory).len() + 1 == path::components(path).len(),
{
    path::parent_drops_the_last_component(path);
}

/// The sum depends only on the paths and on the usages that count in it.
proof fn lemma_child_sum_same(
    left: Seq<DirectoryRecord>,
    right: Seq<DirectoryRecord>,
    order: Seq<usize>,
    root: Seq<u8>,
    d: int,
    n: nat,
)
    requires
        left.len() == right.len(),
        n <= order.len(),
        order::within(order, 0, left.len() as int),
        0 <= d < left.len(),
        forall|i: int| 0 <= i < left.len() ==> (#[trigger] left[i]).path == right[i].path,
        forall|j: int|
            0 <= j < n && counts_in(left, root, d, #[trigger] order[j] as int)
                ==> left[order[j] as int].usage == right[order[j] as int].usage,
    ensures
        child_sum(left, order, root, d, n) == child_sum(right, order, root, d, n),
    decreases n,
{
    if n > 0 {
        lemma_child_sum_same(left, right, order, root, d, (n - 1) as nat);
        let c = order[n - 1] as int;
        assert(left[c].path == right[c].path);
        assert(left[d].path == right[d].path);
    }
}

/// What is carried up is fixed by what the directories hold themselves.
pub proof fn rolling_up_is_unique(
    before: Seq<DirectoryRecord>,
    first: Seq<DirectoryRecord>,
    second: Seq<DirectoryRecord>,
    root: Seq<u8>,
)
    requires
        before.len() <= usize::MAX,
        rolled_up(before, first, root),
        rolled_up(before, second, root),
    ensures
        first == second,
{
    let deepest = deepest_path(before);
    lemma_deepest_path(before);
    assert forall|d: int| 0 <= d < before.len() implies first[d] == second[d] by {
        lemma_same_roll_up(before, first, second, root, deepest, d);
    }
    assert(first =~= second);
}

spec fn deepest_path(directories: Seq<DirectoryRecord>) -> nat
    decreases directories.len(),
{
    if directories.len() == 0 {
        0
    } else {
        let rest = deepest_path(directories.drop_last());
        let depth = path::components(directories.last().path@).len();
        if depth > rest {
            depth
        } else {
            rest
        }
    }
}

proof fn lemma_deepest_path(directories: Seq<DirectoryRecord>)
    ensures
        forall|i: int|
            0 <= i < directories.len() ==> path::components((#[trigger] directories[i]).path@).len()
                <= deepest_path(directories),
    decreases directories.len(),
{
    if directories.len() > 0 {
        let rest = directories.drop_last();
        lemma_deepest_path(rest);
        assert forall|i: int| 0 <= i < directories.len() implies path::components(
            (#[trigger] directories[i]).path@,
        ).len() <= deepest_path(directories) by {
            if i < rest.len() {
                assert(rest[i] == directories[i]);
            }
        }
    }
}

proof fn lemma_same_roll_up(
    before: Seq<DirectoryRecord>,
    first: Seq<DirectoryRecord>,
    second: Seq<DirectoryRecord>,
    root: Seq<u8>,
    deepest: nat,
    d: int,
)
    requires
        before.len() <= usize::MAX,
        rolled_up(before, first, root),
        rolled_up(before, second, root),
        forall|i: int|
            0 <= i < before.len() ==> path::components((#[trigger] before[i]).path@).len()
                <= deepest,
        0 <= d < before.len(),
    ensures
        first[d] == second[d],
    decreases deepest - path::components(before[d].path@).len(),
{
    let order = order::stable_order_exists(depth_keys(before));
    assert forall|i: int| 0 <= i < first.len() implies (#[trigger] first[i]).path
        == second[i].path by {
        assert(second[i].path == before[i].path);
    }
    assert forall|j: int|
        0 <= j < before.len() && counts_in(first, root, d, #[trigger] order[j] as int) implies first[
    order[j] as int].usage == second[order[j] as int].usage by {
        let c = order[j] as int;
        assert(first[c].path == before[c].path);
        assert(first[d].path == before[d].path);
        lemma_parent_depth(before[d].path@, before[c].path@);
        lemma_same_roll_up(before, first, second, root, deepest, c);
    }
    lemma_child_sum_same(first, second, order, root, d, before.len());
    assert(first[d].path == before[d].path);
    assert(second[d].path == before[d].path);
}

/// The sort keys of directories by path.
pub open spec fn directory_keys(directories: Seq<DirectoryRecord>) -> Seq<Seq<u64>> {
    Seq::new(directories.len(), |i: int| path::path_key(directories[i].path@))
}

/// Whether the directories of a finished walk are those found, carried up and
/// in the order of their paths.
pub open spec fn finished_directories(
    found: Seq<DirectoryRecord>,
    result: Seq<DirectoryRecord>,
    root: Seq<u8>,
) -> bool {
    exists|rolled: Seq<DirectoryRecord>| #[trigger]
        rolled_up(found, rolled, root) && result == order::sorted_by(
            rolled,
            directory_keys(rolled),
        )
}

/// What a finished walk leaves: the last files, all directories, and the
/// problems on the way.
#[derive(Debug)]
pub struct IndexResult {
    pub files: Vec<FileRecord>,
    pub directories: Vec<DirectoryRecord>,
    pub issues: Vec<AnalysisIssue>,
    pub mounts_skipped: usize,
}

impl IndexScan {
    /// Carries the usages of all directories up.
    fn roll_up(&mut self)
        requires
            old(self).wf(),
        ensures
            final(self).wf(),
            rolled_up(old(self)@.directories, final(self)@.directories, old(self)@.root@),
            final(self)@ == (IndexScanModel {
                directories: final(self)@.directories,
                ..old(self)@
            }),
    {
        let ghost before = self@;
        let ghost found = self@.directories;
        let ghost root = self.root@;
        let count: usize = self.directories.entries.len();
        let mut keys: Vec<Vec<u64>> = Vec::new();
        let mut i: usize = 0;
        while i < count
            invariant
                self.wf(),
                self@ == before,
                found == before.directories,
                i <= count == self.directories.entries@.len(),
                keys@.len() == i,
                forall|k: int| 0 <= k < i ==> (#[trigger] keys@[k])@ == depth_keys(found)[k],
                forall|k: int|
                    0 <= k < i ==> path::components((#[trigger] found[k]).path@).len() <= u64::MAX,
            decreases count - i,
        {
            let depth: usize = self.directories.entries[i].1.path.depth();
            let mut key: Vec<u64> = Vec::new();
            key.push(u64::MAX - depth as u64);
            assert(found[i as int] == self.directories.entries@[i as int].1);
            assert(key@ =~= depth_keys(found)[i as int]);
            keys.push(key);
            i += 1;
        }
        assert(order::contents(keys@) =~= depth_keys(found));
        let order = order::order_by(&keys);
        assert(order@ == deepest_first(found));
        let mut k: usize = 0;
        while k < order.len()
            invariant
                self.wf(),
                root == self.root@,
                found == before.directories,
                self@ == (IndexScanModel { directories: self@.directories, ..before }),
                k <= order@.len() == found.len() == self@.directories.len(),
                order::is_stable_order(depth_keys(found), order@),
                forall|i: int|
                    0 <= i < found.len() ==> path::components((#[trigger] found[i]).path@).len()
                        <= u64::MAX,
                forall|d: int|
                    0 <= d < found.len() ==> #[trigger] self@.directories[d] == (DirectoryRecord {
                        usage: found[d].usage.plus(
                            child_sum(self@.directories, order@, root, d, k as nat),
                        ),
                        ..found[d]
                    }),
            decreases order@.len() - k,
        {
            let place: usize = order[k];
            let ghost now = self@.directories;
            let child = self.directories.entries[place].1.clone();
            assert(child == now[place as int]);
            assert(child.path == found[place as int].path);
            if !child.path.same(&self.root) {
                self.credit(&child.path, child.usage);
            }
            proof {
                let next = self@.directories;
                let counted = !path::same_path(child.path@, root);
                assert forall|d: int| 0 <= d < found.len() implies (#[trigger] next[d]).path
                    == now[d].path by {
                    assert(now[d].path == found[d].path);
                }
                assert forall|d: int, j: int|
                    0 <= d < found.len() && 0 <= j <= k && is_parent(
                        (#[trigger] now[d]).path@,
                        child.path@,
                    ) implies d != #[trigger] order@[j] as int by {
                    lemma_parent_depth(now[d].path@, child.path@);
                    assert(now[d].path == found[d].path);
                    if j < k && d == order@[j] as int {
                        assert(order::before(
                            depth_keys(found),
                            order@[j] as int,
                            order@[k as int] as int,
                        ));
                        assert(path::components(found[d].path@).len() <= u64::MAX);
                        assert(path::components(found[place as int].path@).len() <= u64::MAX);
                        assert(depth_keys(found)[d][0] <= depth_keys(found)[place as int][0]);
                    }
                }
                assert forall|d: int| 0 <= d < found.len() implies #[trigger] next[d] == (
                DirectoryRecord {
                    usage: found[d].usage.plus(
                        child_sum(next, order@, root, d, (k + 1) as nat),
                    ),
                    ..found[d]
                }) by {
                    assert forall|j: int|
                        0 <= j < k && counts_in(now, root, d, #[trigger] order@[j] as int) implies now[
                    order@[j] as int].usage == next[order@[j] as int].usage by {
                        let c = order@[j] as int;
                        if counted && is_parent(now[c].path@, child.path@) {
                            assert(c != order@[j] as int);
                        }
                    }
                    lemma_child_sum_same(now, next, order@, root, d, k as nat);
                    assert(now[d].path == found[d].path);
                    assert(next[place as int].usage == child.usage) by {
                        if counted && is_parent(now[place as int].path@, child.path@) {
                            assert(place != order@[k as int]);
                        }
                    }
                    assert(counts_in(next, root, d, place as int) == (counted && is_parent(
                        now[d].path@,
                        child.path@,
                    )));
                }
            }
            k += 1;
        }
    }

    /// Ends the walk.
    pub fn finish(self) -> (result: IndexResult)
        requires
            self.wf(),
        ensures
            result.files@ == self@.batch,
            finished_directories(self@.directories, result.directories@, self@.root@),
            result.issues@ == self@.issues,
            result.mounts_skipped == self@.mounts_skipped,
    {
        let mut scan = self;
        scan.roll_up();
        let ghost rolled = scan@.directories;
        let mut directories: Vec<DirectoryRecord> = Vec::new();
        let mut keys: Vec<Vec<u64>> = Vec::new();
        let mut i: usize = 0;
        while i < scan.directories.entries.len()
            invariant
                i <= scan.directories.entries@.len(),
                rolled == scan@.directories,
                directories@ == rolled.take(i as int),
                keys@.len() == i,
                forall|k: int| 0 <= k < i ==> (#[trigger] keys@[k])@ == directory_keys(rolled)[k],
            decreases scan.directories.entries@.len() - i,
        {
            let record = scan.directories.entries[i].1.clone();
            keys.push(record.path.sort_key());
            directories.push(record);
            i += 1;
            assert(directories@ =~= rolled.take(i as int));
        }
        assert(directories@ =~= rolled);
        assert(order::contents(keys@) =~= directory_keys(rolled));
        let sorted = order::sort_by_keys(directories, &keys);
        assert(rolled_up(self@.directories, rolled, self@.root@));
        IndexResult {
            files: scan.batch,
            directories: sorted,
            issues: scan.issues,
            mounts_skipped: scan.mounts_skipped,
        }
    }
}

/// The index of a finished walk.
pub open spec fn walked_index(
    root: FilePath,
    one_file_system: bool,
    started_at: u64,
    completed_at: u64,
    earlier: Seq<FileRecord>,
    result: IndexResult,
) -> IndexModel {
    IndexModel {
        root,
        one_file_system,
        started_at,
        completed_at: Some(completed_at),
        files: earlier + result.files@,
        directories: result.directories@,
        issues: result.issues@,
        mounts_skipped: result.mounts_skipped,
        complete: true,
        duplicates: None,
    }
}

/// The index of a finished walk. `earlier` are the files of all batches but the
/// last.
pub fn build_index(
    root: FilePath,
    one_file_system: bool,
    started_at: u64,
    completed_at: u64,
    earlier: Vec<FileRecord>,
    result: IndexResult,
) -> (index: AnalysisIndex)
    ensures
        index@ == walked_index(
            root,
            one_file_system,
            started_at,
            completed_at,
            earlier@,
            result,
        ),
{
    let mut files = earlier;
    let mut last = result.files;
    files.append(&mut last);
    AnalysisIndex {
        root,
        one_file_system,
        started_at,
        completed_at: Some(completed_at),
        files,
        directories: result.directories,
        issues: result.issues,
        mounts_skipped: result.mounts_skipped,
        complete: true,
        duplicates: None,
    }
}

/// An index with the duplicates that were found, and the problems on the way.
pub fn with_duplicates(
    index: AnalysisIndex,
    groups: Vec<DuplicateGroup>,
    issues: Vec<AnalysisIssue>,
) -> (result: AnalysisIndex)
    ensures
        result@ == (IndexModel {
            duplicates: Some(analytics::group_views(groups@)),
            issues: index@.issues + issues@,
            ..index@
        }),
{
    let mut result = index;
    let mut more = issues;
    result.issues.append(&mut more);
    result.duplicates = Some(groups);
    result
}

/// Whether a batch has one more record: it is kept, or handed over where it is
/// full with it.
pub open spec fn has_one_more(
    before: Seq<FileRecord>,
    record: FileRecord,
    after: Seq<FileRecord>,
    full: Option<Seq<FileRecord>>,
) -> bool {
    match full {
        None => after == before.push(record),
        Some(files) => files == before.push(record) && after.len() == 0,
    }
}

/// A regular file comes into the index with its length, the 512 bytes of each
/// of its blocks, its path, its identity and the time of its last change.
pub proof fn files_are_indexed_with_their_size(
    before: IndexScanModel,
    path: FilePath,
    at_root: bool,
    file_type: FileType,
    facts: FileFacts,
    after: IndexScanModel,
    step: WalkStep,
    full: Option<Seq<FileRecord>>,
) -> (record: FileRecord)
    requires
        file_type.is_file,
        !file_type.is_dir,
        !before.options.one_file_system || facts.identity.device == before.options.root_device,
        indexed(
            before,
            WalkItem::Entry { path, at_root, file_type, facts },
            after,
            step,
            full,
        ),
    ensures
        has_one_more(before.batch, record, after.batch, full),
        full is Some && before.batch.len() < 512 ==> full->0.len() == 512,
        full is None ==> after.batch.len() < 512,
        record.path == path,
        record.usage.logical == facts.length,
        record.usage.physical == if 512 * facts.blocks <= u64::MAX {
            512 * facts.blocks
        } else {
            u64::MAX as int
        },
        record.usage.files == 1,
        record.identity == facts.identity,
        record.modified_seconds == facts.identity.modified_seconds,
        record.modified_nanoseconds == facts.identity.modified_nanoseconds,
        tree::text_view(record.extension) == analytics::normal_extension(path@),
        record.extension is Some ==> record.category == analytics::extension_category(
            record.extension->0@,
        ),
        record.extension is None ==> record.category == analytics::FileCategory::Other,
        after.issues == before.issues,
        after.mounts_skipped == before.mounts_skipped,
{
    let record = choose|record: FileRecord|
        {
            &&& #[trigger] records_file(record, path, file_type, facts)
            &&& has_one_more(before.batch, record, after.batch, full)
        };
    record
}

/// An entry that is no directory adds its length, the 512 bytes of each of its
/// blocks and, if it is a regular file, one file to the directory that it stands
/// in. All other directories stay as they are.
pub proof fn entries_count_in_their_directory(
    before: IndexScanModel,
    path: FilePath,
    at_root: bool,
    file_type: FileType,
    facts: FileFacts,
    after: IndexScanModel,
    step: WalkStep,
    full: Option<Seq<FileRecord>>,
    d: int,
)
    requires
        !file_type.is_dir,
        !before.options.one_file_system || facts.identity.device == before.options.root_device,
        indexed(
            before,
            WalkItem::Entry { path, at_root, file_type, facts },
            after,
            step,
            full,
        ),
        0 <= d < before.directories.len(),
    ensures
        after.directories.len() == before.directories.len(),
        after.directories[d].path == before.directories[d].path,
        ({
            let old = before.directories[d].usage;
            let new = after.directories[d].usage;
            let logical = old.logical + facts.length;
            let physical = old.physical + if 512 * facts.blocks <= u64::MAX {
                512 * facts.blocks
            } else {
                u64::MAX as int
            };
            let files = old.files + if file_type.is_file {
                1int
            } else {
                0int
            };
            if path::parent_of(path@) matches Some(parent) && path::same_path(
                before.directories[d].path@,
                parent,
            ) {
                &&& new.logical == if logical <= u64::MAX {
                    logical
                } else {
                    u64::MAX as int
                }
                &&& new.physical == if physical <= u64::MAX {
                    physical
                } else {
                    u64::MAX as int
                }
                &&& new.files == if files <= u64::MAX {
                    files
                } else {
                    u64::MAX as int
                }
            } else {
                new == old
            }
        }),
{
}

/// What lies on another file system leaves the index as it is, where the walk
/// is to stay on one. A directory there is counted as skipped and not entered.
pub proof fn other_file_systems_are_not_indexed(
    before: IndexScanModel,
    path: FilePath,
    at_root: bool,
    file_type: FileType,
    facts: FileFacts,
    after: IndexScanModel,
    step: WalkStep,
    full: Option<Seq<FileRecord>>,
)
    requires
        before.options.one_file_system,
        facts.identity.device != before.options.root_device,
        before.mounts_skipped < usize::MAX,
        indexed(
            before,
            WalkItem::Entry { path, at_root, file_type, facts },
            after,
            step,
            full,
        ),
    ensures
        full is None,
        after.batch == before.batch,
        after.directories == before.directories,
        after.issues == before.issues,
        after.mounts_skipped == before.mounts_skipped + if file_type.is_dir {
            1int
        } else {
            0int
        },
        step == WalkStep::SkipDirectory <==> file_type.is_dir,
{
}

/// A problem of a walk is noted with its path, as long as there are fewer than
/// 10,000 of them, and changes nothing else. The walk goes on.
pub proof fn problems_are_noted_in_the_index(
    before: IndexScanModel,
    item: WalkItem,
    after: IndexScanModel,
    step: WalkStep,
    full: Option<Seq<FileRecord>>,
)
    requires
        !(item is Entry),
        indexed(before, item, after, step, full),
    ensures
        full is None,
        step == WalkStep::Continue,
        after.batch == before.batch,
        after.directories == before.directories,
        after.mounts_skipped == before.mounts_skipped,
        before.issues.len() >= 10_000 ==> after.issues == before.issues,
        before.issues.len() < 10_000 ==> {
            &&& after.issues.len() == before.issues.len() + 1
            &&& after.issues.drop_last() == before.issues
            &&& match item {
                WalkItem::Failed { place, at_root, message, cause } => {
                    &&& after.issues.last().message == message
                    &&& after.issues.last().path == match place {
                        Some(place) => place,
                        None => before.root,
                    }
                },
                WalkItem::Unknown { path, failure } => {
                    &&& after.issues.last().message == failure.message
                    &&& after.issues.last().path == path
                },
                _ => false,
            }
        },
{
    if before.issues.len() < 10_000 {
        assert(after.issues.drop_last() =~= before.issues);
    }
}

/// A directory that is entered for the first time comes into the index with
/// nothing in it; one that is known stays as it is.
pub proof fn entered_directories_are_indexed_once(
    before: IndexScanModel,
    path: FilePath,
    at_root: bool,
    file_type: FileType,
    facts: FileFacts,
    after: IndexScanModel,
    step: WalkStep,
    full: Option<Seq<FileRecord>>,
)
    requires
        file_type.is_dir,
        !before.options.one_file_system || facts.identity.device == before.options.root_device,
        indexed(
            before,
            WalkItem::Entry { path, at_root, file_type, facts },
            after,
            step,
            full,
        ),
    ensures
        full is None,
        step == WalkStep::Continue,
        after.batch == before.batch,
        has_directory(after.directories, path@),
        has_directory(before.directories, path@) ==> after.directories == before.directories,
        !has_directory(before.directories, path@) ==> {
            let record = after.directories.last();
            &&& after.directories == before.directories.push(record)
            &&& record.path == path
            &&& record.identity == facts.identity
            &&& record.usage.logical == 0 && record.usage.physical == 0 && record.usage.files == 0
        },
{
    if !has_directory(before.directories, path@) {
        assert(path::same_path(after.directories[before.directories.len() as int].path@, path@));
    }
}

/// The directories of a finished index are those that were found, with what they
/// hold added up, in the order of their paths.
pub proof fn finished_directories_come_by_path(
    found: Seq<DirectoryRecord>,
    result: Seq<DirectoryRecord>,
    root: Seq<u8>,
    i: int,
    j: int,
)
    requires
        finished_directories(found, result, root),
        found.len() <= usize::MAX,
        0 <= i < j < result.len(),
    ensures
        result.len() == found.len(),
        order::key_le(path::path_key(result[i].path@), path::path_key(result[j].path@)),
{
    let rolled = choose|rolled: Seq<DirectoryRecord>| #[trigger]
        rolled_up(found, rolled, root) && result == order::sorted_by(
            rolled,
            directory_keys(rolled),
        );
    let keys = directory_keys(rolled);
    order::sorting_keeps_the_items(rolled, keys);
    order::sorting_orders_the_items(rolled, keys, i, j);
    order::stable_order_exists(keys);
}

} // verus!
