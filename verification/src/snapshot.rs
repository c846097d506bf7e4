//! Snapshots of an index, and what changed between two of them.
use vstd::prelude::*;
use vstd::string::StringExecFns;

use crate::analytics;
use crate::analytics::{
    AnalysisIndex, AnalysisIssue, AnalysisSummary, DirectoryRecord, FileRecord, IndexModel,
};
use crate::digest;
use crate::digest::Digest;
use crate::order;
use crate::path;
use crate::path::FilePath;
use crate::table;
use crate::table::{PathKey, Table, TableKey};
use crate::text;
use crate::tree;
use crate::tree::UsageStats;

verus! {

pub const SNAPSHOT_SCHEMA: u32 = 1;

/// The release of this program.
pub const VERSION: &'static str = "0.3.1";

#[derive(Clone, Copy, Debug, PartialEq, Eq, Structural)]
pub enum ChangeKind {
    Added,
    Removed,
    Grown,
    Shrunk,
}

impl ChangeKind {
    pub open spec fn label_text(self) -> Seq<char> {
        match self {
            ChangeKind::Added => "added"@,
            ChangeKind::Removed => "removed"@,
            ChangeKind::Grown => "grown"@,
            ChangeKind::Shrunk => "shrunk"@,
        }
    }

    pub fn label(self) -> (label: &'static str)
        ensures
            label@ == self.label_text(),
    {
        match self {
            ChangeKind::Added => "added",
            ChangeKind::Removed => "removed",
            ChangeKind::Grown => "grown",
            ChangeKind::Shrunk => "shrunk",
        }
    }
}

#[derive(Clone, Copy, Debug, PartialEq, Eq, Structural)]
pub enum ChangeObject {
    File,
    Directory,
}

impl ChangeObject {
    pub open spec fn label_text(self) -> Seq<char> {
        match self {
            ChangeObject::File => "file"@,
            ChangeObject::Directory => "directory"@,
        }
    }

    pub fn label(self) -> (label: &'static str)
        ensures
            label@ == self.label_text(),
    {
        match self {
            ChangeObject::File => "file",
            ChangeObject::Directory => "directory",
        }
    }
}

/// What became of one path.
#[derive(Debug, PartialEq, Eq)]
pub struct ChangeRecord {
    pub path: FilePath,
    pub object: ChangeObject,
    pub kind: ChangeKind,
    pub previous: Option<UsageStats>,
    pub current: Option<UsageStats>,
    pub logical_delta: i128,
    pub physical_delta: i128,
    pub file_delta: i128,
}

impl Clone for ChangeRecord {
    fn clone(&self) -> (copy: Self)
        ensures
            copy == *self,
    {
        ChangeRecord {
            path: self.path.clone(),
            object: self.object,
            kind: self.kind,
            previous: self.previous,
            current: self.current,
            logical_delta: self.logical_delta,
            physical_delta: self.physical_delta,
            file_delta: self.file_delta,
        }
    }
}

#[derive(Debug, PartialEq, Eq)]
pub struct SnapshotComparison {
    pub changes: Vec<ChangeRecord>,
    pub added: usize,
    pub removed: usize,
    pub grown: usize,
    pub shrunk: usize,
}

pub struct ComparisonModel {
    pub changes: Seq<ChangeRecord>,
    pub added: usize,
    pub removed: usize,
    pub grown: usize,
    pub shrunk: usize,
}

impl View for SnapshotComparison {
    type V = ComparisonModel;

    open spec fn view(&self) -> ComparisonModel {
        ComparisonModel {
            changes: self.changes@,
            added: self.added,
            removed: self.removed,
            grown: self.grown,
            shrunk: self.shrunk,
        }
    }
}

/// A copy of a list of changes.
fn copy_changes(changes: &Vec<ChangeRecord>) -> (copy: Vec<ChangeRecord>)
    ensures
        copy@ == changes@,
{
    let mut copy: Vec<ChangeRecord> = Vec::new();
    let mut i: usize = 0;
    while i < changes.len()
        invariant
            i <= changes@.len(),
            copy@ == changes@.take(i as int),
        decreases changes@.len() - i,
    {
        copy.push(changes[i].clone());
        i += 1;
        assert(copy@ =~= changes@.take(i as int));
    }
    assert(copy@ =~= changes@);
    copy
}

impl Clone for SnapshotComparison {
    fn clone(&self) -> (copy: Self)
        ensures
            copy@ == self@,
    {
        SnapshotComparison {
            changes: copy_changes(&self.changes),
            added: self.added,
            removed: self.removed,
            grown: self.grown,
            shrunk: self.shrunk,
        }
    }
}

/// A usage, or nothing where there is none.
pub open spec fn usage_or_zero(usage: Option<UsageStats>) -> UsageStats {
    match usage {
        Some(usage) => usage,
        None => UsageStats::zero(),
    }
}

pub fn or_zero(usage: Option<UsageStats>) -> (result: UsageStats)
    ensures
        result == usage_or_zero(usage),
{
    match usage {
        Some(usage) => usage,
        None => UsageStats::default(),
    }
}

/// Whether a usage grew: by file length, then by allocated bytes, then by the
/// number of files.
pub open spec fn has_grown(old: UsageStats, new: UsageStats) -> bool {
    ||| new.logical > old.logical
    ||| new.logical == old.logical && new.physical > old.physical
    ||| new.logical == old.logical && new.physical == old.physical && new.files > old.files
}

pub open spec fn change_kind(previous: Option<UsageStats>, current: Option<UsageStats>) -> ChangeKind {
    if previous is None {
        ChangeKind::Added
    } else if current is None {
        ChangeKind::Removed
    } else if has_grown(previous->0, current->0) {
        ChangeKind::Grown
    } else {
        ChangeKind::Shrunk
    }
}

/// The record of a change from one usage to another.
pub open spec fn change_of(
    object: ChangeObject,
    path: FilePath,
    previous: Option<UsageStats>,
    current: Option<UsageStats>,
) -> ChangeRecord {
    let old = usage_or_zero(previous);
    let new = usage_or_zero(current);
    ChangeRecord {
        path,
        object,
        kind: change_kind(previous, current),
        previous,
        current,
        logical_delta: (new.logical - old.logical) as i128,
        physical_delta: (new.physical - old.physical) as i128,
        file_delta: (new.files - old.files) as i128,
    }
}

fn change_record(
    object: ChangeObject,
    path: FilePath,
    previous: Option<UsageStats>,
    current: Option<UsageStats>,
) -> (record: ChangeRecord)
    requires
        previous is Some || current is Some,
    ensures
        record == change_of(object, path, previous, current),
{
    let old = or_zero(previous);
    let new = or_zero(current);
    let logical_delta: i128 = new.logical as i128 - old.logical as i128;
    let physical_delta: i128 = new.physical as i128 - old.physical as i128;
    let file_delta: i128 = new.files as i128 - old.files as i128;
    let kind = match (previous, current) {
        (None, _) => ChangeKind::Added,
        (Some(_), None) => ChangeKind::Removed,
        (Some(_), Some(_)) => {
            if logical_delta > 0 || (logical_delta == 0 && physical_delta > 0) || (logical_delta == 0
                && physical_delta == 0 && file_delta > 0) {
                ChangeKind::Grown
            } else {
                ChangeKind::Shrunk
            }
        },
    };
    ChangeRecord {
        path,
        object,
        kind,
        previous,
        current,
        logical_delta,
        physical_delta,
        file_delta,
    }
}

/// The records of an index by path. Where a path comes twice, the last record
/// counts.
pub open spec fn recorded(
    entries: Seq<(PathKey, UsageStats)>,
    path: FilePath,
    usage: UsageStats,
) -> Seq<(PathKey, UsageStats)> {
    let key = PathKey { path };
    let place = table::place_of(entries, key);
    if place < entries.len() {
        entries.update(place, (entries[place].0, usage))
    } else {
        entries.push((key, usage))
    }
}

pub open spec fn file_entries(files: Seq<FileRecord>) -> Seq<(PathKey, UsageStats)>
    decreases files.len(),
{
    if files.len() == 0 {
        Seq::empty()
    } else {
        recorded(file_entries(files.drop_last()), files.last().path, files.last().usage)
    }
}

pub open spec fn directory_entries(directories: Seq<DirectoryRecord>) -> Seq<(PathKey, UsageStats)>
    decreases directories.len(),
{
    if directories.len() == 0 {
        Seq::empty()
    } else {
        recorded(
            directory_entries(directories.drop_last()),
            directories.last().path,
            directories.last().usage,
        )
    }
}

fn record(table: &mut Table<PathKey, UsageStats>, path: &FilePath, usage: UsageStats)
    requires
        old(table).wf(),
    ensures
        final(table).wf(),
        final(table).entries@ == recorded(old(table).entries@, *path, usage),
{
    let key = PathKey { path: path.clone() };
    match table.find(&key) {
        Some(place) => {
            table.set_value(place, usage);
        },
        None => {
            proof {
                table::lemma_place_of(table.entries@, key);
            }
            table.append(key, usage);
        },
    }
}

fn file_table(files: &Vec<FileRecord>) -> (result: Table<PathKey, UsageStats>)
    ensures
        result.wf(),
        result.entries@ == file_entries(files@),
{
    let mut result: Table<PathKey, UsageStats> = Table::new();
    assert(result.entries@ =~= file_entries(files@.take(0)));
    let mut i: usize = 0;
    while i < files.len()
        invariant
            i <= files@.len(),
            result.wf(),
            result.entries@ == file_entries(files@.take(i as int)),
        decreases files@.len() - i,
    {
        assert(files@.take(i + 1).drop_last() =~= files@.take(i as int));
        record(&mut result, &files[i].path, files[i].usage);
        i += 1;
    }
    assert(files@.take(i as int) =~= files@);
    result
}

fn directory_table(directories: &Vec<DirectoryRecord>) -> (result: Table<PathKey, UsageStats>)
    ensures
        result.wf(),
        result.entries@ == directory_entries(directories@),
{
    let mut result: Table<PathKey, UsageStats> = Table::new();
    assert(result.entries@ =~= directory_entries(directories@.take(0)));
    let mut i: usize = 0;
    while i < directories.len()
        invariant
            i <= directories@.len(),
            result.wf(),
            result.entries@ == directory_entries(directories@.take(i as int)),
        decreases directories@.len() - i,
    {
        assert(directories@.take(i + 1).drop_last() =~= directories@.take(i as int));
        record(&mut result, &directories[i].path, directories[i].usage);
        i += 1;
    }
    assert(directories@.take(i as int) =~= directories@);
    result
}

/// The usage of a path in a table.
pub open spec fn usage_at(entries: Seq<(PathKey, UsageStats)>, path: FilePath) -> Option<UsageStats> {
    let place = table::place_of(entries, PathKey { path });
    if place < entries.len() {
        Some(entries[place].1)
    } else {
        None
    }
}

fn find_usage(table: &Table<PathKey, UsageStats>, path: &FilePath) -> (usage: Option<UsageStats>)
    requires
        table.wf(),
    ensures
        usage == usage_at(table.entries@, *path),
{
    let key = PathKey { path: path.clone() };
    match table.find(&key) {
        Some(place) => Some(table.entries[place].1),
        None => {
            proof {
                table::lemma_place_of(table.entries@, key);
            }
            None
        },
    }
}

/// Whether a path lies below one that could not be read.
pub open spec fn is_inaccessible(issues: Seq<AnalysisIssue>, path: Seq<u8>) -> bool {
    exists|i: int|
        0 <= i < issues.len() && path::path_starts_with(path, (#[trigger] issues[i]).path@)
}

fn inaccessible(issues: &Vec<AnalysisIssue>, path: &FilePath) -> (result: bool)
    ensures
        result == is_inaccessible(issues@, path@),
{
    let mut i: usize = 0;
    while i < issues.len()
        invariant
            i <= issues@.len(),
            forall|k: int|
                0 <= k < i ==> !path::path_starts_with(path@, (#[trigger] issues@[k]).path@),
        decreases issues@.len() - i,
    {
        if path.starts_with(&issues[i].path) {
            return true;
        }
        i += 1;
    }
    false
}

/// The change of one earlier entry, if it is to be reported: what is missing
/// because it could not be read is not.
pub open spec fn change_of_old(
    object: ChangeObject,
    entry: (PathKey, UsageStats),
    new: Seq<(PathKey, UsageStats)>,
    issues: Seq<AnalysisIssue>,
) -> Option<ChangeRecord> {
    let path = entry.0.path;
    match usage_at(new, path) {
        Some(usage) => if usage != entry.1 {
            Some(change_of(object, path, Some(entry.1), Some(usage)))
        } else {
            None
        },
        None => if is_inaccessible(issues, path@) {
            None
        } else {
            Some(change_of(object, path, Some(entry.1), None))
        },
    }
}

/// The change of one later entry, if there was none before.
pub open spec fn change_of_new(
    object: ChangeObject,
    entry: (PathKey, UsageStats),
    old: Seq<(PathKey, UsageStats)>,
) -> Option<ChangeRecord> {
    if usage_at(old, entry.0.path) is None {
        Some(change_of(object, entry.0.path, None, Some(entry.1)))
    } else {
        None
    }
}

/// The changes of the earlier entries, in their order.
pub open spec fn old_changes(
    object: ChangeObject,
    old: Seq<(PathKey, UsageStats)>,
    new: Seq<(PathKey, UsageStats)>,
    issues: Seq<AnalysisIssue>,
) -> Seq<ChangeRecord>
    decreases old.len(),
{
    if old.len() == 0 {
        Seq::empty()
    } else {
        let rest = old_changes(object, old.drop_last(), new, issues);
        match change_of_old(object, old.last(), new, issues) {
            Some(change) => rest.push(change),
            None => rest,
        }
    }
}

/// The changes of the later entries that are new, in their order.
pub open spec fn new_changes(
    object: ChangeObject,
    old: Seq<(PathKey, UsageStats)>,
    new: Seq<(PathKey, UsageStats)>,
) -> Seq<ChangeRecord>
    decreases new.len(),
{
    if new.len() == 0 {
        Seq::empty()
    } else {
        let rest = new_changes(object, old, new.drop_last());
        match change_of_new(object, new.last(), old) {
            Some(change) => rest.push(change),
            None => rest,
        }
    }
}

/// All changes between two indices: first what became of the earlier entries,
/// then what is new.
pub open spec fn all_changes(previous: IndexModel, current: IndexModel) -> Seq<ChangeRecord> {
    let old_files = file_entries(previous.files);
    let new_files = file_entries(current.files);
    let old_directories = directory_entries(previous.directories);
    let new_directories = directory_entries(current.directories);
    old_changes(ChangeObject::File, old_files, new_files, current.issues) + old_changes(
        ChangeObject::Directory,
        old_directories,
        new_directories,
        current.issues,
    ) + new_changes(ChangeObject::File, old_files, new_files) + new_changes(
        ChangeObject::Directory,
        old_directories,
        new_directories,
    )
}

/// How far a number is from zero.
pub open spec fn distance(n: i128) -> u64 {
    if n < 0 {
        tree::saturated(-(n as int))
    } else {
        tree::saturated(n as int)
    }
}

/// The larger of the two size differences.
pub open spec fn magnitude(change: ChangeRecord) -> u64 {
    let logical = distance(change.logical_delta);
    let physical = distance(change.physical_delta);
    if logical > physical {
        logical
    } else {
        physical
    }
}

/// The sort keys that put the largest changes first.
pub open spec fn change_keys(changes: Seq<ChangeRecord>) -> Seq<Seq<u64>> {
    Seq::new(changes.len(), |i: int| seq![(u64::MAX - magnitude(changes[i])) as u64])
}

/// The number of changes of a kind.
pub open spec fn kind_count(changes: Seq<ChangeRecord>, kind: ChangeKind) -> nat
    decreases changes.len(),
{
    if changes.len() == 0 {
        0
    } else {
        kind_count(changes.drop_last(), kind) + if changes.last().kind == kind {
            1nat
        } else {
            0nat
        }
    }
}

/// The comparison of two indices: the largest changes come first, and each
/// kind is counted.
pub open spec fn comparison_of(previous: IndexModel, current: IndexModel) -> ComparisonModel {
    let changes = all_changes(previous, current);
    ComparisonModel {
        changes: order::sorted_by(changes, change_keys(changes)),
        added: kind_count(changes, ChangeKind::Added) as usize,
        removed: kind_count(changes, ChangeKind::Removed) as usize,
        grown: kind_count(changes, ChangeKind::Grown) as usize,
        shrunk: kind_count(changes, ChangeKind::Shrunk) as usize,
    }
}

fn far(n: i128) -> (result: u64)
    requires
        -(u64::MAX as int) <= n <= u64::MAX,
    ensures
        result == distance(n),
{
    if n < 0 {
        (-n) as u64
    } else {
        n as u64
    }
}

/// Whether the differences of a change fit in its sort key.
pub open spec fn is_bounded(change: ChangeRecord) -> bool {
    &&& -(u64::MAX as int) <= change.logical_delta <= u64::MAX
    &&& -(u64::MAX as int) <= change.physical_delta <= u64::MAX
}

pub open spec fn all_bounded(changes: Seq<ChangeRecord>) -> bool {
    forall|i: int| 0 <= i < changes.len() ==> is_bounded(#[trigger] changes[i])
}

fn push_old_changes(
    object: ChangeObject,
    earlier: &Table<PathKey, UsageStats>,
    later: &Table<PathKey, UsageStats>,
    issues: &Vec<AnalysisIssue>,
    changes: &mut Vec<ChangeRecord>,
)
    requires
        later.wf(),
        all_bounded(old(changes)@),
    ensures
        final(changes)@ == old(changes)@ + old_changes(
            object,
            earlier.entries@,
            later.entries@,
            issues@,
        ),
        all_bounded(final(changes)@),
{
    let ghost start = changes@;
    let ghost entries = earlier.entries@;
    assert(start + old_changes(object, entries.take(0), later.entries@, issues@) =~= start);
    let mut i: usize = 0;
    while i < earlier.entries.len()
        invariant
            i <= entries.len(),
            entries == earlier.entries@,
            later.wf(),
            all_bounded(changes@),
            changes@ == start + old_changes(
                object,
                entries.take(i as int),
                later.entries@,
                issues@,
            ),
        decreases entries.len() - i,
    {
        assert(entries.take(i + 1).drop_last() =~= entries.take(i as int));
        let ghost last = changes@;
        let path: &FilePath = &earlier.entries[i].0.path;
        let usage: UsageStats = earlier.entries[i].1;
        match find_usage(later, path) {
            Some(found) => {
                if found != usage {
                    changes.push(change_record(object, path.clone(), Some(usage), Some(found)));
                }
            },
            None => {
                if !inaccessible(issues, path) {
                    changes.push(change_record(object, path.clone(), Some(usage), None));
                }
            },
        }
        i += 1;
        assert(changes@ =~= start + old_changes(
            object,
            entries.take(i as int),
            later.entries@,
            issues@,
        ));
    }
    assert(entries.take(i as int) =~= entries);
}

fn push_new_changes(
    object: ChangeObject,
    earlier: &Table<PathKey, UsageStats>,
    later: &Table<PathKey, UsageStats>,
    changes: &mut Vec<ChangeRecord>,
)
    requires
        earlier.wf(),
        all_bounded(old(changes)@),
    ensures
        final(changes)@ == old(changes)@ + new_changes(object, earlier.entries@, later.entries@),
        all_bounded(final(changes)@),
{
    let ghost start = changes@;
    let ghost entries = later.entries@;
    assert(start + new_changes(object, earlier.entries@, entries.take(0)) =~= start);
    let mut i: usize = 0;
    while i < later.entries.len()
        invariant
            i <= entries.len(),
            entries == later.entries@,
            earlier.wf(),
            all_bounded(changes@),
            changes@ == start + new_changes(object, earlier.entries@, entries.take(i as int)),
        decreases entries.len() - i,
    {
        assert(entries.take(i + 1).drop_last() =~= entries.take(i as int));
        let path: &FilePath = &later.entries[i].0.path;
        let usage: UsageStats = later.entries[i].1;
        if find_usage(earlier, path).is_none() {
            changes.push(change_record(object, path.clone(), None, Some(usage)));
        }
        i += 1;
        assert(changes@ =~= start + new_changes(object, earlier.entries@, entries.take(i as int)));
    }
    assert(entries.take(i as int) =~= entries);
}

proof fn lemma_kind_count(changes: Seq<ChangeRecord>, kind: ChangeKind)
    ensures
        kind_count(changes, kind) <= changes.len(),
    decreases changes.len(),
{
    if changes.len() > 0 {
        lemma_kind_count(changes.drop_last(), kind);
    }
}

fn count_kind(changes: &Vec<ChangeRecord>, kind: ChangeKind) -> (count: usize)
    ensures
        count == kind_count(changes@, kind),
{
    let mut count: usize = 0;
    let mut i: usize = 0;
    while i < changes.len()
        invariant
            i <= changes@.len(),
            count <= i,
            count == kind_count(changes@.take(i as int), kind),
        decreases changes@.len() - i,
    {
        assert(changes@.take(i + 1).drop_last() =~= changes@.take(i as int));
        if changes[i].kind == kind {
            count += 1;
        }
        i += 1;
    }
    assert(changes@.take(i as int) =~= changes@);
    count
}

/// What changed from one index to another.
pub fn compare_indices(previous: &AnalysisIndex, current: &AnalysisIndex) -> (comparison:
    SnapshotComparison)
    ensures
        comparison@ == comparison_of(previous@, current@),
        comparison@.changes.len() == all_changes(previous@, current@).len() <= usize::MAX,
{
    let old_files = file_table(&previous.files);
    let new_files = file_table(&current.files);
    let old_directories = directory_table(&previous.directories);
    let new_directories = directory_table(&current.directories);
    let mut changes: Vec<ChangeRecord> = Vec::new();
    push_old_changes(ChangeObject::File, &old_files, &new_files, &current.issues, &mut changes);
    push_old_changes(
        ChangeObject::Directory,
        &old_directories,
        &new_directories,
        &current.issues,
        &mut changes,
    );
    push_new_changes(ChangeObject::File, &old_files, &new_files, &mut changes);
    push_new_changes(ChangeObject::Directory, &old_directories, &new_directories, &mut changes);
    assert(changes@ =~= all_changes(previous@, current@));
    let added = count_kind(&changes, ChangeKind::Added);
    let removed = count_kind(&changes, ChangeKind::Removed);
    let grown = count_kind(&changes, ChangeKind::Grown);
    let shrunk = count_kind(&changes, ChangeKind::Shrunk);
    let mut keys: Vec<Vec<u64>> = Vec::new();
    let mut i: usize = 0;
    while i < changes.len()
        invariant
            i <= changes@.len(),
            all_bounded(changes@),
            keys@.len() == i,
            forall|k: int| 0 <= k < i ==> (#[trigger] keys@[k])@ == change_keys(changes@)[k],
        decreases changes@.len() - i,
    {
        assert(is_bounded(changes@[i as int]));
        let logical = far(changes[i].logical_delta);
        let physical = far(changes[i].physical_delta);
        let mut key: Vec<u64> = Vec::new();
        key.push(
            u64::MAX - if logical > physical {
                logical
            } else {
                physical
            },
        );
        assert(key@ =~= change_keys(changes@)[i as int]);
        keys.push(key);
        i += 1;
    }
    assert(order::contents(keys@) =~= change_keys(changes@));
    proof {
        order::sorting_keeps_the_items(changes@, change_keys(changes@));
    }
    let sorted = order::sort_by_keys(changes, &keys);
    SnapshotComparison { changes: sorted, added, removed, grown, shrunk }
}

proof fn lemma_recorded_distinct(
    entries: Seq<(PathKey, UsageStats)>,
    path: FilePath,
    usage: UsageStats,
)
    requires
        table::distinct_keys(entries),
    ensures
        table::distinct_keys(recorded(entries, path, usage)),
{
    let key = PathKey { path };
    table::lemma_place_of(entries, key);
    let after = recorded(entries, path, usage);
    assert forall|i: int, j: int| 0 <= i < j < after.len() implies !(#[trigger] after[i]).0.same_as(
        (#[trigger] after[j]).0,
    ) by {
        if j < entries.len() {
            assert(!entries[i].0.same_as(entries[j].0));
        } else {
            assert(!entries[i].0.same_as(key));
        }
    }
}

proof fn lemma_entries_distinct(files: Seq<FileRecord>, directories: Seq<DirectoryRecord>)
    ensures
        table::distinct_keys(file_entries(files)),
        table::distinct_keys(directory_entries(directories)),
    decreases files.len() + directories.len(),
{
    if files.len() > 0 {
        lemma_entries_distinct(files.drop_last(), directories);
        lemma_recorded_distinct(
            file_entries(files.drop_last()),
            files.last().path,
            files.last().usage,
        );
    } else if directories.len() > 0 {
        lemma_entries_distinct(files, directories.drop_last());
        lemma_recorded_distinct(
            directory_entries(directories.drop_last()),
            directories.last().path,
            directories.last().usage,
        );
    }
}

proof fn lemma_own_usage(entries: Seq<(PathKey, UsageStats)>, i: int)
    requires
        table::distinct_keys(entries),
        0 <= i < entries.len(),
    ensures
        usage_at(entries, entries[i].0.path) == Some(entries[i].1),
{
    let key = PathKey { path: entries[i].0.path };
    table::lemma_place_of(entries, key);
    let place = table::place_of(entries, key);
    if place < i {
        assert(!entries[place].0.same_as(entries[i].0));
    } else if place > i {
        assert(!entries[i].0.same_as(key));
    }
}

proof fn lemma_no_changes(
    object: ChangeObject,
    part: Seq<(PathKey, UsageStats)>,
    entries: Seq<(PathKey, UsageStats)>,
    issues: Seq<AnalysisIssue>,
)
    requires
        table::distinct_keys(entries),
        part.is_prefix_of(entries),
    ensures
        old_changes(object, part, entries, issues).len() == 0,
        new_changes(object, entries, part).len() == 0,
    decreases part.len(),
{
    if part.len() > 0 {
        let rest = part.drop_last();
        assert(rest =~= entries.subrange(0, rest.len() as int));
        lemma_no_changes(object, rest, entries, issues);
        assert(part.last() == entries[part.len() - 1]);
        lemma_own_usage(entries, part.len() - 1);
    }
}

/// Compared with itself, an index shows no changes.
pub proof fn nothing_changes_against_itself(index: IndexModel)
    ensures
        all_changes(index, index).len() == 0,
{
    lemma_entries_distinct(index.files, index.directories);
    let files = file_entries(index.files);
    let directories = directory_entries(index.directories);
    assert(files =~= files.subrange(0, files.len() as int));
    assert(directories =~= directories.subrange(0, directories.len() as int));
    lemma_no_changes(ChangeObject::File, files, files, index.issues);
    lemma_no_changes(ChangeObject::Directory, directories, directories, index.issues);
}

proof fn lemma_old_removals(
    object: ChangeObject,
    old: Seq<(PathKey, UsageStats)>,
    new: Seq<(PathKey, UsageStats)>,
    issues: Seq<AnalysisIssue>,
    i: int,
)
    requires
        0 <= i < old_changes(object, old, new, issues).len(),
        old_changes(object, old, new, issues)[i].kind == ChangeKind::Removed,
    ensures
        !is_inaccessible(issues, old_changes(object, old, new, issues)[i].path@),
        usage_at(new, old_changes(object, old, new, issues)[i].path) is None,
    decreases old.len(),
{
    if old.len() > 0 {
        let rest = old_changes(object, old.drop_last(), new, issues);
        if i < rest.len() {
            lemma_old_removals(object, old.drop_last(), new, issues, i);
        }
    }
}

proof fn lemma_new_kinds(
    object: ChangeObject,
    old: Seq<(PathKey, UsageStats)>,
    new: Seq<(PathKey, UsageStats)>,
    i: int,
)
    requires
        0 <= i < new_changes(object, old, new).len(),
    ensures
        new_changes(object, old, new)[i].kind == ChangeKind::Added,
    decreases new.len(),
{
    if new.len() > 0 {
        let rest = new_changes(object, old, new.drop_last());
        if i < rest.len() {
            lemma_new_kinds(object, old, new.drop_last(), i);
        }
    }
}

/// What lies below a path that could not be read is never reported as removed.
pub proof fn unreadable_paths_are_not_removed(previous: IndexModel, current: IndexModel, i: int)
    requires
        0 <= i < all_changes(previous, current).len(),
        all_changes(previous, current)[i].kind == ChangeKind::Removed,
    ensures
        !is_inaccessible(current.issues, all_changes(previous, current)[i].path@),
{
    let old_files = file_entries(previous.files);
    let new_files = file_entries(current.files);
    let old_directories = directory_entries(previous.directories);
    let new_directories = directory_entries(current.directories);
    let a = old_changes(ChangeObject::File, old_files, new_files, current.issues);
    let b = old_changes(ChangeObject::Directory, old_directories, new_directories, current.issues);
    let c = new_changes(ChangeObject::File, old_files, new_files);
    let d = new_changes(ChangeObject::Directory, old_directories, new_directories);
    if i < a.len() {
        lemma_old_removals(ChangeObject::File, old_files, new_files, current.issues, i);
    } else if i < a.len() + b.len() {
        lemma_old_removals(
            ChangeObject::Directory,
            old_directories,
            new_directories,
            current.issues,
            i - a.len(),
        );
    } else if i < a.len() + b.len() + c.len() {
        lemma_new_kinds(ChangeObject::File, old_files, new_files, i - a.len() - b.len());
    } else {
        lemma_new_kinds(
            ChangeObject::Directory,
            old_directories,
            new_directories,
            i - a.len() - b.len() - c.len(),
        );
    }
}

/// An index on disk, with its summary and what had changed.
#[derive(Debug)]
pub struct SnapshotV1 {
    pub schema_version: u32,
    pub app_version: String,
    pub index: AnalysisIndex,
    pub summary: AnalysisSummary,
    pub comparison: Option<SnapshotComparison>,
}

/// The comparison of a snapshot.
pub open spec fn comparison_view(comparison: Option<SnapshotComparison>) -> Option<ComparisonModel> {
    match comparison {
        Some(comparison) => Some(comparison@),
        None => None,
    }
}

/// Whether a snapshot holds an index, its summary as seen at some time, and a
/// comparison.
pub open spec fn is_snapshot_of(
    snapshot: SnapshotV1,
    index: IndexModel,
    comparison: Option<ComparisonModel>,
    now: u64,
) -> bool {
    &&& snapshot.schema_version == SNAPSHOT_SCHEMA
    &&& snapshot.app_version@ == VERSION@
    &&& snapshot.index@ == index
    &&& analytics::summarizes(snapshot.summary, index.files, now)
    &&& comparison_view(snapshot.comparison) == comparison
}

proof fn lemma_all_chosen(files: Seq<FileRecord>, count: usize)
    requires
        count == files.len(),
    ensures
        analytics::chosen_files(files, analytics::all_places(count as nat)) == files,
{
    assert(analytics::chosen_files(files, analytics::all_places(count as nat)) =~= files);
}

fn whole_summary(files: &Vec<FileRecord>, now: u64) -> (summary: AnalysisSummary)
    ensures
        analytics::summarizes(summary, files@, now),
{
    let places = analytics::every_place(files.len());
    proof {
        lemma_all_chosen(files@, files.len());
    }
    analytics::summary_of(files, &places, now)
}

impl SnapshotV1 {
    /// The snapshot of an index as of now.
    pub fn from_index(index: &AnalysisIndex, comparison: Option<SnapshotComparison>) -> (snapshot:
        SnapshotV1)
        ensures
            exists|now: u64|
                is_snapshot_of(snapshot, index@, comparison_view(comparison), now),
    {
        let now = analytics::now_seconds();
        let snapshot = SnapshotV1::from_index_at(index, comparison, now);
        assert(is_snapshot_of(snapshot, index@, comparison_view(comparison), now));
        snapshot
    }

    /// The snapshot of an index as seen at the given time.
    pub fn from_index_at(
        index: &AnalysisIndex,
        comparison: Option<SnapshotComparison>,
        now: u64,
    ) -> (snapshot: SnapshotV1)
        ensures
            is_snapshot_of(snapshot, index@, comparison_view(comparison), now),
    {
        SnapshotV1 {
            schema_version: SNAPSHOT_SCHEMA,
            app_version: VERSION.to_owned(),
            index: index.clone(),
            summary: whole_summary(&index.files, now),
            comparison,
        }
    }

    /// Whether the snapshot is written in the way that this program reads.
    pub open spec fn is_readable(self) -> bool {
        self.schema_version == SNAPSHOT_SCHEMA
    }

    /// Whether this program can read the snapshot.
    pub fn validate(&self) -> (result: Result<(), String>)
        ensures
            result is Ok <==> self.is_readable(),
            match result {
                Ok(_) => self.schema_version == SNAPSHOT_SCHEMA,
                Err(message) => self.schema_version != SNAPSHOT_SCHEMA && message@
                    == "Unsupported snapshot schema "@ + text::decimal(self.schema_version as nat)
                    + "; expected "@ + text::decimal(SNAPSHOT_SCHEMA as nat),
            },
    {
        if self.schema_version != SNAPSHOT_SCHEMA {
            let mut message = String::new();
            message.append("Unsupported snapshot schema ");
            text::push_number(&mut message, self.schema_version as u64);
            message.append("; expected ");
            text::push_number(&mut message, SNAPSHOT_SCHEMA as u64);
            assert(message@ =~= "Unsupported snapshot schema "@ + text::decimal(
                self.schema_version as nat,
            ) + "; expected "@ + text::decimal(SNAPSHOT_SCHEMA as nat));
            return Err(message);
        }
        Ok(())
    }
}

/// What comparing with the last complete run gave.
#[derive(Debug)]
pub struct RollingResult {
    pub comparison: Option<SnapshotComparison>,
    pub warning: Option<String>,
}

/// Where the snapshots of complete runs are kept, if at all.
#[derive(Debug)]
pub struct SnapshotStore {
    pub directory: FilePath,
    pub enabled: bool,
}

/// The files of a snapshot with those of an earlier one that lie below a path
/// that could not be read.
pub open spec fn kept_files(
    files: Seq<FileRecord>,
    earlier: Seq<FileRecord>,
    issues: Seq<AnalysisIssue>,
) -> Seq<FileRecord>
    decreases earlier.len(),
{
    if earlier.len() == 0 {
        files
    } else {
        let rest = kept_files(files, earlier.drop_last(), issues);
        let file = earlier.last();
        if is_inaccessible(issues, file.path@) && analytics::file_place(rest, file.path@)
            >= rest.len() {
            rest.push(file)
        } else {
            rest
        }
    }
}

/// The directories of a snapshot with those of an earlier one that lie below a
/// path that could not be read.
pub open spec fn kept_directories(
    directories: Seq<DirectoryRecord>,
    earlier: Seq<DirectoryRecord>,
    issues: Seq<AnalysisIssue>,
) -> Seq<DirectoryRecord>
    decreases earlier.len(),
{
    if earlier.len() == 0 {
        directories
    } else {
        let rest = kept_directories(directories, earlier.drop_last(), issues);
        let directory = earlier.last();
        if is_inaccessible(issues, directory.path@) && analytics::directory_usage(
            rest,
            directory.path@,
        ) is None {
            rest.push(directory)
        } else {
            rest
        }
    }
}

/// An index with what an earlier one knew of the paths that could not be read.
pub open spec fn merged(current: IndexModel, previous: IndexModel) -> IndexModel {
    IndexModel {
        files: kept_files(current.files, previous.files, current.issues),
        directories: kept_directories(current.directories, previous.directories, current.issues),
        ..current
    }
}

fn merge_inaccessible(current: &mut AnalysisIndex, previous: &AnalysisIndex)
    ensures
        final(current)@ == merged(old(current)@, previous@),
{
    let ghost before = current@;
    let mut i: usize = 0;
    while i < previous.files.len()
        invariant
            i <= previous.files@.len(),
            current@ == (IndexModel {
                files: kept_files(
                    before.files,
                    previous.files@.take(i as int),
                    before.issues,
                ),
                ..before
            }),
        decreases previous.files@.len() - i,
    {
        assert(previous.files@.take(i + 1).drop_last() =~= previous.files@.take(i as int));
        let file: &FileRecord = &previous.files[i];
        if inaccessible(&current.issues, &file.path) && analytics::find_file(
            &current.files,
            &file.path,
        ).is_none() {
            current.files.push(file.clone());
        }
        i += 1;
    }
    assert(previous.files@.take(i as int) =~= previous.files@);
    let ghost middle = current@;
    let mut k: usize = 0;
    while k < previous.directories.len()
        invariant
            k <= previous.directories@.len(),
            middle.issues == before.issues,
            current@ == (IndexModel {
                directories: kept_directories(
                    middle.directories,
                    previous.directories@.take(k as int),
                    before.issues,
                ),
                ..middle
            }),
        decreases previous.directories@.len() - k,
    {
        assert(previous.directories@.take(k + 1).drop_last() =~= previous.directories@.take(
            k as int,
        ));
        let directory: &DirectoryRecord = &previous.directories[k];
        if inaccessible(&current.issues, &directory.path) && analytics::find_directory_usage(
            &current.directories,
            &directory.path,
        ).is_none() {
            current.directories.push(directory.clone());
        }
        k += 1;
    }
    assert(previous.directories@.take(k as int) =~= previous.directories@);
}

/// Whether a snapshot is of the same tree, walked in the same way.
pub open spec fn is_compatible(snapshot: IndexModel, index: IndexModel) -> bool {
    path::same_path(snapshot.root@, index.root@) && snapshot.one_file_system
        == index.one_file_system
}

/// The snapshot to compare with, from what was found on disk.
pub open spec fn usable_baseline(
    loaded: Option<Result<SnapshotV1, String>>,
    index: IndexModel,
) -> Option<IndexModel> {
    match loaded {
        Some(Ok(snapshot)) => if is_compatible(snapshot.index@, index) {
            Some(snapshot.index@)
        } else {
            None
        },
        _ => None,
    }
}

/// What is said when what was found on disk cannot be compared with.
pub open spec fn baseline_warning(
    loaded: Option<Result<SnapshotV1, String>>,
    index: IndexModel,
) -> Option<Seq<char>> {
    match loaded {
        None => None,
        Some(Ok(snapshot)) => if is_compatible(snapshot.index@, index) {
            None
        } else {
            Some("Ignoring snapshot for a different root or mount policy"@)
        },
        Some(Err(error)) => Some("Ignoring unreadable rolling snapshot: "@ + error@),
    }
}

/// The index that becomes the next baseline.
pub open spec fn next_baseline(index: IndexModel, baseline: Option<IndexModel>) -> IndexModel {
    match baseline {
        Some(baseline) => merged(index, baseline),
        None => index,
    }
}

/// What tells the tree of an index from others: the root, and whether other
/// file systems were walked.
pub open spec fn rolling_key(index: IndexModel) -> Seq<u8> {
    let policy: u8 = if index.one_file_system {
        1
    } else {
        0
    };
    index.root@.push(policy)
}

/// The name of the file that keeps the last complete run over a tree.
pub open spec fn rolling_text(index: IndexModel) -> Seq<char> {
    digest::blake3_hex(rolling_key(index)) + ".json"@
}

/// The file that keeps the last complete run over a tree.
pub open spec fn rolling_file(directory: Seq<u8>, index: IndexModel) -> Seq<u8> {
    path::joined_path(directory, vstd::utf8::encode_utf8(rolling_text(index)))
}

/// The bytes of a digest with the extension are those of its letters, none of
/// them a separator.
proof fn lemma_rolling_bytes(index: IndexModel)
    requires
        digest::is_digest_text(digest::blake3_hex(rolling_key(index))),
    ensures
        path::is_plain_name(vstd::utf8::encode_utf8(rolling_text(index))),
        path::after_last_dot(vstd::utf8::encode_utf8(rolling_text(index))) == 65,
        vstd::utf8::encode_utf8(rolling_text(index)).skip(65) == vstd::utf8::encode_utf8("json"@),
{
    let text = rolling_text(index);
    let digits = digest::blake3_hex(rolling_key(index));
    let bytes = vstd::utf8::encode_utf8(text);
    reveal_strlit(".json");
    reveal_strlit("json");
    assert forall|i: int| 0 <= i < text.len() implies #[trigger] text[i] as nat <= 127 && text[i]
        != '/' by {
        if i < 64 {
            assert(digest::is_hex_digit(digits[i]));
            assert(text[i] == digits[i]);
        } else {
            assert(text[i] == ".json"@[i - 64]);
        }
    }
    vstd::utf8::is_ascii_chars_encode_utf8(text);
    vstd::utf8::is_ascii_chars_encode_utf8("json"@);
    assert(bytes.skip(65) =~= vstd::utf8::encode_utf8("json"@));
    assert(bytes[64] == path::DOT);
    let dotted = bytes.take(65);
    assert(bytes.drop_last().drop_last().drop_last().drop_last() =~= dotted);
    reveal_with_fuel(path::after_last_dot, 5);
}

/// The run over a tree is kept in a file that lies directly in the directory
/// of the store.
pub proof fn rolling_files_lie_in_the_directory(directory: Seq<u8>, index: IndexModel)
    requires
        digest::is_digest_text(digest::blake3_hex(rolling_key(index))),
    ensures
        path::components(rolling_file(directory, index)) == path::components(directory).push(
            vstd::utf8::encode_utf8(rolling_text(index)),
        ),
        path::extension_of(rolling_file(directory, index)) == Some(
            vstd::utf8::encode_utf8("json"@),
        ),
{
    lemma_rolling_bytes(index);
    path::joining_a_name_appends_it(directory, vstd::utf8::encode_utf8(rolling_text(index)));
}

/// Whether the keys of two runs have digests, and the same one only where the
/// keys are the same.
pub open spec fn told_apart(left: IndexModel, right: IndexModel) -> bool {
    let first = digest::blake3_hex(rolling_key(left));
    let second = digest::blake3_hex(rolling_key(right));
    &&& digest::is_digest_text(first)
    &&& digest::is_digest_text(second)
    &&& first == second ==> rolling_key(left) == rolling_key(right)
}

/// Where the digests of two trees do not collide, two runs share a file if and
/// only if their roots are the same and they treat other file systems alike.
/// Nothing else about a run matters.
pub proof fn runs_share_a_file_when_their_trees_agree(
    directory: Seq<u8>,
    left: IndexModel,
    right: IndexModel,
)
    ensures
        told_apart(left, right) ==> (rolling_file(directory, left) == rolling_file(directory, right)
            <==> left.root@ == right.root@ && left.one_file_system == right.one_file_system),
{
    let first = rolling_text(left);
    let second = rolling_text(right);
    if told_apart(left, right) && rolling_file(directory, left) == rolling_file(directory, right) {
        rolling_files_lie_in_the_directory(directory, left);
        rolling_files_lie_in_the_directory(directory, right);
        let all = path::components(directory);
        assert(all.push(vstd::utf8::encode_utf8(first)).last() == all.push(
            vstd::utf8::encode_utf8(second),
        ).last());
        vstd::utf8::encode_utf8_decode_utf8(first);
        vstd::utf8::encode_utf8_decode_utf8(second);
        assert(first.take(64) =~= digest::blake3_hex(rolling_key(left)));
        assert(second.take(64) =~= digest::blake3_hex(rolling_key(right)));
        assert(rolling_key(left).drop_last() =~= left.root@);
        assert(rolling_key(right).drop_last() =~= right.root@);
        assert(rolling_key(left).last() == rolling_key(right).last());
    } else {
        assert(left.root@ == right.root@ && left.one_file_system == right.one_file_system
            ==> rolling_key(left) == rolling_key(right));
    }
}

/// Whether this is what a finished run leaves: the snapshot to be kept, the
/// comparison with the run before it, and a warning.
pub open spec fn is_left_by(
    enabled: bool,
    index: IndexModel,
    loaded: Option<Result<SnapshotV1, String>>,
    now: u64,
    kept: Option<SnapshotV1>,
    comparison: Option<ComparisonModel>,
    warning: Option<Seq<char>>,
) -> bool {
    if enabled && index.complete {
        let baseline = usable_baseline(loaded, index);
        &&& kept is Some
        &&& is_snapshot_of(kept->0, next_baseline(index, baseline), None, now)
        &&& comparison == (match baseline {
            Some(baseline) => Some(comparison_of(baseline, merged(index, baseline))),
            None => None,
        })
        &&& warning == baseline_warning(loaded, index)
    } else {
        kept is None && comparison is None && warning is None
    }
}

impl SnapshotStore {
    pub fn new(directory: FilePath, enabled: bool) -> (store: Self)
        ensures
            store == (SnapshotStore { directory, enabled }),
    {
        SnapshotStore { directory, enabled }
    }

    /// Compares a finished run with the one before it, which was found on disk
    /// as `loaded`, and gives the snapshot that takes its place. A run that is
    /// not complete, or a store that is switched off, leaves all as it is.
    pub fn process_completed(
        &self,
        index: &AnalysisIndex,
        loaded: Option<Result<SnapshotV1, String>>,
        now: u64,
    ) -> (result: (Option<SnapshotV1>, RollingResult))
        ensures
            is_left_by(
                self.enabled,
                index@,
                loaded,
                now,
                result.0,
                comparison_view(result.1.comparison),
                tree::text_view(result.1.warning),
            ),
            (!self.enabled || !index.complete) ==> result.0 is None && result.1.comparison is None
                && result.1.warning is None,
            (self.enabled && index.complete) ==> {
                let baseline = usable_baseline(loaded, index@);
                &&& result.0 is Some
                &&& is_snapshot_of(
                    result.0->0,
                    next_baseline(index@, baseline),
                    None,
                    now,
                )
                &&& comparison_view(result.1.comparison) == (match baseline {
                    Some(baseline) => Some(comparison_of(baseline, merged(index@, baseline))),
                    None => None,
                })
                &&& tree::text_view(result.1.warning) == baseline_warning(loaded, index@)
            },
    {
        if !self.enabled || !index.complete {
            return (None, RollingResult { comparison: None, warning: None });
        }
        let mut baseline: Option<AnalysisIndex> = None;
        let mut warning: Option<String> = None;
        match loaded {
            Some(Ok(snapshot)) => {
                if snapshot.index.root.same(&index.root) && snapshot.index.one_file_system
                    == index.one_file_system {
                    baseline = Some(snapshot.index);
                } else {
                    warning = Some(
                        "Ignoring snapshot for a different root or mount policy".to_owned(),
                    );
                }
            },
            Some(Err(error)) => {
                let mut message = String::new();
                message.append("Ignoring unreadable rolling snapshot: ");
                message.append(error.as_str());
                assert(message@ =~= "Ignoring unreadable rolling snapshot: "@ + error@);
                warning = Some(message);
            },
            None => {},
        }
        let mut current = index.clone();
        let mut comparison: Option<SnapshotComparison> = None;
        if let Some(baseline) = &baseline {
            merge_inaccessible(&mut current, baseline);
            comparison = Some(compare_indices(baseline, &current));
        }
        let summary = whole_summary(&current.files, now);
        let snapshot = SnapshotV1 {
            schema_version: SNAPSHOT_SCHEMA,
            app_version: VERSION.to_owned(),
            index: current,
            summary,
            comparison: None,
        };
        (Some(snapshot), RollingResult { comparison, warning })
    }

    /// The file that keeps the last complete run over a tree.
    pub fn rolling_path(&self, index: &AnalysisIndex) -> (path: FilePath)
        requires
            index.root@.len() < u64::MAX,
        ensures
            path@ == rolling_file(self.directory@, index@),
            path::components(path@) == path::components(self.directory@).push(
                vstd::utf8::encode_utf8(rolling_text(index@)),
            ),
            path::extension_of(path@) == Some(vstd::utf8::encode_utf8("json"@)),
    {
        let name = SnapshotStore::rolling_name(index);
        proof {
            rolling_files_lie_in_the_directory(self.directory@, index@);
        }
        self.directory.join(&FilePath::from_text(name.as_str()))
    }

    /// The name of the file that keeps the last complete run over a tree: the
    /// digest of the root's bytes and of how mount points were treated.
    pub fn rolling_name(index: &AnalysisIndex) -> (name: String)
        requires
            index.root@.len() < u64::MAX,
        ensures
            name@ == rolling_text(index@),
            digest::is_digest_text(digest::blake3_hex(rolling_key(index@))),
    {
        let mut key = Digest::new();
        let _ = key.update(index.root.as_bytes().as_slice());
        assert(key@ =~= index.root@);
        let mut policy: Vec<u8> = Vec::new();
        policy.push(
            if index.one_file_system {
                1
            } else {
                0
            },
        );
        let _ = key.update(policy.as_slice());
        assert(key@ =~= rolling_key(index@));
        let mut name = key.finish();
        name.append(".json");
        name
    }
}

/// Why a snapshot cannot be compared with an index.
pub open spec fn incompatibility(snapshot: SnapshotV1, index: IndexModel) -> Option<Seq<char>> {
    if snapshot.schema_version != SNAPSHOT_SCHEMA {
        Some(
            "Unsupported snapshot schema "@ + text::decimal(snapshot.schema_version as nat)
                + "; expected "@ + text::decimal(SNAPSHOT_SCHEMA as nat),
        )
    } else if !path::same_path(snapshot.index@.root@, index.root@) {
        Some("Snapshot root does not match "@ + text::lossy_text(index.root@))
    } else if snapshot.index@.one_file_system != index.one_file_system {
        Some("Snapshot mount policy does not match the current scan"@)
    } else {
        None
    }
}

/// The snapshot to compare with on request: it must be of the same tree,
/// walked in the same way.
pub fn load_compatible_snapshot(snapshot: SnapshotV1, index: &AnalysisIndex) -> (result: Result<
    SnapshotV1,
    String,
>)
    ensures
        match result {
            Ok(found) => found == snapshot && incompatibility(snapshot, index@) is None,
            Err(message) => incompatibility(snapshot, index@) == Some(message@),
        },
{
    if let Err(message) = snapshot.validate() {
        return Err(message);
    }
    if !snapshot.index.root.same(&index.root) {
        let mut message = String::new();
        message.append("Snapshot root does not match ");
        let shown = index.root.display();
        message.append(shown.as_str());
        assert(message@ =~= "Snapshot root does not match "@ + text::lossy_text(index@.root@));
        return Err(message);
    }
    if snapshot.index.one_file_system != index.one_file_system {
        return Err("Snapshot mount policy does not match the current scan".to_owned());
    }
    Ok(snapshot)
}

/// A file that is appended keeps the places of the others.
proof fn lemma_file_appended(files: Seq<FileRecord>, file: FileRecord, path: Seq<u8>)
    ensures
        0 <= analytics::file_place(files, path) <= files.len(),
        analytics::file_place(files, path) < files.len() ==> analytics::file_place(
            files.push(file),
            path,
        ) == analytics::file_place(files, path),
        analytics::file_place(files, path) >= files.len() && path::same_path(file.path@, path)
            ==> analytics::file_place(files.push(file), path) == files.len(),
    decreases files.len(),
{
    if files.len() == 0 {
        assert(files.push(file)[0] == file);
    } else {
        lemma_file_appended(files.drop_first(), file, path);
        assert(files.push(file).drop_first() =~= files.drop_first().push(file));
        assert(files.push(file)[0] == files[0]);
    }
}

proof fn lemma_kept_files(
    files: Seq<FileRecord>,
    earlier: Seq<FileRecord>,
    issues: Seq<AnalysisIssue>,
    path: Seq<u8>,
)
    requires
        analytics::file_place(files, path) < files.len() || (exists|i: int|
            0 <= i < earlier.len() && path::same_path((#[trigger] earlier[i]).path@, path)),
        is_inaccessible(issues, path),
    ensures
        analytics::file_place(kept_files(files, earlier, issues), path) < kept_files(
            files,
            earlier,
            issues,
        ).len(),
    decreases earlier.len(),
{
    if earlier.len() > 0 {
        let less = earlier.drop_last();
        let rest = kept_files(files, less, issues);
        let last = earlier.last();
        lemma_file_appended(rest, last, path);
        if path::same_path(last.path@, path) {
            lemma_same_inaccessible(issues, last.path@, path);
            lemma_same_file_place(rest, last.path@, path);
        } else {
            if analytics::file_place(files, path) >= files.len() {
                let i = choose|i: int|
                    0 <= i < earlier.len() && path::same_path((#[trigger] earlier[i]).path@, path);
                assert(less[i] == earlier[i]);
            }
            lemma_kept_files(files, less, issues, path);
        }
    }
}

proof fn lemma_same_file_place(files: Seq<FileRecord>, left: Seq<u8>, right: Seq<u8>)
    requires
        path::same_path(left, right),
    ensures
        analytics::file_place(files, left) == analytics::file_place(files, right),
    decreases files.len(),
{
    if files.len() > 0 {
        lemma_same_file_place(files.drop_first(), left, right);
    }
}

proof fn lemma_same_inaccessible(issues: Seq<AnalysisIssue>, left: Seq<u8>, right: Seq<u8>)
    requires
        path::same_path(left, right),
        is_inaccessible(issues, right),
    ensures
        is_inaccessible(issues, left),
{
    let i = choose|i: int|
        0 <= i < issues.len() && path::path_starts_with(right, (#[trigger] issues[i]).path@);
    assert(path::path_starts_with(left, issues[i].path@));
}

/// What the last baseline knew of files that cannot be read now stays in the
/// next one.
pub proof fn unreadable_files_stay_in_the_baseline(
    current: IndexModel,
    previous: IndexModel,
    i: int,
)
    requires
        0 <= i < previous.files.len(),
        is_inaccessible(current.issues, previous.files[i].path@),
    ensures
        ({
            let next = next_baseline(current, Some(previous));
            analytics::file_at(next.files, previous.files[i].path@) is Some
        }),
{
    lemma_kept_files(current.files, previous.files, current.issues, previous.files[i].path@);
}

/// A directory that is appended keeps the places of the others.
proof fn lemma_directory_appended(directories: Seq<DirectoryRecord>, directory: DirectoryRecord, path: Seq<u8>)
    ensures
        0 <= analytics::directory_place(directories, path) <= directories.len(),
        analytics::directory_place(directories, path) < directories.len() ==> analytics::directory_place(
            directories.push(directory),
            path,
        ) == analytics::directory_place(directories, path),
        analytics::directory_place(directories, path) >= directories.len() && path::same_path(directory.path@, path)
            ==> analytics::directory_place(directories.push(directory), path) == directories.len(),
    decreases directories.len(),
{
    if directories.len() == 0 {
        assert(directories.push(directory)[0] == directory);
    } else {
        lemma_directory_appended(directories.drop_first(), directory, path);
        assert(directories.push(directory).drop_first() =~= directories.drop_first().push(directory));
        assert(directories.push(directory)[0] == directories[0]);
    }
}

proof fn lemma_kept_directories(
    directories: Seq<DirectoryRecord>,
    earlier: Seq<DirectoryRecord>,
    issues: Seq<AnalysisIssue>,
    path: Seq<u8>,
)
    requires
        analytics::directory_place(directories, path) < directories.len() || (exists|i: int|
            0 <= i < earlier.len() && path::same_path((#[trigger] earlier[i]).path@, path)),
        is_inaccessible(issues, path),
    ensures
        analytics::directory_place(kept_directories(directories, earlier, issues), path) < kept_directories(
            directories,
            earlier,
            issues,
        ).len(),
    decreases earlier.len(),
{
    if earlier.len() > 0 {
        let less = earlier.drop_last();
        let rest = kept_directories(directories, less, issues);
        let last = earlier.last();
        lemma_directory_appended(rest, last, path);
        if path::same_path(last.path@, path) {
            lemma_same_inaccessible(issues, last.path@, path);
            lemma_same_directory_place(rest, last.path@, path);
        } else {
            if analytics::directory_place(directories, path) >= directories.len() {
                let i = choose|i: int|
                    0 <= i < earlier.len() && path::same_path((#[trigger] earlier[i]).path@, path);
                assert(less[i] == earlier[i]);
            }
            lemma_kept_directories(directories, less, issues, path);
        }
    }
}

proof fn lemma_same_directory_place(directories: Seq<DirectoryRecord>, left: Seq<u8>, right: Seq<u8>)
    requires
        path::same_path(left, right),
    ensures
        analytics::directory_place(directories, left) == analytics::directory_place(directories, right),
    decreases directories.len(),
{
    if directories.len() > 0 {
        lemma_same_directory_place(directories.drop_first(), left, right);
    }
}

/// What the last baseline knew of directories that cannot be read now stays in
/// the next one.
pub proof fn unreadable_directories_stay_in_the_baseline(
    current: IndexModel,
    previous: IndexModel,
    i: int,
)
    requires
        0 <= i < previous.directories.len(),
        is_inaccessible(current.issues, previous.directories[i].path@),
    ensures
        ({
            let next = next_baseline(current, Some(previous));
            analytics::directory_usage(next.directories, previous.directories[i].path@) is Some
        }),
{
    lemma_kept_directories(
        current.directories,
        previous.directories,
        current.issues,
        previous.directories[i].path@,
    );
}

/// In a comparison the larger changes come first.
pub proof fn larger_changes_come_first(previous: IndexModel, current: IndexModel, i: int, j: int)
    requires
        all_changes(previous, current).len() <= usize::MAX,
        0 <= i < j < comparison_of(previous, current).changes.len(),
    ensures
        magnitude(comparison_of(previous, current).changes[i]) >= magnitude(
            comparison_of(previous, current).changes[j],
        ),
{
    let changes = all_changes(previous, current);
    let keys = change_keys(changes);
    let order = order::stable_order_exists(keys);
    order::sorting_orders_the_items(changes, keys, i, j);
    let a = order[i] as int;
    let b = order[j] as int;
    assert(order::key_le(keys[a], keys[b]));
}

/// Every change is counted once.
pub proof fn every_change_is_counted(changes: Seq<ChangeRecord>)
    ensures
        kind_count(changes, ChangeKind::Added) + kind_count(changes, ChangeKind::Removed)
            + kind_count(changes, ChangeKind::Grown) + kind_count(changes, ChangeKind::Shrunk)
            == changes.len(),
    decreases changes.len(),
{
    if changes.len() > 0 {
        every_change_is_counted(changes.drop_last());
    }
}

/// What an index says of a path, as a file or as a directory.
pub open spec fn usage_in(index: IndexModel, object: ChangeObject, path: FilePath) -> Option<
    UsageStats,
> {
    match object {
        ChangeObject::File => usage_at(file_entries(index.files), path),
        ChangeObject::Directory => usage_at(directory_entries(index.directories), path),
    }
}

/// Whether two records are about the same file or the same directory.
pub open spec fn same_subject(left: ChangeRecord, right: ChangeRecord) -> bool {
    left.object == right.object && path::same_path(left.path@, right.path@)
}

/// Whether a record tells how the usage of its path differs in two indices.
pub open spec fn tells_the_change(
    change: ChangeRecord,
    previous: IndexModel,
    current: IndexModel,
) -> bool {
    let old = usage_in(previous, change.object, change.path);
    let new = usage_in(current, change.object, change.path);
    old != new && change == change_of(change.object, change.path, old, new)
}

/// Whether a list has a record about a path.
pub open spec fn reports(changes: Seq<ChangeRecord>, object: ChangeObject, path: FilePath) -> bool {
    exists|i: int|
        0 <= i < changes.len() && (#[trigger] changes[i]).object == object && path::same_path(
            changes[i].path@,
            path@,
        )
}

/// Whether the earlier index alone has a path, which lies below one that could
/// not be read since. What became of it is not known.
pub open spec fn is_withheld(
    previous: IndexModel,
    current: IndexModel,
    object: ChangeObject,
    path: FilePath,
) -> bool {
    &&& usage_in(previous, object, path) is Some
    &&& usage_in(current, object, path) is None
    &&& is_inaccessible(current.issues, path@)
}

/// Whether a list has one record for each path whose usage differs in two
/// indices, and no other. Paths of which nothing is known are left out.
pub open spec fn lists_the_changes(
    changes: Seq<ChangeRecord>,
    previous: IndexModel,
    current: IndexModel,
) -> bool {
    &&& forall|i: int|
        0 <= i < changes.len() ==> tells_the_change(#[trigger] changes[i], previous, current)
            && !is_withheld(previous, current, changes[i].object, changes[i].path)
    &&& forall|object: ChangeObject, path: FilePath|
        usage_in(previous, object, path) != usage_in(current, object, path) && !is_withheld(
            previous,
            current,
            object,
            path,
        ) ==> #[trigger] reports(changes, object, path)
    &&& forall|i: int, j: int|
        0 <= i < j < changes.len() ==> !same_subject(#[trigger] changes[i], #[trigger] changes[j])
}

proof fn lemma_same_usage(entries: Seq<(PathKey, UsageStats)>, left: FilePath, right: FilePath)
    requires
        path::same_path(left@, right@),
    ensures
        usage_at(entries, left) == usage_at(entries, right),
{
    lemma_same_entry(entries, left, right);
}

proof fn lemma_same_entry(entries: Seq<(PathKey, UsageStats)>, left: FilePath, right: FilePath)
    requires
        path::same_path(left@, right@),
    ensures
        table::place_of(entries, PathKey { path: left }) == table::place_of(
            entries,
            PathKey { path: right },
        ),
    decreases entries.len(),
{
    if entries.len() > 0 {
        lemma_same_entry(entries.drop_last(), left, right);
    }
}

/// The changes of the earlier entries are those of single entries, one each.
proof fn lemma_old_changes(
    object: ChangeObject,
    part: Seq<(PathKey, UsageStats)>,
    old: Seq<(PathKey, UsageStats)>,
    new: Seq<(PathKey, UsageStats)>,
    issues: Seq<AnalysisIssue>,
)
    requires
        table::distinct_keys(old),
        part.is_prefix_of(old),
    ensures
        forall|k: int|
            0 <= k < old_changes(object, part, new, issues).len() ==> exists|i: int|
                0 <= i < part.len() && Some(#[trigger] old_changes(object, part, new, issues)[k])
                    == change_of_old(object, #[trigger] part[i], new, issues),
        forall|i: int|
            0 <= i < part.len() ==> (change_of_old(object, #[trigger] part[i], new, issues) matches Some(
                change,
            ) ==> old_changes(object, part, new, issues).contains(change)),
        forall|k: int, l: int|
            0 <= k < l < old_changes(object, part, new, issues).len() ==> !same_subject(
                #[trigger] old_changes(object, part, new, issues)[k],
                #[trigger] old_changes(object, part, new, issues)[l],
            ),
    decreases part.len(),
{
    if part.len() > 0 {
        let rest = part.drop_last();
        let last = part.len() - 1;
        assert(rest =~= old.subrange(0, rest.len() as int));
        lemma_old_changes(object, rest, old, new, issues);
        let before = old_changes(object, rest, new, issues);
        let after = old_changes(object, part, new, issues);
        assert forall|k: int| 0 <= k < after.len() implies exists|i: int|
            0 <= i < part.len() && Some(#[trigger] after[k]) == change_of_old(
                object,
                #[trigger] part[i],
                new,
                issues,
            ) by {
            if k < before.len() {
                assert(before[k] == after[k]);
                let i = choose|i: int|
                    0 <= i < rest.len() && Some(before[k]) == change_of_old(
                        object,
                        #[trigger] rest[i],
                        new,
                        issues,
                    );
                assert(part[i] == rest[i]);
            } else {
                assert(Some(after[k]) == change_of_old(object, part[last], new, issues));
            }
        }
        assert forall|i: int| 0 <= i < part.len() implies (change_of_old(
            object,
            #[trigger] part[i],
            new,
            issues,
        ) matches Some(change) ==> after.contains(change)) by {
            if let Some(change) = change_of_old(object, part[i], new, issues) {
                if i < last {
                    assert(rest[i] == part[i]);
                    assert(before.contains(change));
                    let k = choose|k: int| 0 <= k < before.len() && before[k] == change;
                    assert(after[k] == change);
                } else {
                    assert(after.last() == change);
                }
            }
        }
        assert forall|k: int, l: int| 0 <= k < l < after.len() implies !same_subject(
            #[trigger] after[k],
            #[trigger] after[l],
        ) by {
            assert(before[k] == after[k]);
            if l < before.len() {
                assert(before[l] == after[l]);
            } else {
                let i = choose|i: int|
                    0 <= i < rest.len() && Some(before[k]) == change_of_old(
                        object,
                        #[trigger] rest[i],
                        new,
                        issues,
                    );
                assert(!old[i].0.same_as(old[last].0));
                assert(rest[i] == old[i] && part[last] == old[last]);
            }
        }
    }
}

/// The changes of the later entries are those of single entries, one each.
proof fn lemma_new_changes(
    object: ChangeObject,
    old: Seq<(PathKey, UsageStats)>,
    part: Seq<(PathKey, UsageStats)>,
    new: Seq<(PathKey, UsageStats)>,
)
    requires
        table::distinct_keys(new),
        part.is_prefix_of(new),
    ensures
        forall|k: int|
            0 <= k < new_changes(object, old, part).len() ==> exists|i: int|
                0 <= i < part.len() && Some(#[trigger] new_changes(object, old, part)[k])
                    == change_of_new(object, #[trigger] part[i], old),
        forall|i: int|
            0 <= i < part.len() ==> (change_of_new(object, #[trigger] part[i], old) matches Some(
                change,
            ) ==> new_changes(object, old, part).contains(change)),
        forall|k: int, l: int|
            0 <= k < l < new_changes(object, old, part).len() ==> !same_subject(
                #[trigger] new_changes(object, old, part)[k],
                #[trigger] new_changes(object, old, part)[l],
            ),
    decreases part.len(),
{
    if part.len() > 0 {
        let rest = part.drop_last();
        let last = part.len() - 1;
        assert(rest =~= new.subrange(0, rest.len() as int));
        lemma_new_changes(object, old, rest, new);
        let before = new_changes(object, old, rest);
        let after = new_changes(object, old, part);
        assert forall|k: int| 0 <= k < after.len() implies exists|i: int|
            0 <= i < part.len() && Some(#[trigger] after[k]) == change_of_new(
                object,
                #[trigger] part[i],
                old,
            ) by {
            if k < before.len() {
                assert(before[k] == after[k]);
                let i = choose|i: int|
                    0 <= i < rest.len() && Some(before[k]) == change_of_new(
                        object,
                        #[trigger] rest[i],
                        old,
                    );
                assert(part[i] == rest[i]);
            } else {
                assert(Some(after[k]) == change_of_new(object, part[last], old));
            }
        }
        assert forall|i: int| 0 <= i < part.len() implies (change_of_new(
            object,
            #[trigger] part[i],
            old,
        ) matches Some(change) ==> after.contains(change)) by {
            if let Some(change) = change_of_new(object, part[i], old) {
                if i < last {
                    assert(rest[i] == part[i]);
                    assert(before.contains(change));
                    let k = choose|k: int| 0 <= k < before.len() && before[k] == change;
                    assert(after[k] == change);
                } else {
                    assert(after.last() == change);
                }
            }
        }
        assert forall|k: int, l: int| 0 <= k < l < after.len() implies !same_subject(
            #[trigger] after[k],
            #[trigger] after[l],
        ) by {
            assert(before[k] == after[k]);
            if l < before.len() {
                assert(before[l] == after[l]);
            } else {
                let i = choose|i: int|
                    0 <= i < rest.len() && Some(before[k]) == change_of_new(
                        object,
                        #[trigger] rest[i],
                        old,
                    );
                assert(!new[i].0.same_as(new[last].0));
                assert(rest[i] == new[i] && part[last] == new[last]);
            }
        }
    }
}

/// A record about an earlier entry tells a difference.
proof fn lemma_old_change(
    object: ChangeObject,
    old: Seq<(PathKey, UsageStats)>,
    new: Seq<(PathKey, UsageStats)>,
    issues: Seq<AnalysisIssue>,
    k: int,
)
    requires
        table::distinct_keys(old),
        0 <= k < old_changes(object, old, new, issues).len(),
    ensures
        ({
            let change = old_changes(object, old, new, issues)[k];
            let before = usage_at(old, change.path);
            let after = usage_at(new, change.path);
            &&& before is Some && before != after
            &&& change == change_of(object, change.path, before, after)
            &&& after is Some || !is_inaccessible(issues, change.path@)
        }),
{
    let changes = old_changes(object, old, new, issues);
    assert(old =~= old.subrange(0, old.len() as int));
    lemma_old_changes(object, old, old, new, issues);
    let i = choose|i: int|
        0 <= i < old.len() && Some(changes[k]) == change_of_old(
            object,
            #[trigger] old[i],
            new,
            issues,
        );
    lemma_own_usage(old, i);
}

/// A record about a later entry tells a difference.
proof fn lemma_new_change(
    object: ChangeObject,
    old: Seq<(PathKey, UsageStats)>,
    new: Seq<(PathKey, UsageStats)>,
    k: int,
)
    requires
        table::distinct_keys(new),
        0 <= k < new_changes(object, old, new).len(),
    ensures
        ({
            let change = new_changes(object, old, new)[k];
            let before = usage_at(old, change.path);
            let after = usage_at(new, change.path);
            before is None && before != after && change == change_of(
                object,
                change.path,
                before,
                after,
            )
        }),
{
    let changes = new_changes(object, old, new);
    assert(new =~= new.subrange(0, new.len() as int));
    lemma_new_changes(object, old, new, new);
    let i = choose|i: int|
        0 <= i < new.len() && Some(changes[k]) == change_of_new(object, #[trigger] new[i], old);
    lemma_own_usage(new, i);
}

/// Each difference has a record.
proof fn lemma_difference_reported(
    object: ChangeObject,
    old: Seq<(PathKey, UsageStats)>,
    new: Seq<(PathKey, UsageStats)>,
    issues: Seq<AnalysisIssue>,
    path: FilePath,
)
    requires
        table::distinct_keys(old),
        table::distinct_keys(new),
        usage_at(new, path) is Some || !is_inaccessible(issues, path@),
        usage_at(old, path) != usage_at(new, path),
    ensures
        reports(old_changes(object, old, new, issues), object, path) || reports(
            new_changes(object, old, new),
            object,
            path,
        ),
{
    let earlier = old_changes(object, old, new, issues);
    let later = new_changes(object, old, new);
    let key = PathKey { path };
    if usage_at(old, path) is Some {
        assert(old =~= old.subrange(0, old.len() as int));
        lemma_old_changes(object, old, old, new, issues);
        table::lemma_place_of(old, key);
        let entry = old[table::place_of(old, key)];
        lemma_same_usage(new, entry.0.path, path);
        if is_inaccessible(issues, entry.0.path@) {
            lemma_same_inaccessible(issues, path@, entry.0.path@);
        }
        let change = change_of_old(object, entry, new, issues)->0;
        assert(earlier.contains(change));
        let k = choose|k: int| 0 <= k < earlier.len() && earlier[k] == change;
        assert(earlier[k].object == object);
    } else {
        assert(new =~= new.subrange(0, new.len() as int));
        lemma_new_changes(object, old, new, new);
        table::lemma_place_of(new, key);
        let entry = new[table::place_of(new, key)];
        lemma_same_usage(old, entry.0.path, path);
        let change = change_of_new(object, entry, old)->0;
        assert(later.contains(change));
        let k = choose|k: int| 0 <= k < later.len() && later[k] == change;
        assert(later[k].object == object);
    }
}

/// Records about earlier entries and about new ones have different subjects.
proof fn lemma_apart(
    object: ChangeObject,
    old: Seq<(PathKey, UsageStats)>,
    new: Seq<(PathKey, UsageStats)>,
    issues: Seq<AnalysisIssue>,
    k: int,
    l: int,
)
    requires
        table::distinct_keys(old),
        table::distinct_keys(new),
        0 <= k < old_changes(object, old, new, issues).len(),
        0 <= l < new_changes(object, old, new).len(),
    ensures
        !same_subject(
            old_changes(object, old, new, issues)[k],
            new_changes(object, old, new)[l],
        ),
{
    lemma_old_change(object, old, new, issues, k);
    lemma_new_change(object, old, new, l);
    let left = old_changes(object, old, new, issues)[k];
    let right = new_changes(object, old, new)[l];
    if same_subject(left, right) {
        lemma_same_usage(old, left.path, right.path);
    }
}

proof fn lemma_reports_grows(
    part: Seq<ChangeRecord>,
    whole: Seq<ChangeRecord>,
    from: int,
    object: ChangeObject,
    path: FilePath,
)
    requires
        0 <= from,
        from + part.len() <= whole.len(),
        forall|k: int| 0 <= k < part.len() ==> #[trigger] part[k] == whole[from + k],
    ensures
        reports(part, object, path) ==> reports(whole, object, path),
{
    if reports(part, object, path) {
        let k = choose|k: int|
            0 <= k < part.len() && (#[trigger] part[k]).object == object && path::same_path(
                part[k].path@,
                path@,
            );
        assert(whole[from + k].object == object);
    }
}

/// Two indices have one change for each path whose usage differs in them, and
/// no other. Only what the earlier index alone has, and what lies below a path
/// that could not be read since, is left out.
pub proof fn each_difference_is_one_change(previous: IndexModel, current: IndexModel)
    ensures
        lists_the_changes(all_changes(previous, current), previous, current),
        all_changes(previous, current).len() <= usize::MAX ==> lists_the_changes(
            comparison_of(previous, current).changes,
            previous,
            current,
        ),
{
    let old_files = file_entries(previous.files);
    let new_files = file_entries(current.files);
    let old_directories = directory_entries(previous.directories);
    let new_directories = directory_entries(current.directories);
    let issues = current.issues;
    let a = old_changes(ChangeObject::File, old_files, new_files, issues);
    let b = old_changes(ChangeObject::Directory, old_directories, new_directories, issues);
    let c = new_changes(ChangeObject::File, old_files, new_files);
    let d = new_changes(ChangeObject::Directory, old_directories, new_directories);
    let all = all_changes(previous, current);
    assert(all =~= a + b + c + d);
    lemma_entries_distinct(previous.files, previous.directories);
    lemma_entries_distinct(current.files, current.directories);
    let second = a.len() as int;
    let third = second + b.len();
    let fourth = third + c.len();
    assert forall|i: int| 0 <= i < all.len() implies tells_the_change(
        #[trigger] all[i],
        previous,
        current,
    ) && !is_withheld(previous, current, all[i].object, all[i].path) by {
        if i < second {
            assert(all[i] == a[i]);
            lemma_old_change(ChangeObject::File, old_files, new_files, issues, i);
        } else if i < third {
            assert(all[i] == b[i - second]);
            lemma_old_change(
                ChangeObject::Directory,
                old_directories,
                new_directories,
                issues,
                i - second,
            );
        } else if i < fourth {
            assert(all[i] == c[i - third]);
            lemma_new_change(ChangeObject::File, old_files, new_files, i - third);
        } else {
            assert(all[i] == d[i - fourth]);
            lemma_new_change(
                ChangeObject::Directory,
                old_directories,
                new_directories,
                i - fourth,
            );
        }
    }
    assert forall|object: ChangeObject, path: FilePath|
        usage_in(previous, object, path) != usage_in(current, object, path) && !is_withheld(
            previous,
            current,
            object,
            path,
        ) implies #[trigger] reports(all, object, path) by {
        lemma_reports_grows(a, all, 0, object, path);
        lemma_reports_grows(b, all, second, object, path);
        lemma_reports_grows(c, all, third, object, path);
        lemma_reports_grows(d, all, fourth, object, path);
        match object {
            ChangeObject::File => {
                lemma_difference_reported(object, old_files, new_files, issues, path);
            },
            ChangeObject::Directory => {
                lemma_difference_reported(object, old_directories, new_directories, issues, path);
            },
        }
    }
    assert forall|i: int, j: int| 0 <= i < j < all.len() implies !same_subject(
        #[trigger] all[i],
        #[trigger] all[j],
    ) by {
        lemma_changes_apart(previous, current, i, j);
    }
    if all.len() <= usize::MAX {
        lemma_sorted_changes(previous, current);
    }
}

proof fn lemma_changes_apart(previous: IndexModel, current: IndexModel, i: int, j: int)
    requires
        0 <= i < j < all_changes(previous, current).len(),
    ensures
        !same_subject(all_changes(previous, current)[i], all_changes(previous, current)[j]),
{
    let old_files = file_entries(previous.files);
    let new_files = file_entries(current.files);
    let old_directories = directory_entries(previous.directories);
    let new_directories = directory_entries(current.directories);
    let issues = current.issues;
    let a = old_changes(ChangeObject::File, old_files, new_files, issues);
    let b = old_changes(ChangeObject::Directory, old_directories, new_directories, issues);
    let c = new_changes(ChangeObject::File, old_files, new_files);
    let d = new_changes(ChangeObject::Directory, old_directories, new_directories);
    let all = all_changes(previous, current);
    assert(all =~= a + b + c + d);
    lemma_entries_distinct(previous.files, previous.directories);
    lemma_entries_distinct(current.files, current.directories);
    assert(old_files =~= old_files.subrange(0, old_files.len() as int));
    assert(new_files =~= new_files.subrange(0, new_files.len() as int));
    assert(old_directories =~= old_directories.subrange(0, old_directories.len() as int));
    assert(new_directories =~= new_directories.subrange(0, new_directories.len() as int));
    lemma_old_changes(ChangeObject::File, old_files, old_files, new_files, issues);
    lemma_old_changes(
        ChangeObject::Directory,
        old_directories,
        old_directories,
        new_directories,
        issues,
    );
    lemma_new_changes(ChangeObject::File, old_files, new_files, new_files);
    lemma_new_changes(
        ChangeObject::Directory,
        old_directories,
        new_directories,
        new_directories,
    );
    let second = a.len() as int;
    let third = second + b.len();
    let fourth = third + c.len();
    let left = all[i];
    let right = all[j];
    if i < second {
        assert(left == a[i]);
        if j < second {
            assert(right == a[j]);
        } else if j < third {
            assert(right == b[j - second]);
        } else if j < fourth {
            assert(right == c[j - third]);
            lemma_apart(ChangeObject::File, old_files, new_files, issues, i, j - third);
        } else {
            assert(right == d[j - fourth]);
        }
    } else if i < third {
        assert(left == b[i - second]);
        if j < third {
            assert(right == b[j - second]);
        } else if j < fourth {
            assert(right == c[j - third]);
        } else {
            assert(right == d[j - fourth]);
            lemma_apart(
                ChangeObject::Directory,
                old_directories,
                new_directories,
                issues,
                i - second,
                j - fourth,
            );
        }
    } else if i < fourth {
        assert(left == c[i - third]);
        if j < fourth {
            assert(right == c[j - third]);
        } else {
            assert(right == d[j - fourth]);
        }
    } else {
        assert(left == d[i - fourth]);
        assert(right == d[j - fourth]);
    }
}

/// The kind of a change seen from the other side.
pub open spec fn mirrored_kind(kind: ChangeKind) -> ChangeKind {
    match kind {
        ChangeKind::Added => ChangeKind::Removed,
        ChangeKind::Removed => ChangeKind::Added,
        ChangeKind::Grown => ChangeKind::Shrunk,
        ChangeKind::Shrunk => ChangeKind::Grown,
    }
}

/// Whether two records tell the same change from its two sides.
pub open spec fn is_mirror(left: ChangeRecord, right: ChangeRecord) -> bool {
    &&& same_subject(left, right)
    &&& right.kind == mirrored_kind(left.kind)
    &&& right.previous == left.current
    &&& right.current == left.previous
    &&& right.logical_delta == -left.logical_delta
    &&& right.physical_delta == -left.physical_delta
    &&& right.file_delta == -left.file_delta
}

/// Whether each record of a list has just one mirrored record in another, and
/// shares it with none.
pub open spec fn are_mirrored(
    left: Seq<ChangeRecord>,
    right: Seq<ChangeRecord>,
    places: Seq<int>,
) -> bool {
    &&& places.len() == left.len()
    &&& places.no_duplicates()
    &&& forall|i: int|
        0 <= i < left.len() ==> 0 <= #[trigger] places[i] < right.len() && is_mirror(
            left[i],
            right[places[i]],
        )
    &&& forall|i: int, j: int|
        0 <= i < left.len() && 0 <= j < right.len() && #[trigger] is_mirror(left[i], right[j])
            ==> j == places[i]
}

proof fn lemma_mirrored(
    left: Seq<ChangeRecord>,
    right: Seq<ChangeRecord>,
    previous: IndexModel,
    current: IndexModel,
) -> (places: Seq<int>)
    requires
        previous.issues.len() == 0,
        lists_the_changes(left, previous, current),
        lists_the_changes(right, current, previous),
    ensures
        are_mirrored(left, right, places),
{
    let places = Seq::new(
        left.len(),
        |i: int| choose|j: int| 0 <= j < right.len() && is_mirror(left[i], #[trigger] right[j]),
    );
    assert forall|i: int| 0 <= i < left.len() implies 0 <= #[trigger] places[i] < right.len()
        && is_mirror(left[i], right[places[i]]) by {
        let change = left[i];
        assert(tells_the_change(change, previous, current));
        assert(!is_withheld(current, previous, change.object, change.path));
        assert(reports(right, change.object, change.path));
        let j = choose|j: int|
            0 <= j < right.len() && (#[trigger] right[j]).object == change.object
                && path::same_path(right[j].path@, change.path@);
        let other = right[j];
        assert(tells_the_change(other, current, previous));
        match change.object {
            ChangeObject::File => {
                lemma_same_usage(file_entries(previous.files), other.path, change.path);
                lemma_same_usage(file_entries(current.files), other.path, change.path);
            },
            ChangeObject::Directory => {
                lemma_same_usage(directory_entries(previous.directories), other.path, change.path);
                lemma_same_usage(directory_entries(current.directories), other.path, change.path);
            },
        }
        assert(is_mirror(left[i], right[j]));
    }
    assert forall|i: int, j: int|
        0 <= i < places.len() && 0 <= j < places.len() && i != j implies places[i] != places[j] by {
        if places[i] == places[j] {
            assert(same_subject(left[i], left[j]) && same_subject(left[j], left[i]));
        }
    }
    assert forall|i: int, j: int|
        0 <= i < left.len() && 0 <= j < right.len() && #[trigger] is_mirror(
            left[i],
            right[j],
        ) implies j == places[i] by {
        let place = places[i];
        assert(is_mirror(left[i], right[place]));
        assert(same_subject(right[j], right[place]) && same_subject(right[place], right[j]));
    }
    places
}

/// The places of the records of a kind.
spec fn kind_places(changes: Seq<ChangeRecord>, kind: ChangeKind) -> Set<int> {
    Set::new(|i: int| 0 <= i < changes.len() && changes[i].kind == kind)
}

proof fn lemma_kind_places(changes: Seq<ChangeRecord>, kind: ChangeKind)
    ensures
        kind_places(changes, kind).finite(),
        kind_places(changes, kind).len() == kind_count(changes, kind),
    decreases changes.len(),
{
    let places = kind_places(changes, kind);
    if changes.len() > 0 {
        let rest = changes.drop_last();
        let last = changes.len() - 1;
        lemma_kind_places(rest, kind);
        if changes.last().kind == kind {
            assert(places =~= kind_places(rest, kind).insert(last));
        } else {
            assert(places =~= kind_places(rest, kind));
        }
    } else {
        assert(places =~= Set::empty());
    }
}

proof fn lemma_mirrored_count(
    left: Seq<ChangeRecord>,
    right: Seq<ChangeRecord>,
    places: Seq<int>,
    kind: ChangeKind,
)
    requires
        are_mirrored(left, right, places),
    ensures
        kind_count(left, kind) <= kind_count(right, mirrored_kind(kind)),
{
    lemma_kind_places(left, kind);
    lemma_kind_places(right, mirrored_kind(kind));
    let from = kind_places(left, kind);
    let to = kind_places(right, mirrored_kind(kind));
    let place = |i: int| places[i];
    assert(vstd::relations::injective_on(place, from));
    vstd::set_lib::lemma_map_size(from, from.map(place), place);
    assert(from.map(place).subset_of(to));
    vstd::set_lib::lemma_len_subset(from.map(place), to);
}

/// Sorting a list of changes leaves it complete and without repetitions.
proof fn lemma_sorted_changes(previous: IndexModel, current: IndexModel)
    requires
        all_changes(previous, current).len() <= usize::MAX,
        lists_the_changes(all_changes(previous, current), previous, current),
    ensures
        comparison_of(previous, current).changes.len() == all_changes(previous, current).len(),
        lists_the_changes(comparison_of(previous, current).changes, previous, current),
{
    let changes = all_changes(previous, current);
    let keys = change_keys(changes);
    let sorted = comparison_of(previous, current).changes;
    let order = order::stable_order_exists(keys);
    order::sorting_keeps_the_items(changes, keys);
    assert forall|i: int| 0 <= i < sorted.len() implies tells_the_change(
        #[trigger] sorted[i],
        previous,
        current,
    ) && !is_withheld(previous, current, sorted[i].object, sorted[i].path) by {
        assert(sorted[i] == changes[order[i] as int]);
    }
    assert forall|object: ChangeObject, path: FilePath|
        usage_in(previous, object, path) != usage_in(current, object, path) && !is_withheld(
            previous,
            current,
            object,
            path,
        ) implies #[trigger] reports(sorted, object, path) by {
        assert(reports(changes, object, path));
        let k = choose|k: int|
            0 <= k < changes.len() && (#[trigger] changes[k]).object == object && path::same_path(
                changes[k].path@,
                path@,
            );
        assert(sorted.contains(changes[k]));
        let i = choose|i: int| 0 <= i < sorted.len() && sorted[i] == changes[k];
        assert(sorted[i].object == object);
    }
    assert forall|i: int, j: int| 0 <= i < j < sorted.len() implies !same_subject(
        #[trigger] sorted[i],
        #[trigger] sorted[j],
    ) by {
        let first = order[i] as int;
        let second = order[j] as int;
        assert(order::before(keys, first, second));
        assert(sorted[i] == changes[first] && sorted[j] == changes[second]);
        if first < second {
            assert(!same_subject(changes[first], changes[second]));
        } else {
            assert(!same_subject(changes[second], changes[first]));
        }
    }
}

/// Where everything could be read, comparing the other way round shows the same
/// changes from their other side: each record has exactly one mirrored record.
/// What was added is removed, what grew has shrunk, and so the counts trade
/// places.
pub proof fn comparing_the_other_way_mirrors_each_change(
    previous: IndexModel,
    current: IndexModel,
) -> (places: Seq<int>)
    requires
        previous.issues.len() == 0,
        current.issues.len() == 0,
        all_changes(previous, current).len() <= usize::MAX,
        all_changes(current, previous).len() <= usize::MAX,
    ensures
        ({
            let there = comparison_of(previous, current);
            let back = comparison_of(current, previous);
            &&& there.changes.len() == back.changes.len()
            &&& are_mirrored(there.changes, back.changes, places)
            &&& there.added == back.removed
            &&& there.removed == back.added
            &&& there.grown == back.shrunk
            &&& there.shrunk == back.grown
        }),
{
    let forth = all_changes(previous, current);
    let back = all_changes(current, previous);
    each_difference_is_one_change(previous, current);
    each_difference_is_one_change(current, previous);
    let there = lemma_mirrored(forth, back, previous, current);
    let here = lemma_mirrored(back, forth, current, previous);
    lemma_mirrored_count(forth, back, there, ChangeKind::Added);
    lemma_mirrored_count(forth, back, there, ChangeKind::Removed);
    lemma_mirrored_count(forth, back, there, ChangeKind::Grown);
    lemma_mirrored_count(forth, back, there, ChangeKind::Shrunk);
    lemma_mirrored_count(back, forth, here, ChangeKind::Added);
    lemma_mirrored_count(back, forth, here, ChangeKind::Removed);
    lemma_mirrored_count(back, forth, here, ChangeKind::Grown);
    lemma_mirrored_count(back, forth, here, ChangeKind::Shrunk);
    every_change_is_counted(forth);
    every_change_is_counted(back);
    lemma_sorted_changes(previous, current);
    lemma_sorted_changes(current, previous);
    lemma_mirrored(
        comparison_of(previous, current).changes,
        comparison_of(current, previous).changes,
        previous,
        current,
    )
}

/// In every comparison a record holds what the two indices say of its path, and
/// the differences of these. It tells of something added where the earlier index
/// has nothing, and of something removed where the later one has nothing. Else
/// the length decides whether it has grown, then the space, then the number of
/// files.
pub proof fn changes_are_told_by_their_differences(
    previous: IndexModel,
    current: IndexModel,
    i: int,
)
    requires
        all_changes(previous, current).len() <= usize::MAX,
        0 <= i < comparison_of(previous, current).changes.len(),
    ensures
        ({
            let change = comparison_of(previous, current).changes[i];
            let old = match change.previous {
                Some(usage) => usage,
                None => UsageStats { logical: 0, physical: 0, files: 0 },
            };
            let new = match change.current {
                Some(usage) => usage,
                None => UsageStats { logical: 0, physical: 0, files: 0 },
            };
            &&& change.previous == usage_in(previous, change.object, change.path)
            &&& change.current == usage_in(current, change.object, change.path)
            &&& change.previous != change.current
            &&& change.logical_delta == new.logical - old.logical
            &&& change.physical_delta == new.physical - old.physical
            &&& change.file_delta == new.files - old.files
            &&& change.kind == ChangeKind::Added <==> change.previous is None
            &&& change.kind == ChangeKind::Removed <==> change.current is None
            &&& change.previous is Some && change.current is Some ==> {
                &&& new.logical > old.logical ==> change.kind == ChangeKind::Grown
                &&& new.logical < old.logical ==> change.kind == ChangeKind::Shrunk
                &&& new.logical == old.logical && new.physical > old.physical ==> change.kind
                    == ChangeKind::Grown
                &&& new.logical == old.logical && new.physical < old.physical ==> change.kind
                    == ChangeKind::Shrunk
                &&& new.logical == old.logical && new.physical == old.physical && new.files
                    > old.files ==> change.kind == ChangeKind::Grown
                &&& new.logical == old.logical && new.physical == old.physical && new.files
                    < old.files ==> change.kind == ChangeKind::Shrunk
            }
        }),
{
    each_difference_is_one_change(previous, current);
    let change = comparison_of(previous, current).changes[i];
    assert(tells_the_change(change, previous, current));
}

/// A comparison counts the records of each kind that it holds.
pub proof fn comparisons_count_their_records(previous: IndexModel, current: IndexModel)
    requires
        all_changes(previous, current).len() <= usize::MAX,
    ensures
        ({
            let comparison = comparison_of(previous, current);
            let changes = comparison.changes;
            let of_kind = |kind: ChangeKind|
                Set::new(|i: int| 0 <= i < changes.len() && changes[i].kind == kind).len();
            &&& comparison.added == of_kind(ChangeKind::Added)
            &&& comparison.removed == of_kind(ChangeKind::Removed)
            &&& comparison.grown == of_kind(ChangeKind::Grown)
            &&& comparison.shrunk == of_kind(ChangeKind::Shrunk)
            &&& comparison.added + comparison.removed + comparison.grown + comparison.shrunk
                == changes.len()
        }),
{
    let all = all_changes(previous, current);
    let changes = comparison_of(previous, current).changes;
    order::sorting_keeps_the_items(all, change_keys(all));
    every_change_is_counted(all);
    lemma_kind_count(all, ChangeKind::Added);
    lemma_kind_count(all, ChangeKind::Removed);
    lemma_kind_count(all, ChangeKind::Grown);
    lemma_kind_count(all, ChangeKind::Shrunk);
    lemma_sorted_kinds(all, ChangeKind::Added);
    lemma_sorted_kinds(all, ChangeKind::Removed);
    lemma_sorted_kinds(all, ChangeKind::Grown);
    lemma_sorted_kinds(all, ChangeKind::Shrunk);
}

proof fn lemma_sorted_kinds(changes: Seq<ChangeRecord>, kind: ChangeKind)
    requires
        changes.len() <= usize::MAX,
    ensures
        ({
            let sorted = order::sorted_by(changes, change_keys(changes));
            Set::new(|i: int| 0 <= i < sorted.len() && sorted[i].kind == kind).len() == kind_count(
                changes,
                kind,
            )
        }),
{
    let keys = change_keys(changes);
    let sorted = order::sorted_by(changes, keys);
    let order = order::stable_order_exists(keys);
    order::sorting_keeps_the_items(changes, keys);
    lemma_kind_places(changes, kind);
    let from = Set::new(|i: int| 0 <= i < sorted.len() && sorted[i].kind == kind);
    let place = |i: int| order[i] as int;
    assert(from =~= kind_places(sorted, kind));
    lemma_kind_places(sorted, kind);
    assert(vstd::relations::injective_on(place, from)) by {
        assert forall|i: int, j: int|
            from.contains(i) && from.contains(j) && #[trigger] place(i) == #[trigger] place(
                j,
            ) implies i == j by {
            if i < j {
                assert(order::before(keys, order[i] as int, order[j] as int));
            } else if j < i {
                assert(order::before(keys, order[j] as int, order[i] as int));
            }
        }
    }
    assert(from.map(place) =~= kind_places(changes, kind)) by {
        assert forall|p: int| kind_places(changes, kind).contains(p) implies from.map(
            place,
        ).contains(p) by {
            order::stable_order_has_every_item(keys, order, p);
            let i = choose|i: int| 0 <= i < order.len() && #[trigger] order[i] == p;
            assert(from.contains(i) && place(i) == p);
        }
        assert forall|p: int| from.map(place).contains(p) implies kind_places(
            changes,
            kind,
        ).contains(p) by {
            let i = choose|i: int| from.contains(i) && place(i) == p;
            assert(sorted[i] == changes[order[i] as int]);
        }
    }
    vstd::set_lib::lemma_map_size(from, kind_places(changes, kind), place);
}

/// The larger the difference in length or in space, the earlier a change comes.
pub proof fn the_largest_difference_comes_first(
    previous: IndexModel,
    current: IndexModel,
    i: int,
    j: int,
)
    requires
        all_changes(previous, current).len() <= usize::MAX,
        0 <= i < j < comparison_of(previous, current).changes.len(),
    ensures
        ({
            let first = comparison_of(previous, current).changes[i];
            let second = comparison_of(previous, current).changes[j];
            ||| first.logical_delta >= second.logical_delta && first.logical_delta
                >= -second.logical_delta && first.logical_delta >= second.physical_delta
                && first.logical_delta >= -second.physical_delta
            ||| -first.logical_delta >= second.logical_delta && -first.logical_delta
                >= -second.logical_delta && -first.logical_delta >= second.physical_delta
                && -first.logical_delta >= -second.physical_delta
            ||| first.physical_delta >= second.logical_delta && first.physical_delta
                >= -second.logical_delta && first.physical_delta >= second.physical_delta
                && first.physical_delta >= -second.physical_delta
            ||| -first.physical_delta >= second.logical_delta && -first.physical_delta
                >= -second.logical_delta && -first.physical_delta >= second.physical_delta
                && -first.physical_delta >= -second.physical_delta
        }),
{
    larger_changes_come_first(previous, current, i, j);
    changes_are_told_by_their_differences(previous, current, i);
    changes_are_told_by_their_differences(previous, current, j);
}

/// A snapshot is compared with an index only if both have the same root and
/// treat other file systems alike, and the snapshot is of the known format.
pub proof fn snapshots_of_other_trees_are_refused(snapshot: SnapshotV1, index: IndexModel)
    ensures
        incompatibility(snapshot, index) is None <==> snapshot.schema_version == 1
            && path::same_path(snapshot.index.root@, index.root@) && snapshot.index.one_file_system
            == index.one_file_system,
{
}

/// A snapshot can be read if it is written in the first schema.
pub proof fn only_the_first_schema_can_be_read(snapshot: SnapshotV1)
    ensures
        snapshot.is_readable() <==> snapshot.schema_version == 1,
{
}

/// The last run is compared with where it could be read and is of the same root
/// with the same way to treat other file systems; else it is said why not.
pub proof fn only_a_run_of_the_same_tree_is_a_baseline(
    loaded: Option<Result<SnapshotV1, String>>,
    index: IndexModel,
)
    ensures
        ({
            let fits = loaded is Some && loaded->0 is Ok && path::same_path(
                loaded->0->Ok_0.index@.root@,
                index.root@,
            ) && loaded->0->Ok_0.index@.one_file_system == index.one_file_system;
            &&& fits ==> usable_baseline(loaded, index) == Some(loaded->0->Ok_0.index@)
            &&& !fits ==> usable_baseline(loaded, index) is None
            &&& baseline_warning(loaded, index) is None <==> loaded is None || fits
        }),
{
}

/// The files of the next baseline are those of the run, and of the earlier ones
/// only such as lie at or below a path that could not be read.
pub proof fn baselines_keep_only_what_was_unreadable(
    files: Seq<FileRecord>,
    earlier: Seq<FileRecord>,
    issues: Seq<AnalysisIssue>,
    i: int,
)
    requires
        0 <= i < kept_files(files, earlier, issues).len(),
    ensures
        ({
            let kept = kept_files(files, earlier, issues);
            &&& i < files.len() ==> kept[i] == files[i]
            &&& i >= files.len() ==> earlier.contains(kept[i]) && exists|k: int|
                0 <= k < issues.len() && path::path_starts_with(
                    kept[i].path@,
                    (#[trigger] issues[k]).path@,
                )
            &&& kept.len() >= files.len()
        }),
    decreases earlier.len(),
{
    lemma_kept_length(files, earlier, issues);
    if earlier.len() > 0 {
        let front = earlier.drop_last();
        let rest = kept_files(files, front, issues);
        lemma_kept_length(files, front, issues);
        let kept = kept_files(files, earlier, issues);
        if i < rest.len() {
            baselines_keep_only_what_was_unreadable(files, front, issues, i);
            assert(kept[i] == rest[i]);
            if i >= files.len() {
                let m = choose|m: int| 0 <= m < front.len() && front[m] == rest[i];
                assert(earlier[m] == kept[i]);
            }
        } else {
            assert(kept[i] == earlier.last());
            assert(earlier[earlier.len() - 1] == kept[i]);
        }
    }
}

proof fn lemma_kept_length(
    files: Seq<FileRecord>,
    earlier: Seq<FileRecord>,
    issues: Seq<AnalysisIssue>,
)
    ensures
        kept_files(files, earlier, issues).len() >= files.len(),
    decreases earlier.len(),
{
    if earlier.len() > 0 {
        lemma_kept_length(files, earlier.drop_last(), issues);
    }
}

/// Without a baseline a run is its own next baseline; with one its problems and
/// totals stay its own.
pub proof fn baselines_begin_with_the_run(index: IndexModel, baseline: IndexModel)
    ensures
        next_baseline(index, None) == index,
        next_baseline(index, Some(baseline)).issues == index.issues,
        next_baseline(index, Some(baseline)).root == index.root,
        next_baseline(index, Some(baseline)).completed_at == index.completed_at,
        index.issues.len() == 0 ==> next_baseline(index, Some(baseline)).files == index.files
            && next_baseline(index, Some(baseline)).directories == index.directories,
{
    if index.issues.len() == 0 {
        lemma_nothing_kept(index.files, baseline.files, index.issues);
        lemma_no_directory_kept(index.directories, baseline.directories, index.issues);
    }
}

proof fn lemma_nothing_kept(
    files: Seq<FileRecord>,
    earlier: Seq<FileRecord>,
    issues: Seq<AnalysisIssue>,
)
    requires
        issues.len() == 0,
    ensures
        kept_files(files, earlier, issues) == files,
    decreases earlier.len(),
{
    if earlier.len() > 0 {
        lemma_nothing_kept(files, earlier.drop_last(), issues);
    }
}

proof fn lemma_no_directory_kept(
    directories: Seq<DirectoryRecord>,
    earlier: Seq<DirectoryRecord>,
    issues: Seq<AnalysisIssue>,
)
    requires
        issues.len() == 0,
    ensures
        kept_directories(directories, earlier, issues) == directories,
    decreases earlier.len(),
{
    if earlier.len() > 0 {
        lemma_no_directory_kept(directories, earlier.drop_last(), issues);
    }
}

/// A complete run is compared with the baseline as far as it could be read, and
/// its snapshot takes the place of the old one; a run that is not complete leaves
/// nothing, nor does a store that is not in use.
pub proof fn only_complete_runs_are_kept(
    enabled: bool,
    index: IndexModel,
    loaded: Option<Result<SnapshotV1, String>>,
    now: u64,
    kept: Option<SnapshotV1>,
    comparison: Option<ComparisonModel>,
    warning: Option<Seq<char>>,
)
    requires
        is_left_by(enabled, index, loaded, now, kept, comparison, warning),
    ensures
        !enabled || !index.complete ==> kept is None && comparison is None && warning is None,
        enabled && index.complete ==> kept is Some && kept->0.schema_version == 1
            && kept->0.comparison is None && kept->0.index@.root == index.root
            && kept->0.index@.issues == index.issues,
        enabled && index.complete && loaded is None ==> kept->0.index@ == index
            && comparison is None && warning is None,
        enabled && index.complete && loaded is Some && loaded->0 is Err ==> kept->0.index@ == index
            && comparison is None && warning is Some,
        enabled && index.complete && loaded is Some && loaded->0 is Ok && is_compatible(
            loaded->0->Ok_0.index@,
            index,
        ) ==> comparison == Some(
            comparison_of(
                loaded->0->Ok_0.index@,
                next_baseline(index, Some(loaded->0->Ok_0.index@)),
            ),
        ) && warning is None && kept->0.index@ == next_baseline(
            index,
            Some(loaded->0->Ok_0.index@),
        ),
{
}

/// A snapshot holds the whole index with a summary of all its files.
pub proof fn snapshots_hold_the_whole_index(
    snapshot: SnapshotV1,
    index: IndexModel,
    comparison: Option<ComparisonModel>,
    now: u64,
)
    requires
        is_snapshot_of(snapshot, index, comparison, now),
    ensures
        snapshot.schema_version == 1,
        snapshot.index@ == index,
        snapshot.summary.total == analytics::usage_sum(analytics::file_usages(index.files)),
        comparison is None ==> snapshot.comparison is None,
        comparison is Some ==> snapshot.comparison is Some && snapshot.comparison->0@
            == comparison->0,
{
}

/// The last record of a path is the one that counts, and it counts for no other
/// path.
pub proof fn the_last_record_of_a_path_counts(
    entries: Seq<(PathKey, UsageStats)>,
    path: FilePath,
    usage: UsageStats,
    other: FilePath,
)
    ensures
        usage_at(recorded(entries, path, usage), path) == Some(usage),
        !path::same_path(other@, path@) ==> usage_at(recorded(entries, path, usage), other)
            == usage_at(entries, other),
{
    let key = PathKey { path };
    let place = table::place_of(entries, key);
    table::lemma_place_of(entries, key);
    let after = recorded(entries, path, usage);
    table::lemma_place_of(after, key);
    table::lemma_place_of(entries, PathKey { path: other });
    table::lemma_place_of(after, PathKey { path: other });
    let was = table::place_of(entries, PathKey { path: other });
    let is = table::place_of(after, PathKey { path: other });
    let own = table::place_of(after, key);
    if place < entries.len() {
        assert(after[place].0 == entries[place].0);
        assert forall|i: int| 0 <= i < entries.len() implies after[i].0 == entries[i].0 by {}
        assert(own == place) by {
            if own < place {
                assert(entries[own].0.same_as(key));
            } else if place < own {
                assert(!after[place].0.same_as(key));
            }
        }
    } else {
        assert(after[entries.len() as int].0.same_as(key));
        assert(own == entries.len()) by {
            if own < entries.len() {
                assert(entries[own].0.same_as(key));
            } else if entries.len() < own {
                assert(!after[entries.len() as int].0.same_as(key));
            }
        }
    }
    if !path::same_path(other@, path@) {
        let wanted = PathKey { path: other };
        if was < entries.len() {
            assert(after[was].0.same_as(wanted));
            if is < was {
                assert(entries[is].0.same_as(wanted));
            } else if was < is {
                assert(!after[was].0.same_as(wanted));
            }
        } else if is < after.len() {
            if is < entries.len() {
                assert(entries[is].0.same_as(wanted));
            }
        }
    }
}

} // verus!
