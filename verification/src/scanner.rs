//! What a directory scan finds, and how it adds up.
//!
//! Directories are walked outside; each thing that the walk comes upon is
//! handed over here, and the answer says how the walk goes on.
use vstd::prelude::*;
use vstd::string::StringExecFns;

use crate::path::FilePath;
use crate::text;
use crate::tree;
use crate::tree::{FileIdentity, NodeKind, UsageStats};

verus! {

#[derive(Clone, Copy, Debug, PartialEq, Eq, Structural)]
pub struct ScanOptions {
    pub root_device: u64,
    pub one_file_system: bool,
}

/// One entry of a directory. `modified` counts seconds since the epoch.
#[derive(Debug)]
pub struct DiscoveredEntry {
    pub path: FilePath,
    pub name: FilePath,
    pub kind: NodeKind,
    pub usage: Option<UsageStats>,
    pub error: Option<String>,
    pub identity: Option<FileIdentity>,
    pub modified: Option<i64>,
    pub mountpoint: bool,
}

/// Why a file operation failed.
#[derive(Debug)]
pub struct IoFailure {
    pub denied: bool,
    pub message: String,
}

/// What kind of file a path names, without following links.
#[derive(Clone, Copy, Debug, PartialEq, Eq, Structural)]
pub struct FileType {
    pub is_dir: bool,
    pub is_file: bool,
    pub is_symlink: bool,
}

/// What the file system says of a file.
#[derive(Clone, Copy, Debug, PartialEq, Eq, Structural)]
pub struct FileFacts {
    pub file_type: FileType,
    pub length: u64,
    pub blocks: u64,
    pub identity: FileIdentity,
    pub modified: Option<i64>,
}

/// The allocated bytes: a block has 512 of them.
pub open spec fn allocated(blocks: u64) -> u64 {
    tree::saturated(blocks * 512)
}

pub fn physical_size(blocks: u64) -> (size: u64)
    ensures
        size == allocated(blocks),
{
    match blocks.checked_mul(512) {
        Some(size) => size,
        None => u64::MAX,
    }
}

impl FileType {
    pub open spec fn node_kind(self) -> NodeKind {
        if self.is_dir {
            NodeKind::Directory
        } else if self.is_file {
            NodeKind::File
        } else if self.is_symlink {
            NodeKind::Symlink
        } else {
            NodeKind::Other
        }
    }

    pub fn kind(self) -> (kind: NodeKind)
        ensures
            kind == self.node_kind(),
    {
        if self.is_dir {
            NodeKind::Directory
        } else if self.is_file {
            NodeKind::File
        } else if self.is_symlink {
            NodeKind::Symlink
        } else {
            NodeKind::Other
        }
    }
}

impl FileFacts {
    /// What the file itself takes up; only a regular file counts as one.
    pub open spec fn own_usage(self) -> UsageStats {
        UsageStats {
            logical: self.length,
            physical: allocated(self.blocks),
            files: if self.file_type.is_file {
                1
            } else {
                0
            },
        }
    }

    pub fn usage(&self) -> (usage: UsageStats)
        ensures
            usage == self.own_usage(),
    {
        UsageStats {
            logical: self.length,
            physical: physical_size(self.blocks),
            files: if self.file_type.is_file {
                1
            } else {
                0
            },
        }
    }

    /// Whether the file lies on a file system that the scan stays out of.
    pub open spec fn is_elsewhere(self, options: ScanOptions) -> bool {
        options.one_file_system && self.identity.device != options.root_device
    }

    pub fn elsewhere(&self, options: ScanOptions) -> (result: bool)
        ensures
            result == self.is_elsewhere(options),
    {
        options.one_file_system && self.identity.device != options.root_device
    }
}

/// Whether an entry is a directory on another file system, which is not
/// entered.
pub fn is_mountpoint(kind: NodeKind, identity: FileIdentity, options: ScanOptions) -> (result: bool)
    ensures
        result == (kind == NodeKind::Directory && options.one_file_system && identity.device
            != options.root_device),
{
    kind == NodeKind::Directory && options.one_file_system && identity.device
        != options.root_device
}

/// The problems that a scan met.
#[derive(Debug)]
pub struct ScanWarnings {
    pub error_count: usize,
    pub permission_denied: usize,
    pub first_message: Option<String>,
}

pub struct WarningsModel {
    pub error_count: usize,
    pub permission_denied: usize,
    pub first_message: Option<Seq<char>>,
}

impl View for ScanWarnings {
    type V = WarningsModel;

    open spec fn view(&self) -> WarningsModel {
        WarningsModel {
            error_count: self.error_count,
            permission_denied: self.permission_denied,
            first_message: tree::text_view(self.first_message),
        }
    }
}

impl WarningsModel {
    pub open spec fn none() -> WarningsModel {
        WarningsModel { error_count: 0, permission_denied: 0, first_message: None }
    }

    /// One more problem; the first message is kept.
    pub open spec fn with_message(self, message: Seq<char>) -> WarningsModel {
        WarningsModel {
            error_count: (self.error_count + 1) as usize,
            first_message: if self.first_message is None {
                Some(message)
            } else {
                self.first_message
            },
            ..self
        }
    }

    /// One more failed file operation.
    pub open spec fn with_failure(self, path: Seq<u8>, failure: IoFailure) -> WarningsModel {
        let counted = WarningsModel {
            permission_denied: if failure.denied {
                (self.permission_denied + 1) as usize
            } else {
                self.permission_denied
            },
            ..self
        };
        counted.with_message(failure_text(path, failure))
    }

    /// Whether both counters can go on.
    pub open spec fn has_room(self) -> bool {
        self.error_count < usize::MAX && self.permission_denied < usize::MAX
    }
}

/// How a failed file operation is reported.
pub open spec fn failure_text(path: Seq<u8>, failure: IoFailure) -> Seq<char> {
    if failure.denied {
        "Permission denied: "@ + text::lossy_text(path)
    } else {
        located(path, failure.message@)
    }
}

/// A message with the path that it is about.
pub open spec fn located(path: Seq<u8>, message: Seq<char>) -> Seq<char> {
    text::lossy_text(path) + ": "@ + message
}

fn locate(path: &FilePath, message: &str) -> (result: String)
    ensures
        result@ == located(path@, message@),
{
    let mut result = path.display();
    result.append(": ");
    result.append(message);
    result
}

impl Default for ScanWarnings {
    fn default() -> (warnings: Self)
        ensures
            warnings@ == WarningsModel::none(),
    {
        ScanWarnings { error_count: 0, permission_denied: 0, first_message: None }
    }
}

impl ScanWarnings {
    /// Counts a failed file operation.
    pub fn record_io(&mut self, path: &FilePath, failure: &IoFailure)
        requires
            old(self)@.has_room(),
        ensures
            final(self)@ == old(self)@.with_failure(path@, *failure),
    {
        if failure.denied {
            self.permission_denied += 1;
            let mut message = String::new();
            message.append("Permission denied: ");
            let shown = path.display();
            message.append(shown.as_str());
            assert(message@ =~= failure_text(path@, *failure));
            self.record_message(message);
        } else {
            let message = locate(path, failure.message.as_str());
            self.record_message(message);
        }
    }

    /// Counts a problem.
    pub fn record_message(&mut self, message: String)
        requires
            old(self).error_count < usize::MAX,
        ensures
            final(self)@ == old(self)@.with_message(message@),
    {
        self.error_count += 1;
        if self.first_message.is_none() {
            self.first_message = Some(message);
        }
    }
}

/// What listing a directory comes upon.
#[derive(Debug)]
pub enum DirItem {
    /// The listing failed at some entry.
    Unreadable { failure: IoFailure },
    /// An entry of which the file system says nothing.
    Unknown { path: FilePath, name: FilePath, failure: IoFailure },
    Entry { path: FilePath, name: FilePath, facts: FileFacts },
}

#[derive(Debug)]
pub struct LoadOutcome {
    pub entries: Vec<DiscoveredEntry>,
    pub warnings: ScanWarnings,
    pub cancelled: bool,
}

/// Whether an entry is what the file system says of it.
pub open spec fn describes(
    entry: DiscoveredEntry,
    path: FilePath,
    name: FilePath,
    facts: FileFacts,
    options: ScanOptions,
) -> bool {
    let kind = facts.file_type.node_kind();
    &&& entry.path == path
    &&& entry.name == name
    &&& entry.kind == kind
    &&& entry.usage == (if kind == NodeKind::Directory {
        None
    } else {
        Some(
            UsageStats {
                logical: facts.length,
                physical: allocated(facts.blocks),
                files: if kind == NodeKind::File {
                    1
                } else {
                    0
                },
            },
        )
    })
    &&& entry.error is None
    &&& entry.identity == Some(facts.identity)
    &&& entry.modified == facts.modified
    &&& entry.mountpoint == (kind == NodeKind::Directory && facts.is_elsewhere(options))
}

/// Whether an entry stands for one of which the file system says nothing.
pub open spec fn describes_unknown(
    entry: DiscoveredEntry,
    path: FilePath,
    name: FilePath,
    failure: IoFailure,
) -> bool {
    &&& entry.path == path
    &&& entry.name == name
    &&& entry.kind == NodeKind::Other
    &&& entry.usage is None
    &&& tree::text_view(entry.error) == Some(failure.message@)
    &&& entry.identity is None
    &&& entry.modified is None
    &&& !entry.mountpoint
}

/// Whether a listing is what it was with one more item taken in.
pub open spec fn takes_in(
    before: LoadOutcome,
    directory: Seq<u8>,
    item: DirItem,
    options: ScanOptions,
    after: LoadOutcome,
) -> bool {
    &&& after.cancelled == before.cancelled
    &&& match item {
        DirItem::Unreadable { failure } => {
            &&& after.entries@ == before.entries@
            &&& after.warnings@ == before.warnings@.with_failure(directory, failure)
        },
        DirItem::Unknown { path, name, failure } => {
            &&& after.entries@.len() == before.entries@.len() + 1
            &&& after.entries@.drop_last() == before.entries@
            &&& describes_unknown(after.entries@.last(), path, name, failure)
            &&& after.warnings@ == before.warnings@.with_failure(path@, failure)
        },
        DirItem::Entry { path, name, facts } => {
            &&& after.entries@.len() == before.entries@.len() + 1
            &&& after.entries@.drop_last() == before.entries@
            &&& describes(after.entries@.last(), path, name, facts, options)
            &&& after.warnings@ == before.warnings@
        },
    }
}

impl LoadOutcome {
    pub fn new() -> (outcome: Self)
        ensures
            outcome.entries@.len() == 0,
            outcome.warnings@ == WarningsModel::none(),
            !outcome.cancelled,
    {
        LoadOutcome { entries: Vec::new(), warnings: ScanWarnings::default(), cancelled: false }
    }

    /// Takes in one more item of the listing of `directory`. An entry that
    /// cannot be examined is listed with its error.
    pub fn accept(&mut self, directory: &FilePath, item: DirItem, options: ScanOptions)
        requires
            old(self).warnings@.has_room(),
        ensures
            takes_in(*old(self), directory@, item, options, *final(self)),
            final(self).cancelled == old(self).cancelled,
            match item {
                DirItem::Unreadable { failure } => {
                    &&& final(self).entries@ == old(self).entries@
                    &&& final(self).warnings@ == old(self).warnings@.with_failure(
                        directory@,
                        failure,
                    )
                },
                DirItem::Unknown { path, name, failure } => {
                    &&& final(self).entries@.len() == old(self).entries@.len() + 1
                    &&& final(self).entries@.drop_last() == old(self).entries@
                    &&& describes_unknown(final(self).entries@.last(), path, name, failure)
                    &&& final(self).warnings@ == old(self).warnings@.with_failure(path@, failure)
                },
                DirItem::Entry { path, name, facts } => {
                    &&& final(self).entries@.len() == old(self).entries@.len() + 1
                    &&& final(self).entries@.drop_last() == old(self).entries@
                    &&& describes(final(self).entries@.last(), path, name, facts, options)
                    &&& final(self).warnings@ == old(self).warnings@
                },
            },
    {
        let ghost before = self.entries@;
        match item {
            DirItem::Unreadable { failure } => {
                self.warnings.record_io(directory, &failure);
            },
            DirItem::Unknown { path, name, failure } => {
                self.warnings.record_io(&path, &failure);
                self.entries.push(
                    DiscoveredEntry {
                        path,
                        name,
                        kind: NodeKind::Other,
                        usage: None,
                        error: Some(failure.message),
                        identity: None,
                        modified: None,
                        mountpoint: false,
                    },
                );
                assert(self.entries@.drop_last() =~= before);
            },
            DirItem::Entry { path, name, facts } => {
                let kind = facts.file_type.kind();
                let mountpoint = is_mountpoint(kind, facts.identity, options);
                let usage = match kind {
                    NodeKind::Directory => None,
                    NodeKind::File => Some(
                        UsageStats {
                            logical: facts.length,
                            physical: physical_size(facts.blocks),
                            files: 1,
                        },
                    ),
                    NodeKind::Symlink | NodeKind::Other => Some(
                        UsageStats {
                            logical: facts.length,
                            physical: physical_size(facts.blocks),
                            files: 0,
                        },
                    ),
                };
                self.entries.push(
                    DiscoveredEntry {
                        path,
                        name,
                        kind,
                        usage,
                        error: None,
                        identity: Some(facts.identity),
                        modified: facts.modified,
                        mountpoint,
                    },
                );
                assert(self.entries@.drop_last() =~= before);
            },
        }
    }

    /// Ends the listing early.
    pub fn cancel(&mut self)
        ensures
            *final(self) == (LoadOutcome { cancelled: true, ..*old(self) }),
    {
        self.cancelled = true;
    }
}

/// What a walk through a directory tree comes upon.
#[derive(Debug)]
pub enum WalkItem {
    /// The walk failed at some path; `at_root` when it failed at its start.
    /// `cause` is the failed file operation, if that was the reason: of a walk
    /// that failed at its start it tells why.
    Failed { place: Option<FilePath>, at_root: bool, message: String, cause: Option<IoFailure> },
    /// A path of which the file system says nothing.
    Unknown { path: FilePath, failure: IoFailure },
    Entry { path: FilePath, at_root: bool, file_type: FileType, facts: FileFacts },
}

/// How a walk goes on.
#[derive(Clone, Copy, Debug, PartialEq, Eq, Structural)]
pub enum WalkStep {
    Continue,
    SkipDirectory,
    Stop,
}

#[derive(Debug)]
pub struct ScanOutcome {
    pub usage: UsageStats,
    pub warnings: ScanWarnings,
    pub fatal_error: Option<String>,
    pub cancelled: bool,
    pub mounts_skipped: usize,
}

pub struct OutcomeModel {
    pub usage: UsageStats,
    pub warnings: WarningsModel,
    pub fatal_error: Option<Seq<char>>,
    pub cancelled: bool,
    pub mounts_skipped: usize,
}

impl View for ScanOutcome {
    type V = OutcomeModel;

    open spec fn view(&self) -> OutcomeModel {
        OutcomeModel {
            usage: self.usage,
            warnings: self.warnings@,
            fatal_error: tree::text_view(self.fatal_error),
            cancelled: self.cancelled,
            mounts_skipped: self.mounts_skipped,
        }
    }
}

/// What an item of a walk adds to the size of the tree: regular files and
/// links count, except the start of the walk and what lies elsewhere.
pub open spec fn counted_usage(item: WalkItem, options: ScanOptions) -> UsageStats {
    match item {
        WalkItem::Entry { path, at_root, file_type, facts } => {
            if facts.is_elsewhere(options) || at_root || file_type.is_dir {
                UsageStats::zero()
            } else if file_type.is_file || file_type.is_symlink {
                UsageStats {
                    logical: facts.length,
                    physical: allocated(facts.blocks),
                    files: if file_type.is_file {
                        1
                    } else {
                        0
                    },
                }
            } else {
                UsageStats::zero()
            }
        },
        _ => UsageStats::zero(),
    }
}

/// Whether an item of a walk is a directory that is not entered.
pub open spec fn is_skipped(item: WalkItem, options: ScanOptions) -> bool {
    match item {
        WalkItem::Entry { path, at_root, file_type, facts } => {
            facts.is_elsewhere(options) && file_type.is_dir
        },
        _ => false,
    }
}

impl OutcomeModel {
    pub open spec fn empty() -> OutcomeModel {
        OutcomeModel {
            usage: UsageStats::zero(),
            warnings: WarningsModel::none(),
            fatal_error: None,
            cancelled: false,
            mounts_skipped: 0,
        }
    }

    /// The outcome with one more item of the walk from `root`.
    pub open spec fn after(self, root: Seq<u8>, item: WalkItem, options: ScanOptions) -> OutcomeModel {
        match item {
            WalkItem::Failed { place, at_root, message, cause } => {
                let spot = match place {
                    Some(place) => place@,
                    None => root,
                };
                let told = match cause {
                    Some(cause) => cause.message@,
                    None => message@,
                };
                OutcomeModel {
                    fatal_error: if at_root {
                        Some(located(spot, told))
                    } else {
                        self.fatal_error
                    },
                    warnings: match cause {
                        Some(cause) => self.warnings.with_failure(spot, cause),
                        None => self.warnings.with_message(located(spot, message@)),
                    },
                    ..self
                }
            },
            WalkItem::Unknown { path, failure } => OutcomeModel {
                warnings: self.warnings.with_failure(path@, failure),
                ..self
            },
            WalkItem::Entry { .. } => OutcomeModel {
                usage: self.usage.plus(counted_usage(item, options)),
                mounts_skipped: if is_skipped(item, options) {
                    (self.mounts_skipped + 1) as usize
                } else {
                    self.mounts_skipped
                },
                ..self
            },
        }
    }

    /// How the walk goes on behind an item.
    pub open spec fn step(self, item: WalkItem, options: ScanOptions) -> WalkStep {
        if is_skipped(item, options) {
            WalkStep::SkipDirectory
        } else if item is Failed && self.fatal_error is Some {
            WalkStep::Stop
        } else {
            WalkStep::Continue
        }
    }

    pub open spec fn has_room(self) -> bool {
        self.warnings.has_room() && self.mounts_skipped < usize::MAX
    }

    /// The outcome of a walk that comes upon the given items.
    pub open spec fn of_walk(root: Seq<u8>, items: Seq<WalkItem>, options: ScanOptions) -> OutcomeModel
        decreases items.len(),
    {
        if items.len() == 0 {
            OutcomeModel::empty()
        } else {
            OutcomeModel::of_walk(root, items.drop_last(), options).after(
                root,
                items.last(),
                options,
            )
        }
    }
}

impl ScanOutcome {
    pub fn new() -> (outcome: Self)
        ensures
            outcome@ == OutcomeModel::empty(),
    {
        ScanOutcome {
            usage: UsageStats::default(),
            warnings: ScanWarnings::default(),
            fatal_error: None,
            cancelled: false,
            mounts_skipped: 0,
        }
    }

    /// Takes in one more item of the walk from `root`.
    pub fn accept(&mut self, root: &FilePath, item: WalkItem, options: ScanOptions) -> (step:
        WalkStep)
        requires
            old(self)@.has_room(),
        ensures
            final(self)@ == old(self)@.after(root@, item, options),
            step == final(self)@.step(item, options),
    {
        match item {
            WalkItem::Failed { place, at_root, message, cause } => {
                let spot: FilePath = match place {
                    Some(place) => place,
                    None => root.clone(),
                };
                if at_root {
                    let told: &str = match &cause {
                        Some(cause) => cause.message.as_str(),
                        None => message.as_str(),
                    };
                    self.fatal_error = Some(locate(&spot, told));
                }
                match cause {
                    Some(cause) => {
                        self.warnings.record_io(&spot, &cause);
                    },
                    None => {
                        let text = locate(&spot, message.as_str());
                        self.warnings.record_message(text);
                    },
                }
                if self.fatal_error.is_some() {
                    WalkStep::Stop
                } else {
                    WalkStep::Continue
                }
            },
            WalkItem::Unknown { path, failure } => {
                self.warnings.record_io(&path, &failure);
                WalkStep::Continue
            },
            WalkItem::Entry { path, at_root, file_type, facts } => {
                if facts.elsewhere(options) {
                    if file_type.is_dir {
                        self.mounts_skipped += 1;
                        return WalkStep::SkipDirectory;
                    }
                    return WalkStep::Continue;
                }
                if at_root || file_type.is_dir {
                    return WalkStep::Continue;
                }
                if file_type.is_file {
                    self.usage.logical = self.usage.logical.saturating_add(facts.length);
                    self.usage.physical = self.usage.physical.saturating_add(
                        physical_size(facts.blocks),
                    );
                    self.usage.files = self.usage.files.saturating_add(1);
                } else if file_type.is_symlink {
                    self.usage.logical = self.usage.logical.saturating_add(facts.length);
                    self.usage.physical = self.usage.physical.saturating_add(
                        physical_size(facts.blocks),
                    );
                }
                WalkStep::Continue
            },
        }
    }

    /// Ends the walk early.
    pub fn cancel(&mut self)
        ensures
            *final(self) == (ScanOutcome { cancelled: true, ..*old(self) }),
    {
        self.cancelled = true;
    }
}

/// The sum of what the items of a walk count.
pub open spec fn walk_usage(items: Seq<WalkItem>, options: ScanOptions) -> UsageStats
    decreases items.len(),
{
    if items.len() == 0 {
        UsageStats::zero()
    } else {
        walk_usage(items.drop_last(), options).plus(counted_usage(items.last(), options))
    }
}

/// The size of a tree is the sum of its files and links; problems on the way
/// leave it unchanged and do not end the walk, except one at its start.
pub proof fn size_is_the_sum_of_the_entries(root: Seq<u8>, items: Seq<WalkItem>, options: ScanOptions)
    ensures
        OutcomeModel::of_walk(root, items, options).usage == walk_usage(items, options),
        OutcomeModel::of_walk(root, items, options).fatal_error is Some <==> exists|i: int|
            0 <= i < items.len() && is_fatal(#[trigger] items[i]),
    decreases items.len(),
{
    if items.len() > 0 {
        let rest = items.drop_last();
        size_is_the_sum_of_the_entries(root, rest, options);
        assert forall|i: int| 0 <= i < rest.len() && is_fatal(#[trigger] rest[i]) implies is_fatal(
            items[i],
        ) by {}
        assert forall|i: int| 0 <= i < items.len() && is_fatal(#[trigger] items[i]) implies i
            == items.len() - 1 || is_fatal(rest[i]) by {}
    }
}

/// Whether the walk failed at its start.
pub open spec fn is_fatal(item: WalkItem) -> bool {
    match item {
        WalkItem::Failed { place, at_root, message, cause } => at_root,
        _ => false,
    }
}

/// A walk that has begun well goes on behind every problem.
pub proof fn problems_do_not_end_a_walk(
    root: Seq<u8>,
    before: OutcomeModel,
    item: WalkItem,
    options: ScanOptions,
)
    requires
        before.fatal_error is None,
        !is_fatal(item),
    ensures
        before.after(root, item, options).fatal_error is None,
        before.after(root, item, options).step(item, options) != WalkStep::Stop,
{
}

/// What lies on another file system adds nothing to a scan that stays on one,
/// and a directory there is not entered.
pub proof fn other_file_systems_are_left_out(
    root: Seq<u8>,
    before: OutcomeModel,
    path: FilePath,
    at_root: bool,
    file_type: FileType,
    facts: FileFacts,
    options: ScanOptions,
)
    requires
        options.one_file_system,
        facts.identity.device != options.root_device,
    ensures
        ({
            let item = WalkItem::Entry { path, at_root, file_type, facts };
            let after = before.after(root, item, options);
            &&& after.usage == before.usage
            &&& file_type.is_dir ==> after.step(item, options) == WalkStep::SkipDirectory
        }),
{
}

/// A symbolic link counts with its own length, and not as a file; the walk does
/// not follow it.
pub proof fn links_count_for_themselves(
    root: Seq<u8>,
    before: OutcomeModel,
    path: FilePath,
    file_type: FileType,
    facts: FileFacts,
    options: ScanOptions,
)
    requires
        file_type == (FileType { is_dir: false, is_file: false, is_symlink: true }),
        !facts.is_elsewhere(options),
    ensures
        ({
            let item = WalkItem::Entry { path, at_root: false, file_type, facts };
            let after = before.after(root, item, options);
            &&& after.usage.logical == tree::saturated(before.usage.logical + facts.length)
            &&& after.usage.physical == tree::saturated(
                before.usage.physical + allocated(facts.blocks),
            )
            &&& after.usage.files == before.usage.files
            &&& after.step(item, options) != WalkStep::SkipDirectory
        }),
{
}

/// A regular file adds its length to the size of a tree, the 512 bytes of each
/// of its blocks to the space that the tree takes up, and one to the number of
/// files. Each sum ends at the largest number.
pub proof fn files_count_with_their_length(
    root: Seq<u8>,
    before: OutcomeModel,
    path: FilePath,
    file_type: FileType,
    facts: FileFacts,
    options: ScanOptions,
)
    requires
        file_type.is_file,
        !file_type.is_dir,
        !options.one_file_system || facts.identity.device == options.root_device,
    ensures
        ({
            let item = WalkItem::Entry { path, at_root: false, file_type, facts };
            let after = before.after(root, item, options).usage;
            let logical = before.usage.logical + facts.length;
            let physical = before.usage.physical + 512 * facts.blocks;
            let files = before.usage.files + 1;
            &&& after.logical == if logical <= u64::MAX {
                logical
            } else {
                u64::MAX as int
            }
            &&& after.physical == if physical <= u64::MAX {
                physical
            } else {
                u64::MAX as int
            }
            &&& after.files == if files <= u64::MAX {
                files
            } else {
                u64::MAX as int
            }
        }),
{
}

/// Directories, the start of a walk, and entries that are neither files nor
/// links add nothing to a size. A link adds no file.
pub proof fn only_files_and_links_have_a_size(
    root: Seq<u8>,
    before: OutcomeModel,
    path: FilePath,
    at_root: bool,
    file_type: FileType,
    facts: FileFacts,
    options: ScanOptions,
)
    ensures
        ({
            let item = WalkItem::Entry { path, at_root, file_type, facts };
            let after = before.after(root, item, options);
            &&& at_root || file_type.is_dir || !(file_type.is_file || file_type.is_symlink)
                ==> after.usage == before.usage
            &&& !file_type.is_file ==> after.usage.files == before.usage.files
            &&& after.warnings == before.warnings
            &&& after.fatal_error == before.fatal_error
        }),
{
}

/// A link counts with its own length and its own blocks of 512 bytes.
pub proof fn links_take_up_their_blocks(
    root: Seq<u8>,
    before: OutcomeModel,
    path: FilePath,
    file_type: FileType,
    facts: FileFacts,
    options: ScanOptions,
)
    requires
        file_type.is_symlink,
        !file_type.is_dir,
        !options.one_file_system || facts.identity.device == options.root_device,
    ensures
        ({
            let item = WalkItem::Entry { path, at_root: false, file_type, facts };
            let after = before.after(root, item, options).usage;
            let logical = before.usage.logical + facts.length;
            let physical = before.usage.physical + 512 * facts.blocks;
            &&& after.logical == if logical <= u64::MAX {
                logical
            } else {
                u64::MAX as int
            }
            &&& after.physical == if physical <= u64::MAX {
                physical
            } else {
                u64::MAX as int
            }
        }),
{
}

/// A directory on another file system is counted as skipped, once, and nothing
/// else is. Without the wish to stay on one file system nothing is skipped.
pub proof fn skipped_directories_are_counted(
    root: Seq<u8>,
    before: OutcomeModel,
    path: FilePath,
    at_root: bool,
    file_type: FileType,
    facts: FileFacts,
    options: ScanOptions,
)
    requires
        before.mounts_skipped < usize::MAX,
    ensures
        ({
            let item = WalkItem::Entry { path, at_root, file_type, facts };
            let after = before.after(root, item, options);
            let skipped = file_type.is_dir && options.one_file_system && facts.identity.device
                != options.root_device;
            &&& after.mounts_skipped == before.mounts_skipped + if skipped {
                1int
            } else {
                0int
            }
            &&& after.step(item, options) == WalkStep::SkipDirectory <==> skipped
        }),
{
}

/// Each problem of a walk is counted once, a refused access among those too.
/// The first problem is the one that is told. The size stays as it is.
pub proof fn problems_are_counted(
    root: Seq<u8>,
    before: OutcomeModel,
    item: WalkItem,
    options: ScanOptions,
)
    requires
        before.has_room(),
        !(item is Entry),
    ensures
        ({
            let after = before.after(root, item, options);
            let denied = match item {
                WalkItem::Failed { place, at_root, message, cause } => cause matches Some(failure)
                    && failure.denied,
                WalkItem::Unknown { path, failure } => failure.denied,
                _ => false,
            };
            &&& after.usage == before.usage
            &&& after.mounts_skipped == before.mounts_skipped
            &&& after.warnings.error_count == before.warnings.error_count + 1
            &&& after.warnings.permission_denied == before.warnings.permission_denied + if denied {
                1int
            } else {
                0int
            }
            &&& after.warnings.first_message is Some
            &&& before.warnings.first_message is Some ==> after.warnings.first_message
                == before.warnings.first_message
        }),
{
}

/// An entry of a listing takes up the length of its file and 512 bytes for each
/// of its blocks. Only a regular file counts as one, the size of a directory is
/// not known yet, and only a directory on another file system is a mount point.
pub proof fn listed_entries_take_up_their_blocks(
    entry: DiscoveredEntry,
    path: FilePath,
    name: FilePath,
    facts: FileFacts,
    options: ScanOptions,
)
    requires
        describes(entry, path, name, facts, options),
    ensures
        entry.kind == NodeKind::Directory <==> facts.file_type.is_dir,
        entry.kind == NodeKind::File <==> facts.file_type.is_file && !facts.file_type.is_dir,
        entry.kind == NodeKind::Symlink <==> facts.file_type.is_symlink && !facts.file_type.is_dir
            && !facts.file_type.is_file,
        entry.usage is None <==> facts.file_type.is_dir,
        entry.usage matches Some(usage) ==> {
            &&& usage.logical == facts.length
            &&& usage.physical == if 512 * facts.blocks <= u64::MAX {
                512 * facts.blocks
            } else {
                u64::MAX as int
            }
            &&& usage.files == if facts.file_type.is_file {
                1int
            } else {
                0int
            }
        },
        entry.mountpoint <==> facts.file_type.is_dir && options.one_file_system
            && facts.identity.device != options.root_device,
        entry.path == path,
        entry.name == name,
        entry.identity == Some(facts.identity),
        entry.modified == facts.modified,
{
}

/// A root that cannot be walked ends the walk with what went wrong there; a
/// problem anywhere else does not.
pub proof fn only_a_failed_root_ends_a_walk(
    root: Seq<u8>,
    before: OutcomeModel,
    place: Option<FilePath>,
    at_root: bool,
    message: String,
    cause: Option<IoFailure>,
    options: ScanOptions,
)
    requires
        before.fatal_error is None,
    ensures
        ({
            let item = WalkItem::Failed { place, at_root, message, cause };
            let after = before.after(root, item, options);
            let spot = if place is Some {
                place->0@
            } else {
                root
            };
            let told = if cause is Some {
                cause->0.message@
            } else {
                message@
            };
            &&& at_root ==> after.fatal_error == Some(text::lossy_text(spot) + ": "@ + told)
            &&& at_root ==> after.step(item, options) == WalkStep::Stop
            &&& !at_root ==> after.fatal_error is None
            &&& !at_root ==> after.step(item, options) == WalkStep::Continue
        }),
{
}

/// The first problem is told with the place where it came up; a missing
/// permission is told as such.
pub proof fn the_first_problem_is_told(
    root: Seq<u8>,
    before: OutcomeModel,
    path: FilePath,
    failure: IoFailure,
    options: ScanOptions,
)
    requires
        before.warnings.first_message is None,
    ensures
        ({
            let after = before.after(root, WalkItem::Unknown { path, failure }, options);
            &&& failure.denied ==> after.warnings.first_message == Some(
                "Permission denied: "@ + text::lossy_text(path@),
            )
            &&& !failure.denied ==> after.warnings.first_message == Some(
                text::lossy_text(path@) + ": "@ + failure.message@,
            )
        }),
{
}

/// An entry that cannot be looked at is listed with its problem and nothing else.
pub proof fn unknown_entries_are_listed(
    entry: DiscoveredEntry,
    path: FilePath,
    name: FilePath,
    failure: IoFailure,
)
    requires
        describes_unknown(entry, path, name, failure),
    ensures
        entry.path == path,
        entry.name == name,
        entry.kind == NodeKind::Other,
        entry.usage is None,
        entry.identity is None,
        entry.error is Some,
        entry.error->0@ == failure.message@,
        !entry.mountpoint,
{
}

/// What an entry takes up itself is its length and its blocks of 512 bytes, and
/// it counts as one file if it is one.
pub proof fn entries_take_up_their_length_and_blocks(facts: FileFacts)
    ensures
        facts.own_usage().logical == facts.length,
        512 * facts.blocks <= u64::MAX ==> facts.own_usage().physical == 512 * facts.blocks,
        512 * facts.blocks > u64::MAX ==> facts.own_usage().physical == u64::MAX,
        facts.file_type.is_file ==> facts.own_usage().files == 1,
        !facts.file_type.is_file ==> facts.own_usage().files == 0,
{
}

/// Only where one file system was asked for is an entry elsewhere, and only if it
/// lies on another device than the root.
pub proof fn other_devices_are_elsewhere(facts: FileFacts, options: ScanOptions)
    ensures
        !options.one_file_system ==> !facts.is_elsewhere(options),
        options.one_file_system ==> (facts.is_elsewhere(options) <==> facts.identity.device
            != options.root_device),
{
}

/// Each item of a listing adds one entry, except where the listing itself cannot
/// be read; what cannot be read counts as one problem.
pub proof fn each_item_adds_one_entry(
    before: LoadOutcome,
    directory: Seq<u8>,
    item: DirItem,
    options: ScanOptions,
    after: LoadOutcome,
)
    requires
        takes_in(before, directory, item, options, after),
        before.warnings@.has_room(),
    ensures
        item is Unreadable ==> after.entries@ == before.entries@,
        !(item is Unreadable) ==> after.entries@.len() == before.entries@.len() + 1
            && after.entries@.drop_last() == before.entries@,
        item is Entry ==> after.warnings@ == before.warnings@ && after.entries@.last().error is None
            && after.entries@.last().identity == Some(item->Entry_facts.identity)
            && after.entries@.last().path == item->Entry_path,
        item is Unknown ==> after.entries@.last().error is Some && after.entries@.last().usage is None
            && after.entries@.last().path == item->Unknown_path,
        !(item is Entry) ==> after.warnings@.error_count == before.warnings@.error_count + 1,
        after.cancelled == before.cancelled,
{
}

} // verus!
