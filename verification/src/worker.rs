//! What the workers are asked to do and what they report.
use vstd::prelude::*;

use crate::analytics::{AnalysisEvent, AnalysisIssue, DuplicateGroup, FileRecord};
use crate::duplicates;
use crate::indexing::IndexResult;
use crate::path::FilePath;
use crate::scanner::{LoadOutcome, ScanOptions, ScanOutcome};
use crate::tree::NodeId;

verus! {

#[derive(Debug)]
pub enum ScanJob {
    LoadChildren { generation: u64, node_id: NodeId, path: FilePath, options: ScanOptions },
    CalculateSize {
        generation: u64,
        node_id: NodeId,
        scan_revision: u64,
        path: FilePath,
        options: ScanOptions,
    },
}

#[allow(inconsistent_fields)]
#[derive(Debug)]
pub enum WorkerEvent {
    SizeStarted { generation: u64, node_id: NodeId, scan_revision: u64 },
    ChildrenLoaded { generation: u64, node_id: NodeId, outcome: LoadOutcome },
    ChildrenLoadFailed { generation: u64, node_id: NodeId, message: String },
    SizeCalculated {
        generation: u64,
        node_id: NodeId,
        scan_revision: u64,
        outcome: ScanOutcome,
    },
}

impl ScanJob {
    pub open spec fn made_in(self) -> u64 {
        match self {
            ScanJob::LoadChildren { generation, .. } => generation,
            ScanJob::CalculateSize { generation, .. } => generation,
        }
    }

    /// The generation that the job belongs to.
    pub fn generation(&self) -> (result: u64)
        ensures
            result == self.made_in(),
    {
        match self {
            ScanJob::LoadChildren { generation, .. } => *generation,
            ScanJob::CalculateSize { generation, .. } => *generation,
        }
    }

    /// Whether the job has not been given up.
    pub fn is_wanted(&self, active: u64) -> (result: bool)
        ensures
            result == (self.made_in() == active),
    {
        self.generation() == active
    }

    /// What is reported before the job is done.
    pub fn announcement(&self) -> (event: Option<WorkerEvent>)
        ensures
            event == (match *self {
                ScanJob::LoadChildren { .. } => None,
                ScanJob::CalculateSize { generation, node_id, scan_revision, .. } => Some(
                    WorkerEvent::SizeStarted { generation, node_id, scan_revision },
                ),
            }),
    {
        match self {
            ScanJob::LoadChildren { .. } => None,
            ScanJob::CalculateSize { generation, node_id, scan_revision, .. } => Some(
                WorkerEvent::SizeStarted {
                    generation: *generation,
                    node_id: *node_id,
                    scan_revision: *scan_revision,
                },
            ),
        }
    }
}

impl WorkerEvent {
    pub open spec fn made_in(self) -> u64 {
        match self {
            WorkerEvent::SizeStarted { generation, .. } => generation,
            WorkerEvent::ChildrenLoaded { generation, .. } => generation,
            WorkerEvent::ChildrenLoadFailed { generation, .. } => generation,
            WorkerEvent::SizeCalculated { generation, .. } => generation,
        }
    }

    /// The generation that the event belongs to.
    pub fn generation(&self) -> (result: u64)
        ensures
            result == self.made_in(),
    {
        match self {
            WorkerEvent::SizeStarted { generation, .. } => *generation,
            WorkerEvent::ChildrenLoaded { generation, .. } => *generation,
            WorkerEvent::ChildrenLoadFailed { generation, .. } => *generation,
            WorkerEvent::SizeCalculated { generation, .. } => *generation,
        }
    }
}

/// What a worker reports of a directory whose entries were read: nothing where
/// the work was cancelled.
pub open spec fn load_report(
    generation: u64,
    node_id: NodeId,
    outcome: Result<LoadOutcome, String>,
) -> Option<WorkerEvent> {
    match outcome {
        Ok(outcome) => if outcome.cancelled {
            None
        } else {
            Some(WorkerEvent::ChildrenLoaded { generation, node_id, outcome })
        },
        Err(message) => Some(WorkerEvent::ChildrenLoadFailed { generation, node_id, message }),
    }
}

pub fn report_load(
    generation: u64,
    node_id: NodeId,
    outcome: Result<LoadOutcome, String>,
) -> (event: Option<WorkerEvent>)
    ensures
        event == load_report(generation, node_id, outcome),
{
    match outcome {
        Ok(outcome) => {
            if outcome.cancelled {
                None
            } else {
                Some(WorkerEvent::ChildrenLoaded { generation, node_id, outcome })
            }
        },
        Err(message) => Some(WorkerEvent::ChildrenLoadFailed { generation, node_id, message }),
    }
}

/// What a worker reports of a directory that was measured: nothing where the
/// work was cancelled.
pub open spec fn size_report(
    generation: u64,
    node_id: NodeId,
    scan_revision: u64,
    outcome: ScanOutcome,
) -> Option<WorkerEvent> {
    if outcome.cancelled {
        None
    } else {
        Some(WorkerEvent::SizeCalculated { generation, node_id, scan_revision, outcome })
    }
}

pub fn report_size(
    generation: u64,
    node_id: NodeId,
    scan_revision: u64,
    outcome: ScanOutcome,
) -> (event: Option<WorkerEvent>)
    ensures
        event == size_report(generation, node_id, scan_revision, outcome),
        event == (if outcome.cancelled {
            None
        } else {
            Some(WorkerEvent::SizeCalculated { generation, node_id, scan_revision, outcome })
        }),
{
    if outcome.cancelled {
        None
    } else {
        Some(WorkerEvent::SizeCalculated { generation, node_id, scan_revision, outcome })
    }
}

/// What the analysis worker is asked to do.
#[derive(Debug)]
pub enum AnalysisRequest {
    Index { generation: u64, root: FilePath, options: ScanOptions },
    Duplicates { generation: u64, files: Vec<FileRecord> },
}

impl AnalysisRequest {
    pub open spec fn made_in(self) -> u64 {
        match self {
            AnalysisRequest::Index { generation, .. } => generation,
            AnalysisRequest::Duplicates { generation, .. } => generation,
        }
    }

    /// The generation that the request belongs to.
    pub fn generation(&self) -> (result: u64)
        ensures
            result == self.made_in(),
    {
        match self {
            AnalysisRequest::Index { generation, .. } => *generation,
            AnalysisRequest::Duplicates { generation, .. } => *generation,
        }
    }

    /// Whether the request has not been given up.
    pub fn is_wanted(&self, active: u64) -> (result: bool)
        ensures
            result == (self.made_in() == active),
    {
        self.generation() == active
    }

    /// What is reported before the work begins at the given time.
    pub fn announcement(&self, now: u64) -> (event: AnalysisEvent)
        ensures
            match *self {
                AnalysisRequest::Index { generation, root, .. } => event == (
                AnalysisEvent::Started { generation, scan_root: root, started_at: now }),
                AnalysisRequest::Duplicates { generation, files } => event matches AnalysisEvent::DuplicatesStarted {
                    generation: stated,
                    candidates,
                } && stated == generation && candidates == files@.filter(
                    duplicates::shares_size(files@),
                ).len(),
            },
    {
        match self {
            AnalysisRequest::Index { generation, root, .. } => AnalysisEvent::Started {
                generation: *generation,
                scan_root: root.clone(),
                started_at: now,
            },
            AnalysisRequest::Duplicates { generation, files } => AnalysisEvent::DuplicatesStarted {
                generation: *generation,
                candidates: duplicates::duplicate_candidate_count(files),
            },
        }
    }
}

/// What is reported of a walk that has come to its end: the last files, if there
/// are any, and then the rest.
pub open spec fn index_report(
    generation: u64,
    root: FilePath,
    now: u64,
    result: IndexResult,
) -> Seq<AnalysisEvent> {
    let end = AnalysisEvent::Finished {
        generation,
        scan_root: root,
        completed_at: now,
        directories: result.directories,
        issues: result.issues,
        mounts_skipped: result.mounts_skipped,
    };
    if result.files@.len() == 0 {
        seq![end]
    } else {
        seq![AnalysisEvent::FileBatch { generation, files: result.files }, end]
    }
}

/// What the analysis worker reports of a walk: nothing where it was given up.
pub fn report_index(generation: u64, root: FilePath, now: u64, result: Option<IndexResult>) -> (events:
    Vec<AnalysisEvent>)
    ensures
        events@ == (match result {
            Some(result) => index_report(generation, root, now, result),
            None => Seq::empty(),
        }),
{
    let mut events: Vec<AnalysisEvent> = Vec::new();
    if let Some(result) = result {
        let IndexResult { files, directories, issues, mounts_skipped } = result;
        if files.len() > 0 {
            events.push(AnalysisEvent::FileBatch { generation, files });
        }
        events.push(
            AnalysisEvent::Finished {
                generation,
                scan_root: root,
                completed_at: now,
                directories,
                issues,
                mounts_skipped,
            },
        );
    }
    events
}

/// What the analysis worker reports of a search for duplicates: nothing where
/// it was given up.
pub fn report_duplicates(
    generation: u64,
    found: Option<(Vec<DuplicateGroup>, Vec<AnalysisIssue>)>,
) -> (event: Option<AnalysisEvent>)
    ensures
        event == (match found {
            Some((groups, issues)) => Some(
                AnalysisEvent::DuplicatesFinished { generation, groups, issues },
            ),
            None => None,
        }),
{
    match found {
        Some((groups, issues)) => Some(
            AnalysisEvent::DuplicatesFinished { generation, groups, issues },
        ),
        None => None,
    }
}

/// Cancelled work is not reported; a report bears the generation of its job and
/// what was found.
pub proof fn reports_say_what_was_found(
    generation: u64,
    node_id: NodeId,
    revision: u64,
    loaded: Result<LoadOutcome, String>,
    measured: ScanOutcome,
)
    ensures
        load_report(generation, node_id, loaded) is None <==> loaded is Ok
            && loaded->Ok_0.cancelled,
        size_report(generation, node_id, revision, measured) is None <==> measured.cancelled,
        loaded is Ok && !loaded->Ok_0.cancelled ==> load_report(generation, node_id, loaded)
            == Some(
            WorkerEvent::ChildrenLoaded { generation, node_id, outcome: loaded->Ok_0 },
        ),
        loaded is Err ==> load_report(generation, node_id, loaded) == Some(
            WorkerEvent::ChildrenLoadFailed { generation, node_id, message: loaded->Err_0 },
        ),
        !measured.cancelled ==> size_report(generation, node_id, revision, measured) == Some(
            WorkerEvent::SizeCalculated {
                generation,
                node_id,
                scan_revision: revision,
                outcome: measured,
            },
        ),
        load_report(generation, node_id, loaded) matches Some(event) ==> event.made_in()
            == generation,
        size_report(generation, node_id, revision, measured) matches Some(event) ==> event.made_in()
            == generation,
{
}

/// The last files are reported before the end, and no empty batch is.
pub proof fn the_end_is_reported_last(
    generation: u64,
    root: FilePath,
    now: u64,
    result: IndexResult,
)
    ensures
        ({
            let events = index_report(generation, root, now, result);
            &&& events.len() == if result.files@.len() > 0 {
                2int
            } else {
                1int
            }
            &&& events.last() == (AnalysisEvent::Finished {
                generation,
                scan_root: root,
                completed_at: now,
                directories: result.directories,
                issues: result.issues,
                mounts_skipped: result.mounts_skipped,
            })
            &&& result.files@.len() > 0 ==> events[0] == (AnalysisEvent::FileBatch {
                generation,
                files: result.files,
            })
        }),
{
}

} // verus!
