//! Running without a screen: one scan, written to a file.
use vstd::prelude::*;
use vstd::string::StringExecFns;

use crate::analytics::{AnalysisIndex, IndexModel};
use crate::app::analysis;
use crate::config::Settings;
use crate::path::FilePath;
use crate::snapshot;
use crate::snapshot::{ComparisonModel, SnapshotComparison, SnapshotV1};
use crate::text;

verus! {

/// Where the result is to be written.
pub fn destination(settings: &Settings) -> (path: Result<FilePath, String>)
    ensures
        match path {
            Ok(path) => settings.export_json == Some(path),
            Err(message) => settings.export_json is None && message@
                == "Missing --export-json destination"@,
        },
{
    match &settings.export_json {
        Some(path) => Ok(path.clone()),
        None => Err("Missing --export-json destination".to_owned()),
    }
}

/// The comparison that is written with an index: with the snapshot that was
/// asked for, or else with the one before.
pub open spec fn chosen_comparison(
    requested: Option<Result<SnapshotV1, String>>,
    rolling: Option<ComparisonModel>,
    index: IndexModel,
) -> Result<Option<ComparisonModel>, Seq<char>> {
    match requested {
        None => Ok(rolling),
        Some(requested) => match analysis::requested_comparison(requested, index) {
            Ok(comparison) => Ok(Some(comparison)),
            Err(message) => Err(message),
        },
    }
}

/// The comparison that is written with an index. `requested` is the snapshot
/// that was asked for, as found on disk. One that cannot be compared with is an
/// error.
pub fn choose_comparison(
    requested: Option<Result<SnapshotV1, String>>,
    rolling: Option<SnapshotComparison>,
    index: &AnalysisIndex,
) -> (result: Result<Option<SnapshotComparison>, String>)
    ensures
        match result {
            Ok(comparison) => chosen_comparison(
                requested,
                snapshot::comparison_view(rolling),
                index@,
            ) == Ok::<_, Seq<char>>(snapshot::comparison_view(comparison)),
            Err(message) => chosen_comparison(
                requested,
                snapshot::comparison_view(rolling),
                index@,
            ) == Err::<Option<ComparisonModel>, _>(message@),
        },
{
    match requested {
        None => Ok(rolling),
        Some(requested) => match analysis::compare_requested(requested, index) {
            Ok(comparison) => Ok(Some(comparison)),
            Err(message) => Err(message),
        },
    }
}

/// What is reported of an index.
pub open spec fn report_text(index: IndexModel) -> Seq<char> {
    "macDirStat: indexed "@ + text::decimal(index.total().files as nat) + " files, "@
        + text::decimal(index.directories.len()) + " directories, "@ + text::decimal(
        match index.duplicates {
            Some(groups) => groups.len(),
            None => 0,
        },
    ) + " duplicate groups, "@ + text::decimal(index.issues.len()) + " issue(s)"@
}

/// What is reported of an index.
pub fn report(index: &AnalysisIndex) -> (line: String)
    ensures
        line@ == report_text(index@),
{
    let groups: usize = match &index.duplicates {
        Some(groups) => groups.len(),
        None => 0,
    };
    let mut line = "macDirStat: indexed ".to_owned();
    text::push_number(&mut line, index.root_usage().files);
    line.append(" files, ");
    text::push_count(&mut line, index.directories.len());
    line.append(" directories, ");
    text::push_count(&mut line, groups);
    line.append(" duplicate groups, ");
    text::push_count(&mut line, index.issues.len());
    line.append(" issue(s)");
    line
}

/// Whether the result goes to standard output.
pub fn goes_to_standard_output(path: &FilePath) -> (result: bool)
    ensures
        result == (path@ == seq![45u8]),
{
    let bytes = path.as_bytes();
    let result: bool = bytes.len() == 1 && bytes[0] == 45;
    proof {
        if result {
            assert(path@ =~= seq![45u8]);
        }
    }
    result
}

/// The report counts the files of the total, the directories, the groups and the
/// problems.
pub proof fn reports_count_what_was_indexed(index: IndexModel)
    ensures
        ({
            let groups = if index.duplicates is Some {
                index.duplicates->0.len()
            } else {
                0
            };
            report_text(index) == "macDirStat: indexed "@ + text::decimal(
                index.total().files as nat,
            ) + " files, "@ + text::decimal(index.directories.len()) + " directories, "@
                + text::decimal(groups) + " duplicate groups, "@ + text::decimal(index.issues.len())
                + " issue(s)"@
        }),
{
}

/// A comparison that was asked for comes before that with the last run, and where
/// it cannot be made the run fails.
pub proof fn requested_comparisons_come_first(
    requested: Option<Result<SnapshotV1, String>>,
    rolling: Option<ComparisonModel>,
    index: IndexModel,
)
    ensures
        requested is None ==> chosen_comparison(requested, rolling, index) == Ok::<_, Seq<char>>(
            rolling,
        ),
        requested is Some && requested->0 is Err ==> chosen_comparison(requested, rolling, index)
            == Err::<Option<ComparisonModel>, _>(requested->0->Err_0@),
        requested is Some && requested->0 is Ok && snapshot::incompatibility(
            requested->0->Ok_0,
            index,
        ) is None ==> chosen_comparison(requested, rolling, index) == Ok::<_, Seq<char>>(
            Some(snapshot::comparison_of(requested->0->Ok_0.index@, index)),
        ),
        requested is Some && requested->0 is Ok && snapshot::incompatibility(
            requested->0->Ok_0,
            index,
        ) is Some ==> chosen_comparison(requested, rolling, index) is Err,
{
}

} // verus!
