//! The full analysis: building the index, keeping it up to date, and the views
//! that show it.
use vstd::prelude::*;
use vstd::string::StringExecFns;

use crate::analytics;
use crate::analytics::{
    AnalysisEvent, AnalysisIndex, AnalysisIssue, DirectoryRecord, DuplicateGroup, FileRecord,
    GroupModel, IndexModel,
};
use crate::app;
use crate::app::scan;
use crate::app::screen;
use crate::app::{
    AnalysisRow, AnalysisStatus, App, AppModel, Effect, EffectModel, RowModel, ViewKind,
};
use crate::filter;
use crate::lists;
use crate::order;
use crate::path;
use crate::path::FilePath;
use crate::rows;
use crate::rows::RowContext;
use crate::snapshot;
use crate::snapshot::{
    ComparisonModel, RollingResult, SnapshotComparison, SnapshotV1,
};
use crate::text;
use crate::tree;
use crate::tree::UsageStats;

verus! {

impl AppModel {
    /// What determines the rows of an analysis view.
    pub open spec fn row_context(self) -> RowContext {
        RowContext {
            comparison: self.comparison,
            filter: self.filter_expression,
            query: self.filter_query,
            sort: self.sort,
            mode: self.size_mode,
            now: self.clock.seconds,
        }
    }

    /// The state with other rows. The selection stays at its place, or goes to
    /// the last row where there are fewer.
    pub open spec fn rows_replaced(self, found: Seq<RowModel>, truncated: bool) -> AppModel {
        AppModel {
            analysis_rows: found,
            analysis_rows_truncated: truncated,
            analysis_selected: if self.analysis_selected < found.len() {
                self.analysis_selected
            } else if found.len() > 0 {
                (found.len() - 1) as usize
            } else {
                0
            },
            ..self
        }
    }

    pub open spec fn with_rows(self, found: Seq<RowModel>, truncated: bool) -> AppModel {
        self.rows_replaced(found, truncated).analysis_scrolled()
    }

    /// The state with the rows of the analysis view brought up to date. While
    /// the index is being built, the rows stay as they are.
    pub open spec fn rows_rebuilt(self) -> AppModel {
        if self.active_view == ViewKind::Tree {
            self
        } else {
            match self.analysis_index {
                None => AppModel {
                    analysis_rows: Seq::empty(),
                    analysis_rows_truncated: false,
                    ..self
                },
                Some(index) => if index.complete {
                    self.with_rows(
                        rows::view_rows(self.active_view, index, self.row_context()),
                        rows::is_truncated(self.active_view, index, self.row_context()),
                    )
                } else {
                    self
                },
            }
        }
    }

    /// The state without analysis rows.
    pub open spec fn rows_cleared(self) -> AppModel {
        AppModel {
            analysis_rows: Seq::empty(),
            analysis_rows_truncated: false,
            analysis_selected: 0,
            analysis_scroll: 0,
            ..self
        }
    }

    pub open spec fn has_complete_index(self) -> bool {
        self.analysis_index matches Some(index) && index.complete
    }

    /// The state with the search for duplicates asked for, if the index is
    /// complete and nothing is known of duplicates yet.
    pub open spec fn duplicates_ensured(self) -> AppModel {
        match self.analysis_index {
            Some(index) => if index.complete && index.duplicates is None && self.analysis_status
                != AnalysisStatus::Hashing {
                if self.stopped.analysis {
                    self.failed(app::analysis_stopped())
                } else {
                    self.asked(
                        EffectModel::StartDuplicates {
                            generation: self.generation,
                            files: index.files,
                        },
                    )
                }
            } else {
                self
            },
            None => self,
        }
    }

    /// The state with a new index, of which nothing is known yet.
    pub open spec fn analysis_begun(self) -> AppModel {
        AppModel {
            analysis_index: Some(
                IndexModel::empty(self.root, self.one_file_system, self.clock.seconds),
            ),
            analysis_status: AnalysisStatus::Indexing,
            analysis_found_usage: UsageStats::zero(),
            ..self.rows_cleared()
        }
    }

    /// The state with the full analysis asked for, unless it is there or under
    /// way.
    pub open spec fn analysis_ensured(self) -> AppModel {
        if self.has_complete_index() || self.analysis_status == AnalysisStatus::Indexing {
            if self.active_view == ViewKind::Duplicates {
                self.duplicates_ensured()
            } else {
                self
            }
        } else if self.stopped.analysis {
            self.analysis_begun().with_status(AnalysisStatus::Idle).failed(app::analysis_stopped())
        } else {
            self.analysis_begun().asked(
                EffectModel::StartIndex {
                    generation: self.generation,
                    root: self.root,
                    options: self.options(),
                },
            ).noticed("Building full analysis index…"@)
        }
    }

    pub open spec fn with_view(self, view: ViewKind) -> AppModel {
        AppModel { active_view: view, ..self }
    }

    /// The state with a view on the screen. An analysis view needs the full
    /// analysis.
    pub open spec fn view_set(self, view: ViewKind) -> AppModel {
        if view == ViewKind::Tree {
            self.with_view(view).scrolled()
        } else {
            let ready = self.with_view(view).analysis_ensured();
            let shown = if self.active_view != view && (ready.analysis_index matches Some(index)
                && !index.complete) {
                ready.rows_cleared()
            } else {
                ready
            };
            shown.rows_rebuilt().analysis_scrolled()
        }
    }
}

impl App {
    fn put_rows(&mut self, found: Vec<AnalysisRow>, truncated: bool)
        requires
            old(self).wf(),
        ensures
            final(self).wf(),
            final(self)@ == old(self)@.with_rows(app::row_views(found@), truncated),
    {
        self.replace_rows(found, truncated);
        self.ensure_analysis_selection_visible();
    }

    fn replace_rows(&mut self, found: Vec<AnalysisRow>, truncated: bool)
        requires
            old(self).wf(),
        ensures
            final(self).wf(),
            final(self)@ == old(self)@.rows_replaced(app::row_views(found@), truncated),
    {
        let count: usize = found.len();
        let selected: usize = if self.analysis_selected < count {
            self.analysis_selected
        } else if count > 0 {
            count - 1
        } else {
            0
        };
        self.analysis_rows = found;
        self.analysis_rows_truncated = truncated;
        self.analysis_selected = selected;
    }

    fn drop_rows(&mut self)
        requires
            old(self).wf(),
        ensures
            final(self).wf(),
            final(self)@ == (AppModel {
                analysis_rows: Seq::empty(),
                analysis_rows_truncated: false,
                ..old(self)@
            }),
    {
        self.analysis_rows = Vec::new();
        self.analysis_rows_truncated = false;
        assert(app::row_views(self.analysis_rows@) =~= Seq::empty());
    }

    pub(crate) fn clear_rows(&mut self)
        requires
            old(self).wf(),
        ensures
            final(self).wf(),
            final(self)@ == old(self)@.rows_cleared(),
    {
        self.drop_rows();
        self.analysis_selected = 0;
        self.analysis_scroll = 0;
    }

    /// Brings the rows of the analysis view up to date.
    pub fn rebuild_analysis_rows(&mut self)
        requires
            old(self).wf(),
        ensures
            final(self).wf(),
            final(self)@ == old(self)@.rows_rebuilt(),
    {
        if self.active_view == ViewKind::Tree {
            return ;
        }
        let (found, truncated) = match &self.analysis_index {
            None => {
                self.drop_rows();
                return ;
            },
            Some(index) => {
                if !index.complete {
                    return ;
                }
                rows::build_rows(
                    self.active_view,
                    index,
                    &self.comparison,
                    &self.filter_expression,
                    &self.filter_query,
                    self.sort,
                    self.size_mode,
                    self.clock.seconds,
                )
            },
        };
        self.put_rows(found, truncated);
    }

    /// Asks for the search for duplicates, if it is time for that.
    pub(crate) fn ensure_duplicates(&mut self)
        requires
            old(self).wf(),
        ensures
            final(self).wf(),
            final(self)@ == old(self)@.duplicates_ensured(),
    {
        let files = match &self.analysis_index {
            Some(index) => {
                if !index.complete || index.duplicates.is_some() || self.analysis_status
                    == AnalysisStatus::Hashing {
                    return ;
                }
                analytics::copy_files(&index.files)
            },
            None => {
                return ;
            },
        };
        if self.stopped.analysis {
            self.show_error("Analysis worker stopped unexpectedly".to_owned());
            return ;
        }
        self.ask(Effect::StartDuplicates { generation: self.generation, files });
    }

    fn begin_analysis(&mut self)
        requires
            old(self).wf(),
        ensures
            final(self).wf(),
            final(self)@ == old(self)@.analysis_begun(),
    {
        self.clear_rows();
        self.analysis_index =
        Some(AnalysisIndex::new(self.root.clone(), self.one_file_system, self.clock.seconds));
        self.analysis_status = AnalysisStatus::Indexing;
        self.analysis_found_usage = UsageStats::default();
    }

    pub(crate) fn index_is_complete(&self) -> (result: bool)
        ensures
            result == self@.has_complete_index(),
    {
        match &self.analysis_index {
            Some(index) => index.complete,
            None => false,
        }
    }

    /// Asks for the full analysis, unless it is there or under way.
    pub(crate) fn ensure_analysis(&mut self)
        requires
            old(self).wf(),
        ensures
            final(self).wf(),
            final(self)@ == old(self)@.analysis_ensured(),
    {
        if self.index_is_complete() || self.analysis_status == AnalysisStatus::Indexing {
            if self.active_view == ViewKind::Duplicates {
                self.ensure_duplicates();
            }
            return ;
        }
        self.begin_analysis();
        if self.stopped.analysis {
            self.set_status(AnalysisStatus::Idle);
            self.show_error("Analysis worker stopped unexpectedly".to_owned());
            return ;
        }
        let effect = Effect::StartIndex {
            generation: self.generation,
            root: self.root.clone(),
            options: self.scan_options(),
        };
        self.ask(effect);
        self.say("Building full analysis index…");
    }

    fn show_view(&mut self, view: ViewKind)
        requires
            old(self).wf(),
        ensures
            final(self).wf(),
            final(self)@ == old(self)@.with_view(view),
    {
        self.active_view = view;
    }

    /// Brings a view to the screen.
    pub fn set_view(&mut self, view: ViewKind)
        requires
            old(self).wf(),
        ensures
            final(self).wf(),
            final(self)@ == old(self)@.view_set(view),
    {
        let changed: bool = self.active_view != view;
        self.show_view(view);
        if view == ViewKind::Tree {
            self.ensure_selection_visible();
            return ;
        }
        self.ensure_analysis();
        let unfinished: bool = match &self.analysis_index {
            Some(index) => !index.complete,
            None => false,
        };
        if changed && unfinished {
            self.clear_rows();
        }
        self.rebuild_analysis_rows();
        self.ensure_analysis_selection_visible();
    }
}

/// The paths other than one.
pub open spec fn other_path(path: Seq<u8>) -> spec_fn(FilePath) -> bool {
    |other: FilePath| !path::same_path(other@, path)
}

/// The paths that do not lie in a directory.
pub open spec fn path_outside(path: Seq<u8>) -> spec_fn(FilePath) -> bool {
    |other: FilePath| !path::path_starts_with(other@, path)
}

/// A list without a path.
pub fn without_path(paths: &Vec<FilePath>, path: &FilePath) -> (rest: Vec<FilePath>)
    ensures
        rest@ == paths@.filter(other_path(path@)),
{
    let ghost keep = other_path(path@);
    let mut rest: Vec<FilePath> = Vec::new();
    let mut i: usize = 0;
    proof {
        reveal(Seq::filter);
        assert(paths@.take(0) =~= Seq::empty());
        assert(rest@ =~= paths@.take(0).filter(keep));
    }
    while i < paths.len()
        invariant
            i <= paths@.len(),
            keep == other_path(path@),
            rest@ == paths@.take(i as int).filter(keep),
        decreases paths@.len() - i,
    {
        proof {
            lists::lemma_filter_step(paths@, keep, i as int);
        }
        if !paths[i].same(path) {
            rest.push(paths[i].clone());
        }
        i += 1;
    }
    assert(paths@.take(i as int) =~= paths@);
    rest
}

/// A list without the paths that lie in a directory.
pub fn without_subtree(paths: &Vec<FilePath>, path: &FilePath) -> (rest: Vec<FilePath>)
    ensures
        rest@ == paths@.filter(path_outside(path@)),
{
    let ghost keep = path_outside(path@);
    let mut rest: Vec<FilePath> = Vec::new();
    let mut i: usize = 0;
    proof {
        reveal(Seq::filter);
        assert(paths@.take(0) =~= Seq::empty());
        assert(rest@ =~= paths@.take(0).filter(keep));
    }
    while i < paths.len()
        invariant
            i <= paths@.len(),
            keep == path_outside(path@),
            rest@ == paths@.take(i as int).filter(keep),
        decreases paths@.len() - i,
    {
        proof {
            lists::lemma_filter_step(paths@, keep, i as int);
        }
        if !paths[i].starts_with(path) {
            rest.push(paths[i].clone());
        }
        i += 1;
    }
    assert(paths@.take(i as int) =~= paths@);
    rest
}

/// A list with a path, once.
pub open spec fn with_path(paths: Seq<FilePath>, path: FilePath) -> Seq<FilePath> {
    if screen::has_path(paths, path@) {
        paths
    } else {
        paths.push(path)
    }
}

/// The usages that belong to other paths than one.
pub open spec fn other_usage(path: Seq<u8>) -> spec_fn((FilePath, UsageStats)) -> bool {
    |entry: (FilePath, UsageStats)| !path::same_path(entry.0@, path)
}

/// The usages that belong to a path.
pub open spec fn usage_for(path: Seq<u8>) -> spec_fn((FilePath, UsageStats)) -> bool {
    |entry: (FilePath, UsageStats)| path::same_path(entry.0@, path)
}

/// The usage that was kept for a path.
pub open spec fn kept_usage(usages: Seq<(FilePath, UsageStats)>, path: Seq<u8>) -> UsageStats {
    match lists::first_item(usages, usage_for(path)) {
        Some(entry) => entry.1,
        None => UsageStats::zero(),
    }
}

fn find_usage(usages: &Vec<(FilePath, UsageStats)>, path: &FilePath) -> (usage: UsageStats)
    ensures
        usage == kept_usage(usages@, path@),
{
    let ghost wanted = usage_for(path@);
    let mut i: usize = 0;
    while i < usages.len()
        invariant
            i <= usages@.len(),
            wanted == usage_for(path@),
            forall|j: int| 0 <= j < i ==> !wanted(#[trigger] usages@[j]),
        decreases usages@.len() - i,
    {
        if usages[i].0.same(path) {
            proof {
                lists::lemma_first_index(usages@, wanted, i as int);
            }
            return usages[i].1;
        }
        i += 1;
    }
    proof {
        lists::lemma_first_index(usages@, wanted, i as int);
    }
    UsageStats::default()
}

fn without_usage(usages: &Vec<(FilePath, UsageStats)>, path: &FilePath) -> (rest: Vec<
    (FilePath, UsageStats),
>)
    ensures
        rest@ == usages@.filter(other_usage(path@)),
{
    let ghost keep = other_usage(path@);
    let mut rest: Vec<(FilePath, UsageStats)> = Vec::new();
    let mut i: usize = 0;
    proof {
        reveal(Seq::filter);
        assert(usages@.take(0) =~= Seq::empty());
        assert(rest@ =~= usages@.take(0).filter(keep));
    }
    while i < usages.len()
        invariant
            i <= usages@.len(),
            keep == other_usage(path@),
            rest@ == usages@.take(i as int).filter(keep),
        decreases usages@.len() - i,
    {
        proof {
            lists::lemma_filter_step(usages@, keep, i as int);
        }
        if !usages[i].0.same(path) {
            rest.push((usages[i].0.clone(), usages[i].1));
        }
        i += 1;
    }
    assert(usages@.take(i as int) =~= usages@);
    rest
}

/// The depths of paths, as sort keys.
pub open spec fn depth_keys(paths: Seq<FilePath>) -> Seq<Seq<u64>> {
    Seq::new(paths.len(), |i: int| seq![path::components(paths[i]@).len() as u64])
}

/// Whether a path lies in one of some directories.
pub open spec fn is_covered(roots: Seq<FilePath>, path: Seq<u8>) -> bool {
    exists|i: int| 0 <= i < roots.len() && path::path_starts_with(path, (#[trigger] roots[i])@)
}

/// Of the given paths, each that lies in none of those before it.
pub open spec fn outermost(paths: Seq<FilePath>) -> Seq<FilePath>
    decreases paths.len(),
{
    if paths.len() == 0 {
        Seq::empty()
    } else {
        let roots = outermost(paths.drop_last());
        if is_covered(roots, paths.last()@) {
            roots
        } else {
            roots.push(paths.last())
        }
    }
}

/// The directories that have to be indexed again for some paths: none of them
/// lies in another.
pub open spec fn slice_roots(paths: Seq<FilePath>) -> Seq<FilePath> {
    outermost(order::sorted_by(paths, depth_keys(paths)))
}

fn covered(roots: &Vec<FilePath>, path: &FilePath) -> (result: bool)
    ensures
        result == is_covered(roots@, path@),
{
    let mut i: usize = 0;
    while i < roots.len()
        invariant
            i <= roots@.len(),
            forall|j: int|
                0 <= j < i ==> !path::path_starts_with(path@, (#[trigger] roots@[j])@),
        decreases roots@.len() - i,
    {
        if path.starts_with(&roots[i]) {
            return true;
        }
        i += 1;
    }
    false
}

fn find_slice_roots(paths: Vec<FilePath>) -> (roots: Vec<FilePath>)
    ensures
        roots@ == slice_roots(paths@),
{
    let ghost all = paths@;
    let mut keys: Vec<Vec<u64>> = Vec::new();
    let mut i: usize = 0;
    while i < paths.len()
        invariant
            i <= paths@.len(),
            all == paths@,
            keys@.len() == i,
            order::contents(keys@) == depth_keys(all).take(i as int),
        decreases paths@.len() - i,
    {
        let ghost before = keys@;
        let depth: usize = paths[i].depth();
        let key: Vec<u64> = vec![depth as u64];
        assert(key@ =~= seq![path::components(all[i as int]@).len() as u64]);
        keys.push(key);
        i += 1;
        proof {
            assert(order::contents(keys@) =~= order::contents(before).push(
                depth_keys(all)[i - 1],
            ));
            assert(order::contents(keys@) =~= depth_keys(all).take(i as int));
        }
    }
    assert(order::contents(keys@) =~= depth_keys(all));
    let sorted = order::sort_by_keys(paths, &keys);
    let mut roots: Vec<FilePath> = Vec::new();
    let mut k: usize = 0;
    assert(roots@ =~= outermost(sorted@.take(0)));
    while k < sorted.len()
        invariant
            k <= sorted@.len(),
            roots@ == outermost(sorted@.take(k as int)),
        decreases sorted@.len() - k,
    {
        assert(sorted@.take(k + 1).drop_last() =~= sorted@.take(k as int));
        if !covered(&roots, &sorted[k]) {
            roots.push(sorted[k].clone());
        }
        k += 1;
    }
    assert(sorted@.take(k as int) =~= sorted@);
    roots
}

impl AppModel {
    pub open spec fn with_index(self, index: Option<IndexModel>) -> AppModel {
        AppModel { analysis_index: index, ..self }
    }

    /// The state with a part of the index taken out, to be built again. What
    /// was there is kept, so that what comes in its place can be set off
    /// against it.
    pub open spec fn slice_taken(self, path: FilePath) -> AppModel {
        let index = self.analysis_index->0;
        let previous = snapshot::usage_or_zero(
            analytics::directory_usage(index.directories, path@),
        );
        AppModel {
            analysis_previous_usage: self.analysis_previous_usage.filter(other_usage(path@)).push(
                (path, previous),
            ),
            analysis_found_usage: self.analysis_found_usage.minus(previous),
            analysis_index: Some(index.without_subtree(path@)),
            analysis_refresh_pending: with_path(self.analysis_refresh_pending, path),
            ..self
        }
    }

    pub open spec fn slices_taken(self, paths: Seq<FilePath>) -> AppModel
        decreases paths.len(),
    {
        if paths.len() == 0 {
            self
        } else {
            self.slices_taken(paths.drop_last()).slice_taken(paths.last())
        }
    }

    /// The state with a part of the index asked for. Where the worker takes no
    /// request, the part is no longer waited for.
    pub open spec fn slice_asked(self, path: FilePath) -> AppModel {
        if self.stopped.analysis {
            self.slice_forgotten(path@).noticed(
                "Could not refresh analysis slice: "@ + app::analysis_stopped(),
            )
        } else {
            self.asked(
                EffectModel::StartIndex {
                    generation: self.generation,
                    root: path,
                    options: self.options(),
                },
            )
        }
    }

    pub open spec fn slices_asked(self, paths: Seq<FilePath>) -> AppModel
        decreases paths.len(),
    {
        if paths.len() == 0 {
            self
        } else {
            self.slices_asked(paths.drop_last()).slice_asked(paths.last())
        }
    }

    /// The state with an index that is to be changed in parts.
    pub open spec fn index_opened(self) -> AppModel {
        let index = self.analysis_index->0;
        AppModel {
            analysis_index: Some(IndexModel { complete: false, duplicates: None, ..index }),
            analysis_found_usage: index.total(),
            ..self
        }
    }

    pub open spec fn with_status(self, status: AnalysisStatus) -> AppModel {
        AppModel { analysis_status: status, ..self }
    }

    /// The state with a part of the index no longer waited for.
    pub open spec fn slice_forgotten(self, root: Seq<u8>) -> AppModel {
        AppModel {
            analysis_refresh_pending: self.analysis_refresh_pending.filter(other_path(root)),
            analysis_previous_usage: self.analysis_previous_usage.filter(other_usage(root)),
            ..self
        }
    }

    pub open spec fn index_completed(self) -> AppModel {
        self.with_index(
            match self.analysis_index {
                Some(index) => Some(IndexModel { complete: true, ..index }),
                None => None,
            },
        )
    }

    /// The state with parts of the index waited for, or with the index done
    /// where there are none.
    pub open spec fn slices_awaited(self) -> AppModel {
        if self.analysis_refresh_pending.len() == 0 {
            self.index_completed().with_status(AnalysisStatus::Ready)
        } else {
            self.refresh_noticed()
        }
    }

    pub open spec fn refresh_noticed(self) -> AppModel {
        self.noticed(
            "Refreshing "@ + text::decimal(self.analysis_refresh_pending.len())
                + " analysis slice(s)…"@,
        )
    }

    /// The state without an index.
    pub open spec fn index_dropped(self) -> AppModel {
        AppModel {
            analysis_index: None,
            analysis_refresh_pending: Seq::empty(),
            analysis_previous_usage: Seq::empty(),
            ..self
        }
    }

    pub open spec fn analysis_ensured_if_shown(self) -> AppModel {
        if self.active_view != ViewKind::Tree {
            self.analysis_ensured()
        } else {
            self
        }
    }

    /// The state with parts of the index built again: the directories that
    /// something changed in. An index that is not complete is given up.
    pub open spec fn subtrees_refreshed(self, paths: Seq<FilePath>) -> AppModel {
        let roots = slice_roots(paths);
        match self.analysis_index {
            None => self.analysis_ensured_if_shown(),
            Some(index) => if !index.complete {
                self.index_dropped().analysis_ensured_if_shown()
            } else if roots.len() == 0 {
                self
            } else {
                self.index_opened().slices_taken(roots).with_status(
                    AnalysisStatus::Indexing,
                ).slices_asked(roots).slices_awaited().rows_rebuilt()
            },
        }
    }
}

impl App {
    fn open_index(&mut self)
        requires
            old(self).wf(),
            old(self).analysis_index is Some,
        ensures
            final(self).wf(),
            final(self)@ == old(self)@.index_opened(),
    {
        let mut index: Option<AnalysisIndex> = None;
        core::mem::swap(&mut index, &mut self.analysis_index);
        if let Some(mut index) = index {
            self.analysis_found_usage = index.root_usage();
            index.complete = false;
            index.duplicates = None;
            self.analysis_index = Some(index);
        }
    }

    fn take_slice(&mut self, path: &FilePath)
        requires
            old(self).wf(),
            old(self).analysis_index is Some,
        ensures
            final(self).wf(),
            final(self).analysis_index is Some,
            final(self)@ == old(self)@.slice_taken(*path),
    {
        let mut index: Option<AnalysisIndex> = None;
        core::mem::swap(&mut index, &mut self.analysis_index);
        let mut previous = UsageStats::default();
        if let Some(mut index) = index {
            previous =
            snapshot::or_zero(analytics::find_directory_usage(&index.directories, path));
            index.remove_subtree(path);
            self.analysis_index = Some(index);
        }
        self.keep_previous(path, previous);
        self.await_slice(path);
    }

    fn keep_previous(&mut self, path: &FilePath, previous: UsageStats)
        requires
            old(self).wf(),
        ensures
            final(self).wf(),
            final(self).analysis_index == old(self).analysis_index,
            final(self)@ == (AppModel {
                analysis_previous_usage: old(self)@.analysis_previous_usage.filter(
                    other_usage(path@),
                ).push((*path, previous)),
                analysis_found_usage: old(self)@.analysis_found_usage.minus(previous),
                ..old(self)@
            }),
    {
        let mut usages = without_usage(&self.analysis_previous_usage, path);
        proof {
            screen::lemma_push_usage_distinct(
                self.analysis_previous_usage@,
                other_usage(path@),
                (*path, previous),
            );
        }
        usages.push((path.clone(), previous));
        self.analysis_previous_usage = usages;
        self.analysis_found_usage = tree::subtract_usage(self.analysis_found_usage, previous);
    }

    fn await_slice(&mut self, path: &FilePath)
        requires
            old(self).wf(),
        ensures
            final(self).wf(),
            final(self).analysis_index == old(self).analysis_index,
            final(self)@ == (AppModel {
                analysis_refresh_pending: with_path(old(self)@.analysis_refresh_pending, *path),
                ..old(self)@
            }),
    {
        if !screen::holds_path(&self.analysis_refresh_pending, path) {
            proof {
                screen::lemma_push_distinct(
                    self.analysis_refresh_pending@,
                    other_path(path@),
                    *path,
                );
            }
            self.analysis_refresh_pending.push(path.clone());
        }
    }

    fn take_slices(&mut self, paths: &Vec<FilePath>)
        requires
            old(self).wf(),
            old(self).analysis_index is Some,
        ensures
            final(self).wf(),
            final(self)@ == old(self)@.slices_taken(paths@),
    {
        let ghost before = self@;
        let mut i: usize = 0;
        while i < paths.len()
            invariant
                i <= paths@.len(),
                self.wf(),
                self.analysis_index is Some,
                self@ == before.slices_taken(paths@.take(i as int)),
            decreases paths@.len() - i,
        {
            assert(paths@.take(i + 1).drop_last() =~= paths@.take(i as int));
            self.take_slice(&paths[i]);
            i += 1;
        }
        assert(paths@.take(i as int) =~= paths@);
    }

    fn ask_slice(&mut self, path: &FilePath)
        requires
            old(self).wf(),
        ensures
            final(self).wf(),
            final(self)@ == old(self)@.slice_asked(*path),
    {
        if self.stopped.analysis {
            self.forget_slice(path);
            self.say_with(
                "Could not refresh analysis slice: ",
                "Analysis worker stopped unexpectedly",
            );
            return ;
        }
        let effect = Effect::StartIndex {
            generation: self.generation,
            root: path.clone(),
            options: self.scan_options(),
        };
        self.ask(effect);
    }

    fn await_slices(&mut self)
        requires
            old(self).wf(),
        ensures
            final(self).wf(),
            final(self)@ == old(self)@.slices_awaited(),
    {
        if self.analysis_refresh_pending.len() == 0 {
            self.complete_index();
            self.set_status(AnalysisStatus::Ready);
        } else {
            self.notice_refresh();
        }
    }

    fn ask_slices(&mut self, paths: &Vec<FilePath>)
        requires
            old(self).wf(),
        ensures
            final(self).wf(),
            final(self)@ == old(self)@.slices_asked(paths@),
    {
        let ghost before = self@;
        let mut i: usize = 0;
        while i < paths.len()
            invariant
                i <= paths@.len(),
                self.wf(),
                self@ == before.slices_asked(paths@.take(i as int)),
            decreases paths@.len() - i,
        {
            assert(paths@.take(i + 1).drop_last() =~= paths@.take(i as int));
            self.ask_slice(&paths[i]);
            i += 1;
        }
        assert(paths@.take(i as int) =~= paths@);
    }

    pub(crate) fn set_status(&mut self, status: AnalysisStatus)
        requires
            old(self).wf(),
        ensures
            final(self).wf(),
            final(self)@ == old(self)@.with_status(status),
    {
        self.analysis_status = status;
    }

    fn notice_refresh(&mut self)
        requires
            old(self).wf(),
        ensures
            final(self).wf(),
            final(self)@ == old(self)@.refresh_noticed(),
    {
        let mut message = "Refreshing ".to_owned();
        text::push_count(&mut message, self.analysis_refresh_pending.len());
        message.append(" analysis slice(s)…");
        self.say(message.as_str());
    }

    pub(crate) fn drop_index(&mut self)
        requires
            old(self).wf(),
        ensures
            final(self).wf(),
            final(self)@ == old(self)@.index_dropped(),
    {
        self.analysis_index = None;
        proof {
            screen::lemma_nothing_distinct();
        }
        self.analysis_refresh_pending = Vec::new();
        self.analysis_previous_usage = Vec::new();
        assert(self.analysis_refresh_pending@ =~= Seq::empty());
        assert(self.analysis_previous_usage@ =~= Seq::empty());
    }

    pub(crate) fn ensure_analysis_if_shown(&mut self)
        requires
            old(self).wf(),
        ensures
            final(self).wf(),
            final(self)@ == old(self)@.analysis_ensured_if_shown(),
    {
        if self.active_view != ViewKind::Tree {
            self.ensure_analysis();
        }
    }

    /// Builds parts of the index again.
    pub fn refresh_analysis_subtrees(&mut self, paths: Vec<FilePath>)
        requires
            old(self).wf(),
        ensures
            final(self).wf(),
            final(self)@ == old(self)@.subtrees_refreshed(paths@),
    {
        let complete: bool = match &self.analysis_index {
            None => {
                self.ensure_analysis_if_shown();
                return ;
            },
            Some(index) => index.complete,
        };
        if !complete {
            self.drop_index();
            self.ensure_analysis_if_shown();
            return ;
        }
        let roots = find_slice_roots(paths);
        if roots.len() == 0 {
            return ;
        }
        self.open_index();
        self.take_slices(&roots);
        self.set_status(AnalysisStatus::Indexing);
        self.ask_slices(&roots);
        self.await_slices();
        self.rebuild_analysis_rows();
    }
}

/// A directory with what one of its parts took up replaced by what it takes up
/// now. Directories that the part does not lie in keep what they have.
pub open spec fn offset_directory(
    directory: DirectoryRecord,
    part: Seq<u8>,
    previous: UsageStats,
    current: UsageStats,
) -> DirectoryRecord {
    if path::path_starts_with(part, directory.path@) && !path::same_path(directory.path@, part) {
        DirectoryRecord { usage: directory.usage.minus(previous).plus(current), ..directory }
    } else {
        directory
    }
}

pub open spec fn offset_directories(
    directories: Seq<DirectoryRecord>,
    part: Seq<u8>,
    previous: UsageStats,
    current: UsageStats,
) -> Seq<DirectoryRecord> {
    Seq::new(directories.len(), |i: int| offset_directory(directories[i], part, previous, current))
}

/// The index with a part that was built again.
pub open spec fn merged_index(
    index: IndexModel,
    part: Seq<u8>,
    previous: UsageStats,
    completed_at: u64,
    directories: Seq<DirectoryRecord>,
    issues: Seq<AnalysisIssue>,
    mounts_skipped: usize,
    complete: bool,
) -> IndexModel {
    let current = snapshot::usage_or_zero(analytics::directory_usage(directories, part));
    IndexModel {
        completed_at: Some(completed_at),
        directories: offset_directories(index.directories, part, previous, current) + directories,
        issues: index.issues.filter(analytics::issue_outside(part)) + issues,
        mounts_skipped: scan::sum_of(index.mounts_skipped, mounts_skipped),
        complete,
        ..index
    }
}

/// The index that was built from its root.
pub open spec fn built_index(
    index: IndexModel,
    completed_at: u64,
    directories: Seq<DirectoryRecord>,
    issues: Seq<AnalysisIssue>,
    mounts_skipped: usize,
) -> IndexModel {
    IndexModel {
        completed_at: Some(completed_at),
        directories,
        issues,
        mounts_skipped,
        complete: true,
        ..index
    }
}

pub(crate) fn offset_usages(
    directories: &mut Vec<DirectoryRecord>,
    part: &FilePath,
    previous: UsageStats,
    current: UsageStats,
)
    ensures
        final(directories)@ == offset_directories(old(directories)@, part@, previous, current),
{
    let ghost before = directories@;
    let mut i: usize = 0;
    while i < directories.len()
        invariant
            i <= directories@.len(),
            directories@.len() == before.len(),
            forall|j: int|
                0 <= j < i ==> #[trigger] directories@[j] == offset_directory(
                    before[j],
                    part@,
                    previous,
                    current,
                ),
            forall|j: int| i <= j < before.len() ==> #[trigger] directories@[j] == before[j],
        decreases directories@.len() - i,
    {
        if part.starts_with(&directories[i].path) && !directories[i].path.same(part) {
            let usage = tree::replace_usage(directories[i].usage, previous, current);
            let mut directory = directories[i].clone();
            directory.usage = usage;
            directories.set(i, directory);
        }
        i += 1;
    }
    assert(directories@ =~= offset_directories(before, part@, previous, current));
}

fn merge_index(
    index: &mut AnalysisIndex,
    part: &FilePath,
    previous: UsageStats,
    completed_at: u64,
    directories: Vec<DirectoryRecord>,
    issues: Vec<AnalysisIssue>,
    mounts_skipped: usize,
    complete: bool,
)
    ensures
        final(index)@ == merged_index(
            old(index)@,
            part@,
            previous,
            completed_at,
            directories@,
            issues@,
            mounts_skipped,
            complete,
        ),
{
    let current = snapshot::or_zero(analytics::find_directory_usage(&directories, part));
    let mut directories = directories;
    let mut issues = issues;
    index.completed_at = Some(completed_at);
    offset_usages(&mut index.directories, part, previous, current);
    index.directories.append(&mut directories);
    let mut kept = analytics::issues_outside(&index.issues, part);
    kept.append(&mut issues);
    index.issues = kept;
    index.mounts_skipped = index.mounts_skipped.saturating_add(mounts_skipped);
    index.complete = complete;
}

impl AppModel {
    /// The state after the indexing of a directory has begun.
    pub open spec fn index_started(self, scan_root: FilePath, started_at: u64) -> AppModel {
        let index = match self.analysis_index {
            Some(index) => index,
            None => IndexModel::empty(self.root, self.one_file_system, started_at),
        };
        let started = if screen::has_path(self.analysis_refresh_pending, scan_root@) {
            index
        } else {
            IndexModel { started_at, ..index }
        };
        self.with_index(Some(started)).with_status(AnalysisStatus::Indexing)
    }

    /// The state after more files have been found.
    pub open spec fn files_found(self, files: Seq<FileRecord>) -> AppModel {
        AppModel {
            analysis_found_usage: self.analysis_found_usage.plus(
                analytics::usage_sum(analytics::file_usages(files)),
            ),
            analysis_index: match self.analysis_index {
                Some(index) => Some(IndexModel { files: index.files + files, ..index }),
                None => None,
            },
            ..self
        }
    }

    /// The state with what was found in a directory in its index.
    pub open spec fn index_merged(
        self,
        scan_root: FilePath,
        completed_at: u64,
        directories: Seq<DirectoryRecord>,
        issues: Seq<AnalysisIssue>,
        mounts_skipped: usize,
    ) -> AppModel {
        let part = screen::has_path(self.analysis_refresh_pending, scan_root@);
        let pending = self.analysis_refresh_pending.filter(other_path(scan_root@));
        let previous = kept_usage(self.analysis_previous_usage, scan_root@);
        AppModel {
            analysis_refresh_pending: pending,
            analysis_previous_usage: if part && self.analysis_index is Some {
                self.analysis_previous_usage.filter(other_usage(scan_root@))
            } else {
                self.analysis_previous_usage
            },
            analysis_index: match self.analysis_index {
                Some(index) => Some(
                    if part {
                        merged_index(
                            index,
                            scan_root@,
                            previous,
                            completed_at,
                            directories,
                            issues,
                            mounts_skipped,
                            pending.len() == 0,
                        )
                    } else {
                        built_index(index, completed_at, directories, issues, mounts_skipped)
                    },
                ),
                None => None,
            },
            ..self
        }
    }

    pub open spec fn usage_settled(self) -> AppModel {
        AppModel {
            analysis_found_usage: match self.analysis_index {
                Some(index) => index.total(),
                None => UsageStats::zero(),
            },
            ..self
        }
    }

    /// The state after a directory has been indexed. Once nothing is missing
    /// any more, the index is handed out to be stored and compared.
    pub open spec fn index_finished(
        self,
        scan_root: FilePath,
        completed_at: u64,
        directories: Seq<DirectoryRecord>,
        issues: Seq<AnalysisIssue>,
        mounts_skipped: usize,
    ) -> AppModel {
        let merged = self.index_merged(
            scan_root,
            completed_at,
            directories,
            issues,
            mounts_skipped,
        );
        if merged.analysis_refresh_pending.len() > 0 {
            merged
        } else {
            merged.usage_settled().with_status(AnalysisStatus::Ready).asked(
                EffectModel::FinishAnalysis,
            )
        }
    }

    pub open spec fn duplicates_found(
        self,
        groups: Seq<GroupModel>,
        issues: Seq<AnalysisIssue>,
    ) -> AppModel {
        self.with_index(
            match self.analysis_index {
                Some(index) => Some(
                    IndexModel {
                        duplicates: Some(groups),
                        issues: index.issues + issues,
                        ..index
                    },
                ),
                None => None,
            },
        )
    }

    pub open spec fn group_count(self) -> nat {
        match self.analysis_index {
            Some(index) => rows::known_groups(index).len(),
            None => 0,
        }
    }

    /// The state after the analysis has reported something. What belongs to
    /// another generation is ignored.
    pub open spec fn analysis_reported(self, event: AnalysisEvent) -> AppModel {
        if event.made_in() != self.generation {
            self
        } else {
            match event {
                AnalysisEvent::Started { scan_root, started_at, .. } => self.index_started(
                    scan_root,
                    started_at,
                ),
                AnalysisEvent::FileBatch { files, .. } => self.files_found(files@),
                AnalysisEvent::Finished {
                    scan_root,
                    completed_at,
                    directories,
                    issues,
                    mounts_skipped,
                    ..
                } => self.index_finished(
                    scan_root,
                    completed_at,
                    directories@,
                    issues@,
                    mounts_skipped,
                ),
                AnalysisEvent::DuplicatesStarted { candidates, .. } => self.with_status(
                    AnalysisStatus::Hashing,
                ).noticed(
                    "Hashing "@ + text::decimal(candidates as nat) + " duplicate candidates…"@,
                ),
                AnalysisEvent::DuplicatesFinished { groups, issues, .. } => {
                    let found = self.duplicates_found(
                        analytics::group_views(groups@),
                        issues@,
                    ).with_status(AnalysisStatus::Ready).rows_rebuilt();
                    found.noticed(
                        "Exact duplicate analysis complete: "@ + text::decimal(
                            found.group_count(),
                        ) + " group(s)"@,
                    )
                },
            }
        }
    }
}

/// A report of an earlier generation changes nothing.
pub proof fn stale_analysis_changes_nothing(state: AppModel, event: AnalysisEvent)
    requires
        event.made_in() != state.generation,
    ensures
        state.analysis_reported(event) == state,
{
}

impl App {
    fn start_index(&mut self, scan_root: &FilePath, started_at: u64)
        requires
            old(self).wf(),
        ensures
            final(self).wf(),
            final(self)@ == old(self)@.index_started(*scan_root, started_at),
    {
        let part: bool = screen::holds_path(&self.analysis_refresh_pending, scan_root);
        let mut current: Option<AnalysisIndex> = None;
        core::mem::swap(&mut current, &mut self.analysis_index);
        let mut index = match current {
            Some(index) => index,
            None => AnalysisIndex::new(self.root.clone(), self.one_file_system, started_at),
        };
        if !part {
            index.started_at = started_at;
        }
        self.analysis_index = Some(index);
        self.set_status(AnalysisStatus::Indexing);
    }

    fn add_files(&mut self, files: Vec<FileRecord>)
        requires
            old(self).wf(),
        ensures
            final(self).wf(),
            final(self)@ == old(self)@.files_found(files@),
    {
        let batch = analytics::sum_of_files(&files);
        let mut files = files;
        let mut current: Option<AnalysisIndex> = None;
        core::mem::swap(&mut current, &mut self.analysis_index);
        if let Some(mut index) = current {
            index.files.append(&mut files);
            self.analysis_index = Some(index);
        }
        self.analysis_found_usage = self.analysis_found_usage.saturating_add(batch);
    }

    fn merge(
        &mut self,
        scan_root: &FilePath,
        completed_at: u64,
        directories: Vec<DirectoryRecord>,
        issues: Vec<AnalysisIssue>,
        mounts_skipped: usize,
    )
        requires
            old(self).wf(),
        ensures
            final(self).wf(),
            final(self)@ == old(self)@.index_merged(
                *scan_root,
                completed_at,
                directories@,
                issues@,
                mounts_skipped,
            ),
    {
        let part: bool = screen::holds_path(&self.analysis_refresh_pending, scan_root);
        let pending = without_path(&self.analysis_refresh_pending, scan_root);
        let settled: bool = pending.len() == 0;
        let previous = find_usage(&self.analysis_previous_usage, scan_root);
        let mut current: Option<AnalysisIndex> = None;
        core::mem::swap(&mut current, &mut self.analysis_index);
        if let Some(mut index) = current {
            if part {
                merge_index(
                    &mut index,
                    scan_root,
                    previous,
                    completed_at,
                    directories,
                    issues,
                    mounts_skipped,
                    settled,
                );
                let usages = without_usage(&self.analysis_previous_usage, scan_root);
                proof {
                    screen::lemma_filter_usages_distinct(
                        self.analysis_previous_usage@,
                        other_usage(scan_root@),
                    );
                }
                self.analysis_previous_usage = usages;
            } else {
                index.completed_at = Some(completed_at);
                index.directories = directories;
                index.issues = issues;
                index.mounts_skipped = mounts_skipped;
                index.complete = true;
            }
            self.analysis_index = Some(index);
        }
        proof {
            screen::lemma_filter_distinct(self.analysis_refresh_pending@, other_path(scan_root@));
        }
        self.analysis_refresh_pending = pending;
    }

    fn settle_usage(&mut self)
        requires
            old(self).wf(),
        ensures
            final(self).wf(),
            final(self)@ == old(self)@.usage_settled(),
    {
        let usage = match &self.analysis_index {
            Some(index) => index.root_usage(),
            None => UsageStats::default(),
        };
        self.analysis_found_usage = usage;
    }

    fn finish_index(
        &mut self,
        scan_root: &FilePath,
        completed_at: u64,
        directories: Vec<DirectoryRecord>,
        issues: Vec<AnalysisIssue>,
        mounts_skipped: usize,
    )
        requires
            old(self).wf(),
        ensures
            final(self).wf(),
            final(self)@ == old(self)@.index_finished(
                *scan_root,
                completed_at,
                directories@,
                issues@,
                mounts_skipped,
            ),
    {
        self.merge(scan_root, completed_at, directories, issues, mounts_skipped);
        if self.analysis_refresh_pending.len() > 0 {
            return ;
        }
        self.settle_usage();
        self.set_status(AnalysisStatus::Ready);
        self.ask(Effect::FinishAnalysis);
    }

    fn put_duplicates(&mut self, groups: Vec<DuplicateGroup>, issues: Vec<AnalysisIssue>)
        requires
            old(self).wf(),
        ensures
            final(self).wf(),
            final(self)@ == old(self)@.duplicates_found(
                analytics::group_views(groups@),
                issues@,
            ),
    {
        let mut issues = issues;
        let mut current: Option<AnalysisIndex> = None;
        core::mem::swap(&mut current, &mut self.analysis_index);
        if let Some(mut index) = current {
            index.duplicates = Some(groups);
            index.issues.append(&mut issues);
            self.analysis_index = Some(index);
        }
    }

    fn count_groups(&self) -> (count: usize)
        ensures
            count == self@.group_count(),
    {
        match &self.analysis_index {
            Some(index) => match &index.duplicates {
                Some(groups) => groups.len(),
                None => 0,
            },
            None => 0,
        }
    }

    pub(crate) fn say_count(&mut self, before: &str, count: usize, after: &str)
        requires
            old(self).wf(),
        ensures
            final(self).wf(),
            final(self)@ == old(self)@.noticed(
                before@ + text::decimal(count as nat) + after@,
            ),
    {
        let mut message = before.to_owned();
        text::push_count(&mut message, count);
        message.append(after);
        self.say(message.as_str());
    }

    /// Takes in what the analysis reports.
    pub fn handle_analysis_event(&mut self, event: AnalysisEvent)
        requires
            old(self).wf(),
        ensures
            final(self).wf(),
            final(self)@ == old(self)@.analysis_reported(event),
    {
        if event.generation() != self.generation {
            return ;
        }
        match event {
            AnalysisEvent::Started { scan_root, started_at, .. } => {
                self.start_index(&scan_root, started_at);
            },
            AnalysisEvent::FileBatch { files, .. } => {
                self.add_files(files);
            },
            AnalysisEvent::Finished {
                scan_root,
                completed_at,
                directories,
                issues,
                mounts_skipped,
                ..
            } => {
                self.finish_index(&scan_root, completed_at, directories, issues, mounts_skipped);
            },
            AnalysisEvent::DuplicatesStarted { candidates, .. } => {
                self.set_status(AnalysisStatus::Hashing);
                self.say_count("Hashing ", candidates, " duplicate candidates…");
            },
            AnalysisEvent::DuplicatesFinished { groups, issues, .. } => {
                self.put_duplicates(groups, issues);
                self.set_status(AnalysisStatus::Ready);
                self.rebuild_analysis_rows();
                let count: usize = self.count_groups();
                self.say_count("Exact duplicate analysis complete: ", count, " group(s)");
            },
        }
    }
}

/// What comparing with a snapshot gives that was asked for.
pub open spec fn requested_comparison(
    requested: Result<SnapshotV1, String>,
    index: IndexModel,
) -> Result<ComparisonModel, Seq<char>> {
    match requested {
        Err(message) => Err(message@),
        Ok(snapshot) => match snapshot::incompatibility(snapshot, index) {
            Some(message) => Err(message),
            None => Ok(snapshot::comparison_of(snapshot.index@, index)),
        },
    }
}

pub(crate) fn compare_requested(requested: Result<SnapshotV1, String>, index: &AnalysisIndex) -> (result: Result<
    SnapshotComparison,
    String,
>)
    ensures
        match result {
            Ok(comparison) => requested_comparison(requested, index@) == Ok::<_, Seq<char>>(
                comparison@,
            ),
            Err(message) => requested_comparison(requested, index@) == Err::<ComparisonModel, _>(
                message@,
            ),
        },
{
    match requested {
        Err(message) => Err(message),
        Ok(snapshot) => match snapshot::load_compatible_snapshot(snapshot, index) {
            Ok(found) => Ok(snapshot::compare_indices(&found.index, index)),
            Err(message) => Err(message),
        },
    }
}

impl AppModel {
    pub open spec fn with_comparison(self, comparison: Option<ComparisonModel>) -> AppModel {
        AppModel { comparison, ..self }
    }

    pub open spec fn noticed_if(self, message: Option<Seq<char>>) -> AppModel {
        match message {
            Some(message) => self.noticed(message),
            None => self,
        }
    }

    /// The state with the changes that a finished index shows: against the
    /// snapshot that was asked for, or else against the last complete run.
    pub open spec fn compared(
        self,
        rolling: Result<RollingResult, String>,
        requested: Option<Result<SnapshotV1, String>>,
    ) -> AppModel {
        match (self.analysis_index, rolling) {
            (None, _) => self,
            (Some(_), Err(message)) => self.noticed("Snapshot warning: "@ + message@),
            (Some(index), Ok(rolling)) => {
                let told = self.noticed_if(tree::text_view(rolling.warning));
                let last = snapshot::comparison_view(rolling.comparison);
                match requested {
                    None => told.with_comparison(last),
                    Some(requested) => match requested_comparison(requested, index) {
                        Ok(comparison) => told.with_comparison(Some(comparison)),
                        Err(message) => told.noticed(
                            "Snapshot comparison failed: "@ + message,
                        ).with_comparison(last),
                    },
                }
            },
        }
    }

    pub open spec fn completion_noticed(self) -> AppModel {
        match self.analysis_index {
            Some(index) => self.noticed(
                "Analysis complete: "@ + text::decimal(index.files.len()) + " files, "@
                    + text::decimal(index.issues.len()) + " issue(s)"@,
            ),
            None => self,
        }
    }

    /// The state after the finished index has been stored and compared.
    pub open spec fn analysis_finished(
        self,
        rolling: Result<RollingResult, String>,
        requested: Option<Result<SnapshotV1, String>>,
    ) -> AppModel {
        let shown = self.compared(rolling, requested).rows_rebuilt();
        if shown.detect_duplicates || shown.active_view == ViewKind::Duplicates {
            shown.duplicates_ensured()
        } else {
            shown.completion_noticed()
        }
    }
}

impl App {
    pub(crate) fn set_comparison(&mut self, comparison: Option<SnapshotComparison>)
        requires
            old(self).wf(),
        ensures
            final(self).wf(),
            final(self)@ == old(self)@.with_comparison(snapshot::comparison_view(comparison)),
    {
        self.comparison = comparison;
    }

    pub(crate) fn say_if(&mut self, message: &Option<String>)
        requires
            old(self).wf(),
        ensures
            final(self).wf(),
            final(self)@ == old(self)@.noticed_if(tree::text_view(*message)),
    {
        if let Some(message) = message {
            self.say(message.as_str());
        }
    }

    pub(crate) fn say_with(&mut self, before: &str, message: &str)
        requires
            old(self).wf(),
        ensures
            final(self).wf(),
            final(self)@ == old(self)@.noticed(before@ + message@),
    {
        let mut told = before.to_owned();
        told.append(message);
        self.say(told.as_str());
    }

    fn finish_analysis_snapshot(
        &mut self,
        rolling: Result<RollingResult, String>,
        requested: Option<Result<SnapshotV1, String>>,
    )
        requires
            old(self).wf(),
        ensures
            final(self).wf(),
            final(self)@ == old(self)@.compared(rolling, requested),
    {
        let found: Option<Result<SnapshotComparison, String>> = match &self.analysis_index {
            None => {
                return ;
            },
            Some(index) => match requested {
                Some(requested) => Some(compare_requested(requested, index)),
                None => None,
            },
        };
        let rolling = match rolling {
            Ok(rolling) => rolling,
            Err(message) => {
                self.say_with("Snapshot warning: ", message.as_str());
                return ;
            },
        };
        self.say_if(&rolling.warning);
        match found {
            None => {
                self.set_comparison(rolling.comparison);
            },
            Some(Ok(comparison)) => {
                self.set_comparison(Some(comparison));
            },
            Some(Err(message)) => {
                self.say_with("Snapshot comparison failed: ", message.as_str());
                self.set_comparison(rolling.comparison);
            },
        }
    }

    fn notice_completion(&mut self)
        requires
            old(self).wf(),
        ensures
            final(self).wf(),
            final(self)@ == old(self)@.completion_noticed(),
    {
        let mut message = "Analysis complete: ".to_owned();
        match &self.analysis_index {
            Some(index) => {
                text::push_count(&mut message, index.files.len());
                message.append(" files, ");
                text::push_count(&mut message, index.issues.len());
                message.append(" issue(s)");
            },
            None => {
                return ;
            },
        }
        self.say(message.as_str());
    }

    /// Takes in what storing and comparing the finished index gave.
    /// `requested` is the snapshot that was asked for, if one was.
    pub fn finish_analysis(
        &mut self,
        rolling: Result<RollingResult, String>,
        requested: Option<Result<SnapshotV1, String>>,
    )
        requires
            old(self).wf(),
        ensures
            final(self).wf(),
            final(self)@ == old(self)@.analysis_finished(rolling, requested),
    {
        self.finish_analysis_snapshot(rolling, requested);
        self.rebuild_analysis_rows();
        if self.detect_duplicates || self.active_view == ViewKind::Duplicates {
            self.ensure_duplicates();
        } else {
            self.notice_completion();
        }
    }

    fn forget_slice(&mut self, root: &FilePath)
        requires
            old(self).wf(),
        ensures
            final(self).wf(),
            final(self)@ == old(self)@.slice_forgotten(root@),
    {
        let pending = without_path(&self.analysis_refresh_pending, root);
        let usages = without_usage(&self.analysis_previous_usage, root);
        proof {
            screen::lemma_filter_distinct(self.analysis_refresh_pending@, other_path(root@));
            screen::lemma_filter_usages_distinct(
                self.analysis_previous_usage@,
                other_usage(root@),
            );
        }
        self.analysis_refresh_pending = pending;
        self.analysis_previous_usage = usages;
    }

    fn complete_index(&mut self)
        requires
            old(self).wf(),
        ensures
            final(self).wf(),
            final(self)@ == old(self)@.index_completed(),
    {
        let mut current: Option<AnalysisIndex> = None;
        core::mem::swap(&mut current, &mut self.analysis_index);
        if let Some(mut index) = current {
            index.complete = true;
            self.analysis_index = Some(index);
        }
    }
}

proof fn lemma_offset_place(
    directories: Seq<DirectoryRecord>,
    more: Seq<DirectoryRecord>,
    part: Seq<u8>,
    previous: UsageStats,
    current: UsageStats,
    wanted: Seq<u8>,
)
    requires
        analytics::directory_place(directories, wanted) < directories.len(),
    ensures
        0 <= analytics::directory_place(directories, wanted),
        analytics::directory_place(
            offset_directories(directories, part, previous, current) + more,
            wanted,
        ) == analytics::directory_place(directories, wanted),
        path::same_path(
            directories[analytics::directory_place(directories, wanted)].path@,
            wanted,
        ),
    decreases directories.len(),
{
    let all = offset_directories(directories, part, previous, current) + more;
    assert(all[0].path == directories[0].path);
    if !path::same_path(directories[0].path@, wanted) {
        let rest = directories.drop_first();
        lemma_offset_place(rest, more, part, previous, current, wanted);
        assert(all.drop_first() =~= offset_directories(rest, part, previous, current) + more);
        let place = analytics::directory_place(rest, wanted);
        assert(directories[place + 1] == rest[place]);
    }
}

/// When a part of the index is built again, a directory above it takes up what
/// it took up before, less what the part took up before, plus what it takes up
/// now; a directory elsewhere takes up what it did.
pub proof fn a_rebuilt_part_is_set_off(
    index: IndexModel,
    part: Seq<u8>,
    previous: UsageStats,
    completed_at: u64,
    directories: Seq<DirectoryRecord>,
    issues: Seq<AnalysisIssue>,
    mounts_skipped: usize,
    complete: bool,
    directory: Seq<u8>,
)
    requires
        analytics::directory_usage(index.directories, directory) is Some,
        !path::same_path(directory, part),
    ensures
        ({
            let merged = merged_index(
                index,
                part,
                previous,
                completed_at,
                directories,
                issues,
                mounts_skipped,
                complete,
            );
            let before = analytics::directory_usage(index.directories, directory)->0;
            let current = snapshot::usage_or_zero(analytics::directory_usage(directories, part));
            analytics::directory_usage(merged.directories, directory) == Some(
                if path::path_starts_with(part, directory) {
                    before.minus(previous).plus(current)
                } else {
                    before
                },
            )
        }),
{
    let current = snapshot::usage_or_zero(analytics::directory_usage(directories, part));
    lemma_offset_place(index.directories, directories, part, previous, current, directory);
    let place = analytics::directory_place(index.directories, directory);
    let record = index.directories[place];
    assert(path::components(record.path@) == path::components(directory));
    assert(offset_directories(index.directories, part, previous, current)[place]
        == offset_directory(record, part, previous, current));
}

proof fn lemma_outermost(paths: Seq<FilePath>, i: int, j: int)
    requires
        0 <= i < j < outermost(paths).len(),
    ensures
        !path::path_starts_with(outermost(paths)[j]@, outermost(paths)[i]@),
    decreases paths.len(),
{
    let rest = outermost(paths.drop_last());
    if j < rest.len() {
        lemma_outermost(paths.drop_last(), i, j);
    } else {
        assert(!is_covered(rest, paths.last()@));
        assert(rest[i] == outermost(paths)[i]);
    }
}

/// Of the directories that are indexed again, none lies in one before it.
pub proof fn slices_do_not_overlap(paths: Seq<FilePath>, i: int, j: int)
    requires
        0 <= i < j < slice_roots(paths).len(),
    ensures
        !path::path_starts_with(slice_roots(paths)[j]@, slice_roots(paths)[i]@),
{
    lemma_outermost(order::sorted_by(paths, depth_keys(paths)), i, j);
}

/// Found files are added to the index, and what they take up to what was found.
pub proof fn found_files_are_added(state: AppModel, files: Seq<FileRecord>)
    requires
        state.analysis_index is Some,
    ensures
        ({
            let after = state.files_found(files);
            let more = analytics::usage_sum(analytics::file_usages(files));
            let before = state.analysis_found_usage;
            &&& after.analysis_index is Some
            &&& after.analysis_index->0.files == state.analysis_index->0.files + files
            &&& after.analysis_index->0.directories == state.analysis_index->0.directories
            &&& before.logical + more.logical <= u64::MAX ==> after.analysis_found_usage.logical
                == before.logical + more.logical
            &&& before.physical + more.physical <= u64::MAX ==> after.analysis_found_usage.physical
                == before.physical + more.physical
            &&& before.files + more.files <= u64::MAX ==> after.analysis_found_usage.files
                == before.files + more.files
        }),
{
}

/// A finished index of the whole root has the directories and problems of the
/// report, is complete, and is ready to be used.
pub proof fn a_finished_index_is_ready(
    state: AppModel,
    scan_root: FilePath,
    completed_at: u64,
    directories: Seq<DirectoryRecord>,
    issues: Seq<AnalysisIssue>,
    mounts_skipped: usize,
)
    requires
        state.analysis_index is Some,
        state.analysis_refresh_pending.len() == 0,
    ensures
        ({
            let after = state.index_finished(
                scan_root,
                completed_at,
                directories,
                issues,
                mounts_skipped,
            );
            let index = after.analysis_index->0;
            &&& after.analysis_status == AnalysisStatus::Ready
            &&& after.effects == state.effects.push(EffectModel::FinishAnalysis)
            &&& after.analysis_index is Some
            &&& index.complete && index.completed_at == Some(completed_at)
            &&& index.directories == directories && index.issues == issues
            &&& index.mounts_skipped == mounts_skipped
            &&& index.files == state.analysis_index->0.files
            &&& after.analysis_found_usage == index.total()
        }),
{
    lemma_filter_nothing(state.analysis_refresh_pending, other_path(scan_root@));
}

proof fn lemma_filter_nothing(paths: Seq<FilePath>, keep: spec_fn(FilePath) -> bool)
    requires
        paths.len() == 0,
    ensures
        paths.filter(keep).len() == 0,
{
    paths.lemma_filter_len(keep);
}

/// A part that is measured again takes the place of what was there: what it took
/// up before is set off against what it takes up now in the directories above it,
/// and its problems take the place of the old ones.
pub proof fn a_new_part_takes_the_place_of_the_old(
    index: IndexModel,
    part: Seq<u8>,
    previous: UsageStats,
    completed_at: u64,
    directories: Seq<DirectoryRecord>,
    issues: Seq<AnalysisIssue>,
    mounts_skipped: usize,
    complete: bool,
    i: int,
)
    requires
        0 <= i < index.directories.len(),
    ensures
        ({
            let merged = merged_index(
                index,
                part,
                previous,
                completed_at,
                directories,
                issues,
                mounts_skipped,
                complete,
            );
            let now = snapshot::usage_or_zero(analytics::directory_usage(directories, part));
            let old = index.directories[i];
            let new = merged.directories[i];
            let above = path::path_starts_with(part, old.path@) && !path::same_path(
                old.path@,
                part,
            );
            &&& merged.directories.len() == index.directories.len() + directories.len()
            &&& new.path == old.path
            &&& !above ==> new == old
            &&& above && old.usage.logical >= previous.logical && old.usage.logical
                - previous.logical + now.logical <= u64::MAX ==> new.usage.logical
                == old.usage.logical - previous.logical + now.logical
            &&& above && old.usage.physical >= previous.physical && old.usage.physical
                - previous.physical + now.physical <= u64::MAX ==> new.usage.physical
                == old.usage.physical - previous.physical + now.physical
            &&& above && old.usage.files >= previous.files && old.usage.files - previous.files
                + now.files <= u64::MAX ==> new.usage.files == old.usage.files - previous.files
                + now.files
            &&& merged.files == index.files && merged.complete == complete
        }),
{
}

/// A part that is taken out is noted with what it took up, which is no longer
/// counted as found, and it waits to be measured again.
pub proof fn a_part_taken_out_waits(state: AppModel, path: FilePath)
    requires
        state.analysis_index is Some,
    ensures
        ({
            let index = state.analysis_index->0;
            let previous = snapshot::usage_or_zero(
                analytics::directory_usage(index.directories, path@),
            );
            let after = state.slice_taken(path);
            &&& after.analysis_previous_usage.last() == (path, previous)
            &&& after.analysis_found_usage == state.analysis_found_usage.minus(previous)
            &&& after.analysis_index == Some(index.without_subtree(path@))
            &&& screen::has_path(after.analysis_refresh_pending, path@)
        }),
{
    if !screen::has_path(state.analysis_refresh_pending, path@) {
        let pending = state.analysis_refresh_pending.push(path);
        assert(path::same_path(pending[pending.len() - 1]@, path@));
    }
}

/// Found groups are kept with the index, after the problems it had.
pub proof fn found_groups_are_kept(
    state: AppModel,
    groups: Seq<GroupModel>,
    issues: Seq<AnalysisIssue>,
)
    requires
        state.analysis_index is Some,
    ensures
        ({
            let index = state.duplicates_found(groups, issues).analysis_index;
            &&& index is Some
            &&& index->0.duplicates == Some(groups)
            &&& index->0.issues == state.analysis_index->0.issues + issues
            &&& index->0.files == state.analysis_index->0.files
        }),
{
}

/// Duplicates are looked for once in a complete index, and not while they are
/// being looked for.
pub proof fn duplicates_are_looked_for_once(state: AppModel)
    requires
        state.analysis_index is Some,
        !state.stopped.analysis,
    ensures
        ({
            let index = state.analysis_index->0;
            let due = index.complete && index.duplicates is None && state.analysis_status
                != AnalysisStatus::Hashing;
            &&& due ==> state.duplicates_ensured().effects == state.effects.push(
                EffectModel::StartDuplicates { generation: state.generation, files: index.files },
            )
            &&& !due ==> state.duplicates_ensured() == state
        }),
{
}

/// An index is built once: not where one is complete or being built.
pub proof fn an_index_is_built_once(state: AppModel)
    requires
        !state.stopped.analysis,
        state.active_view != ViewKind::Duplicates,
    ensures
        ({
            let after = state.analysis_ensured();
            let there = state.analysis_index is Some && state.analysis_index->0.complete;
            let due = !there && state.analysis_status != AnalysisStatus::Indexing;
            &&& !due ==> after == state
            &&& due ==> {
                &&& after.effects == state.effects.push(
                    EffectModel::StartIndex {
                        generation: state.generation,
                        root: state.root,
                        options: state.options(),
                    },
                )
                &&& after.analysis_status == AnalysisStatus::Indexing
                &&& after.analysis_index is Some && !after.analysis_index->0.complete
                &&& after.analysis_index->0.files.len() == 0
                &&& after.analysis_rows.len() == 0
            }
        }),
{
}

/// The rows of a view are those of the complete index, and the selection stays
/// within them.
pub proof fn shown_rows_are_those_of_the_index(state: AppModel)
    requires
        state.active_view != ViewKind::Tree,
        state.analysis_index is Some,
        state.analysis_index->0.complete,
    ensures
        ({
            let after = state.rows_rebuilt();
            let rows = rows::view_rows(
                state.active_view,
                state.analysis_index->0,
                RowContext {
                    comparison: state.comparison,
                    filter: state.filter_expression,
                    query: state.filter_query,
                    sort: state.sort,
                    mode: state.size_mode,
                    now: state.clock.seconds,
                },
            );
            &&& after.analysis_rows == rows
            &&& state.analysis_selected < rows.len() ==> after.analysis_selected
                == state.analysis_selected
            &&& 0 < rows.len() <= state.analysis_selected ==> after.analysis_selected == rows.len()
                - 1
        }),
{
}

/// A comparison that was asked for is made with the index itself, unless the
/// snapshot could not be read or belongs to another tree.
pub proof fn requested_comparisons_are_made(
    requested: Result<SnapshotV1, String>,
    index: IndexModel,
)
    ensures
        requested is Err ==> requested_comparison(requested, index) == Err::<ComparisonModel, _>(
            requested->Err_0@,
        ),
        requested is Ok && snapshot::incompatibility(requested->Ok_0, index) is Some
            ==> requested_comparison(requested, index) == Err::<ComparisonModel, _>(
            snapshot::incompatibility(requested->Ok_0, index)->0,
        ),
        requested is Ok && snapshot::incompatibility(requested->Ok_0, index) is None
            ==> requested_comparison(requested, index) == Ok::<_, Seq<char>>(
            snapshot::comparison_of(requested->Ok_0.index@, index),
        ),
{
}

/// A finished analysis is compared with the last run, or with the snapshot that
/// was asked for where that can be done.
pub proof fn finished_analyses_are_compared(
    state: AppModel,
    rolling: RollingResult,
    requested: Option<Result<SnapshotV1, String>>,
)
    requires
        state.analysis_index is Some,
    ensures
        ({
            let after = state.compared(Ok(rolling), requested);
            let asked = requested is Some && requested_comparison(
                requested->0,
                state.analysis_index->0,
            ) is Ok;
            &&& asked ==> after.comparison == Some(
                requested_comparison(requested->0, state.analysis_index->0)->Ok_0,
            )
            &&& !asked ==> after.comparison == snapshot::comparison_view(rolling.comparison)
        }),
{
}

/// After a finished analysis duplicates are looked for where they were asked for
/// or are shown.
pub proof fn duplicates_follow_where_they_are_wanted(
    state: AppModel,
    rolling: Result<RollingResult, String>,
    requested: Option<Result<SnapshotV1, String>>,
)
    ensures
        ({
            let shown = state.compared(rolling, requested).rows_rebuilt();
            &&& state.detect_duplicates || state.active_view == ViewKind::Duplicates
                ==> state.analysis_finished(rolling, requested) == shown.duplicates_ensured()
            &&& !state.detect_duplicates && state.active_view != ViewKind::Duplicates
                ==> state.analysis_finished(rolling, requested) == shown.completion_noticed()
        }),
{
}

/// Going to another view shows it; the tree stays as it is, and the other views
/// show the rows of the index.
pub proof fn another_view_is_shown(state: AppModel, view: ViewKind)
    ensures
        view == ViewKind::Tree ==> state.view_set(view).active_view == ViewKind::Tree
            && state.view_set(view).tree == state.tree && state.view_set(view).effects
            == state.effects,
        view != ViewKind::Tree && view != ViewKind::Duplicates && state.analysis_index is Some
            && state.analysis_index->0.complete ==> state.view_set(view).active_view == view
            && state.view_set(view).effects == state.effects && state.view_set(view).analysis_rows
            == rows::view_rows(
            view,
            state.analysis_index->0,
            state.with_view(view).row_context(),
        ),
{
}

/// A report counts only in its own generation; in it each is taken for what it
/// is.
pub proof fn reports_are_taken_for_what_they_are(state: AppModel, event: AnalysisEvent)
    requires
        event.made_in() == state.generation,
    ensures
        match event {
            AnalysisEvent::Started { scan_root, started_at, .. } => {
                &&& state.analysis_reported(event).analysis_status == AnalysisStatus::Indexing
                &&& state.analysis_reported(event).analysis_index is Some
            },
            AnalysisEvent::FileBatch { files, .. } => state.analysis_reported(event)
                == state.files_found(files@),
            AnalysisEvent::Finished {
                scan_root,
                completed_at,
                directories,
                issues,
                mounts_skipped,
                ..
            } => state.analysis_reported(event) == state.index_finished(
                scan_root,
                completed_at,
                directories@,
                issues@,
                mounts_skipped,
            ),
            AnalysisEvent::DuplicatesStarted { .. } => state.analysis_reported(
                event,
            ).analysis_status == AnalysisStatus::Hashing,
            AnalysisEvent::DuplicatesFinished { groups, .. } => {
                &&& state.analysis_reported(event).analysis_status == AnalysisStatus::Ready
                &&& state.analysis_index is Some ==> state.analysis_reported(
                    event,
                ).analysis_index->0.duplicates == Some(analytics::group_views(groups@))
            },
        },
{
}

} // verus!
