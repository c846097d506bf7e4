//! What is shown: rows, the selection, and what is said about the state.
use vstd::prelude::*;
use vstd::string::StringExecFns;

use crate::app;
use crate::app::{
    AnalysisRow, AnalysisStatus, App, AppMode, AppModel, Area, Clock, Effect, EffectModel,
    ModeModel, StoppedWorkers, ViewKind,
};
use crate::filter;
use crate::filter::NodeRule;
use crate::lists;
use crate::path;
use crate::path::FilePath;
use crate::text;
use crate::tree;
use crate::tree::{Node, NodeId, UsageStats, VisibleNode};

verus! {

/// The rows that show a node.
pub open spec fn shows(id: NodeId) -> spec_fn(VisibleNode) -> bool {
    |row: VisibleNode| row.node_id == id
}

/// The place of the first row that shows a node.
pub open spec fn place_in(rows: Seq<VisibleNode>, id: Option<NodeId>) -> Option<int> {
    match id {
        None => None,
        Some(id) => {
            let at = lists::first_index(rows, shows(id));
            if at < rows.len() {
                Some(at)
            } else {
                None
            }
        },
    }
}

/// The first row of a window of rows that has to show a certain row: the window
/// moves no further than it must, and ends with the last row.
pub open spec fn window(offset: usize, index: int, page: usize, count: nat) -> usize {
    let start = if index < offset {
        index
    } else if index >= offset + page {
        index + 1 - page
    } else {
        offset as int
    };
    let last = if count > page {
        count - page
    } else {
        0
    };
    (if start > last {
        last
    } else {
        start
    }) as usize
}

/// The window shows the row that it has to show.
pub proof fn the_window_shows_its_row(offset: usize, index: int, page: usize, count: nat)
    requires
        page >= 1,
        0 <= index < count <= usize::MAX,
    ensures
        ({
            let start = window(offset, index, page, count);
            start <= index < start + page
        }),
        window(offset, index, page, count) < count,
{
}

fn move_window(offset: usize, index: usize, page: usize, count: usize) -> (start: usize)
    requires
        page >= 1,
        index < count,
    ensures
        start == window(offset, index as int, page, count as nat),
{
    let start: usize = if index < offset {
        index
    } else if index >= offset.saturating_add(page) {
        index + 1 - page
    } else {
        offset
    };
    let last: usize = count.saturating_sub(page);
    if start > last {
        last
    } else {
        start
    }
}

impl AppModel {
    /// The state with something to say.
    pub open spec fn noticed(self, message: Seq<char>) -> AppModel {
        AppModel { notice: Some(message), ..self }
    }

    /// The state with an error to show.
    pub open spec fn failed(self, message: Seq<char>) -> AppModel {
        AppModel { notice: Some(message), mode: ModeModel::ErrorDialog(message), ..self }
    }

    /// The state with one more thing to be done outside.
    pub open spec fn asked(self, effect: EffectModel) -> AppModel {
        AppModel { effects: self.effects.push(effect), ..self }
    }

    /// The row that is selected in the tree view.
    pub open spec fn selected_row(self) -> Option<int> {
        place_in(self.visible, self.selected)
    }

    /// The state with the selected row of the tree view on the screen.
    pub open spec fn scrolled(self) -> AppModel {
        AppModel {
            scroll_offset: match self.selected_row() {
                None => 0,
                Some(index) => window(
                    self.scroll_offset,
                    index,
                    self.page_size,
                    self.visible.len(),
                ),
            },
            ..self
        }
    }

    /// The state with the selected row of an analysis view on the screen.
    pub open spec fn analysis_scrolled(self) -> AppModel {
        if self.analysis_rows.len() == 0 {
            AppModel { analysis_selected: 0, analysis_scroll: 0, ..self }
        } else {
            AppModel {
                analysis_scroll: window(
                    self.analysis_scroll,
                    self.analysis_selected as int,
                    self.page_size,
                    self.analysis_rows.len(),
                ),
                ..self
            }
        }
    }

    /// The rows that the tree view has to show: by the filter, or else by the
    /// text that names have to contain, or else all that is open.
    pub open spec fn tree_rows(self) -> Seq<VisibleNode> {
        match self.filter_expression {
            Some(filter) => tree::admitted_view(
                self.tree,
                filter::matching(filter, self.size_mode, self.clock.seconds),
            ),
            None => match self.filter_query {
                Some(query) => tree::admitted_view(self.tree, filter::named(query)),
                None => tree::visible_rows(self.tree),
            },
        }
    }

    /// The state with its tree view brought up to date. The selection stays
    /// where its row is still there, and else goes to the first row.
    pub open spec fn rebuilt(self) -> AppModel {
        let rows = self.tree_rows();
        let selected = if place_in(rows, self.selected) is Some {
            self.selected
        } else if rows.len() > 0 {
            Some(rows[0].node_id)
        } else {
            None
        };
        (AppModel { visible: rows, selected, ..self }).scrolled()
    }

    /// The number of rows of the view that is shown.
    pub open spec fn row_count(self) -> nat {
        if self.active_view == ViewKind::Tree {
            self.visible.len()
        } else {
            self.analysis_rows.len()
        }
    }

    /// The state with a row selected, or the last row where there are fewer.
    pub open spec fn with_row(self, index: int) -> AppModel {
        let count = self.row_count();
        let at = if index < count {
            index
        } else {
            count - 1
        };
        if count == 0 {
            self
        } else if self.active_view == ViewKind::Tree {
            (AppModel { selected: Some(self.visible[at].node_id), ..self }).scrolled()
        } else {
            (AppModel { analysis_selected: at as usize, ..self }).analysis_scrolled()
        }
    }

    /// The state with the selection moved by some rows, up to the first or last.
    pub open spec fn moved(self, delta: int) -> AppModel {
        let current = if self.active_view == ViewKind::Tree {
            match self.selected_row() {
                Some(index) => index,
                None => 0,
            }
        } else {
            self.analysis_selected as int
        };
        self.with_row(
            if current + delta < 0 {
                0
            } else {
                current + delta
            },
        )
    }
}

/// Where a node stands among rows.
pub(crate) fn find_row(rows: &Vec<VisibleNode>, id: NodeId) -> (place: Option<usize>)
    ensures
        match place {
            Some(place) => place_in(rows@, Some(id)) == Some(place as int) && place < rows@.len(),
            None => place_in(rows@, Some(id)) is None,
        },
{
    let mut i: usize = 0;
    while i < rows.len()
        invariant
            i <= rows@.len(),
            forall|j: int| 0 <= j < i ==> !shows(id)(#[trigger] rows@[j]),
        decreases rows@.len() - i,
    {
        if rows[i].node_id == id {
            proof {
                lists::lemma_first_index(rows@, shows(id), i as int);
            }
            return Some(i);
        }
        i += 1;
    }
    proof {
        lists::lemma_first_index(rows@, shows(id), i as int);
    }
    None
}

impl AppModel {
    /// The state with so many rows on the screen, at least one.
    pub open spec fn with_page(self, rows: usize) -> AppModel {
        let sized = AppModel {
            page_size: if rows > 1 {
                rows
            } else {
                1
            },
            ..self
        };
        if sized.active_view == ViewKind::Tree {
            sized.scrolled()
        } else {
            sized.analysis_scrolled()
        }
    }
}

impl App {
    /// Tells the state what time it is.
    pub fn set_clock(&mut self, clock: Clock)
        requires
            old(self).wf(),
        ensures
            final(self).wf(),
            final(self)@ == (AppModel { clock, ..old(self)@ }),
    {
        self.clock = clock;
    }

    /// Tells the state which workers have stopped.
    pub fn set_stopped(&mut self, stopped: StoppedWorkers)
        requires
            old(self).wf(),
        ensures
            final(self).wf(),
            final(self)@ == (AppModel { stopped, ..old(self)@ }),
    {
        self.stopped = stopped;
    }

    /// Hands out what is to be done outside.
    pub fn take_effects(&mut self) -> (effects: Vec<Effect>)
        requires
            old(self).wf(),
        ensures
            final(self).wf(),
            app::effect_views(effects@) == old(self)@.effects,
            final(self)@ == (AppModel { effects: Seq::empty(), ..old(self)@ }),
    {
        let mut effects: Vec<Effect> = Vec::new();
        core::mem::swap(&mut effects, &mut self.effects);
        assert(app::effect_views(self.effects@) =~= Seq::empty());
        effects
    }

    pub(crate) fn ask(&mut self, effect: Effect)
        requires
            old(self).wf(),
        ensures
            final(self).wf(),
            final(self)@ == old(self)@.asked(effect@),
    {
        let ghost before = self.effects@;
        self.effects.push(effect);
        assert(app::effect_views(self.effects@) =~= app::effect_views(before).push(effect@));
    }

    pub(crate) fn say(&mut self, message: &str)
        requires
            old(self).wf(),
        ensures
            final(self).wf(),
            final(self)@ == old(self)@.noticed(message@),
    {
        self.notice = Some(message.to_owned());
    }

    /// Shows an error.
    pub fn show_error(&mut self, message: String)
        requires
            old(self).wf(),
        ensures
            final(self).wf(),
            final(self)@ == old(self)@.failed(message@),
    {
        self.notice = Some(message.clone());
        self.mode = AppMode::ErrorDialog(message);
    }

    pub fn selected_index(&self) -> (place: Option<usize>)
        ensures
            match place {
                Some(place) => self@.selected_row() == Some(place as int) && place
                    < self.visible@.len(),
                None => self@.selected_row() is None,
            },
    {
        match self.selected {
            Some(id) => find_row(&self.visible, id),
            None => None,
        }
    }

    pub fn selected_node(&self) -> (node: Option<&Node>)
        ensures
            match node {
                Some(node) => self.selected is Some && self@.tree.nodes.contains_key(
                    self.selected->0,
                ) && node@ == self@.tree.nodes[self.selected->0],
                None => self.selected is None || !self@.tree.nodes.contains_key(
                    self.selected->0,
                ),
            },
    {
        match self.selected {
            Some(id) => self.tree.get(id),
            None => None,
        }
    }

    pub(crate) fn ensure_selection_visible(&mut self)
        requires
            old(self).wf(),
        ensures
            final(self).wf(),
            final(self)@ == old(self)@.scrolled(),
    {
        match self.selected_index() {
            None => {
                self.scroll_offset = 0;
            },
            Some(index) => {
                self.scroll_offset =
                move_window(self.scroll_offset, index, self.page_size, self.visible.len());
            },
        }
    }

    pub(crate) fn ensure_analysis_selection_visible(&mut self)
        requires
            old(self).wf(),
        ensures
            final(self).wf(),
            final(self)@ == old(self)@.analysis_scrolled(),
    {
        if self.analysis_rows.len() == 0 {
            self.analysis_selected = 0;
            self.analysis_scroll = 0;
            return ;
        }
        self.analysis_scroll =
        move_window(
            self.analysis_scroll,
            self.analysis_selected,
            self.page_size,
            self.analysis_rows.len(),
        );
    }

    /// Brings the tree view up to date.
    pub fn rebuild_visible(&mut self)
        requires
            old(self).wf(),
        ensures
            final(self).wf(),
            final(self)@ == old(self)@.rebuilt(),
    {
        let rows = match &self.filter_expression {
            Some(filter) => self.tree.flatten_visible_matching(
                &NodeRule::Matching(filter, self.size_mode, self.clock.seconds),
            ),
            None => match &self.filter_query {
                Some(query) => self.tree.flatten_visible_filtered(Some(query.as_str())),
                None => self.tree.flatten_visible(),
            },
        };
        assert(rows@ == self@.tree_rows());
        self.visible = rows;
        if self.selected_index().is_none() {
            self.selected =
            if self.visible.len() > 0 {
                Some(self.visible[0].node_id)
            } else {
                None
            };
        }
        self.ensure_selection_visible();
    }

    pub fn active_row_count(&self) -> (count: usize)
        ensures
            count == self@.row_count(),
    {
        if self.active_view == ViewKind::Tree {
            self.visible.len()
        } else {
            self.analysis_rows.len()
        }
    }

    #[verifier::spinoff_prover]
    pub(crate) fn select_index(&mut self, index: usize)
        requires
            old(self).wf(),
        ensures
            final(self).wf(),
            final(self)@ == old(self)@.with_row(index as int),
    {
        let count: usize = self.active_row_count();
        if count == 0 {
            return ;
        }
        let at: usize = if index < count {
            index
        } else {
            count - 1
        };
        if self.active_view != ViewKind::Tree {
            self.analysis_selected = at;
            self.ensure_analysis_selection_visible();
            return ;
        }
        self.selected = Some(self.visible[at].node_id);
        self.ensure_selection_visible();
    }

    pub(crate) fn move_selection(&mut self, delta: i128)
        requires
            old(self).wf(),
            -0x1_0000_0000_0000_0000 <= delta <= 0x1_0000_0000_0000_0000,
        ensures
            final(self).wf(),
            final(self)@ == old(self)@.moved(delta as int),
    {
        let current: usize = if self.active_view == ViewKind::Tree {
            match self.selected_index() {
                Some(index) => index,
                None => 0,
            }
        } else {
            self.analysis_selected
        };
        let target: i128 = current as i128 + delta;
        let index: usize = if target < 0 {
            0
        } else if target > usize::MAX as i128 {
            usize::MAX
        } else {
            target as usize
        };
        let ghost before = self@;
        self.select_index(index);
        proof {
            assert(before.row_count() <= usize::MAX) by {
                let count: usize = if before.active_view == ViewKind::Tree {
                    old(self).visible.len()
                } else {
                    old(self).analysis_rows.len()
                };
            }
        }
    }

    /// The row of an analysis view that is selected.
    pub fn selected_analysis_row(&self) -> (row: Option<&AnalysisRow>)
        ensures
            match row {
                Some(row) => self.active_view != ViewKind::Tree && self.analysis_selected
                    < self.analysis_rows@.len() && row@
                    == self@.analysis_rows[self.analysis_selected as int],
                None => self.active_view == ViewKind::Tree || self.analysis_selected
                    >= self.analysis_rows@.len(),
            },
    {
        if self.active_view != ViewKind::Tree && self.analysis_selected
            < self.analysis_rows.len() {
            Some(&self.analysis_rows[self.analysis_selected])
        } else {
            None
        }
    }

    /// Sets how many rows the screen shows.
    pub fn set_page_size(&mut self, page_size: usize)
        requires
            old(self).wf(),
        ensures
            final(self).wf(),
            final(self)@ == old(self)@.with_page(page_size),
            ({
                let sized = AppModel {
                    page_size: if page_size > 1 {
                        page_size
                    } else {
                        1
                    },
                    ..old(self)@
                };
                final(self)@ == if sized.active_view == ViewKind::Tree {
                    sized.scrolled()
                } else {
                    sized.analysis_scrolled()
                }
            }),
    {
        self.page_size =
        if page_size > 1 {
            page_size
        } else {
            1
        };
        if self.active_view == ViewKind::Tree {
            self.ensure_selection_visible();
        } else {
            self.ensure_analysis_selection_visible();
        }
    }

    /// Sets where on the screen the rows are.
    pub fn set_list_area(&mut self, area: Area)
        requires
            old(self).wf(),
        ensures
            final(self).wf(),
            final(self)@ == (AppModel { list_area: area, ..old(self)@ }).with_page(
                area.height as usize,
            ),
            ({
                let sized = AppModel {
                    list_area: area,
                    page_size: if area.height > 1 {
                        area.height as usize
                    } else {
                        1
                    },
                    ..old(self)@
                };
                final(self)@ == if sized.active_view == ViewKind::Tree {
                    sized.scrolled()
                } else {
                    sized.analysis_scrolled()
                }
            }),
    {
        self.list_area = area;
        self.set_page_size(area.height as usize);
    }
}

spec fn other_paths() -> spec_fn(FilePath, FilePath) -> bool {
    |left: FilePath, right: FilePath| !path::same_path(left@, right@)
}

spec fn other_keys() -> spec_fn((FilePath, UsageStats), (FilePath, UsageStats)) -> bool {
    |left: (FilePath, UsageStats), right: (FilePath, UsageStats)|
        !path::same_path(left.0@, right.0@)
}

/// Whether no path is in a list twice.
#[verifier::opaque]
pub open spec fn distinct_paths(paths: Seq<FilePath>) -> bool {
    forall|i: int, j: int|
        0 <= i < j < paths.len() ==> !path::same_path(
            (#[trigger] paths[i])@,
            (#[trigger] paths[j])@,
        )
}

/// Whether no path has two usages in a list.
#[verifier::opaque]
pub open spec fn distinct_usages(usages: Seq<(FilePath, UsageStats)>) -> bool {
    forall|i: int, j: int|
        0 <= i < j < usages.len() ==> !path::same_path(
            (#[trigger] usages[i]).0@,
            (#[trigger] usages[j]).0@,
        )
}

pub proof fn lemma_nothing_distinct()
    ensures
        distinct_paths(Seq::empty()),
        distinct_usages(Seq::empty()),
{
    reveal(distinct_paths);
    reveal(distinct_usages);
}

pub proof fn lemma_filter_distinct(paths: Seq<FilePath>, keep: spec_fn(FilePath) -> bool)
    requires
        distinct_paths(paths),
    ensures
        distinct_paths(paths.filter(keep)),
{
    reveal(distinct_paths);
    assert(lists::all_apart(paths, other_paths()));
    lists::lemma_filter_apart(paths, keep, other_paths());
    let kept = paths.filter(keep);
    assert forall|i: int, j: int| 0 <= i < j < kept.len() implies !path::same_path(
        (#[trigger] kept[i])@,
        (#[trigger] kept[j])@,
    ) by {
        assert(other_paths()(kept[i], kept[j]));
    }
}

pub proof fn lemma_push_distinct(
    paths: Seq<FilePath>,
    keep: spec_fn(FilePath) -> bool,
    path: FilePath,
)
    requires
        distinct_paths(paths),
        !has_path(paths, path@),
    ensures
        distinct_paths(paths.push(path)),
        distinct_paths(paths.filter(keep).push(path)),
{
    reveal(distinct_paths);
    assert(lists::all_apart(paths, other_paths()));
    lists::lemma_filter_push_apart(paths, keep, other_paths(), path);
    let kept = paths.filter(keep).push(path);
    assert forall|i: int, j: int| 0 <= i < j < kept.len() implies !path::same_path(
        (#[trigger] kept[i])@,
        (#[trigger] kept[j])@,
    ) by {
        assert(other_paths()(kept[i], kept[j]));
    }
}

pub proof fn lemma_filter_usages_distinct(
    usages: Seq<(FilePath, UsageStats)>,
    keep: spec_fn((FilePath, UsageStats)) -> bool,
)
    requires
        distinct_usages(usages),
    ensures
        distinct_usages(usages.filter(keep)),
{
    reveal(distinct_usages);
    assert(lists::all_apart(usages, other_keys()));
    lists::lemma_filter_apart(usages, keep, other_keys());
    let kept = usages.filter(keep);
    assert forall|i: int, j: int| 0 <= i < j < kept.len() implies !path::same_path(
        (#[trigger] kept[i]).0@,
        (#[trigger] kept[j]).0@,
    ) by {
        assert(other_keys()(kept[i], kept[j]));
    }
}

pub proof fn lemma_push_usage_distinct(
    usages: Seq<(FilePath, UsageStats)>,
    keep: spec_fn((FilePath, UsageStats)) -> bool,
    entry: (FilePath, UsageStats),
)
    requires
        distinct_usages(usages),
        forall|i: int|
            0 <= i < usages.len() && keep(usages[i]) ==> !path::same_path(
                (#[trigger] usages[i]).0@,
                entry.0@,
            ),
    ensures
        distinct_usages(usages.filter(keep).push(entry)),
{
    reveal(distinct_usages);
    assert(lists::all_apart(usages, other_keys()));
    lists::lemma_filter_push_apart(usages, keep, other_keys(), entry);
    let kept = usages.filter(keep).push(entry);
    assert forall|i: int, j: int| 0 <= i < j < kept.len() implies !path::same_path(
        (#[trigger] kept[i]).0@,
        (#[trigger] kept[j]).0@,
    ) by {
        assert(other_keys()(kept[i], kept[j]));
    }
}

/// Whether a path is in a list.
pub open spec fn has_path(paths: Seq<FilePath>, path: Seq<u8>) -> bool {
    exists|i: int| 0 <= i < paths.len() && path::same_path((#[trigger] paths[i])@, path)
}

/// Whether a path is in a list.
pub fn holds_path(paths: &Vec<FilePath>, path: &FilePath) -> (result: bool)
    ensures
        result == has_path(paths@, path@),
{
    let mut i: usize = 0;
    while i < paths.len()
        invariant
            i <= paths@.len(),
            forall|j: int| 0 <= j < i ==> !path::same_path((#[trigger] paths@[j])@, path@),
        decreases paths@.len() - i,
    {
        if paths[i].same(path) {
            return true;
        }
        i += 1;
    }
    false
}

impl AppModel {
    /// Whether an entry may be deleted: it lies below the root and is not the
    /// root.
    pub open spec fn can_delete(self, path: Seq<u8>) -> bool {
        !path::same_path(path, self.root@) && path::path_starts_with(path, self.root@)
    }

    /// What the analysis has found so far.
    pub open spec fn known_usage(self) -> UsageStats {
        match self.analysis_index {
            Some(index) => if index.complete {
                index.total()
            } else {
                self.analysis_found_usage
            },
            None => UsageStats::zero(),
        }
    }

    /// What a node takes up, and what the directory that it is compared with
    /// takes up: the entries of the root are compared with their sum.
    pub open spec fn share_of(self, id: NodeId) -> Option<(u64, u64)> {
        if !self.tree.nodes.contains_key(id) {
            None
        } else {
            let node = self.tree.nodes[id];
            let whole = match node.parent {
                None => None,
                Some(parent) => if parent == self.tree.root {
                    Some(tree::root_usage(self.tree))
                } else if self.tree.nodes.contains_key(parent) {
                    self.tree.nodes[parent].usage
                } else {
                    None
                },
            };
            match (node.usage, whole) {
                (Some(part), Some(whole)) => if whole.amount(self.size_mode) > 0 {
                    Some((part.amount(self.size_mode), whole.amount(self.size_mode)))
                } else {
                    None
                },
                _ => None,
            }
        }
    }

    pub open spec fn indexed_files(self) -> nat {
        match self.analysis_index {
            Some(index) => index.files.len(),
            None => 0,
        }
    }

    /// How far the scan or the analysis is, in words.
    pub open spec fn progress_text(self) -> Seq<char> {
        let usage = tree::root_usage(self.tree);
        let size = crate::format::size_text(usage.amount(self.size_mode));
        let files = text::decimal(self.indexed_files());
        if self.active_view != ViewKind::Tree {
            match self.analysis_status {
                AnalysisStatus::Idle => "Analysis idle"@,
                AnalysisStatus::Indexing => "Analyzing: "@ + files + " files indexed"@,
                AnalysisStatus::Hashing => "Hashing duplicates across "@ + files + " files"@,
                AnalysisStatus::Ready => "Analysis complete: "@ + files + " files"@,
            }
        } else if self.pending_jobs == 0 {
            "Scan complete | "@ + size + " | "@ + text::decimal(usage.files as nat) + " files | "@
                + text::decimal(self.errors as nat) + " errors"@
        } else {
            "Scanning: "@ + text::decimal(self.pending_jobs as nat) + " jobs | "@ + size
                + " found | "@ + text::decimal(self.workers as nat) + " workers | "@
                + text::decimal(self.errors as nat) + " errors"@
        }
    }

    /// The parts of the status line.
    pub open spec fn status_parts(self) -> Seq<Seq<char>> {
        let none = Seq::<Seq<char>>::empty();
        seq![self.progress_text()] + (if self.marked.len() > 0 {
            seq![text::decimal(self.marked.len()) + " marked"@]
        } else {
            none
        }) + (if self.cache_hits > 0 {
            seq![text::decimal(self.cache_hits as nat) + " cached"@]
        } else {
            none
        }) + (if self.mounts_skipped > 0 {
            seq![text::decimal(self.mounts_skipped as nat) + " mounts skipped"@]
        } else {
            none
        }) + (if self.watch_enabled {
            seq!["watching"@]
        } else {
            none
        }) + (if self.active_view != ViewKind::Tree && self.analysis_rows_truncated {
            seq!["top "@ + text::decimal(self.analysis_rows.len()) + " rows"@]
        } else {
            none
        }) + (match self.notice {
            Some(notice) => seq![notice],
            None => none,
        })
    }

    /// The status line.
    pub open spec fn status(self) -> Seq<char> {
        text::joined(self.status_parts(), " | "@)
    }
}

/// A count between two texts.
fn counted(before: &str, count: u64, after: &str) -> (result: String)
    ensures
        result@ == before@ + text::decimal(count as nat) + after@,
{
    let mut result = before.to_owned();
    text::push_number(&mut result, count);
    result.append(after);
    result
}

/// A count before a text.
fn count_of(count: usize, after: &str) -> (result: String)
    ensures
        result@ == text::decimal(count as nat) + after@,
{
    let mut result = String::new();
    text::push_count(&mut result, count);
    result.append(after);
    assert(result@ =~= text::decimal(count as nat) + after@);
    result
}

fn push_part(parts: &mut Vec<String>, part: String)
    ensures
        text::texts(final(parts)@) == text::texts(old(parts)@) + seq![part@],
{
    let ghost before = parts@;
    parts.push(part);
    assert(text::texts(parts@) =~= text::texts(before) + seq![part@]);
}

impl App {
    fn progress(&self) -> (result: String)
        ensures
            result@ == self@.progress_text(),
    {
        let usage = self.tree.root_known_usage();
        let size = crate::format::format_size(usage.size(self.size_mode));
        let files: u64 = match &self.analysis_index {
            Some(index) => index.files.len() as u64,
            None => 0,
        };
        if self.active_view != ViewKind::Tree {
            match self.analysis_status {
                AnalysisStatus::Idle => "Analysis idle".to_owned(),
                AnalysisStatus::Indexing => counted("Analyzing: ", files, " files indexed"),
                AnalysisStatus::Hashing => counted("Hashing duplicates across ", files, " files"),
                AnalysisStatus::Ready => counted("Analysis complete: ", files, " files"),
            }
        } else if self.pending_jobs == 0 {
            let mut result = "Scan complete | ".to_owned();
            result.append(size.as_str());
            result.append(" | ");
            text::push_number(&mut result, usage.files);
            result.append(" files | ");
            text::push_count(&mut result, self.errors);
            result.append(" errors");
            assert(result@ =~= self@.progress_text());
            result
        } else {
            let mut result = counted("Scanning: ", self.pending_jobs as u64, " jobs | ");
            result.append(size.as_str());
            result.append(" found | ");
            text::push_count(&mut result, self.workers);
            result.append(" workers | ");
            text::push_count(&mut result, self.errors);
            result.append(" errors");
            assert(result@ =~= self@.progress_text());
            result
        }
    }

    /// The status line.
    pub fn status_text(&self) -> (result: String)
        ensures
            result@ == self@.status(),
    {
        let mut parts: Vec<String> = Vec::new();
        assert(text::texts(parts@) =~= Seq::empty());
        push_part(&mut parts, self.progress());
        if self.marked.len() > 0 {
            push_part(&mut parts, count_of(self.marked.len(), " marked"));
        }
        if self.cache_hits > 0 {
            push_part(&mut parts, count_of(self.cache_hits, " cached"));
        }
        if self.mounts_skipped > 0 {
            push_part(&mut parts, count_of(self.mounts_skipped, " mounts skipped"));
        }
        if self.watch_enabled {
            push_part(&mut parts, "watching".to_owned());
        }
        if self.active_view != ViewKind::Tree && self.analysis_rows_truncated {
            push_part(&mut parts, counted("top ", self.analysis_rows.len() as u64, " rows"));
        }
        match &self.notice {
            Some(notice) => {
                push_part(&mut parts, notice.clone());
            },
            None => {},
        }
        assert(text::texts(parts@) =~= self@.status_parts());
        text::join(&parts, " | ")
    }

    pub fn is_marked(&self, node_id: NodeId) -> (result: bool)
        ensures
            result == (self@.tree.nodes.contains_key(node_id) && has_path(
                self.marked@,
                self@.tree.nodes[node_id].path@,
            )),
    {
        match self.tree.get(node_id) {
            Some(node) => holds_path(&self.marked, &node.path),
            None => false,
        }
    }

    pub fn is_path_marked(&self, path: &FilePath) -> (result: bool)
        ensures
            result == has_path(self.marked@, path@),
    {
        holds_path(&self.marked, path)
    }

    pub fn can_delete_path(&self, path: &FilePath) -> (result: bool)
        ensures
            result == self@.can_delete(path@),
    {
        !path.same(&self.root) && path.starts_with(&self.root)
    }

    pub fn analysis_known_usage(&self) -> (usage: UsageStats)
        ensures
            usage == self@.known_usage(),
    {
        match &self.analysis_index {
            Some(index) => {
                if index.complete {
                    index.root_usage()
                } else {
                    self.analysis_found_usage
                }
            },
            None => UsageStats::default(),
        }
    }

    /// What a node takes up, and what it is a part of.
    pub fn share(&self, node_id: NodeId) -> (share: Option<(u64, u64)>)
        ensures
            share == self@.share_of(node_id),
    {
        let node = match self.tree.get(node_id) {
            Some(node) => node,
            None => {
                return None;
            },
        };
        let whole: Option<UsageStats> = match node.parent {
            None => None,
            Some(parent) => {
                if parent == self.tree.root_id {
                    Some(self.tree.root_known_usage())
                } else {
                    match self.tree.get(parent) {
                        Some(parent) => parent.usage,
                        None => None,
                    }
                }
            },
        };
        match (node.usage, whole) {
            (Some(part), Some(whole)) => {
                if whole.size(self.size_mode) > 0 {
                    Some((part.size(self.size_mode), whole.size(self.size_mode)))
                } else {
                    None
                }
            },
            _ => None,
        }
    }
}

/// Moving goes from the selected row up or down by the given number of rows, and
/// stops at the first and the last one.
pub proof fn moving_stops_at_the_ends(state: AppModel, delta: int)
    requires
        state.row_count() > 0,
        state.active_view != ViewKind::Tree ==> state.analysis_selected < state.analysis_rows.len()
            && state.analysis_rows.len() <= usize::MAX,
    ensures
        ({
            let current: int = if state.active_view != ViewKind::Tree {
                state.analysis_selected as int
            } else if state.selected_row() is Some {
                state.selected_row()->0
            } else {
                0
            };
            let last = if state.active_view == ViewKind::Tree {
                state.visible.len() - 1
            } else {
                state.analysis_rows.len() - 1
            };
            let target = if current + delta < 0 {
                0
            } else if current + delta > last {
                last
            } else {
                current + delta
            };
            let after = state.moved(delta);
            &&& state.active_view == ViewKind::Tree ==> after.selected == Some(
                state.visible[target].node_id,
            ) && after.analysis_selected == state.analysis_selected
            &&& state.active_view != ViewKind::Tree ==> after.analysis_selected == target
                && after.selected == state.selected
            &&& after.visible == state.visible && after.analysis_rows == state.analysis_rows
        }),
{
}

/// The share of an entry is what it takes up of its directory, both in the way to
/// measure; an entry directly below the root is held against all of them.
pub proof fn shares_are_parts_of_the_directory(state: AppModel, id: NodeId)
    requires
        state.tree.nodes.contains_key(id),
    ensures
        ({
            let node = state.tree.nodes[id];
            let amount = |usage: UsageStats|
                if state.size_mode == tree::SizeMode::Logical {
                    usage.logical
                } else {
                    usage.physical
                };
            let whole = if node.parent == Some(state.tree.root) {
                Some(tree::root_usage(state.tree))
            } else if node.parent is Some && state.tree.nodes.contains_key(node.parent->0) {
                state.tree.nodes[node.parent->0].usage
            } else {
                None
            };
            &&& node.usage is Some && whole is Some && amount(whole->0) > 0 ==> state.share_of(id)
                == Some((amount(node.usage->0), amount(whole->0)))
            &&& node.usage is None || whole is None || amount(whole->0) == 0 ==> state.share_of(
                id,
            ) is None
        }),
{
}

/// Everything below the root can be deleted, the root itself cannot.
pub proof fn only_what_lies_below_can_be_deleted(state: AppModel, path: Seq<u8>)
    ensures
        state.can_delete(path) <==> path::components(state.root@).is_prefix_of(
            path::components(path),
        ) && path::components(path).len() > path::components(state.root@).len(),
{
    if path::components(state.root@).is_prefix_of(path::components(path)) && path::components(
        path,
    ).len() == path::components(state.root@).len() {
        assert(path::components(path) =~= path::components(state.root@));
    }
}

/// While an index is being built what it has found so far is shown, and once it
/// is complete its total.
pub proof fn found_usage_is_shown_until_the_end(state: AppModel)
    ensures
        state.analysis_index is None ==> state.known_usage() == (UsageStats {
            logical: 0,
            physical: 0,
            files: 0,
        }),
        state.analysis_index is Some && !state.analysis_index->0.complete ==> state.known_usage()
            == state.analysis_found_usage,
        state.analysis_index is Some && state.analysis_index->0.complete ==> state.known_usage()
            == state.analysis_index->0.total(),
{
}

/// The place of a node among the rows is the first row that shows it.
pub proof fn places_are_those_of_the_first_row(rows: Seq<VisibleNode>, id: NodeId)
    ensures
        place_in(rows, None) is None,
        place_in(rows, Some(id)) is None <==> forall|i: int|
            0 <= i < rows.len() ==> (#[trigger] rows[i]).node_id != id,
        place_in(rows, Some(id)) matches Some(place) ==> 0 <= place < rows.len()
            && rows[place].node_id == id && forall|i: int|
            0 <= i < place ==> (#[trigger] rows[i]).node_id != id,
{
    lists::the_first_index_is_that_of_a_wanted_item(rows, shows(id));
    let at = lists::first_index(rows, shows(id));
    assert forall|i: int| 0 <= i < at implies (#[trigger] rows[i]).node_id != id by {
        assert(!shows(id)(rows[i]));
    }
    if at < rows.len() {
        assert(shows(id)(rows[at]));
    }
}

/// A page has at least one row, and shows the selected one.
pub proof fn pages_have_at_least_one_row(state: AppModel, rows: usize)
    ensures
        state.with_page(rows).page_size == if rows > 1 {
            rows
        } else {
            1
        },
        state.with_page(rows).selected == state.selected,
        state.with_page(rows).visible == state.visible,
{
}

/// The status says how far the work is: in the tree how many jobs are left, or
/// what all entries take up in the way to measure.
pub proof fn the_status_tells_the_progress(state: AppModel)
    requires
        state.active_view == ViewKind::Tree,
    ensures
        ({
            let usage = tree::root_usage(state.tree);
            let size = crate::format::size_text(
                if state.size_mode == tree::SizeMode::Logical {
                    usage.logical
                } else {
                    usage.physical
                },
            );
            &&& state.pending_jobs == 0 ==> state.progress_text() == "Scan complete | "@ + size
                + " | "@ + text::decimal(usage.files as nat) + " files | "@ + text::decimal(
                state.errors as nat,
            ) + " errors"@
            &&& state.pending_jobs > 0 ==> state.progress_text() == "Scanning: "@ + text::decimal(
                state.pending_jobs as nat,
            ) + " jobs | "@ + size + " found | "@ + text::decimal(state.workers as nat)
                + " workers | "@ + text::decimal(state.errors as nat) + " errors"@
        }),
{
}

/// The status begins with the progress and ends with the notice; between them
/// stands what there is to tell of marks, the cache, mounts and the watch.
pub proof fn the_status_tells_what_there_is(state: AppModel)
    ensures
        ({
            let parts = state.status_parts();
            &&& parts[0] == state.progress_text()
            &&& state.notice is Some ==> parts.last() == state.notice->0
            &&& state.marked.len() > 0 ==> parts[1] == text::decimal(state.marked.len())
                + " marked"@
            &&& state.marked.len() == 0 && state.cache_hits > 0 ==> parts[1] == text::decimal(
                state.cache_hits as nat,
            ) + " cached"@
            &&& parts.len() == 1 + (if state.marked.len() > 0 {
                1int
            } else {
                0
            }) + (if state.cache_hits > 0 {
                1int
            } else {
                0
            }) + (if state.mounts_skipped > 0 {
                1int
            } else {
                0
            }) + (if state.watch_enabled {
                1int
            } else {
                0
            }) + (if state.active_view != ViewKind::Tree && state.analysis_rows_truncated {
                1int
            } else {
                0
            }) + (if state.notice is Some {
                1int
            } else {
                0
            })
        }),
{
}

} // verus!
