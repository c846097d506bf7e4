//! What the screen says and where: texts, rows and dialogs.
use vstd::prelude::*;
use vstd::string::StringExecFns;

use crate::analytics;
use crate::app;
use crate::app::marks;
use crate::app::{
    AnalysisRow, AnalysisStatus, App, AppMode, AppModel, Area, ModeModel, PromptKind, RowModel,
    ViewKind,
};
use crate::delete::DeleteItem;
use crate::rows;
use crate::text;
use crate::tree;
use crate::tree::{Node, NodeKind, NodeModel, ScanState, SizeMode, UsageStats};

verus! {

/// Where the details of the selected row stand.
#[derive(Clone, Copy, Debug, PartialEq, Eq, Structural)]
pub enum DetailPlace {
    Beside,
    Below,
    Hidden,
}

/// Where the details stand: beside the rows on a wide screen, below them on a
/// high one.
pub open spec fn details_in(wanted: bool, width: u16, height: u16) -> DetailPlace {
    if wanted && width >= 100 && height >= 4 {
        DetailPlace::Beside
    } else if wanted && height >= 12 {
        DetailPlace::Below
    } else {
        DetailPlace::Hidden
    }
}

pub fn detail_place(wanted: bool, width: u16, height: u16) -> (place: DetailPlace)
    ensures
        place == details_in(wanted, width, height),
{
    if wanted && width >= 100 && height >= 4 {
        DetailPlace::Beside
    } else if wanted && height >= 12 {
        DetailPlace::Below
    } else {
        DetailPlace::Hidden
    }
}

/// One behind the last row that is shown.
pub open spec fn last_shown(offset: usize, page: usize, count: usize) -> usize {
    if offset + page < count {
        (offset + page) as usize
    } else {
        count
    }
}

/// One behind the last row that is shown.
pub fn end_of_page(offset: usize, page: usize, count: usize) -> (end: usize)
    ensures
        end == last_shown(offset, page, count),
        offset <= count ==> offset <= end <= count,
{
    let end: usize = offset.saturating_add(page);
    if end < count {
        end
    } else {
        count
    }
}

/// Where a row stands among those from one to another, if it is one of them.
pub open spec fn page_place(selected: Option<usize>, offset: usize, end: usize) -> Option<usize> {
    match selected {
        Some(row) => if offset <= row < end {
            Some((row - offset) as usize)
        } else {
            None
        },
        None => None,
    }
}

/// Where on the page a row stands, if it is shown.
pub fn place_on_page(selected: Option<usize>, offset: usize, end: usize) -> (place: Option<usize>)
    ensures
        place == page_place(selected, offset, end),
        match selected {
            Some(row) => if offset <= row < end {
                place == Some((row - offset) as usize)
            } else {
                place is None
            },
            None => place is None,
        },
{
    match selected {
        Some(row) => {
            if offset <= row && row < end {
                Some(row - offset)
            } else {
                None
            }
        },
        None => None,
    }
}

/// The smaller of two numbers.
pub open spec fn at_most(wanted: u16, limit: u16) -> u16 {
    if wanted < limit {
        wanted
    } else {
        limit
    }
}

/// An area in the middle of another one, of the given size or as large as fits.
pub open spec fn middle_of(area: Area, width: u16, height: u16) -> Area {
    Area {
        x: (area.x + (area.width - at_most(width, area.width)) / 2) as u16,
        y: (area.y + (area.height - at_most(height, area.height)) / 2) as u16,
        width: at_most(width, area.width),
        height: at_most(height, area.height),
    }
}

/// An area in the middle of another one.
pub fn centered(area: Area, requested_width: u16, requested_height: u16) -> (inner: Area)
    requires
        area.x + area.width <= u16::MAX,
        area.y + area.height <= u16::MAX,
    ensures
        inner == middle_of(area, requested_width, requested_height),
{
    let width: u16 = if requested_width < area.width {
        requested_width
    } else {
        area.width
    };
    let height: u16 = if requested_height < area.height {
        requested_height
    } else {
        area.height
    };
    Area {
        x: area.x + (area.width - width) / 2,
        y: area.y + (area.height - height) / 2,
        width,
        height,
    }
}

/// An area in the middle of another one lies inside it.
pub proof fn the_middle_lies_inside(area: Area, width: u16, height: u16, column: u16, row: u16)
    requires
        area.x + area.width <= u16::MAX,
        area.y + area.height <= u16::MAX,
        middle_of(area, width, height).holds(column, row),
    ensures
        area.holds(column, row),
{
}

/// Some spaces.
pub open spec fn spaces(count: nat) -> Seq<char> {
    Seq::new(count, |i: int| ' ')
}

/// A text with spaces before it, so that it is at least as long as given.
pub open spec fn padded(value: Seq<char>, width: nat) -> Seq<char> {
    if value.len() < width {
        spaces((width - value.len()) as nat) + value
    } else {
        value
    }
}

fn push_spaces(target: &mut String, count: usize)
    ensures
        final(target)@ == old(target)@ + spaces(count as nat),
{
    let ghost before = target@;
    let mut i: usize = 0;
    assert(before + spaces(0) =~= before);
    while i < count
        invariant
            i <= count,
            target@ == before + spaces(i as nat),
        decreases count - i,
    {
        target.push(' ');
        i += 1;
        assert(target@ =~= before + spaces(i as nat));
    }
}

fn push_padded(target: &mut String, value: &str, width: usize)
    ensures
        final(target)@ == old(target)@ + padded(value@, width as nat),
{
    let ghost before = target@;
    let length: usize = value.unicode_len();
    if length < width {
        push_spaces(target, width - length);
    }
    target.append(value);
    assert(target@ =~= before + padded(value@, width as nat));
}

/// A number as a text.
fn number_text(n: u64) -> (result: String)
    ensures
        result@ == text::decimal(n as nat),
{
    let mut result = String::new();
    text::push_number(&mut result, n);
    assert(result@ =~= text::decimal(n as nat));
    result
}

/// What the screen says above the rows of a view.
pub open spec fn column_titles(view: ViewKind) -> Seq<char> {
    match view {
        ViewKind::Tree => "Mark Src       Size      %      Files  Name"@,
        ViewKind::Largest => "Mark       Size       Files  Type / Name"@,
        ViewKind::Types => "           Size       Files  Group"@,
        ViewKind::Duplicates => "Mark    Reclaim/Size   Files  Duplicate group / file"@,
        ViewKind::Changes => "Mark       Size       Files  Change / Name"@,
    }
}

pub fn columns_of(view: ViewKind) -> (titles: &'static str)
    ensures
        titles@ == column_titles(view),
{
    match view {
        ViewKind::Tree => "Mark Src       Size      %      Files  Name",
        ViewKind::Largest => "Mark       Size       Files  Type / Name",
        ViewKind::Types => "           Size       Files  Group",
        ViewKind::Duplicates => "Mark    Reclaim/Size   Files  Duplicate group / file",
        ViewKind::Changes => "Mark       Size       Files  Change / Name",
    }
}

/// The label of the tab at a place, counted from zero.
pub open spec fn tab_text(place: nat, view: ViewKind) -> Seq<char> {
    " "@ + text::decimal(place + 1) + ":"@ + view.label_text() + " "@
}

/// The label of the tab at a place.
pub fn tab_label(place: usize, view: ViewKind) -> (label: String)
    requires
        place < usize::MAX,
    ensures
        label@ == tab_text(place as nat, view),
{
    let mut label = " ".to_owned();
    text::push_count(&mut label, place + 1);
    label.append(":");
    label.append(view.label());
    label.append(" ");
    label
}

impl AppModel {
    /// The usage that the head of the screen tells.
    pub open spec fn shown_usage(self) -> UsageStats {
        if self.active_view != ViewKind::Tree && self.analysis_index is Some {
            self.known_usage()
        } else {
            tree::root_usage(self.tree)
        }
    }

    pub open spec fn summary_text(self) -> Seq<char> {
        text::capitalized(self.size_mode.label_text()) + ": "@ + crate::format::size_text(
            self.shown_usage().amount(self.size_mode),
        ) + "   Files: "@ + text::decimal(self.shown_usage().files as nat) + "   Visible: "@
            + text::decimal(self.row_count()) + "   Sort: "@ + self.sort.key.label_text()
            + self.sort.direction.symbol_text() + "   Theme: "@ + self.theme.label_text()
    }

    /// What is said of the state at the foot of the screen.
    pub open spec fn footer_text(self) -> Seq<char> {
        match self.filter_query {
            Some(query) => self.status() + " | filter: "@ + query,
            None => self.status(),
        }
    }

    /// What an analysis view without rows says.
    pub open spec fn empty_text(self) -> Seq<char> {
        match self.analysis_status {
            AnalysisStatus::Indexing => "… Building full analysis index in the background"@,
            AnalysisStatus::Hashing => "… Hashing exact duplicate candidates"@,
            AnalysisStatus::Ready => if self.active_view == ViewKind::Changes {
                "No changes against the previous snapshot"@
            } else {
                "No matching entries"@
            },
            AnalysisStatus::Idle => "Analysis has not started"@,
        }
    }
}

/// The keys that the foot of the screen names.
pub const KEY_HINTS: &'static str = "? Help  Tab/1-5 Views  ↑↓/jk Move  Enter Reveal/Open  / Search  f Filter  e Export  w Watch  Space Mark  d/x Trash  q Quit";

impl App {
    fn header_usage(&self) -> (usage: UsageStats)
        requires
            self.wf(),
        ensures
            usage == self@.shown_usage(),
    {
        if self.active_view != ViewKind::Tree && self.analysis_index.is_some() {
            self.analysis_known_usage()
        } else {
            self.tree.root_known_usage()
        }
    }

    /// The summary at the head of the screen.
    pub fn summary(&self) -> (summary: String)
        requires
            self.wf(),
        ensures
            summary@ == self@.summary_text(),
    {
        let usage = self.header_usage();
        let mut summary = text::capitalize(self.size_mode.label());
        summary.append(": ");
        summary.append(crate::format::format_size(usage.size(self.size_mode)).as_str());
        summary.append("   Files: ");
        text::push_number(&mut summary, usage.files);
        summary.append("   Visible: ");
        text::push_count(&mut summary, self.active_row_count());
        summary.append("   Sort: ");
        summary.append(self.sort.key.label());
        summary.append(self.sort.direction.symbol());
        summary.append("   Theme: ");
        summary.append(self.theme.label());
        summary
    }

    /// What the foot of the screen says.
    pub fn footer(&self) -> (footer: String)
        requires
            self.wf(),
        ensures
            footer@ == self@.footer_text(),
    {
        let mut footer = self.status_text();
        if let Some(query) = &self.filter_query {
            footer.append(" | filter: ");
            footer.append(query.as_str());
        }
        footer
    }

    /// What an analysis view without rows says.
    pub fn empty_message(&self) -> (message: &'static str)
        ensures
            message@ == self@.empty_text(),
    {
        match self.analysis_status {
            AnalysisStatus::Indexing => "… Building full analysis index in the background",
            AnalysisStatus::Hashing => "… Hashing exact duplicate candidates",
            AnalysisStatus::Ready => {
                if self.active_view == ViewKind::Changes {
                    "No changes against the previous snapshot"
                } else {
                    "No matching entries"
                }
            },
            AnalysisStatus::Idle => "Analysis has not started",
        }
    }
}

/// What a row of the tree is drawn like.
#[derive(Clone, Copy, Debug, PartialEq, Eq, Structural)]
pub enum Role {
    Error,
    Mountpoint,
    Directory,
    Symlink,
    Plain,
}

pub open spec fn role_of(node: NodeModel) -> Role {
    if node.scan_state == ScanState::Error {
        Role::Error
    } else if node.mountpoint {
        Role::Mountpoint
    } else if node.kind == NodeKind::Directory {
        Role::Directory
    } else if node.kind == NodeKind::Symlink {
        Role::Symlink
    } else {
        Role::Plain
    }
}

/// The size of a node as its row shows it.
pub open spec fn node_size(node: NodeModel, mode: SizeMode) -> Seq<char> {
    if node.mountpoint {
        "mount"@
    } else {
        match node.usage {
            Some(usage) => crate::format::size_text(usage.amount(mode)),
            None => if node.scan_state == ScanState::Error {
                "?"@
            } else {
                "…"@
            },
        }
    }
}

pub open spec fn node_files(node: NodeModel) -> Seq<char> {
    match node.usage {
        Some(usage) => text::decimal(usage.files as nat),
        None => "–"@,
    }
}

pub open spec fn node_icon(node: NodeModel) -> Seq<char> {
    match node.kind {
        NodeKind::Directory => if node.mountpoint {
            "⛁"@
        } else if node.children_loading && node.expanded {
            "⟳"@
        } else if node.expanded {
            "▼"@
        } else {
            "▶"@
        },
        NodeKind::Symlink => "@"@,
        NodeKind::File => " "@,
        NodeKind::Other => "?"@,
    }
}

pub open spec fn mark_text(marked: bool) -> Seq<char> {
    if marked {
        "[x]"@
    } else {
        "[ ]"@
    }
}

/// What stands before the name of a node. `share` is its part of the directory
/// above it, in words.
pub open spec fn node_columns(
    node: NodeModel,
    marked: bool,
    mode: SizeMode,
    share: Seq<char>,
) -> Seq<char> {
    mark_text(marked) + " "@ + (if node.cached {
        "≈"@
    } else {
        " "@
    }) + (if node.warning_count > 0 || node.scan_state == ScanState::Error {
        "!"@
    } else {
        " "@
    }) + " "@ + padded(node_size(node, mode), 10) + " "@ + padded(share, 6) + " "@ + padded(
        node_files(node),
        10,
    ) + "  "@
}

/// A row of the tree, drawn from left to right.
#[derive(Debug)]
pub struct NodeLine {
    pub columns: String,
    pub indentation: String,
    pub name: String,
    pub role: Role,
}

fn size_of_node(node: &Node, mode: SizeMode) -> (size: String)
    ensures
        size@ == node_size(node@, mode),
{
    if node.mountpoint {
        return "mount".to_owned();
    }
    match node.usage {
        Some(usage) => crate::format::format_size(usage.size(mode)),
        None => {
            if node.scan_state == ScanState::Error {
                "?".to_owned()
            } else {
                "…".to_owned()
            }
        },
    }
}

fn files_of_node(node: &Node) -> (files: String)
    ensures
        files@ == node_files(node@),
{
    match node.usage {
        Some(usage) => number_text(usage.files),
        None => "–".to_owned(),
    }
}

fn icon_of_node(node: &Node) -> (icon: &'static str)
    ensures
        icon@ == node_icon(node@),
{
    match node.kind {
        NodeKind::Directory => {
            if node.mountpoint {
                "⛁"
            } else if node.children_loading && node.expanded {
                "⟳"
            } else if node.expanded {
                "▼"
            } else {
                "▶"
            }
        },
        NodeKind::Symlink => "@",
        NodeKind::File => " ",
        NodeKind::Other => "?",
    }
}

fn role_of_node(node: &Node) -> (role: Role)
    ensures
        role == role_of(node@),
{
    if node.scan_state == ScanState::Error {
        Role::Error
    } else if node.mountpoint {
        Role::Mountpoint
    } else {
        match node.kind {
            NodeKind::Directory => Role::Directory,
            NodeKind::Symlink => Role::Symlink,
            _ => Role::Plain,
        }
    }
}

fn columns_of_node(node: &Node, marked: bool, mode: SizeMode, share: &str) -> (columns: String)
    ensures
        columns@ == node_columns(node@, marked, mode, share@),
{
    let mut columns = if marked {
        "[x]".to_owned()
    } else {
        "[ ]".to_owned()
    };
    columns.append(" ");
    columns.append(
        if node.cached {
            "≈"
        } else {
            " "
        },
    );
    columns.append(
        if node.warning_count > 0 || node.scan_state == ScanState::Error {
            "!"
        } else {
            " "
        },
    );
    columns.append(" ");
    push_padded(&mut columns, size_of_node(node, mode).as_str(), 10);
    columns.append(" ");
    push_padded(&mut columns, share, 6);
    columns.append(" ");
    push_padded(&mut columns, files_of_node(node).as_str(), 10);
    columns.append("  ");
    columns
}

/// Two spaces for each level.
fn indent(depth: usize) -> (indentation: String)
    ensures
        indentation@ == spaces(2 * depth as nat),
{
    let mut indentation = String::new();
    push_spaces(&mut indentation, depth);
    push_spaces(&mut indentation, depth);
    assert(indentation@ =~= spaces(2 * depth as nat));
    indentation
}

/// The row of a node. `share` is its part of the directory above it, in words.
pub fn node_line(node: &Node, depth: usize, marked: bool, mode: SizeMode, share: &str) -> (line:
    NodeLine)
    ensures
        line.columns@ == node_columns(node@, marked, mode, share@),
        line.indentation@ == spaces(2 * depth as nat),
        line.name@ == node_icon(node@) + " "@ + text::lossy_text(node@.name),
        line.role == role_of(node@),
{
    let mut name = icon_of_node(node).to_owned();
    name.append(" ");
    name.append(node.name.display().as_str());
    NodeLine {
        columns: columns_of_node(node, marked, mode, share),
        indentation: indent(depth),
        name,
        role: role_of_node(node),
    }
}

impl AppModel {
    /// The mark of a row of an analysis view, where it can have one.
    pub open spec fn row_mark(self, row: RowModel) -> Seq<char> {
        match row.path {
            Some(path) => if self.can_delete(path@) {
                mark_text(app::screen::has_path(self.marked, path@))
            } else {
                "   "@
            },
            None => "   "@,
        }
    }

    /// What stands before the name of a row of an analysis view.
    pub open spec fn row_columns(self, row: RowModel) -> Seq<char> {
        self.row_mark(row) + " "@ + padded(
            crate::format::size_text(row.usage.amount(self.size_mode)),
            10,
        ) + " "@ + padded(text::decimal(row.files as nat), 10) + "  "@
    }
}

/// The name of a row of an analysis view, with what it is.
pub open spec fn row_name(row: RowModel) -> Seq<char> {
    row.detail + " · "@ + spaces(2 * row.indent as nat) + row.label
}

impl App {
    fn mark_of_row(&self, row: &AnalysisRow) -> (mark: &'static str)
        ensures
            mark@ == self@.row_mark(row@),
    {
        match &row.path {
            Some(path) => {
                if !self.can_delete_path(path) {
                    "   "
                } else if self.is_path_marked(path) {
                    "[x]"
                } else {
                    "[ ]"
                }
            },
            None => "   ",
        }
    }

    /// A row of an analysis view: what stands before its name, and its name.
    pub fn row_line(&self, row: &AnalysisRow) -> (line: (String, String))
        ensures
            line.0@ == self@.row_columns(row@),
            line.1@ == row_name(row@),
    {
        let mut columns = self.mark_of_row(row).to_owned();
        columns.append(" ");
        push_padded(
            &mut columns,
            crate::format::format_size(row.usage.size(self.size_mode)).as_str(),
            10,
        );
        columns.append(" ");
        push_padded(&mut columns, number_text(row.files).as_str(), 10);
        columns.append("  ");
        let mut name = row.detail.clone();
        name.append(" · ");
        name.append(indent(row.indent).as_str());
        name.append(row.label.as_str());
        (columns, name)
    }
}

/// The size that is known of a node, in one of the two measures.
pub open spec fn known_size_text(usage: Option<UsageStats>, mode: SizeMode) -> Seq<char> {
    match usage {
        Some(usage) => crate::format::size_text(usage.amount(mode)),
        None => "unknown"@,
    }
}

pub open spec fn known_files_text(usage: Option<UsageStats>) -> Seq<char> {
    match usage {
        Some(usage) => text::decimal(usage.files as nat),
        None => "unknown"@,
    }
}

/// The details of a node. `share` is its part of the directory above it and
/// `modified` the time of its last change, both in words.
pub open spec fn node_details(
    node: NodeModel,
    share: Seq<char>,
    modified: Seq<char>,
) -> Seq<Seq<char>> {
    seq![
        node.kind.label_text() + " | "@ + node.scan_state.label_text() + " | "@ + (if node.cached {
            "cached"@
        } else {
            "fresh"@
        }) + (if node.mountpoint {
            " | mount point"@
        } else {
            ""@
        }),
        "Logical: "@ + known_size_text(node.usage, SizeMode::Logical) + " | Physical: "@
            + known_size_text(node.usage, SizeMode::Physical),
        "Files: "@ + known_files_text(node.usage) + " | Relative: "@ + share,
        "Modified: "@ + modified,
        text::lossy_text(node.path@),
        "Warnings: "@ + text::decimal(node.warning_count as nat) + " | Error: "@ + (
        match node.error {
            Some(message) => message,
            None => "none"@,
        }),
    ]
}

/// The details of a row of an analysis view.
pub open spec fn row_details(view: ViewKind, row: RowModel) -> Seq<Seq<char>> {
    seq![
        view.label_text() + " · "@ + row.detail,
        "Logical: "@ + crate::format::size_text(row.usage.logical) + " | Physical: "@
            + crate::format::size_text(row.usage.physical),
        "Files: "@ + text::decimal(row.files as nat),
        match row.path {
            Some(path) => text::lossy_text(path@),
            None => row.label,
        },
        "Enter reveals paths in Tree; Space marks individual paths"@,
    ]
}

/// What the details say where no row is selected.
pub open spec fn no_row_text(status: AnalysisStatus) -> Seq<char> {
    match status {
        AnalysisStatus::Idle => "Analysis has not started"@,
        AnalysisStatus::Indexing => "Building analysis index…"@,
        AnalysisStatus::Hashing => "Hashing duplicate candidates…"@,
        AnalysisStatus::Ready => "No analysis row selected"@,
    }
}

impl AppModel {
    /// The details of what is selected.
    pub open spec fn details(self, share: Seq<char>, modified: Seq<char>) -> Seq<Seq<char>> {
        if self.active_view != ViewKind::Tree {
            if self.analysis_selected < self.analysis_rows.len() {
                row_details(self.active_view, self.analysis_rows[self.analysis_selected as int])
            } else {
                seq![no_row_text(self.analysis_status)]
            }
        } else {
            match self.selected {
                Some(id) => if self.tree.nodes.contains_key(id) {
                    node_details(self.tree.nodes[id], share, modified)
                } else {
                    seq!["No item selected"@]
                },
                None => seq!["No item selected"@],
            }
        }
    }
}

fn size_if_known(usage: Option<UsageStats>, mode: SizeMode) -> (size: String)
    ensures
        size@ == known_size_text(usage, mode),
{
    match usage {
        Some(usage) => crate::format::format_size(usage.size(mode)),
        None => "unknown".to_owned(),
    }
}

fn files_if_known(usage: Option<UsageStats>) -> (files: String)
    ensures
        files@ == known_files_text(usage),
{
    match usage {
        Some(usage) => number_text(usage.files),
        None => "unknown".to_owned(),
    }
}

fn kind_line(node: &Node) -> (line: String)
    ensures
        line@ == node_details(node@, Seq::empty(), Seq::empty())[0],
{
    let mut line = node.kind.label().to_owned();
    line.append(" | ");
    line.append(node.scan_state.label());
    line.append(" | ");
    line.append(
        if node.cached {
            "cached"
        } else {
            "fresh"
        },
    );
    line.append(
        if node.mountpoint {
            " | mount point"
        } else {
            ""
        },
    );
    line
}

fn error_line(node: &Node) -> (line: String)
    ensures
        line@ == node_details(node@, Seq::empty(), Seq::empty())[5],
{
    let mut line = "Warnings: ".to_owned();
    text::push_count(&mut line, node.warning_count);
    line.append(" | Error: ");
    match &node.error {
        Some(message) => {
            line.append(message.as_str());
        },
        None => {
            line.append("none");
        },
    }
    line
}

fn lines_of_node(node: &Node, share: &str, modified: &str) -> (lines: Vec<String>)
    ensures
        text::texts(lines@) == node_details(node@, share@, modified@),
{
    let mut sizes = "Logical: ".to_owned();
    sizes.append(size_if_known(node.usage, SizeMode::Logical).as_str());
    sizes.append(" | Physical: ");
    sizes.append(size_if_known(node.usage, SizeMode::Physical).as_str());
    let mut files = "Files: ".to_owned();
    files.append(files_if_known(node.usage).as_str());
    files.append(" | Relative: ");
    files.append(share);
    let mut changed = "Modified: ".to_owned();
    changed.append(modified);
    let lines: Vec<String> = vec![
        kind_line(node),
        sizes,
        files,
        changed,
        node.path.display(),
        error_line(node),
    ];
    assert(text::texts(lines@) =~= node_details(node@, share@, modified@));
    lines
}

fn lines_of_row(view: ViewKind, row: &AnalysisRow) -> (lines: Vec<String>)
    ensures
        text::texts(lines@) == row_details(view, row@),
{
    let mut first = view.label().to_owned();
    first.append(" · ");
    first.append(row.detail.as_str());
    let mut sizes = "Logical: ".to_owned();
    sizes.append(crate::format::format_size(row.usage.logical).as_str());
    sizes.append(" | Physical: ");
    sizes.append(crate::format::format_size(row.usage.physical).as_str());
    let mut files = "Files: ".to_owned();
    text::push_number(&mut files, row.files);
    let name: String = match &row.path {
        Some(path) => path.display(),
        None => row.label.clone(),
    };
    let lines: Vec<String> = vec![
        first,
        sizes,
        files,
        name,
        "Enter reveals paths in Tree; Space marks individual paths".to_owned(),
    ];
    assert(text::texts(lines@) =~= row_details(view, row@));
    lines
}

fn one_line(line: &str) -> (lines: Vec<String>)
    ensures
        text::texts(lines@) == seq![line@],
{
    let lines: Vec<String> = vec![line.to_owned()];
    assert(text::texts(lines@) =~= seq![line@]);
    lines
}

impl App {
    /// The details of what is selected. `share` is the part that the selected
    /// node has of the directory above it and `modified` the time of its last
    /// change, both in words.
    pub fn detail_lines(&self, share: &str, modified: &str) -> (lines: Vec<String>)
        ensures
            text::texts(lines@) == self@.details(share@, modified@),
    {
        if self.active_view != ViewKind::Tree {
            return match self.selected_analysis_row() {
                Some(row) => lines_of_row(self.active_view, row),
                None => one_line(
                    match self.analysis_status {
                        AnalysisStatus::Idle => "Analysis has not started",
                        AnalysisStatus::Indexing => "Building analysis index…",
                        AnalysisStatus::Hashing => "Hashing duplicate candidates…",
                        AnalysisStatus::Ready => "No analysis row selected",
                    },
                ),
            };
        }
        match self.selected_node() {
            Some(node) => lines_of_node(node, share, modified),
            None => one_line("No item selected"),
        }
    }
}

/// A dialog: its title and its lines.
#[derive(Debug)]
pub struct Dialog {
    pub title: &'static str,
    pub lines: Vec<String>,
}

#[verifier::ext_equal]
pub struct DialogModel {
    pub title: Seq<char>,
    pub lines: Seq<Seq<char>>,
}

impl View for Dialog {
    type V = DialogModel;

    open spec fn view(&self) -> DialogModel {
        DialogModel { title: self.title@, lines: text::texts(self.lines@) }
    }
}

pub open spec fn dialog_view(dialog: Option<Dialog>) -> Option<DialogModel> {
    match dialog {
        Some(dialog) => Some(dialog@),
        None => None,
    }
}

impl AppModel {
    /// What an entry takes up, as far as a question about it tells: by its
    /// node, or else as a file of the index.
    pub open spec fn asked_usage(self, item: DeleteItem) -> Option<UsageStats> {
        let of_node = match item.node_id {
            Some(id) => if self.tree.nodes.contains_key(id) {
                self.tree.nodes[id].usage
            } else {
                None
            },
            None => None,
        };
        if of_node is Some {
            of_node
        } else {
            match self.analysis_index {
                Some(index) => match analytics::file_at(index.files, item.path@) {
                    Some(file) => Some(file.usage),
                    None => None,
                },
                None => None,
            }
        }
    }

    /// The sizes of entries that are known.
    pub open spec fn asked_sizes(self, items: Seq<DeleteItem>) -> Seq<u64>
        decreases items.len(),
    {
        if items.len() == 0 {
            Seq::empty()
        } else {
            let rest = self.asked_sizes(items.drop_last());
            match self.asked_usage(items.last()) {
                Some(usage) => rest.push(usage.amount(self.size_mode)),
                None => rest,
            }
        }
    }

    /// The question before one entry is moved to the Trash.
    pub open spec fn one_question(self, item: DeleteItem) -> DialogModel {
        DialogModel {
            title: " Move to Trash "@,
            lines: seq![
                "Move \""@ + rows::shown_name(item.path@) + "\" to Trash?"@,
                "Size: "@ + (match self.asked_usage(item) {
                    Some(usage) => crate::format::size_text(usage.amount(self.size_mode)),
                    None => "unknown size"@,
                }),
                text::lossy_text(item.path@),
                ""@,
                "[y] Yes    [n/Esc] Cancel"@,
            ],
        }
    }

    /// What entries take up together, in words.
    pub open spec fn combined_text(self, items: Seq<DeleteItem>) -> Seq<char> {
        let sizes = self.asked_sizes(items);
        let total = crate::format::size_text(marks::known_total(sizes));
        if sizes.len() == items.len() {
            total
        } else {
            "at least "@ + total + " ("@ + text::decimal((items.len() - sizes.len()) as nat)
                + " still unknown)"@
        }
    }

    /// The question before marked entries are moved to the Trash.
    pub open spec fn many_question(self, items: Seq<DeleteItem>) -> DialogModel {
        DialogModel {
            title: " Move marked items to Trash "@,
            lines: seq![
                "Move "@ + text::decimal(items.len()) + " marked items to Trash?"@,
                "Combined size: "@ + self.combined_text(items),
                ""@,
                "All items are validated before the first move."@,
                "[y] Yes    [n/Esc] Cancel"@,
            ],
        }
    }

    /// The question before entries are moved to the Trash.
    pub open spec fn question(self, items: Seq<DeleteItem>, multi: bool) -> Option<DialogModel> {
        if !multi && items.len() == 1 {
            Some(self.one_question(items[0]))
        } else if items.len() == 0 {
            None
        } else {
            Some(self.many_question(items))
        }
    }

    /// The dialog over the rows, if there is one.
    pub open spec fn dialog(self) -> Option<DialogModel> {
        match self.mode {
            ModeModel::ConfirmDelete { items, multi } => self.question(items, multi),
            ModeModel::Deleting { items, .. } => Some(
                DialogModel {
                    title: " Moving to Trash "@,
                    lines: seq![
                        "Moving "@ + text::decimal(items.len()) + " item(s) to Trash"@,
                        ""@,
                        "Please wait…"@,
                    ],
                },
            ),
            ModeModel::ErrorDialog(message) => Some(
                DialogModel {
                    title: " Error "@,
                    lines: seq![message, ""@, "Press Enter or Esc to close"@],
                },
            ),
            _ => None,
        }
    }
}

impl App {
    fn usage_asked_about(&self, item: &DeleteItem) -> (usage: Option<UsageStats>)
        ensures
            usage == self@.asked_usage(*item),
    {
        if let Some(id) = item.node_id {
            if let Some(node) = self.tree.get(id) {
                if let Some(usage) = node.usage {
                    return Some(usage);
                }
            }
        }
        match &self.analysis_index {
            Some(index) => match analytics::find_file(&index.files, &item.path) {
                Some(place) => Some(index.files[place].usage),
                None => None,
            },
            None => None,
        }
    }

    fn sizes_asked_about(&self, items: &Vec<DeleteItem>) -> (known: (usize, u64))
        ensures
            known.0 == self@.asked_sizes(items@).len(),
            known.1 == marks::known_total(self@.asked_sizes(items@)),
            known.0 <= items@.len(),
    {
        let mut count: usize = 0;
        let mut total: u64 = 0;
        let mut i: usize = 0;
        assert(self@.asked_sizes(items@.take(0)) =~= Seq::empty());
        while i < items.len()
            invariant
                i <= items@.len(),
                count <= i,
                count == self@.asked_sizes(items@.take(i as int)).len(),
                total == marks::known_total(self@.asked_sizes(items@.take(i as int))),
            decreases items@.len() - i,
        {
            assert(items@.take(i + 1).drop_last() =~= items@.take(i as int));
            let ghost sizes = self@.asked_sizes(items@.take(i as int));
            if let Some(usage) = self.usage_asked_about(&items[i]) {
                let size: u64 = usage.size(self.size_mode);
                assert(sizes.push(size).drop_last() =~= sizes);
                count += 1;
                total = total.saturating_add(size);
            }
            i += 1;
        }
        assert(items@.take(i as int) =~= items@);
        (count, total)
    }

    fn ask_about_one(&self, item: &DeleteItem) -> (dialog: Dialog)
        ensures
            dialog@ == self@.one_question(*item),
    {
        let mut question = "Move \"".to_owned();
        question.append(rows::name_of(&item.path).as_str());
        question.append("\" to Trash?");
        let mut size = "Size: ".to_owned();
        match self.usage_asked_about(item) {
            Some(usage) => {
                size.append(crate::format::format_size(usage.size(self.size_mode)).as_str());
            },
            None => {
                size.append("unknown size");
            },
        }
        let lines: Vec<String> = vec![
            question,
            size,
            item.path.display(),
            "".to_owned(),
            "[y] Yes    [n/Esc] Cancel".to_owned(),
        ];
        let dialog = Dialog { title: " Move to Trash ", lines };
        assert(dialog@.lines =~= self@.one_question(*item).lines);
        dialog
    }

    fn combined_size(&self, items: &Vec<DeleteItem>) -> (size: String)
        ensures
            size@ == self@.combined_text(items@),
    {
        let (known, total) = self.sizes_asked_about(items);
        let shown = crate::format::format_size(total);
        if known == items.len() {
            return shown;
        }
        let mut size = "at least ".to_owned();
        size.append(shown.as_str());
        size.append(" (");
        text::push_count(&mut size, items.len() - known);
        size.append(" still unknown)");
        size
    }

    fn ask_about_many(&self, items: &Vec<DeleteItem>) -> (dialog: Dialog)
        ensures
            dialog@ == self@.many_question(items@),
    {
        let mut question = "Move ".to_owned();
        text::push_count(&mut question, items.len());
        question.append(" marked items to Trash?");
        let mut size = "Combined size: ".to_owned();
        size.append(self.combined_size(items).as_str());
        let lines: Vec<String> = vec![
            question,
            size,
            "".to_owned(),
            "All items are validated before the first move.".to_owned(),
            "[y] Yes    [n/Esc] Cancel".to_owned(),
        ];
        let dialog = Dialog { title: " Move marked items to Trash ", lines };
        assert(dialog@.lines =~= self@.many_question(items@).lines);
        dialog
    }

    /// The dialog over the rows, if there is one.
    pub fn shown_dialog(&self) -> (dialog: Option<Dialog>)
        ensures
            dialog_view(dialog) == self@.dialog(),
    {
        match &self.mode {
            AppMode::ConfirmDelete { items, multi } => {
                if !*multi && items.len() == 1 {
                    Some(self.ask_about_one(&items[0]))
                } else if items.len() == 0 {
                    None
                } else {
                    Some(self.ask_about_many(items))
                }
            },
            AppMode::Deleting { items, .. } => {
                let mut told = "Moving ".to_owned();
                text::push_count(&mut told, items.len());
                told.append(" item(s) to Trash");
                let lines: Vec<String> = vec![told, "".to_owned(), "Please wait…".to_owned()];
                let dialog = Dialog { title: " Moving to Trash ", lines };
                assert(dialog@ =~~= self@.dialog()->0);
                Some(dialog)
            },
            AppMode::ErrorDialog(message) => {
                let lines: Vec<String> = vec![
                    message.clone(),
                    "".to_owned(),
                    "Press Enter or Esc to close".to_owned(),
                ];
                let dialog = Dialog { title: " Error ", lines };
                assert(dialog@ =~~= self@.dialog()->0);
                Some(dialog)
            },
            _ => None,
        }
    }
}

/// What the help says.
pub open spec fn help_text() -> Seq<Seq<char>> {
    seq![
        "Navigation"@,
        "  ↑/k, ↓/j        move selection"@,
        "  ←/h, →/l        close/open directory"@,
        "  Enter           toggle directory"@,
        "  g/G             first/last loaded row"@,
        "  Home/End/PgUp/PgDn"@,
        "  Backspace       use parent directory as root"@,
        ""@,
        "Find and view"@,
        "  Tab/Shift-Tab   next/previous view"@,
        "  1..5            Tree/Largest/Types/Duplicates/Changes"@,
        "  Enter           open directory or reveal analysis path"@,
        "  /               search loaded nodes"@,
        "  n/N             next/previous search result"@,
        "  f/F             set/clear AND filter predicates"@,
        "                  size>1GiB age>30d ext:log type:image"@,
        "  s/S             cycle sort key/reverse direction"@,
        "  z               logical/physical size"@,
        "  i               toggle detail panel"@,
        "  t               cycle theme"@,
        "  m               toggle mouse capture"@,
        "  w               toggle native filesystem watcher"@,
        "  e               export full JSON snapshot"@,
        ""@,
        "Scanning and cleanup"@,
        "  Esc             cancel active scan"@,
        "  r               fresh root scan without cache"@,
        "  Space           mark/unmark item"@,
        "  d               trash selected item"@,
        "  x               trash all marked items"@,
        "  q / Ctrl+C      quit"@,
        ""@,
        "Mouse (when enabled)"@,
        "  click row       select"@,
        "  click checkbox  mark/unmark"@,
        "  double-click    open/close directory"@,
        "  wheel           move selection"@,
        ""@,
        "Press ? or Esc to close help"@,
    ]
}

pub open spec fn line_views(lines: Seq<&'static str>) -> Seq<Seq<char>> {
    Seq::new(lines.len(), |i: int| lines[i]@)
}

/// What the help says.
pub fn help_lines() -> (lines: Vec<&'static str>)
    ensures
        line_views(lines@) == help_text(),
{
    let lines: Vec<&'static str> = vec![
        "Navigation",
        "  ↑/k, ↓/j        move selection",
        "  ←/h, →/l        close/open directory",
        "  Enter           toggle directory",
        "  g/G             first/last loaded row",
        "  Home/End/PgUp/PgDn",
        "  Backspace       use parent directory as root",
        "",
        "Find and view",
        "  Tab/Shift-Tab   next/previous view",
        "  1..5            Tree/Largest/Types/Duplicates/Changes",
        "  Enter           open directory or reveal analysis path",
        "  /               search loaded nodes",
        "  n/N             next/previous search result",
        "  f/F             set/clear AND filter predicates",
        "                  size>1GiB age>30d ext:log type:image",
        "  s/S             cycle sort key/reverse direction",
        "  z               logical/physical size",
        "  i               toggle detail panel",
        "  t               cycle theme",
        "  m               toggle mouse capture",
        "  w               toggle native filesystem watcher",
        "  e               export full JSON snapshot",
        "",
        "Scanning and cleanup",
        "  Esc             cancel active scan",
        "  r               fresh root scan without cache",
        "  Space           mark/unmark item",
        "  d               trash selected item",
        "  x               trash all marked items",
        "  q / Ctrl+C      quit",
        "",
        "Mouse (when enabled)",
        "  click row       select",
        "  click checkbox  mark/unmark",
        "  double-click    open/close directory",
        "  wheel           move selection",
        "",
        "Press ? or Esc to close help",
    ];
    assert(line_views(lines@) =~= help_text());
    lines
}

/// The lines of the help that are shown: as many as there is room for, from the
/// wanted one on, but never past the end.
pub open spec fn help_start(scroll: usize, available: usize, count: usize) -> usize {
    let last = if available < count {
        (count - available) as usize
    } else {
        0
    };
    if scroll < last {
        scroll
    } else {
        last
    }
}

/// The first line of the help that is shown, and one behind the last.
pub fn help_window(scroll: usize, available: usize, count: usize) -> (window: (usize, usize))
    ensures
        window.0 == help_start(scroll, available, count),
        window.1 == (if window.0 + available < count {
            window.0 + available
        } else {
            count as int
        }),
        window.0 <= window.1 <= count,
{
    let last: usize = count.saturating_sub(available);
    let start: usize = if scroll < last {
        scroll
    } else {
        last
    };
    let end: usize = if available < count - start {
        start + available
    } else {
        count
    };
    (start, end)
}

/// The help fills its window, or is shown whole.
pub proof fn the_help_fills_its_window(scroll: usize, available: usize, count: usize)
    ensures
        available < count ==> help_start(scroll, available, count) + available <= count,
        available >= count ==> help_start(scroll, available, count) == 0,
{
}

/// The title of a prompt and what it says about its keys.
pub open spec fn prompt_texts(kind: PromptKind) -> (Seq<char>, Seq<char>) {
    match kind {
        PromptKind::Search => (" Search loaded tree "@, "Enter search  Esc cancel"@),
        PromptKind::Filter => (
            " Filter tree and analysis "@,
            "AND: name size>1GiB age>30d ext:log|none type:image  Enter keep"@,
        ),
        PromptKind::Export => (" Export JSON snapshot "@, "Enter write file  Esc cancel"@),
    }
}

/// The title of a prompt and what it says about its keys.
pub fn prompt_labels(kind: PromptKind) -> (labels: (&'static str, &'static str))
    ensures
        (labels.0@, labels.1@) == prompt_texts(kind),
{
    match kind {
        PromptKind::Search => (" Search loaded tree ", "Enter search  Esc cancel"),
        PromptKind::Filter => (
            " Filter tree and analysis ",
            "AND: name size>1GiB age>30d ext:log|none type:image  Enter keep",
        ),
        PromptKind::Export => (" Export JSON snapshot ", "Enter write file  Esc cancel"),
    }
}

/// Details stand beside the list on wide screens and below it on others that are
/// high enough.
pub proof fn details_stand_where_there_is_room(wanted: bool, width: u16, height: u16)
    ensures
        !wanted ==> details_in(wanted, width, height) == DetailPlace::Hidden,
        wanted && width >= 100 && height >= 4 ==> details_in(wanted, width, height)
            == DetailPlace::Beside,
        wanted && width < 100 && height >= 12 ==> details_in(wanted, width, height)
            == DetailPlace::Below,
        wanted && width < 100 && height < 12 ==> details_in(wanted, width, height)
            == DetailPlace::Hidden,
        height < 4 ==> details_in(wanted, width, height) == DetailPlace::Hidden,
{
}

/// A page ends behind its last row, or with the rows.
pub proof fn pages_end_with_the_rows(offset: usize, page: usize, count: usize)
    ensures
        offset + page <= count ==> last_shown(offset, page, count) == offset + page,
        offset + page > count ==> last_shown(offset, page, count) == count,
{
}

/// A shown row stands as far down the page as it comes after the first one.
pub proof fn shown_rows_stand_on_the_page(row: usize, offset: usize, end: usize)
    ensures
        offset <= row < end ==> page_place(Some(row), offset, end) == Some(
            (row - offset) as usize,
        ),
        row < offset || row >= end ==> page_place(Some(row), offset, end) is None,
        page_place(None, offset, end) is None,
{
}

/// A padded text is as wide as asked for, with spaces before it; a wider one
/// stays as it is.
pub proof fn padding_stands_before_the_text(value: Seq<char>, width: nat)
    ensures
        value.len() >= width ==> padded(value, width) == value,
        value.len() < width ==> padded(value, width).len() == width,
        value.len() < width ==> padded(value, width).skip(width - value.len()) == value,
        forall|i: int| 0 <= i < width - value.len() ==> #[trigger] padded(value, width)[i] == ' ',
{
    if value.len() < width {
        assert(padded(value, width).skip(width - value.len()) =~= value);
    }
}

/// A failed entry is shown as such before anything else, then a mount point, then
/// what it is.
pub proof fn failures_are_shown_first(node: NodeModel)
    ensures
        node.scan_state == ScanState::Error ==> role_of(node) == Role::Error,
        node.scan_state != ScanState::Error && node.mountpoint ==> role_of(node)
            == Role::Mountpoint,
        node.scan_state != ScanState::Error && !node.mountpoint && node.kind == NodeKind::Directory
            ==> role_of(node) == Role::Directory,
        node.scan_state != ScanState::Error && !node.mountpoint && node.kind == NodeKind::Symlink
            ==> role_of(node) == Role::Symlink,
        node.scan_state != ScanState::Error && !node.mountpoint && (node.kind == NodeKind::File
            || node.kind == NodeKind::Other) ==> role_of(node) == Role::Plain,
{
}

/// An entry shows its size in the way to measure; a mount point, a failed entry
/// and one still to be measured say so instead.
pub proof fn entries_show_their_size(node: NodeModel, mode: SizeMode)
    ensures
        node.mountpoint ==> node_size(node, mode) == "mount"@,
        !node.mountpoint && node.usage is Some && mode == SizeMode::Logical ==> node_size(
            node,
            mode,
        ) == crate::format::size_text(node.usage->0.logical),
        !node.mountpoint && node.usage is Some && mode == SizeMode::Physical ==> node_size(
            node,
            mode,
        ) == crate::format::size_text(node.usage->0.physical),
        !node.mountpoint && node.usage is None && node.scan_state == ScanState::Error
            ==> node_size(node, mode) == "?"@,
        !node.mountpoint && node.usage is None && node.scan_state != ScanState::Error
            ==> node_size(node, mode) == "…"@,
        node.usage is Some ==> node_files(node) == text::decimal(node.usage->0.files as nat),
        node.usage is None ==> node_files(node) == "–"@,
{
}

/// The question before a deletion tells the sum of the sizes that are known, and
/// how many are not.
pub proof fn questions_tell_the_known_sizes(
    state: AppModel,
    items: Seq<DeleteItem>,
    item: DeleteItem,
)
    ensures
        ({
            let sizes = state.asked_sizes(items);
            let total = crate::format::size_text(marks::known_total(sizes));
            &&& sizes.len() <= items.len()
            &&& sizes.len() == items.len() ==> state.combined_text(items) == total
            &&& sizes.len() < items.len() ==> state.combined_text(items) == "at least "@ + total
                + " ("@ + text::decimal((items.len() - sizes.len()) as nat) + " still unknown)"@
            &&& state.asked_usage(item) is None ==> state.asked_sizes(items.push(item)) == sizes
            &&& state.asked_usage(item) is Some && state.size_mode == SizeMode::Logical
                ==> state.asked_sizes(items.push(item)) == sizes.push(
                state.asked_usage(item)->0.logical,
            )
            &&& state.asked_usage(item) is Some && state.size_mode == SizeMode::Physical
                ==> state.asked_sizes(items.push(item)) == sizes.push(
                state.asked_usage(item)->0.physical,
            )
        }),
    decreases items.len(),
{
    assert(items.push(item).drop_last() =~= items);
    if items.len() > 0 {
        questions_tell_the_known_sizes(state, items.drop_last(), items.last());
        assert(items.drop_last().push(items.last()) =~= items);
    }
}

/// In the tree what its root takes up is shown, in the other views what the index
/// does once there is one.
pub proof fn each_view_shows_its_usage(state: AppModel)
    ensures
        state.active_view == ViewKind::Tree ==> state.shown_usage() == tree::root_usage(
            state.tree,
        ),
        state.active_view != ViewKind::Tree && state.analysis_index is Some ==> state.shown_usage()
            == state.known_usage(),
        state.active_view != ViewKind::Tree && state.analysis_index is None ==> state.shown_usage()
            == tree::root_usage(state.tree),
{
}

/// The boxes of a dialog have the wanted size where there is room, and stand in
/// the middle to the nearest cell.
pub proof fn dialogs_stand_in_the_middle(area: Area, width: u16, height: u16)
    requires
        area.x + area.width <= u16::MAX,
        area.y + area.height <= u16::MAX,
    ensures
        ({
            let middle = middle_of(area, width, height);
            &&& width <= area.width ==> middle.width == width
            &&& width > area.width ==> middle.width == area.width
            &&& height <= area.height ==> middle.height == height
            &&& height > area.height ==> middle.height == area.height
            &&& 0 <= (area.width - middle.width) - 2 * (middle.x - area.x) <= 1
            &&& 0 <= (area.height - middle.height) - 2 * (middle.y - area.y) <= 1
        }),
{
}

/// A marked entry has a cross in its box; summary rows and the root have no box.
pub proof fn marked_entries_have_a_cross(state: AppModel, row: RowModel)
    ensures
        mark_text(true) == "[x]"@,
        mark_text(false) == "[ ]"@,
        row.path is None ==> state.row_mark(row) == "   "@,
        row.path is Some && !state.can_delete(row.path->0@) ==> state.row_mark(row) == "   "@,
        row.path is Some && state.can_delete(row.path->0@) && app::screen::has_path(
            state.marked,
            row.path->0@,
        ) ==> state.row_mark(row) == "[x]"@,
        row.path is Some && state.can_delete(row.path->0@) && !app::screen::has_path(
            state.marked,
            row.path->0@,
        ) ==> state.row_mark(row) == "[ ]"@,
{
}

/// Directories point down where they are open and to the right where they are
/// closed.
pub proof fn icons_tell_open_from_closed(node: NodeModel)
    ensures
        ({
            let directory = node.kind == NodeKind::Directory;
            &&& directory && node.mountpoint ==> node_icon(node) == "⛁"@
            &&& directory && !node.mountpoint && node.expanded && node.children_loading
                ==> node_icon(node) == "⟳"@
            &&& directory && !node.mountpoint && node.expanded && !node.children_loading
                ==> node_icon(node) == "▼"@
            &&& directory && !node.mountpoint && !node.expanded ==> node_icon(node) == "▶"@
            &&& node.kind == NodeKind::Symlink ==> node_icon(node) == "@"@
            &&& node.kind == NodeKind::File ==> node_icon(node) == " "@
            &&& node.kind == NodeKind::Other ==> node_icon(node) == "?"@
        }),
{
}

/// A line of the tree has the mark, whether the size comes from the cache and
/// whether there were problems, and then size, share and number of files in
/// columns.
pub proof fn lines_have_their_columns(
    node: NodeModel,
    marked: bool,
    mode: SizeMode,
    share: Seq<char>,
)
    ensures
        ({
            let cached = if node.cached {
                "≈"@
            } else {
                " "@
            };
            let warned = if node.warning_count > 0 || node.scan_state == ScanState::Error {
                "!"@
            } else {
                " "@
            };
            node_columns(node, marked, mode, share) == mark_text(marked) + " "@ + cached + warned
                + " "@ + padded(node_size(node, mode), 10) + " "@ + padded(share, 6) + " "@
                + padded(node_files(node), 10) + "  "@
        }),
{
}

/// A row of the other views has the mark, the size in the way to measure and the
/// number of files in columns; its name is set in behind its detail.
pub proof fn rows_have_their_columns(state: AppModel, row: RowModel)
    ensures
        state.size_mode == SizeMode::Logical ==> state.row_columns(row) == state.row_mark(row)
            + " "@ + padded(crate::format::size_text(row.usage.logical), 10) + " "@ + padded(
            text::decimal(row.files as nat),
            10,
        ) + "  "@,
        state.size_mode == SizeMode::Physical ==> state.row_columns(row) == state.row_mark(row)
            + " "@ + padded(crate::format::size_text(row.usage.physical), 10) + " "@ + padded(
            text::decimal(row.files as nat),
            10,
        ) + "  "@,
        row_name(row) == row.detail + " · "@ + spaces(2 * row.indent as nat) + row.label,
{
}

/// The summary tells what is shown: the size in the way to measure, the number
/// of files and of rows, the order and the theme.
pub proof fn the_summary_tells_what_is_shown(state: AppModel)
    ensures
        ({
            let usage = state.shown_usage();
            let size = if state.size_mode == SizeMode::Logical {
                usage.logical
            } else {
                usage.physical
            };
            state.summary_text() == text::capitalized(state.size_mode.label_text()) + ": "@
                + crate::format::size_text(size) + "   Files: "@ + text::decimal(
                usage.files as nat,
            ) + "   Visible: "@ + text::decimal(state.row_count()) + "   Sort: "@
                + state.sort.key.label_text() + state.sort.direction.symbol_text() + "   Theme: "@
                + state.theme.label_text()
        }),
        state.filter_query is None ==> state.footer_text() == state.status(),
        state.filter_query is Some ==> state.footer_text() == state.status() + " | filter: "@
            + state.filter_query->0,
{
}

/// Both sizes of an entry are among its details.
pub proof fn details_tell_both_sizes(node: NodeModel, share: Seq<char>, modified: Seq<char>)
    ensures
        ({
            let lines = node_details(node, share, modified);
            &&& lines.len() == 6
            &&& node.usage is Some ==> lines[1] == "Logical: "@ + crate::format::size_text(
                node.usage->0.logical,
            ) + " | Physical: "@ + crate::format::size_text(node.usage->0.physical)
            &&& node.usage is None ==> lines[1] == "Logical: "@ + "unknown"@ + " | Physical: "@
                + "unknown"@
            &&& lines[4] == text::lossy_text(node.path@)
        }),
{
}

} // verus!
