//! What the keys and the mouse do.
use vstd::prelude::*;
use vstd::string::StringExecFns;

use crate::app::marks;
use crate::app::{
    App, AppMode, AppModel, Area, Effect, EffectModel, ModeModel, PromptKind, ViewKind,
};
use crate::tree::{NodeId, SizeMode};

verus! {

/// Within how many milliseconds two clicks count as one double click.
pub const DOUBLE_CLICK_INTERVAL: u64 = 400;

/// How many columns of a row belong to its mark.
pub const MARK_WIDTH: u16 = 4;

/// A key.
#[derive(Clone, Copy, Debug, PartialEq, Eq, Structural)]
pub enum KeyCode {
    Up,
    Down,
    Left,
    Right,
    Home,
    End,
    PageUp,
    PageDown,
    Enter,
    Tab,
    BackTab,
    Esc,
    Backspace,
    Char(char),
    Other,
}

/// A key with what is held down beside it.
#[derive(Clone, Copy, Debug, PartialEq, Eq, Structural)]
pub struct KeyEvent {
    pub code: KeyCode,
    pub control: bool,
    pub alt: bool,
}

#[derive(Clone, Copy, Debug, PartialEq, Eq, Structural)]
pub enum MouseKind {
    ScrollUp,
    ScrollDown,
    LeftDown,
    Other,
}

/// What the mouse did, and where.
#[derive(Clone, Copy, Debug, PartialEq, Eq, Structural)]
pub struct MouseEvent {
    pub kind: MouseKind,
    pub column: u16,
    pub row: u16,
}

/// A sum that stops at the largest number.
pub open spec fn capped_sum(first: usize, second: int) -> int {
    if first + second > usize::MAX {
        usize::MAX as int
    } else {
        first + second
    }
}

/// By how many lines a key moves the help.
pub open spec fn help_motion(code: KeyCode, page: usize) -> int {
    match code {
        KeyCode::Up | KeyCode::Char('k') => -1,
        KeyCode::Down | KeyCode::Char('j') => 1,
        KeyCode::PageUp => -(page as int),
        KeyCode::PageDown => page as int,
        _ => 0,
    }
}

/// The first line of the help that is shown after a motion.
pub open spec fn help_position(scroll: usize, motion: int) -> usize {
    if scroll + motion < 0 {
        0
    } else if scroll + motion > usize::MAX {
        usize::MAX
    } else {
        (scroll + motion) as usize
    }
}

fn move_help(code: KeyCode, scroll: usize, page: usize) -> (moved: usize)
    ensures
        moved == help_position(scroll, help_motion(code, page)),
{
    match code {
        KeyCode::Up | KeyCode::Char('k') => scroll.saturating_sub(1),
        KeyCode::Down | KeyCode::Char('j') => scroll.saturating_add(1),
        KeyCode::PageUp => scroll.saturating_sub(page),
        KeyCode::PageDown => scroll.saturating_add(page),
        _ => scroll,
    }
}

impl AppModel {
    pub open spec fn quit_wanted(self) -> AppModel {
        AppModel { should_quit: true, ..self }
    }

    /// The state after a key that moves the selection.
    #[verifier::opaque]
    pub open spec fn motion_key(self, code: KeyCode) -> AppModel {
        match code {
            KeyCode::Up | KeyCode::Char('k') => self.moved(-1),
            KeyCode::Down | KeyCode::Char('j') => self.moved(1),
            KeyCode::Home | KeyCode::Char('g') => self.with_row(0),
            KeyCode::End | KeyCode::Char('G') => self.with_row(
                if self.row_count() == 0 {
                    0
                } else {
                    self.row_count() - 1
                },
            ),
            KeyCode::PageUp => self.moved(-(self.page_size as int)),
            KeyCode::PageDown => self.moved(self.page_size as int),
            _ => self,
        }
    }

    /// The state after a key that opens or closes something.
    #[verifier::opaque]
    pub open spec fn opening_key(self, code: KeyCode) -> AppModel {
        if self.active_view == ViewKind::Tree {
            match code {
                KeyCode::Right | KeyCode::Char('l') => self.selection_opened(),
                KeyCode::Left | KeyCode::Char('h') => self.selection_closed(),
                KeyCode::Enter => self.selection_toggled(),
                _ => self,
            }
        } else if code == KeyCode::Enter {
            self.revealed()
        } else {
            self
        }
    }

    /// The state after a key that chooses a view.
    #[verifier::opaque]
    pub open spec fn view_key(self, code: KeyCode) -> AppModel {
        match code {
            KeyCode::Tab => self.view_set(self.active_view.neighbour(false)),
            KeyCode::BackTab => self.view_set(self.active_view.neighbour(true)),
            KeyCode::Char('1') => self.view_set(ViewKind::Tree),
            KeyCode::Char('2') => self.view_set(ViewKind::Largest),
            KeyCode::Char('3') => self.view_set(ViewKind::Types),
            KeyCode::Char('4') => self.view_set(ViewKind::Duplicates),
            KeyCode::Char('5') => self.view_set(ViewKind::Changes),
            _ => self,
        }
    }

    pub open spec fn details_toggled(self) -> AppModel {
        (AppModel { detail_panel: !self.detail_panel, ..self }).noticed(
            if self.detail_panel {
                "Detail panel hidden"@
            } else {
                "Detail panel enabled"@
            },
        )
    }

    pub open spec fn with_size_mode(self, mode: SizeMode) -> AppModel {
        AppModel { size_mode: mode, sort_dirty: true, ..self }
    }

    pub open spec fn sizes_toggled(self) -> AppModel {
        let mode = self.size_mode.other();
        self.with_size_mode(mode).rows_rebuilt().noticed(
            "Showing "@ + mode.label_text() + " sizes"@,
        )
    }

    pub open spec fn theme_changed(self) -> AppModel {
        let theme = self.theme.following();
        (AppModel { theme, ..self }).noticed("Theme: "@ + theme.label_text())
    }

    pub open spec fn mouse_toggled(self) -> AppModel {
        (AppModel { mouse_enabled: !self.mouse_enabled, ..self }).noticed(
            if self.mouse_enabled {
                "Mouse capture disabled"@
            } else {
                "Mouse capture enabled"@
            },
        )
    }

    pub open spec fn help_opened(self) -> AppModel {
        AppModel { help_scroll: 0, mode: ModeModel::Help, ..self }
    }

    /// The state after a key that changes what is shown, and how.
    #[verifier::opaque]
    pub open spec fn display_key(self, code: KeyCode) -> AppModel {
        match code {
            KeyCode::Char('?') => self.help_opened(),
            KeyCode::Char('i') => self.details_toggled(),
            KeyCode::Char('z') => self.sizes_toggled(),
            KeyCode::Char('t') => self.theme_changed(),
            KeyCode::Char('m') => self.mouse_toggled(),
            KeyCode::Char('s') => self.sort_cycled(),
            KeyCode::Char('S') => self.sort_reversed(),
            _ => self,
        }
    }

    /// The state after a key that has to do with searching and filtering.
    #[verifier::opaque]
    pub open spec fn search_key(self, code: KeyCode) -> AppModel {
        match code {
            KeyCode::Char('/') => self.prompted(PromptKind::Search),
            KeyCode::Char('n') => self.searched(true, true),
            KeyCode::Char('N') => self.searched(false, true),
            KeyCode::Char('f') => self.prompted(PromptKind::Filter),
            KeyCode::Char('F') => self.filter_cleared(),
            KeyCode::Char('e') => self.prompted(PromptKind::Export),
            _ => self,
        }
    }

    /// The state after a key that has to do with the root and with marks.
    #[verifier::opaque]
    pub open spec fn action_key(self, code: KeyCode) -> AppModel {
        match code {
            KeyCode::Esc => self.scan_cancelled(),
            KeyCode::Backspace => self.parent_wanted(),
            KeyCode::Char('w') => self.watcher_toggled(),
            KeyCode::Char('d') => self.current_delete_asked(),
            KeyCode::Char(' ') => self.current_marked(),
            KeyCode::Char('x') => self.marked_delete_asked(),
            KeyCode::Char('r') => self.refresh_wanted(None),
            _ => self,
        }
    }

    /// The state after a key in normal mode.
    pub open spec fn browse_key(self, key: KeyEvent) -> AppModel {
        match group_of(key) {
            KeyGroup::Quit => self.quit_wanted(),
            KeyGroup::Motion => self.motion_key(key.code),
            KeyGroup::Opening => self.opening_key(key.code),
            KeyGroup::View => self.view_key(key.code),
            KeyGroup::Display => self.display_key(key.code),
            KeyGroup::Search => self.search_key(key.code),
            KeyGroup::Action => self.action_key(key.code),
            KeyGroup::Nothing => self,
        }
    }

    pub open spec fn with_help_scroll(self, scroll: usize) -> AppModel {
        AppModel { help_scroll: scroll, ..self }
    }

    /// The state after a key while the help is shown.
    pub open spec fn help_key(self, code: KeyCode) -> AppModel {
        if code == KeyCode::Esc || code == KeyCode::Char('?') || code == KeyCode::Char('q') {
            self.with_mode(ModeModel::Browse)
        } else {
            self.with_help_scroll(
                help_position(self.help_scroll, help_motion(code, self.page_size)),
            )
        }
    }

    /// The state after a key while a deletion is to be confirmed. Only after a
    /// `y` anything is deleted; `n` and Esc put the question aside, and all other
    /// keys leave it.
    pub open spec fn confirm_key(self, code: KeyCode) -> AppModel {
        match code {
            KeyCode::Char('y') => self.asked(EffectModel::ValidateDelete),
            KeyCode::Char('n') | KeyCode::Esc => self.with_mode(
                ModeModel::Browse,
            ).noticed("Delete cancelled"@),
            _ => self,
        }
    }

    pub open spec fn quit_delayed(self) -> AppModel {
        (AppModel { quit_after_delete: true, ..self }).noticed(
            "Waiting for Trash operation before quitting"@,
        )
    }

    /// The state after a key while entries are being deleted.
    pub open spec fn deleting_key(self, key: KeyEvent) -> AppModel {
        if key.code == KeyCode::Char('q') || (key.code == KeyCode::Char('c') && key.control) {
            self.quit_delayed()
        } else {
            self
        }
    }

    /// The state after a key while an error is shown.
    pub open spec fn error_key(self, code: KeyCode) -> AppModel {
        if code == KeyCode::Esc || code == KeyCode::Enter {
            self.with_mode(ModeModel::Browse)
        } else {
            self
        }
    }

    /// The state after a key.
    pub open spec fn key_pressed(self, key: KeyEvent) -> AppModel {
        match self.mode {
            ModeModel::Browse => self.browse_key(key),
            ModeModel::Help => self.help_key(key.code),
            ModeModel::Input { .. } => self.prompt_key(key),
            ModeModel::ConfirmDelete { .. } => self.confirm_key(key.code),
            ModeModel::Deleting { .. } => self.deleting_key(key),
            ModeModel::ErrorDialog(_) => self.error_key(key.code),
        }
    }
}

/// What a key has to do with in normal mode.
#[derive(Clone, Copy, Debug, PartialEq, Eq, Structural)]
pub enum KeyGroup {
    Quit,
    Motion,
    Opening,
    View,
    Display,
    Search,
    Action,
    Nothing,
}

pub open spec fn group_of(key: KeyEvent) -> KeyGroup {
    match key.code {
        KeyCode::Up | KeyCode::Down | KeyCode::Home | KeyCode::End => KeyGroup::Motion,
        KeyCode::PageUp | KeyCode::PageDown => KeyGroup::Motion,
        KeyCode::Left | KeyCode::Right | KeyCode::Enter => KeyGroup::Opening,
        KeyCode::Tab | KeyCode::BackTab => KeyGroup::View,
        KeyCode::Esc | KeyCode::Backspace => KeyGroup::Action,
        KeyCode::Char(character) => letter_group(character, key.control),
        KeyCode::Other => KeyGroup::Nothing,
    }
}

pub open spec fn letter_group(character: char, control: bool) -> KeyGroup {
    match character {
        'q' => KeyGroup::Quit,
        'c' => if control {
            KeyGroup::Quit
        } else {
            KeyGroup::Nothing
        },
        'k' | 'j' | 'g' | 'G' => KeyGroup::Motion,
        'l' | 'h' => KeyGroup::Opening,
        '1' | '2' | '3' | '4' | '5' => KeyGroup::View,
        '?' | 'i' | 'z' | 't' | 'm' | 's' | 'S' => KeyGroup::Display,
        '/' | 'n' | 'N' | 'f' | 'F' | 'e' => KeyGroup::Search,
        'w' | 'd' | ' ' | 'x' | 'r' => KeyGroup::Action,
        _ => KeyGroup::Nothing,
    }
}

fn find_letter_group(character: char, control: bool) -> (group: KeyGroup)
    ensures
        group == letter_group(character, control),
{
    match character {
        'q' => KeyGroup::Quit,
        'c' => if control {
            KeyGroup::Quit
        } else {
            KeyGroup::Nothing
        },
        'k' | 'j' | 'g' | 'G' => KeyGroup::Motion,
        'l' | 'h' => KeyGroup::Opening,
        '1' | '2' | '3' | '4' | '5' => KeyGroup::View,
        '?' | 'i' | 'z' | 't' | 'm' | 's' | 'S' => KeyGroup::Display,
        '/' | 'n' | 'N' | 'f' | 'F' | 'e' => KeyGroup::Search,
        'w' | 'd' | ' ' | 'x' | 'r' => KeyGroup::Action,
        _ => KeyGroup::Nothing,
    }
}

fn find_group(key: KeyEvent) -> (group: KeyGroup)
    ensures
        group == group_of(key),
{
    match key.code {
        KeyCode::Up | KeyCode::Down | KeyCode::Home | KeyCode::End => KeyGroup::Motion,
        KeyCode::PageUp | KeyCode::PageDown => KeyGroup::Motion,
        KeyCode::Left | KeyCode::Right | KeyCode::Enter => KeyGroup::Opening,
        KeyCode::Tab | KeyCode::BackTab => KeyGroup::View,
        KeyCode::Esc | KeyCode::Backspace => KeyGroup::Action,
        KeyCode::Char(character) => find_letter_group(character, key.control),
        KeyCode::Other => KeyGroup::Nothing,
    }
}

impl App {
    fn want_quit(&mut self)
        requires
            old(self).wf(),
        ensures
            final(self).wf(),
            final(self)@ == old(self)@.quit_wanted(),
    {
        self.should_quit = true;
    }

    fn handle_motion_key(&mut self, code: KeyCode)
        requires
            old(self).wf(),
        ensures
            final(self).wf(),
            final(self)@ == old(self)@.motion_key(code),
    {
        proof {
            reveal(AppModel::motion_key);
        }
        match code {
            KeyCode::Up | KeyCode::Char('k') => {
                self.move_selection(-1);
            },
            KeyCode::Down | KeyCode::Char('j') => {
                self.move_selection(1);
            },
            KeyCode::Home | KeyCode::Char('g') => {
                self.select_index(0);
            },
            KeyCode::End | KeyCode::Char('G') => {
                let last: usize = self.active_row_count().saturating_sub(1);
                self.select_index(last);
            },
            KeyCode::PageUp => {
                let rows: i128 = self.page_size as i128;
                self.move_selection(-rows);
            },
            KeyCode::PageDown => {
                let rows: i128 = self.page_size as i128;
                self.move_selection(rows);
            },
            _ => {},
        }
    }

    fn handle_opening_key(&mut self, code: KeyCode)
        requires
            old(self).wf(),
        ensures
            final(self).wf(),
            final(self)@ == old(self)@.opening_key(code),
    {
        proof {
            reveal(AppModel::opening_key);
        }
        if self.active_view == ViewKind::Tree {
            match code {
                KeyCode::Right | KeyCode::Char('l') => {
                    self.expand_selected();
                },
                KeyCode::Left | KeyCode::Char('h') => {
                    self.collapse_selected();
                },
                KeyCode::Enter => {
                    self.toggle_selected();
                },
                _ => {},
            }
        } else if code == KeyCode::Enter {
            self.reveal_analysis_selection();
        }
    }

    fn handle_view_key(&mut self, code: KeyCode)
        requires
            old(self).wf(),
        ensures
            final(self).wf(),
            final(self)@ == old(self)@.view_key(code),
    {
        proof {
            reveal(AppModel::view_key);
        }
        let view: ViewKind = match code {
            KeyCode::Tab => self.active_view.next(false),
            KeyCode::BackTab => self.active_view.next(true),
            KeyCode::Char('1') => ViewKind::Tree,
            KeyCode::Char('2') => ViewKind::Largest,
            KeyCode::Char('3') => ViewKind::Types,
            KeyCode::Char('4') => ViewKind::Duplicates,
            KeyCode::Char('5') => ViewKind::Changes,
            _ => {
                return ;
            },
        };
        self.set_view(view);
    }

    fn toggle_details(&mut self)
        requires
            old(self).wf(),
        ensures
            final(self).wf(),
            final(self)@ == old(self)@.details_toggled(),
    {
        self.detail_panel = !self.detail_panel;
        if self.detail_panel {
            self.say("Detail panel enabled");
        } else {
            self.say("Detail panel hidden");
        }
    }

    fn set_size_mode(&mut self, mode: SizeMode)
        requires
            old(self).wf(),
        ensures
            final(self).wf(),
            final(self)@ == old(self)@.with_size_mode(mode),
    {
        self.size_mode = mode;
        self.sort_dirty = true;
    }

    fn toggle_sizes(&mut self)
        requires
            old(self).wf(),
        ensures
            final(self).wf(),
            final(self)@ == old(self)@.sizes_toggled(),
    {
        let mode = self.size_mode.toggled();
        self.set_size_mode(mode);
        self.rebuild_analysis_rows();
        let mut told = "Showing ".to_owned();
        told.append(mode.label());
        told.append(" sizes");
        self.say(told.as_str());
    }

    fn change_theme(&mut self)
        requires
            old(self).wf(),
        ensures
            final(self).wf(),
            final(self)@ == old(self)@.theme_changed(),
    {
        self.theme = self.theme.next();
        let mut told = "Theme: ".to_owned();
        told.append(self.theme.label());
        self.say(told.as_str());
    }

    fn toggle_mouse(&mut self)
        requires
            old(self).wf(),
        ensures
            final(self).wf(),
            final(self)@ == old(self)@.mouse_toggled(),
    {
        self.mouse_enabled = !self.mouse_enabled;
        if self.mouse_enabled {
            self.say("Mouse capture enabled");
        } else {
            self.say("Mouse capture disabled");
        }
    }

    fn open_help(&mut self)
        requires
            old(self).wf(),
        ensures
            final(self).wf(),
            final(self)@ == old(self)@.help_opened(),
    {
        self.help_scroll = 0;
        self.mode = AppMode::Help;
    }

    fn handle_display_key(&mut self, code: KeyCode)
        requires
            old(self).wf(),
        ensures
            final(self).wf(),
            final(self)@ == old(self)@.display_key(code),
    {
        proof {
            reveal(AppModel::display_key);
        }
        match code {
            KeyCode::Char('?') => {
                self.open_help();
            },
            KeyCode::Char('i') => {
                self.toggle_details();
            },
            KeyCode::Char('z') => {
                self.toggle_sizes();
            },
            KeyCode::Char('t') => {
                self.change_theme();
            },
            KeyCode::Char('m') => {
                self.toggle_mouse();
            },
            KeyCode::Char('s') => {
                self.cycle_sort_key();
            },
            KeyCode::Char('S') => {
                self.reverse_sort();
            },
            _ => {},
        }
    }

    fn handle_search_key(&mut self, code: KeyCode)
        requires
            old(self).wf(),
        ensures
            final(self).wf(),
            final(self)@ == old(self)@.search_key(code),
    {
        proof {
            reveal(AppModel::search_key);
        }
        match code {
            KeyCode::Char('/') => {
                self.open_prompt(PromptKind::Search);
            },
            KeyCode::Char('n') => {
                self.find_search_match(true, true);
            },
            KeyCode::Char('N') => {
                self.find_search_match(false, true);
            },
            KeyCode::Char('f') => {
                self.open_prompt(PromptKind::Filter);
            },
            KeyCode::Char('F') => {
                self.clear_filter();
            },
            KeyCode::Char('e') => {
                self.open_prompt(PromptKind::Export);
            },
            _ => {},
        }
    }

    fn handle_action_key(&mut self, code: KeyCode)
        requires
            old(self).wf(),
        ensures
            final(self).wf(),
            final(self)@ == old(self)@.action_key(code),
    {
        proof {
            reveal(AppModel::action_key);
        }
        match code {
            KeyCode::Esc => {
                self.cancel_scan();
            },
            KeyCode::Backspace => {
                self.navigate_parent();
            },
            KeyCode::Char('w') => {
                self.toggle_watcher();
            },
            KeyCode::Char('d') => {
                self.confirm_current_delete();
            },
            KeyCode::Char(' ') => {
                self.toggle_mark_current();
            },
            KeyCode::Char('x') => {
                self.confirm_marked_delete();
            },
            KeyCode::Char('r') => {
                self.refresh_root();
            },
            _ => {},
        }
    }

    /// Takes in a key in normal mode.
    pub fn handle_browse_key(&mut self, key: KeyEvent)
        requires
            old(self).wf(),
        ensures
            final(self).wf(),
            final(self)@ == old(self)@.browse_key(key),
    {
        match find_group(key) {
            KeyGroup::Quit => {
                self.want_quit();
            },
            KeyGroup::Motion => {
                self.handle_motion_key(key.code);
            },
            KeyGroup::Opening => {
                self.handle_opening_key(key.code);
            },
            KeyGroup::View => {
                self.handle_view_key(key.code);
            },
            KeyGroup::Display => {
                self.handle_display_key(key.code);
            },
            KeyGroup::Search => {
                self.handle_search_key(key.code);
            },
            KeyGroup::Action => {
                self.handle_action_key(key.code);
            },
            KeyGroup::Nothing => {},
        }
    }

    fn set_help_scroll(&mut self, scroll: usize)
        requires
            old(self).wf(),
        ensures
            final(self).wf(),
            final(self)@ == old(self)@.with_help_scroll(scroll),
    {
        self.help_scroll = scroll;
    }

    /// Takes in a key while the help is shown.
    pub fn handle_help_key(&mut self, code: KeyCode)
        requires
            old(self).wf(),
        ensures
            final(self).wf(),
            final(self)@ == old(self)@.help_key(code),
    {
        if code == KeyCode::Esc || code == KeyCode::Char('?') || code == KeyCode::Char('q') {
            self.set_mode(AppMode::Browse);
        } else {
            let scroll: usize = move_help(code, self.help_scroll, self.page_size);
            self.set_help_scroll(scroll);
        }
    }

    fn handle_confirm_key(&mut self, code: KeyCode)
        requires
            old(self).wf(),
        ensures
            final(self).wf(),
            final(self)@ == old(self)@.confirm_key(code),
    {
        match code {
            KeyCode::Char('y') => {
                self.ask(Effect::ValidateDelete);
            },
            KeyCode::Char('n') | KeyCode::Esc => {
                self.set_mode(AppMode::Browse);
                self.say("Delete cancelled");
            },
            _ => {},
        }
    }

    fn delay_quit(&mut self)
        requires
            old(self).wf(),
        ensures
            final(self).wf(),
            final(self)@ == old(self)@.quit_delayed(),
    {
        self.quit_after_delete = true;
        self.say("Waiting for Trash operation before quitting");
    }

    fn handle_deleting_key(&mut self, key: KeyEvent)
        requires
            old(self).wf(),
        ensures
            final(self).wf(),
            final(self)@ == old(self)@.deleting_key(key),
    {
        if key.code == KeyCode::Char('q') || (key.code == KeyCode::Char('c') && key.control) {
            self.delay_quit();
        }
    }

    fn handle_error_key(&mut self, code: KeyCode)
        requires
            old(self).wf(),
        ensures
            final(self).wf(),
            final(self)@ == old(self)@.error_key(code),
    {
        if code == KeyCode::Esc || code == KeyCode::Enter {
            self.set_mode(AppMode::Browse);
        }
    }

    /// Takes in a key.
    pub fn handle_key(&mut self, key: KeyEvent)
        requires
            old(self).wf(),
        ensures
            final(self).wf(),
            final(self)@ == old(self)@.key_pressed(key),
    {
        match &self.mode {
            AppMode::Browse => {
                self.handle_browse_key(key);
            },
            AppMode::Help => {
                self.handle_help_key(key.code);
            },
            AppMode::Input { .. } => {
                self.handle_prompt_key(key);
            },
            AppMode::ConfirmDelete { .. } => {
                self.handle_confirm_key(key.code);
            },
            AppMode::Deleting { .. } => {
                self.handle_deleting_key(key);
            },
            AppMode::ErrorDialog(_) => {
                self.handle_error_key(key.code);
            },
        }
    }
}

impl AppModel {
    pub open spec fn with_click(self, click: Option<(NodeId, u64)>) -> AppModel {
        AppModel { last_click: click, ..self }
    }

    /// Whether a click follows another one on the same node soon enough.
    pub open spec fn is_double(self, id: NodeId) -> bool {
        match self.last_click {
            Some((previous, at)) => previous == id && self.clock.millis - at
                <= DOUBLE_CLICK_INTERVAL,
            None => false,
        }
    }

    /// Whether a column belongs to the marks.
    pub open spec fn is_mark_column(self, column: u16) -> bool {
        column < Area::end(self.list_area.x, MARK_WIDTH)
    }

    /// The state after a click on a row of an analysis view.
    pub open spec fn row_clicked(self, index: int, column: u16) -> AppModel {
        if index < self.analysis_rows.len() {
            let chosen = self.with_analysis_row(index as usize).analysis_scrolled();
            if self.is_mark_column(column) {
                chosen.current_marked()
            } else {
                chosen
            }
        } else {
            self
        }
    }

    /// The state after the marks of a row of the tree have been clicked on.
    pub open spec fn mark_clicked(self) -> AppModel {
        self.selected_marked().with_click(None)
    }

    /// The state after the name of a row of the tree has been clicked on. The
    /// second of two clicks opens or closes the directory.
    pub open spec fn name_clicked(self, id: NodeId) -> AppModel {
        if self.is_double(id) {
            self.with_click(Some((id, self.clock.millis))).selection_toggled().with_click(None)
        } else {
            self.with_click(Some((id, self.clock.millis)))
        }
    }

    /// The state after a click on a row of the tree.
    pub open spec fn node_clicked(self, index: int, column: u16) -> AppModel {
        if index < self.visible.len() {
            let id = self.visible[index].node_id;
            let chosen = self.with_selected(id).scrolled();
            if self.is_mark_column(column) {
                chosen.mark_clicked()
            } else {
                chosen.name_clicked(id)
            }
        } else {
            self
        }
    }

    /// The state after a click.
    pub open spec fn clicked(self, column: u16, row: u16) -> AppModel {
        if !self.list_area.holds(column, row) {
            self
        } else if self.active_view == ViewKind::Tree {
            self.node_clicked(capped_sum(self.scroll_offset, row - self.list_area.y), column)
        } else {
            self.row_clicked(capped_sum(self.analysis_scroll, row - self.list_area.y), column)
        }
    }

    /// The state after something was done with the mouse.
    pub open spec fn mouse_used(self, mouse: MouseEvent) -> AppModel {
        if self.mode != ModeModel::Browse {
            self
        } else {
            match mouse.kind {
                MouseKind::ScrollUp => self.moved(-3),
                MouseKind::ScrollDown => self.moved(3),
                MouseKind::LeftDown => self.clicked(mouse.column, mouse.row),
                MouseKind::Other => self,
            }
        }
    }
}

impl App {
    fn set_click(&mut self, click: Option<(NodeId, u64)>)
        requires
            old(self).wf(),
        ensures
            final(self).wf(),
            final(self)@ == old(self)@.with_click(click),
    {
        self.last_click = click;
    }

    fn clicks_twice(&self, node_id: NodeId) -> (result: bool)
        ensures
            result == self@.is_double(node_id),
    {
        match self.last_click {
            Some((previous, at)) => previous == node_id && self.clock.millis.saturating_sub(at)
                <= DOUBLE_CLICK_INTERVAL,
            None => false,
        }
    }

    fn marks_at(&self, column: u16) -> (result: bool)
        ensures
            result == self@.is_mark_column(column),
    {
        column < self.list_area.x.saturating_add(MARK_WIDTH)
    }

    fn click_row(&mut self, index: usize, column: u16)
        requires
            old(self).wf(),
        ensures
            final(self).wf(),
            final(self)@ == old(self)@.row_clicked(index as int, column),
    {
        if index < self.analysis_rows.len() {
            let marks: bool = self.marks_at(column);
            self.set_analysis_row(index);
            self.ensure_analysis_selection_visible();
            if marks {
                self.toggle_mark_current();
            }
        }
    }

    fn click_mark(&mut self)
        requires
            old(self).wf(),
        ensures
            final(self).wf(),
            final(self)@ == old(self)@.mark_clicked(),
    {
        self.toggle_mark_selected();
        self.set_click(None);
    }

    fn click_name(&mut self, node_id: NodeId)
        requires
            old(self).wf(),
        ensures
            final(self).wf(),
            final(self)@ == old(self)@.name_clicked(node_id),
    {
        let twice: bool = self.clicks_twice(node_id);
        self.set_click(Some((node_id, self.clock.millis)));
        if twice {
            self.toggle_selected();
            self.set_click(None);
        }
    }

    fn click_node(&mut self, index: usize, column: u16)
        requires
            old(self).wf(),
        ensures
            final(self).wf(),
            final(self)@ == old(self)@.node_clicked(index as int, column),
    {
        if index < self.visible.len() {
            let marks: bool = self.marks_at(column);
            let node_id: NodeId = self.visible[index].node_id;
            self.select_node(node_id);
            self.ensure_selection_visible();
            if marks {
                self.click_mark();
            } else {
                self.click_name(node_id);
            }
        }
    }

    fn click(&mut self, column: u16, row: u16)
        requires
            old(self).wf(),
        ensures
            final(self).wf(),
            final(self)@ == old(self)@.clicked(column, row),
    {
        if !self.list_area.contains(column, row) {
            return ;
        }
        let below: usize = (row - self.list_area.y) as usize;
        if self.active_view == ViewKind::Tree {
            self.click_node(self.scroll_offset.saturating_add(below), column);
        } else {
            self.click_row(self.analysis_scroll.saturating_add(below), column);
        }
    }

    /// Takes in what was done with the mouse.
    pub fn handle_mouse(&mut self, mouse: MouseEvent)
        requires
            old(self).wf(),
        ensures
            final(self).wf(),
            final(self)@ == old(self)@.mouse_used(mouse),
    {
        if !matches!(self.mode, AppMode::Browse) {
            return ;
        }
        match mouse.kind {
            MouseKind::ScrollUp => {
                self.move_selection(-3);
            },
            MouseKind::ScrollDown => {
                self.move_selection(3);
            },
            MouseKind::LeftDown => {
                self.click(mouse.column, mouse.row);
            },
            MouseKind::Other => {},
        }
    }
}

/// Moving about: one row up or down, to the first or the last row, or by a page.
pub proof fn motion_keys_move_about(state: AppModel, key: KeyEvent)
    requires
        state.mode == ModeModel::Browse,
    ensures
        key.code == KeyCode::Up || key.code == KeyCode::Char('k') ==> state.key_pressed(key)
            == state.moved(-1),
        key.code == KeyCode::Down || key.code == KeyCode::Char('j') ==> state.key_pressed(key)
            == state.moved(1),
        key.code == KeyCode::Home || key.code == KeyCode::Char('g') ==> state.key_pressed(key)
            == state.with_row(0),
        (key.code == KeyCode::End || key.code == KeyCode::Char('G')) && state.row_count() > 0
            ==> state.key_pressed(key) == state.with_row(state.row_count() - 1),
        key.code == KeyCode::PageUp ==> state.key_pressed(key) == state.moved(
            -(state.page_size as int),
        ),
        key.code == KeyCode::PageDown ==> state.key_pressed(key) == state.moved(
            state.page_size as int,
        ),
{
    reveal(AppModel::motion_key);
}

/// Opening and closing: to the right and to the left in the tree, and either with
/// Enter. In the other views Enter goes to the entry in the tree, and the rest
/// does nothing.
pub proof fn opening_keys_open_and_close(state: AppModel, key: KeyEvent)
    requires
        state.mode == ModeModel::Browse,
    ensures
        state.active_view == ViewKind::Tree && (key.code == KeyCode::Right || key.code
            == KeyCode::Char('l')) ==> state.key_pressed(key) == state.selection_opened(),
        state.active_view == ViewKind::Tree && (key.code == KeyCode::Left || key.code
            == KeyCode::Char('h')) ==> state.key_pressed(key) == state.selection_closed(),
        state.active_view == ViewKind::Tree && key.code == KeyCode::Enter ==> state.key_pressed(key)
            == state.selection_toggled(),
        state.active_view != ViewKind::Tree && key.code == KeyCode::Enter ==> state.key_pressed(key)
            == state.revealed(),
        state.active_view != ViewKind::Tree && (key.code == KeyCode::Right || key.code
            == KeyCode::Left) ==> state.key_pressed(key) == state,
{
    reveal(AppModel::opening_key);
}

/// The views have the numbers of their places, and Tab goes from one to the next.
pub proof fn view_keys_show_their_view(state: AppModel, key: KeyEvent)
    requires
        state.mode == ModeModel::Browse,
    ensures
        key.code == KeyCode::Char('1') ==> state.key_pressed(key) == state.view_set(
            ViewKind::Tree,
        ),
        key.code == KeyCode::Char('2') ==> state.key_pressed(key) == state.view_set(
            ViewKind::Largest,
        ),
        key.code == KeyCode::Char('3') ==> state.key_pressed(key) == state.view_set(
            ViewKind::Types,
        ),
        key.code == KeyCode::Char('4') ==> state.key_pressed(key) == state.view_set(
            ViewKind::Duplicates,
        ),
        key.code == KeyCode::Char('5') ==> state.key_pressed(key) == state.view_set(
            ViewKind::Changes,
        ),
        key.code == KeyCode::Tab && state.active_view == ViewKind::Tree ==> state.key_pressed(key)
            == state.view_set(ViewKind::Largest),
        key.code == KeyCode::BackTab && state.active_view == ViewKind::Largest
            ==> state.key_pressed(key) == state.view_set(ViewKind::Tree),
        key.code == KeyCode::BackTab && state.active_view == ViewKind::Tree ==> state.key_pressed(
            key,
        ) == state.view_set(ViewKind::Changes),
{
    reveal(AppModel::view_key);
}

/// Quitting: `q` or Control and `c`; `c` alone does nothing.
pub proof fn quit_keys_quit(state: AppModel, key: KeyEvent)
    requires
        state.mode == ModeModel::Browse,
    ensures
        key.code == KeyCode::Char('q') ==> state.key_pressed(key).should_quit,
        key.code == KeyCode::Char('c') && key.control ==> state.key_pressed(key).should_quit,
        key.code == KeyCode::Char('c') && !key.control ==> state.key_pressed(key) == state,
        key.code == KeyCode::Other ==> state.key_pressed(key) == state,
{
}

/// What is shown: the panel of details, the way to measure, the theme, the mouse
/// and the order each go to their next state, and nothing else of them changes.
pub proof fn display_keys_change_what_is_shown(state: AppModel, key: KeyEvent)
    requires
        state.mode == ModeModel::Browse,
    ensures
        ({
            let after = state.key_pressed(key);
            &&& key.code == KeyCode::Char('i') ==> after.detail_panel == !state.detail_panel
                && after.size_mode == state.size_mode && after.theme == state.theme
            &&& key.code == KeyCode::Char('z') ==> after.size_mode != state.size_mode
                && after.detail_panel == state.detail_panel && after.sort_dirty
            &&& key.code == KeyCode::Char('t') ==> after.theme == state.theme.following()
                && after.size_mode == state.size_mode
            &&& key.code == KeyCode::Char('m') ==> after.mouse_enabled == !state.mouse_enabled
                && after.theme == state.theme
            &&& key.code == KeyCode::Char('?') ==> after.mode == ModeModel::Help
                && after.help_scroll == 0
            &&& key.code == KeyCode::Char('s') ==> after == state.sort_cycled()
            &&& key.code == KeyCode::Char('S') ==> after == state.sort_reversed()
        }),
{
    reveal(AppModel::display_key);
}

/// Searching, filtering and exporting.
pub proof fn search_keys_ask_and_go_on(state: AppModel, key: KeyEvent)
    requires
        state.mode == ModeModel::Browse,
    ensures
        key.code == KeyCode::Char('/') ==> state.key_pressed(key) == state.prompted(
            PromptKind::Search,
        ),
        key.code == KeyCode::Char('f') ==> state.key_pressed(key) == state.prompted(
            PromptKind::Filter,
        ),
        key.code == KeyCode::Char('e') ==> state.key_pressed(key) == state.prompted(
            PromptKind::Export,
        ),
        key.code == KeyCode::Char('n') ==> state.key_pressed(key) == state.searched(true, true),
        key.code == KeyCode::Char('N') ==> state.key_pressed(key) == state.searched(false, true),
        key.code == KeyCode::Char('F') ==> state.key_pressed(key) == state.filter_cleared(),
{
    reveal(AppModel::search_key);
}

/// Scanning and cleaning up.
pub proof fn action_keys_act(state: AppModel, key: KeyEvent)
    requires
        state.mode == ModeModel::Browse,
    ensures
        key.code == KeyCode::Esc ==> state.key_pressed(key) == state.scan_cancelled(),
        key.code == KeyCode::Backspace ==> state.key_pressed(key) == state.parent_wanted(),
        key.code == KeyCode::Char('w') ==> state.key_pressed(key) == state.watcher_toggled(),
        key.code == KeyCode::Char('r') ==> state.key_pressed(key) == state.refresh_wanted(None),
        key.code == KeyCode::Char(' ') ==> state.key_pressed(key) == state.current_marked(),
        key.code == KeyCode::Char('d') ==> state.key_pressed(key) == state.current_delete_asked(),
        key.code == KeyCode::Char('x') ==> state.key_pressed(key) == state.marked_delete_asked(),
{
    reveal(AppModel::action_key);
}

/// The help is closed with Esc, `?` or `q`, and scrolls by a line or a page, not
/// above its first line.
pub proof fn help_keys_scroll_the_help(state: AppModel, key: KeyEvent)
    requires
        state.mode == ModeModel::Help,
        state.help_scroll < usize::MAX,
        state.help_scroll + state.page_size <= usize::MAX,
    ensures
        ({
            let after = state.key_pressed(key);
            let closes = key.code == KeyCode::Esc || key.code == KeyCode::Char('?') || key.code
                == KeyCode::Char('q');
            &&& closes ==> after.mode == ModeModel::Browse
            &&& !closes ==> after.mode == ModeModel::Help
            &&& key.code == KeyCode::Down || key.code == KeyCode::Char('j') ==> after.help_scroll
                == state.help_scroll + 1
            &&& (key.code == KeyCode::Up || key.code == KeyCode::Char('k')) && state.help_scroll > 0
                ==> after.help_scroll == state.help_scroll - 1
            &&& (key.code == KeyCode::Up || key.code == KeyCode::PageUp) && state.help_scroll == 0
                ==> after.help_scroll == 0
            &&& key.code == KeyCode::PageDown ==> after.help_scroll == state.help_scroll
                + state.page_size
            &&& key.code == KeyCode::PageUp && state.help_scroll >= state.page_size
                ==> after.help_scroll == state.help_scroll - state.page_size
        }),
{
}

/// An error is closed with Enter or Esc and stays with any other key.
pub proof fn errors_stay_until_they_are_closed(state: AppModel, key: KeyEvent, message: Seq<char>)
    requires
        state.mode == ModeModel::ErrorDialog(message),
    ensures
        key.code == KeyCode::Enter || key.code == KeyCode::Esc ==> state.key_pressed(key).mode
            == ModeModel::Browse,
        key.code != KeyCode::Enter && key.code != KeyCode::Esc ==> state.key_pressed(key) == state,
{
}

/// Two clicks on one entry within 400 milliseconds are a double click.
pub proof fn two_quick_clicks_are_a_double_click(state: AppModel, id: NodeId, last: NodeId, at: u64)
    requires
        state.last_click == Some((last, at)),
    ensures
        state.is_double(id) <==> last == id && state.clock.millis <= at + 400,
{
}

/// A click goes to the row under it: as far below the first shown row as it lies
/// below the upper edge of the list. Outside the list it does nothing.
pub proof fn clicks_go_to_the_row_under_them(state: AppModel, column: u16, row: u16)
    requires
        state.list_area.x + state.list_area.width <= u16::MAX,
        state.list_area.y + state.list_area.height <= u16::MAX,
        state.list_area.x + 4 <= u16::MAX,
        state.scroll_offset + u16::MAX <= usize::MAX,
        state.analysis_scroll + u16::MAX <= usize::MAX,
    ensures
        ({
            let area = state.list_area;
            let inside = area.x <= column < area.x + area.width && area.y <= row < area.y
                + area.height;
            let index = row - area.y + if state.active_view == ViewKind::Tree {
                state.scroll_offset as int
            } else {
                state.analysis_scroll as int
            };
            let after = state.clicked(column, row);
            &&& !inside ==> after == state
            &&& inside && state.active_view == ViewKind::Tree && index >= state.visible.len()
                ==> after == state
            &&& inside && state.active_view != ViewKind::Tree && index
                >= state.analysis_rows.len() ==> after == state
            &&& inside && state.active_view == ViewKind::Tree && index < state.visible.len()
                && column < area.x + 4 ==> after == state.with_selected(
                state.visible[index].node_id,
            ).scrolled().selected_marked().with_click(None)
            &&& inside && state.active_view == ViewKind::Tree && index < state.visible.len()
                && column >= area.x + 4 ==> after == state.with_selected(
                state.visible[index].node_id,
            ).scrolled().name_clicked(state.visible[index].node_id)
        }),
{
}

/// The wheel moves by three rows.
pub proof fn the_wheel_moves_by_three_rows(state: AppModel, mouse: MouseEvent)
    ensures
        state.mode == ModeModel::Browse && mouse.kind == MouseKind::ScrollUp ==> state.mouse_used(
            mouse,
        ) == state.moved(-3),
        state.mode == ModeModel::Browse && mouse.kind == MouseKind::ScrollDown ==> state.mouse_used(
            mouse,
        ) == state.moved(3),
        state.mode != ModeModel::Browse ==> state.mouse_used(mouse) == state,
{
}

} // verus!
