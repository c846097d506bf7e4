//! The prompts for a search, a filter and an export.
use vstd::prelude::*;

use crate::analytics;
use crate::app::keys::{KeyCode, KeyEvent};
use crate::app::search;
use crate::app::{App, AppMode, AppModel, ModeModel, PromptKind};
use crate::filter;
use crate::filter::{FilterExpression, PredicateModel};
use crate::path::FilePath;
use crate::text;
use crate::tree;

verus! {

/// A text that may be missing.
pub open spec fn or_empty(value: Option<Seq<char>>) -> Seq<char> {
    match value {
        Some(value) => value,
        None => Seq::empty(),
    }
}

/// A text without its last character.
pub open spec fn shortened(value: Seq<char>) -> Seq<char> {
    if value.len() == 0 {
        value
    } else {
        value.drop_last()
    }
}

/// The filter that a text stands for, if it stands for one.
pub open spec fn readable_filter(query: Option<Seq<char>>) -> Option<Seq<PredicateModel>> {
    match query {
        Some(query) => match filter::filter_of(query) {
            Ok(stated) => stated,
            Err(_) => None,
        },
        None => None,
    }
}

impl AppModel {
    /// The state with a prompt. It begins with what was entered last.
    pub open spec fn prompted(self, kind: PromptKind) -> AppModel {
        self.with_mode(
            ModeModel::Input {
                kind,
                value: match kind {
                    PromptKind::Search => or_empty(self.search_query),
                    PromptKind::Filter => or_empty(self.filter_query),
                    PromptKind::Export => "macDirStat-snapshot.json"@,
                },
                previous_filter: self.filter_query,
            },
        )
    }

    pub open spec fn with_search(self, query: Option<Seq<char>>) -> AppModel {
        AppModel { search_query: query, ..self }
    }

    pub open spec fn with_filter_query(self, query: Option<Seq<char>>) -> AppModel {
        AppModel { filter_query: query, ..self }
    }

    pub open spec fn with_filter(self, stated: Option<Seq<PredicateModel>>) -> AppModel {
        AppModel { filter_expression: stated, ..self }
    }

    /// The state with the filter in force that has been entered. As long as it
    /// cannot be read the old one stays.
    pub open spec fn filter_applied(self) -> AppModel {
        match self.filter_query {
            None => self.with_filter(None).rebuilt().rows_rebuilt(),
            Some(query) => match filter::filter_of(query) {
                Ok(stated) => self.with_filter(stated).rebuilt().rows_rebuilt(),
                Err(_) => self,
            },
        }
    }

    /// The state with the prompt closed and another filter.
    pub open spec fn filter_replaced(
        self,
        query: Option<Seq<char>>,
        stated: Option<Seq<PredicateModel>>,
    ) -> AppModel {
        self.with_filter_query(query).with_filter(stated).with_mode(
            ModeModel::Browse,
        ).filter_applied()
    }

    /// The state with another text in the prompt. A filter is in force as it is
    /// typed.
    pub open spec fn prompt_edited(
        self,
        kind: PromptKind,
        value: Seq<char>,
        previous_filter: Option<Seq<char>>,
    ) -> AppModel {
        let typed = self.with_mode(ModeModel::Input { kind, value, previous_filter });
        if kind == PromptKind::Filter {
            typed.with_filter_query(search::query_of(value)).filter_applied()
        } else {
            typed
        }
    }

    /// The state after a prompt has been left without an answer.
    pub open spec fn prompt_left(
        self,
        kind: PromptKind,
        previous_filter: Option<Seq<char>>,
    ) -> AppModel {
        if kind == PromptKind::Filter {
            self.filter_replaced(previous_filter, readable_filter(previous_filter))
        } else {
            self.with_mode(ModeModel::Browse)
        }
    }

    /// The state after a prompt has been answered.
    pub open spec fn prompt_answered(self, kind: PromptKind, value: Seq<char>) -> AppModel {
        match kind {
            PromptKind::Search => self.with_search(search::query_of(value)).with_mode(
                ModeModel::Browse,
            ).searched(true, false),
            PromptKind::Filter => match filter::filter_of(value) {
                Ok(stated) => self.filter_replaced(search::query_of(value), stated),
                Err(message) => self.noticed("Invalid filter: "@ + message),
            },
            PromptKind::Export => match search::query_of(value) {
                Some(path) => self.with_mode(ModeModel::Browse).export_wanted(
                    vstd::utf8::encode_utf8(path),
                ),
                None => self.with_mode(ModeModel::Browse),
            },
        }
    }

    /// The state after a key in a prompt.
    #[verifier::opaque]
    pub open spec fn prompt_key(self, key: KeyEvent) -> AppModel {
        match self.mode {
            ModeModel::Input { kind, value, previous_filter } => match key.code {
                KeyCode::Esc => self.prompt_left(kind, previous_filter),
                KeyCode::Enter => self.prompt_answered(kind, value),
                KeyCode::Backspace => self.prompt_edited(kind, shortened(value), previous_filter),
                KeyCode::Char(character) => if key.control || key.alt {
                    self
                } else {
                    self.prompt_edited(kind, value.push(character), previous_filter)
                },
                _ => self,
            },
            _ => self,
        }
    }

    /// The state without a filter.
    pub open spec fn filter_cleared(self) -> AppModel {
        self.with_filter_query(None).with_filter(None).rebuilt().rows_rebuilt().noticed(
            "Filter cleared"@,
        )
    }
}

fn text_or_empty(value: &Option<String>) -> (text: String)
    ensures
        text@ == or_empty(tree::text_view(*value)),
{
    match value {
        Some(value) => value.clone(),
        None => String::new(),
    }
}

fn shorten(value: &str) -> (shorter: String)
    ensures
        shorter@ == shortened(value@),
{
    let chars = text::chars_of(value);
    if chars.len() == 0 {
        return value.to_owned();
    }
    let shorter = text::text_range(&chars, 0, chars.len() - 1);
    assert(shorter@ =~= value@.drop_last());
    shorter
}

fn read_filter(query: &Option<String>) -> (stated: Option<FilterExpression>)
    ensures
        filter::filter_view(stated) == readable_filter(tree::text_view(*query)),
{
    match query {
        Some(query) => match FilterExpression::parse(query.as_str()) {
            Ok(stated) => stated,
            Err(_) => None,
        },
        None => None,
    }
}

impl App {
    /// Opens a prompt.
    pub fn open_prompt(&mut self, kind: PromptKind)
        requires
            old(self).wf(),
        ensures
            final(self).wf(),
            final(self)@ == old(self)@.prompted(kind),
    {
        let value: String = match kind {
            PromptKind::Search => text_or_empty(&self.search_query),
            PromptKind::Filter => text_or_empty(&self.filter_query),
            PromptKind::Export => "macDirStat-snapshot.json".to_owned(),
        };
        let previous_filter = analytics::copy_text(&self.filter_query);
        self.set_mode(AppMode::Input { kind, value, previous_filter });
    }

    fn set_search(&mut self, query: Option<String>)
        requires
            old(self).wf(),
        ensures
            final(self).wf(),
            final(self)@ == old(self)@.with_search(tree::text_view(query)),
    {
        self.search_query = query;
    }

    fn set_filter_query(&mut self, query: Option<String>)
        requires
            old(self).wf(),
        ensures
            final(self).wf(),
            final(self)@ == old(self)@.with_filter_query(tree::text_view(query)),
    {
        self.filter_query = query;
    }

    fn set_filter(&mut self, stated: Option<FilterExpression>)
        requires
            old(self).wf(),
        ensures
            final(self).wf(),
            final(self)@ == old(self)@.with_filter(filter::filter_view(stated)),
    {
        self.filter_expression = stated;
    }

    fn apply_filter(&mut self)
        requires
            old(self).wf(),
        ensures
            final(self).wf(),
            final(self)@ == old(self)@.filter_applied(),
    {
        let stated: Option<FilterExpression> = match &self.filter_query {
            Some(query) => match FilterExpression::parse(query.as_str()) {
                Ok(stated) => stated,
                Err(_) => {
                    return ;
                },
            },
            None => None,
        };
        self.set_filter(stated);
        self.rebuild_visible();
        self.rebuild_analysis_rows();
    }

    fn replace_filter(&mut self, query: Option<String>, stated: Option<FilterExpression>)
        requires
            old(self).wf(),
        ensures
            final(self).wf(),
            final(self)@ == old(self)@.filter_replaced(
                tree::text_view(query),
                filter::filter_view(stated),
            ),
    {
        self.set_filter_query(query);
        self.set_filter(stated);
        self.set_mode(AppMode::Browse);
        self.apply_filter();
    }

    fn edit_prompt(&mut self, kind: PromptKind, value: String, previous_filter: Option<String>)
        requires
            old(self).wf(),
        ensures
            final(self).wf(),
            final(self)@ == old(self)@.prompt_edited(
                kind,
                value@,
                tree::text_view(previous_filter),
            ),
    {
        let query = search::normalize_query(value.as_str());
        self.set_mode(AppMode::Input { kind, value, previous_filter });
        if kind == PromptKind::Filter {
            self.set_filter_query(query);
            self.apply_filter();
        }
    }

    fn leave_prompt(&mut self, kind: PromptKind, previous_filter: Option<String>)
        requires
            old(self).wf(),
        ensures
            final(self).wf(),
            final(self)@ == old(self)@.prompt_left(kind, tree::text_view(previous_filter)),
    {
        if kind == PromptKind::Filter {
            let stated = read_filter(&previous_filter);
            self.replace_filter(previous_filter, stated);
        } else {
            self.set_mode(AppMode::Browse);
        }
    }

    fn answer_filter(&mut self, value: &str)
        requires
            old(self).wf(),
        ensures
            final(self).wf(),
            final(self)@ == old(self)@.prompt_answered(PromptKind::Filter, value@),
    {
        match FilterExpression::parse(value) {
            Ok(stated) => {
                self.replace_filter(search::normalize_query(value), stated);
            },
            Err(message) => {
                self.say_with("Invalid filter: ", message.as_str());
            },
        }
    }

    fn answer_search(&mut self, value: &str)
        requires
            old(self).wf(),
        ensures
            final(self).wf(),
            final(self)@ == old(self)@.prompt_answered(PromptKind::Search, value@),
    {
        self.set_search(search::normalize_query(value));
        self.set_mode(AppMode::Browse);
        self.find_search_match(true, false);
    }

    fn answer_export(&mut self, value: &str)
        requires
            old(self).wf(),
        ensures
            final(self).wf(),
            final(self)@ == old(self)@.prompt_answered(PromptKind::Export, value@),
    {
        self.set_mode(AppMode::Browse);
        if let Some(path) = search::normalize_query(value) {
            self.export_analysis(FilePath::from_text(path.as_str()));
        }
    }

    fn answer_prompt(&mut self, kind: PromptKind, value: &str)
        requires
            old(self).wf(),
        ensures
            final(self).wf(),
            final(self)@ == old(self)@.prompt_answered(kind, value@),
    {
        match kind {
            PromptKind::Search => {
                self.answer_search(value);
            },
            PromptKind::Filter => {
                self.answer_filter(value);
            },
            PromptKind::Export => {
                self.answer_export(value);
            },
        }
    }

    /// Takes in a key while a prompt is open.
    pub fn handle_prompt_key(&mut self, key: KeyEvent)
        requires
            old(self).wf(),
        ensures
            final(self).wf(),
            final(self)@ == old(self)@.prompt_key(key),
    {
        proof {
            reveal(AppModel::prompt_key);
        }
        let (kind, mut value, previous_filter) = match &self.mode {
            AppMode::Input { kind, value, previous_filter } => (
                *kind,
                value.clone(),
                analytics::copy_text(previous_filter),
            ),
            _ => {
                return ;
            },
        };
        match key.code {
            KeyCode::Esc => {
                self.leave_prompt(kind, previous_filter);
            },
            KeyCode::Enter => {
                self.answer_prompt(kind, value.as_str());
            },
            KeyCode::Backspace => {
                let shorter = shorten(value.as_str());
                self.edit_prompt(kind, shorter, previous_filter);
            },
            KeyCode::Char(character) => {
                if !key.control && !key.alt {
                    value.push(character);
                    self.edit_prompt(kind, value, previous_filter);
                }
            },
            _ => {},
        }
    }

    /// Takes the filter away.
    pub fn clear_filter(&mut self)
        requires
            old(self).wf(),
        ensures
            final(self).wf(),
            final(self)@ == old(self)@.filter_cleared(),
    {
        self.set_filter_query(None);
        self.set_filter(None);
        self.rebuild_visible();
        self.rebuild_analysis_rows();
        self.say("Filter cleared");
    }
}

/// What is typed stands at the end of the line, Backspace takes its last letter
/// away, and keys with Control or Alt are ignored.
pub proof fn typed_letters_stand_in_the_line(
    state: AppModel,
    key: KeyEvent,
    kind: PromptKind,
    value: Seq<char>,
    previous_filter: Option<Seq<char>>,
    letter: char,
)
    requires
        state.mode == (ModeModel::Input { kind, value, previous_filter }),
    ensures
        ({
            let after = state.prompt_key(key);
            &&& key.code == KeyCode::Char(letter) && !key.control && !key.alt && kind
                != PromptKind::Filter ==> after.mode == (ModeModel::Input {
                kind,
                value: value.push(letter),
                previous_filter,
            })
            &&& key.code == KeyCode::Char(letter) && (key.control || key.alt) ==> after == state
            &&& key.code == KeyCode::Backspace && kind != PromptKind::Filter && value.len() > 0
                ==> after.mode == (ModeModel::Input {
                kind,
                value: value.drop_last(),
                previous_filter,
            })
            &&& key.code == KeyCode::Backspace && kind != PromptKind::Filter && value.len() == 0
                ==> after.mode == state.mode
            &&& key.code == KeyCode::Char(letter) && !key.control && !key.alt && kind
                == PromptKind::Filter ==> after == state.prompt_edited(
                kind,
                value.push(letter),
                previous_filter,
            )
        }),
{
    reveal(AppModel::prompt_key);
}

/// A filter works while it is typed, as far as it can be read; blank ones show
/// everything.
pub proof fn filters_work_while_they_are_typed(
    state: AppModel,
    value: Seq<char>,
    previous_filter: Option<Seq<char>>,
)
    ensures
        ({
            let kind = PromptKind::Filter;
            let typed = state.with_mode(ModeModel::Input { kind, value, previous_filter });
            let after = state.prompt_edited(kind, value, previous_filter);
            let query = search::query_of(value);
            &&& query is None ==> after == typed.with_filter_query(None).with_filter(
                None,
            ).rebuilt().rows_rebuilt()
            &&& query is Some && filter::filter_of(query->0) is Ok ==> after
                == typed.with_filter_query(query).with_filter(
                filter::filter_of(query->0)->Ok_0,
            ).rebuilt().rows_rebuilt()
            &&& query is Some && filter::filter_of(query->0) is Err ==> after
                == typed.with_filter_query(query)
        }),
{
}

/// Leaving the line of a filter brings back the filter that was there before;
/// leaving another line changes nothing but the mode.
pub proof fn leaving_brings_the_filter_back(
    state: AppModel,
    kind: PromptKind,
    previous_filter: Option<Seq<char>>,
)
    ensures
        kind != PromptKind::Filter ==> state.prompt_left(kind, previous_filter) == state.with_mode(
            ModeModel::Browse,
        ),
        kind == PromptKind::Filter && previous_filter is None ==> state.prompt_left(
            kind,
            previous_filter,
        ) == state.with_filter_query(None).with_filter(None).with_mode(
            ModeModel::Browse,
        ).with_filter(None).rebuilt().rows_rebuilt(),
        kind == PromptKind::Filter && previous_filter is Some && filter::filter_of(
            previous_filter->0,
        ) is Ok ==> state.prompt_left(kind, previous_filter) == state.with_filter_query(
            previous_filter,
        ).with_filter(filter::filter_of(previous_filter->0)->Ok_0).with_mode(
            ModeModel::Browse,
        ).with_filter(filter::filter_of(previous_filter->0)->Ok_0).rebuilt().rows_rebuilt(),
{
}

/// A filter that cannot be read is kept in the line with the reason, and the
/// filter in use stays.
pub proof fn unreadable_filters_are_not_taken(state: AppModel, value: Seq<char>)
    requires
        filter::filter_of(value) is Err,
    ensures
        ({
            let after = state.prompt_answered(PromptKind::Filter, value);
            &&& after.mode == state.mode
            &&& after.filter_expression == state.filter_expression
            &&& after.notice == Some("Invalid filter: "@ + filter::filter_of(value)->Err_0)
        }),
{
}

/// A line begins with what was asked for last; an export with its usual name.
pub proof fn lines_begin_with_the_last_answer(state: AppModel, kind: PromptKind)
    ensures
        state.prompted(kind).mode is Input,
        state.prompted(PromptKind::Search).mode == (ModeModel::Input {
            kind: PromptKind::Search,
            value: if state.search_query is Some {
                state.search_query->0
            } else {
                Seq::empty()
            },
            previous_filter: state.filter_query,
        }),
        state.prompted(PromptKind::Filter).mode == (ModeModel::Input {
            kind: PromptKind::Filter,
            value: if state.filter_query is Some {
                state.filter_query->0
            } else {
                Seq::empty()
            },
            previous_filter: state.filter_query,
        }),
        state.prompted(PromptKind::Export).mode == (ModeModel::Input {
            kind: PromptKind::Export,
            value: "macDirStat-snapshot.json"@,
            previous_filter: state.filter_query,
        }),
{
}

} // verus!
